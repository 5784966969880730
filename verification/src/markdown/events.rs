//! A parse tree as a flat sequence of open and close events (an open event
//! for a node before those of its descendants, a close event after them), the
//! conversion of parser node values to the editor's node types, and the
//! rebuild of the tree from its events.
use vstd::prelude::*;
use crate::markdown::parser::{
    heading_level_spec, HeadingLevel, ListType, MarkdownNode, MarkdownNodeType, TableAlignment,
};

verus! {

/// The kind of a list in the parser's tree.
#[derive(Debug, Clone, Copy, PartialEq, Eq, Structural)]
pub enum RawListKind {
    Bullet,
    Ordered,
}

/// The delimiter after the numbers of an ordered list.
#[derive(Debug, Clone, Copy, PartialEq, Eq, Structural)]
pub enum RawDelimiter {
    Period,
    Paren,
}

/// The value of a node of the parser's tree, as plain data.
#[derive(Debug, Clone)]
pub enum RawValue {
    Document,
    FrontMatter(String),
    BlockQuote,
    List { kind: RawListKind, start: usize, delimiter: RawDelimiter, tight: bool },
    Item,
    DescriptionList,
    DescriptionItem,
    DescriptionTerm,
    DescriptionDetails,
    CodeBlock { info: String, literal: String },
    HtmlBlock(String),
    Paragraph,
    Heading { level: u8, setext: bool },
    ThematicBreak,
    FootnoteDefinition(String),
    Table { alignments: Vec<TableAlignment>, num_columns: usize },
    TableRow(bool),
    TableCell,
    Text(String),
    TaskItem(Option<char>),
    SoftBreak,
    LineBreak,
    Code(String),
    HtmlInline(String),
    Emph,
    Strong,
    Strikethrough,
    Superscript,
    Link { url: String, title: String },
    Image { url: String, title: String },
    FootnoteReference(String),
    /// A node kind the editor does not distinguish.
    Other,
}

/// One step of a walk over the parser's tree.
#[derive(Debug, Clone)]
pub enum RawEvent {
    /// A node starts: its value and its first and last source lines.
    Open { value: RawValue, start_line: usize, end_line: usize },
    /// The most recently opened node that is still open ends.
    Close,
}

// ───────────────────────────── value conversion ──────────────────────────────

/// The editor's list type for a parser list.
pub open spec fn list_type_spec(kind: RawListKind, start: usize, delimiter: RawDelimiter) -> ListType {
    match kind {
        RawListKind::Bullet => ListType::Bullet,
        RawListKind::Ordered => ListType::Ordered {
            start: start as u32,
            delimiter: if delimiter == RawDelimiter::Period { '.' } else { ')' },
        },
    }
}

/// `t` is the editor's node type for the parser value `v`. Code blocks take
/// their info string as language too, a task item is checked when its mark
/// is `x` or `X`, and a kind the editor does not know becomes empty text.
pub open spec fn converts_to(v: RawValue, t: MarkdownNodeType) -> bool {
    match v {
        RawValue::Document => t == MarkdownNodeType::Document,
        RawValue::FrontMatter(s) => t == MarkdownNodeType::FrontMatter(s),
        RawValue::BlockQuote => t == MarkdownNodeType::BlockQuote,
        RawValue::List { kind, start, delimiter, tight } => t == MarkdownNodeType::List {
            list_type: list_type_spec(kind, start, delimiter),
            tight,
        },
        RawValue::Item => t == MarkdownNodeType::Item,
        RawValue::DescriptionList => t == MarkdownNodeType::DescriptionList,
        RawValue::DescriptionItem => t == MarkdownNodeType::DescriptionItem,
        RawValue::DescriptionTerm => t == MarkdownNodeType::DescriptionTerm,
        RawValue::DescriptionDetails => t == MarkdownNodeType::DescriptionDetails,
        RawValue::CodeBlock { info, literal } => t == MarkdownNodeType::CodeBlock {
            language: info,
            info,
            literal,
        },
        RawValue::HtmlBlock(s) => t == MarkdownNodeType::HtmlBlock(s),
        RawValue::Paragraph => t == MarkdownNodeType::Paragraph,
        RawValue::Heading { level, setext } => t == MarkdownNodeType::Heading {
            level: heading_level_spec(level),
            setext,
        },
        RawValue::ThematicBreak => t == MarkdownNodeType::ThematicBreak,
        RawValue::FootnoteDefinition(s) => t == MarkdownNodeType::FootnoteDefinition(s),
        RawValue::Table { alignments, num_columns } => t matches MarkdownNodeType::Table {
            alignments: a,
            num_columns: n,
        } && a@ == alignments@ && n == num_columns,
        RawValue::TableRow(h) => t == MarkdownNodeType::TableRow { header: h },
        RawValue::TableCell => t == MarkdownNodeType::TableCell,
        RawValue::Text(s) => t == MarkdownNodeType::Text(s),
        RawValue::TaskItem(mark) => t == MarkdownNodeType::TaskItem {
            checked: mark == Some('x') || mark == Some('X'),
        },
        RawValue::SoftBreak => t == MarkdownNodeType::SoftBreak,
        RawValue::LineBreak => t == MarkdownNodeType::LineBreak,
        RawValue::Code(s) => t == MarkdownNodeType::Code(s),
        RawValue::HtmlInline(s) => t == MarkdownNodeType::HtmlInline(s),
        RawValue::Emph => t == MarkdownNodeType::Emphasis,
        RawValue::Strong => t == MarkdownNodeType::Strong,
        RawValue::Strikethrough => t == MarkdownNodeType::Strikethrough,
        RawValue::Superscript => t == MarkdownNodeType::Superscript,
        RawValue::Link { url, title } => t == MarkdownNodeType::Link { url, title },
        RawValue::Image { url, title } => t == MarkdownNodeType::Image { url, title },
        RawValue::FootnoteReference(s) => t == MarkdownNodeType::FootnoteReference(s),
        RawValue::Other => t matches MarkdownNodeType::Text(s) && s@.len() == 0,
    }
}

/// The editor's node type for a parser value.
pub fn convert_node_value(v: &RawValue) -> (t: MarkdownNodeType)
    ensures
        converts_to(*v, t),
{
    match v {
        RawValue::Document => MarkdownNodeType::Document,
        RawValue::FrontMatter(s) => MarkdownNodeType::FrontMatter(s.clone()),
        RawValue::BlockQuote => MarkdownNodeType::BlockQuote,
        RawValue::List { kind, start, delimiter, tight } => {
            let list_type = match kind {
                RawListKind::Bullet => ListType::Bullet,
                RawListKind::Ordered => ListType::Ordered {
                    start: *start as u32,
                    delimiter: match delimiter {
                        RawDelimiter::Period => '.',
                        RawDelimiter::Paren => ')',
                    },
                },
            };
            MarkdownNodeType::List { list_type, tight: *tight }
        },
        RawValue::Item => MarkdownNodeType::Item,
        RawValue::DescriptionList => MarkdownNodeType::DescriptionList,
        RawValue::DescriptionItem => MarkdownNodeType::DescriptionItem,
        RawValue::DescriptionTerm => MarkdownNodeType::DescriptionTerm,
        RawValue::DescriptionDetails => MarkdownNodeType::DescriptionDetails,
        RawValue::CodeBlock { info, literal } => MarkdownNodeType::CodeBlock {
            language: info.clone(),
            info: info.clone(),
            literal: literal.clone(),
        },
        RawValue::HtmlBlock(s) => MarkdownNodeType::HtmlBlock(s.clone()),
        RawValue::Paragraph => MarkdownNodeType::Paragraph,
        RawValue::Heading { level, setext } => MarkdownNodeType::Heading {
            level: HeadingLevel::from_level(*level),
            setext: *setext,
        },
        RawValue::ThematicBreak => MarkdownNodeType::ThematicBreak,
        RawValue::FootnoteDefinition(s) => MarkdownNodeType::FootnoteDefinition(s.clone()),
        RawValue::Table { alignments, num_columns } => {
            let mut a: Vec<TableAlignment> = Vec::new();
            let mut i: usize = 0;
            while i < alignments.len()
                invariant
                    i <= alignments@.len(),
                    a@ == alignments@.take(i as int),
                decreases alignments@.len() - i,
            {
                a.push(alignments[i]);
                i = i + 1;
                assert(a@ =~= alignments@.take(i as int));
            }
            assert(alignments@.take(alignments@.len() as int) =~= alignments@);
            MarkdownNodeType::Table { alignments: a, num_columns: *num_columns }
        },
        RawValue::TableRow(h) => MarkdownNodeType::TableRow { header: *h },
        RawValue::TableCell => MarkdownNodeType::TableCell,
        RawValue::Text(s) => MarkdownNodeType::Text(s.clone()),
        RawValue::TaskItem(mark) => {
            let checked = match mark {
                Some(c) => *c == 'x' || *c == 'X',
                None => false,
            };
            MarkdownNodeType::TaskItem { checked }
        },
        RawValue::SoftBreak => MarkdownNodeType::SoftBreak,
        RawValue::LineBreak => MarkdownNodeType::LineBreak,
        RawValue::Code(s) => MarkdownNodeType::Code(s.clone()),
        RawValue::HtmlInline(s) => MarkdownNodeType::HtmlInline(s.clone()),
        RawValue::Emph => MarkdownNodeType::Emphasis,
        RawValue::Strong => MarkdownNodeType::Strong,
        RawValue::Strikethrough => MarkdownNodeType::Strikethrough,
        RawValue::Superscript => MarkdownNodeType::Superscript,
        RawValue::Link { url, title } => MarkdownNodeType::Link {
            url: url.clone(),
            title: title.clone(),
        },
        RawValue::Image { url, title } => MarkdownNodeType::Image {
            url: url.clone(),
            title: title.clone(),
        },
        RawValue::FootnoteReference(s) => MarkdownNodeType::FootnoteReference(s.clone()),
        RawValue::Other => MarkdownNodeType::Text(String::new()),
    }
}

// ─────────────────────────────── tree events ─────────────────────────────────

/// Every line number of the walk is at most `n`, and so is the length of
/// every front matter it carries.
pub open spec fn events_bounded(ev: Seq<RawEvent>, n: int) -> bool {
    forall|i: int|
        0 <= i < ev.len() ==> match #[trigger] ev[i] {
            RawEvent::Open { value, start_line, end_line } => start_line <= n && end_line <= n && (
            value matches RawValue::FrontMatter(s) ==> s@.len() <= n),
            RawEvent::Close => true,
        }
}

/// What an event adds to the nesting depth.
pub open spec fn step(e: RawEvent) -> int {
    if e is Open {
        1
    } else {
        -1
    }
}

/// The nesting depth reached by the events `ev[i..k]`.
pub open spec fn depth(ev: Seq<RawEvent>, i: int, k: int) -> int
    decreases k - i,
{
    if k <= i {
        0
    } else {
        depth(ev, i, k - 1) + step(ev[k - 1])
    }
}

/// `ev[i..j]` is the walk of one node: it opens at `i`, stays open until the
/// end, and closes exactly at the end.
pub open spec fn is_tree(ev: Seq<RawEvent>, i: int, j: int) -> bool {
    &&& 0 <= i < j <= ev.len()
    &&& ev[i] is Open
    &&& depth(ev, i, j) == 0
    &&& forall|k: int| i < k < j ==> depth(ev, i, k) > 0
}

/// The whole sequence is the walk of one tree.
pub open spec fn events_form_tree(ev: Seq<RawEvent>) -> bool {
    is_tree(ev, 0, ev.len() as int)
}

/// `n` is the tree whose walk is `ev[i..j]`: its value and lines are those of
/// the opening event, and its children are the trees walked in between.
pub open spec fn encodes(ev: Seq<RawEvent>, i: int, j: int, n: MarkdownNode) -> bool
    decreases n, 1nat,
{
    &&& ev[i] matches RawEvent::Open { value, start_line, end_line } && converts_to(value, n.node_type)
        && n.start_line == start_line && n.end_line == end_line
    &&& encodes_forest(ev, i + 1, j - 1, n.children@)
}

/// `kids` are the trees walked one after another in `ev[i..j]`.
pub open spec fn encodes_forest(ev: Seq<RawEvent>, i: int, j: int, kids: Seq<MarkdownNode>) -> bool
    decreases kids, 0nat,
{
    if kids.len() == 0 {
        i == j
    } else {
        proof {
            assert(decreases_to!(kids => kids[0]));
        }
        exists|k: int|
            #![trigger is_tree(ev, i, k)]
            i < k <= j && is_tree(ev, i, k) && encodes(ev, i, k, kids[0]) && encodes_forest(
                ev,
                k,
                j,
                kids.drop_first(),
            )
    }
}

/// Depth is additive over adjacent stretches.
pub proof fn lemma_depth_split(ev: Seq<RawEvent>, i: int, m: int, k: int)
    requires
        i <= m <= k,
    ensures
        depth(ev, i, k) == depth(ev, i, m) + depth(ev, m, k),
    decreases k - m,
{
    if k > m {
        lemma_depth_split(ev, i, m, k - 1);
    }
}

/// Scanning on from a stretch where the depth stayed positive, the depth
/// first returns to zero somewhere before it reaches a non-positive value.
proof fn lemma_first_zero(ev: Seq<RawEvent>, p: int, m: int, b: int) -> (k: int)
    requires
        p < m < b <= ev.len(),
        forall|t: int| p < t <= m ==> depth(ev, p, t) > 0,
        depth(ev, p, b) <= 0,
    ensures
        m < k <= b,
        depth(ev, p, k) == 0,
        forall|t: int| p < t < k ==> depth(ev, p, t) > 0,
    decreases b - m,
{
    assert(depth(ev, p, m + 1) == depth(ev, p, m) + step(ev[m]));
    if depth(ev, p, m + 1) == 0 {
        m + 1
    } else {
        lemma_first_zero(ev, p, m + 1, b)
    }
}

/// Inside a tree, at depth one, an opening event starts a child tree that
/// ends before the parent closes, back at depth one.
proof fn lemma_child_tree(ev: Seq<RawEvent>, i: int, j: int, pos: int) -> (k: int)
    requires
        is_tree(ev, i, j),
        i < pos < j,
        depth(ev, i, pos) == 1,
        ev[pos] is Open,
    ensures
        pos < k < j,
        is_tree(ev, pos, k),
        depth(ev, i, k) == 1,
{
    lemma_depth_split(ev, i, pos, j);
    assert(depth(ev, pos, pos + 1) == 1) by {
        assert(depth(ev, pos, pos) == 0);
    }
    let k = if pos + 1 < j {
        lemma_first_zero(ev, pos, pos + 1, j)
    } else {
        pos + 1
    };
    assert(pos + 1 < j);
    lemma_depth_split(ev, i, pos, k);
    k
}

/// A forest followed by one more tree is a forest.
proof fn lemma_forest_push(ev: Seq<RawEvent>, a: int, p: int, k: int, kids: Seq<MarkdownNode>, c: MarkdownNode)
    requires
        encodes_forest(ev, a, p, kids),
        is_tree(ev, p, k),
        encodes(ev, p, k, c),
    ensures
        encodes_forest(ev, a, k, kids.push(c)),
    decreases kids.len(),
{
    let kc = kids.push(c);
    if kids.len() == 0 {
        assert(kc.drop_first() =~= Seq::<MarkdownNode>::empty());
        assert(encodes_forest(ev, k, k, kc.drop_first()));
        assert(kc[0] == c);
        assert(is_tree(ev, a, k));
    } else {
        let k0 = choose|k0: int|
            #![trigger is_tree(ev, a, k0)]
            a < k0 <= p && is_tree(ev, a, k0) && encodes(ev, a, k0, kids[0]) && encodes_forest(
                ev,
                k0,
                p,
                kids.drop_first(),
            );
        lemma_forest_push(ev, k0, p, k, kids.drop_first(), c);
        assert(kc.drop_first() =~= kids.drop_first().push(c));
        assert(kc[0] == kids[0]);
        assert(is_tree(ev, a, k0));
    }
}

/// Whether an event opens a node.
fn is_open(e: &RawEvent) -> (b: bool)
    ensures
        b == (*e is Open),
{
    match e {
        RawEvent::Open { .. } => true,
        RawEvent::Close => false,
    }
}

/// Rebuild the node whose walk is `ev[i..j]`; also return `j`.
fn build_node(ev: &Vec<RawEvent>, i: usize, Ghost(j): Ghost<int>) -> (r: (MarkdownNode, usize))
    requires
        is_tree(ev@, i as int, j),
    ensures
        r.1 == j,
        encodes(ev@, i as int, j, r.0),
    decreases j - i,
{
    let (node_type, start_line, end_line) = match &ev[i] {
        RawEvent::Open { value, start_line, end_line } => (
            convert_node_value(value),
            *start_line,
            *end_line,
        ),
        RawEvent::Close => (MarkdownNodeType::Document, 0, 0),
    };
    let mut node = MarkdownNode::new(node_type, start_line, 0, end_line, 0);
    let total = ev.len();
    let mut pos: usize = i + 1;
    proof {
        assert(depth(ev@, i as int, i as int) == 0);
        assert(depth(ev@, i as int, i + 1) == 1);
        if i + 1 == j {
            assert(depth(ev@, i as int, j) == 1);
        }
        assert(encodes_forest(ev@, i + 1, pos as int, node.children@));
    }
    while is_open(&ev[pos])
        invariant
            is_tree(ev@, i as int, j),
            total == ev@.len(),
            i < pos < j,
            depth(ev@, i as int, pos as int) == 1,
            encodes_forest(ev@, i + 1, pos as int, node.children@),
            ev@[i as int] matches RawEvent::Open { value, start_line, end_line } && converts_to(
                value,
                node.node_type,
            ) && node.start_line == start_line && node.end_line == end_line,
        decreases j - pos,
    {
        let ghost k = lemma_child_tree(ev@, i as int, j, pos as int);
        let (c, next) = build_node(ev, pos, Ghost(k));
        proof {
            lemma_forest_push(ev@, i + 1, pos as int, k, node.children@, c);
        }
        node.children.push(c);
        pos = next;
    }
    proof {
        lemma_depth_split(ev@, i as int, pos as int, pos + 1);
        assert(depth(ev@, pos as int, pos + 1) == -1) by {
            assert(depth(ev@, pos as int, pos as int) == 0);
        }
    }
    (node, pos + 1)
}

/// Rebuild a tree from its walk.
pub fn tree_from_events(ev: &Vec<RawEvent>) -> (r: MarkdownNode)
    requires
        events_form_tree(ev@),
    ensures
        encodes(ev@, 0, ev@.len() as int, r),
{
    let (n, _end) = build_node(ev, 0, Ghost(ev@.len() as int));
    n
}

/// The content of the last front matter node of a walk, if there is one.
pub open spec fn front_matter_of(ev: Seq<RawEvent>) -> Option<String>
    decreases ev.len(),
{
    if ev.len() == 0 {
        None
    } else {
        match ev.last() {
            RawEvent::Open { value: RawValue::FrontMatter(s), .. } => Some(s),
            _ => front_matter_of(ev.drop_last()),
        }
    }
}

/// The content of the last front matter node of a walk, if there is one.
pub fn front_matter_from_events(ev: &Vec<RawEvent>) -> (r: Option<String>)
    ensures
        r == front_matter_of(ev@),
{
    let mut r: Option<String> = None;
    let mut i: usize = 0;
    while i < ev.len()
        invariant
            i <= ev@.len(),
            r == front_matter_of(ev@.take(i as int)),
        decreases ev@.len() - i,
    {
        assert(ev@.take(i + 1 as int).drop_last() =~= ev@.take(i as int));
        match &ev[i] {
            RawEvent::Open { value: RawValue::FrontMatter(s), .. } => {
                r = Some(s.clone());
            },
            _ => {},
        }
        i = i + 1;
    }
    assert(ev@.take(ev@.len() as int) =~= ev@);
    r
}

} // verus!
