//! Markdown parsing: comrak builds the syntax tree, this module turns it into
//! the editor's own tree and post-processes it (merging consecutive block
//! quotes, correcting line numbers after front matter).
use vstd::prelude::*;
use crate::markdown::comrak_tree::{comrak_events, comrak_parse};
use crate::markdown::events::{
    converts_to, depth, encodes, encodes_forest, events_bounded, events_form_tree, front_matter_from_events, front_matter_of,
    is_tree, tree_from_events, RawEvent, RawValue,
};
use crate::text::{
    chars_of, ends_with, ends_with_spec, lines, lines_spec, starts_with, starts_with_spec, trim_end,
    trim_end_spec, views_of,
};

verus! {

// ─────────────────────────────── public types ────────────────────────────────

/// Configuration options for markdown parsing.
#[derive(Debug, Clone)]
pub struct MarkdownOptions {
    /// Enable GitHub Flavored Markdown tables
    pub tables: bool,
    /// Enable strikethrough syntax (~~text~~)
    pub strikethrough: bool,
    /// Enable autolink URLs and emails
    pub autolink: bool,
    /// Enable task lists (- [ ] and - [x])
    pub tasklist: bool,
    /// Enable superscript (^text^)
    pub superscript: bool,
    /// Enable footnotes
    pub footnotes: bool,
    /// Enable description lists
    pub description_lists: bool,
    /// Enable front matter (YAML/TOML)
    pub front_matter_delimiter: Option<String>,
    /// Make URLs safe by removing potentially dangerous protocols
    pub safe_urls: bool,
    /// Generate GitHub-style heading IDs
    pub header_ids: Option<String>,
}

/// The options as plain values.
pub struct MarkdownOptionsView {
    pub tables: bool,
    pub strikethrough: bool,
    pub autolink: bool,
    pub tasklist: bool,
    pub superscript: bool,
    pub footnotes: bool,
    pub description_lists: bool,
    pub front_matter_delimiter: Option<Seq<char>>,
    pub safe_urls: bool,
    pub header_ids: Option<Seq<char>>,
}

/// The characters of an optional string.
pub open spec fn opt_view(s: Option<String>) -> Option<Seq<char>> {
    match s {
        Some(t) => Some(t@),
        None => None,
    }
}

impl View for MarkdownOptions {
    type V = MarkdownOptionsView;

    open spec fn view(&self) -> MarkdownOptionsView {
        MarkdownOptionsView {
            tables: self.tables,
            strikethrough: self.strikethrough,
            autolink: self.autolink,
            tasklist: self.tasklist,
            superscript: self.superscript,
            footnotes: self.footnotes,
            description_lists: self.description_lists,
            front_matter_delimiter: opt_view(self.front_matter_delimiter),
            safe_urls: self.safe_urls,
            header_ids: opt_view(self.header_ids),
        }
    }
}

/// Three dashes, the front matter delimiter.
pub open spec fn dashes() -> Seq<char> {
    seq!['-', '-', '-']
}

/// The default options: every extension on but superscript and description
/// lists, `---` front matter, safe URLs, heading ids without a prefix.
pub open spec fn default_options_view() -> MarkdownOptionsView {
    MarkdownOptionsView {
        tables: true,
        strikethrough: true,
        autolink: true,
        tasklist: true,
        superscript: false,
        footnotes: true,
        description_lists: false,
        front_matter_delimiter: Some(dashes()),
        safe_urls: true,
        header_ids: Some(Seq::<char>::empty()),
    }
}

impl Default for MarkdownOptions {
    fn default() -> (r: Self)
        ensures
            r@ == default_options_view(),
    {
        let r = MarkdownOptions {
            tables: true,
            strikethrough: true,
            autolink: true,
            tasklist: true,
            superscript: false,
            footnotes: true,
            description_lists: false,
            front_matter_delimiter: Some(String::from_str("---")),
            safe_urls: true,
            header_ids: Some(String::new()),
        };
        proof {
            reveal_strlit("---");
            assert(r.front_matter_delimiter->0@ =~= dashes());
        }
        r
    }
}

/// Heading level (H1-H6).
#[derive(Debug, Clone, Copy, PartialEq, Eq, Structural)]
pub enum HeadingLevel {
    H1,
    H2,
    H3,
    H4,
    H5,
    H6,
}

/// The heading level for a number: 1 to 5 give H1 to H5, anything else H6.
pub open spec fn heading_level_spec(level: u8) -> HeadingLevel {
    if level == 1 {
        HeadingLevel::H1
    } else if level == 2 {
        HeadingLevel::H2
    } else if level == 3 {
        HeadingLevel::H3
    } else if level == 4 {
        HeadingLevel::H4
    } else if level == 5 {
        HeadingLevel::H5
    } else {
        HeadingLevel::H6
    }
}

/// The number of a heading level (1 to 6).
pub open spec fn heading_number_spec(level: HeadingLevel) -> u8 {
    match level {
        HeadingLevel::H1 => 1,
        HeadingLevel::H2 => 2,
        HeadingLevel::H3 => 3,
        HeadingLevel::H4 => 4,
        HeadingLevel::H5 => 5,
        HeadingLevel::H6 => 6,
    }
}

impl HeadingLevel {
    /// The heading level for a number: 1 to 5 give H1 to H5, anything else H6.
    pub fn from_level(level: u8) -> (r: HeadingLevel)
        ensures
            r == heading_level_spec(level),
    {
        match level {
            1 => HeadingLevel::H1,
            2 => HeadingLevel::H2,
            3 => HeadingLevel::H3,
            4 => HeadingLevel::H4,
            5 => HeadingLevel::H5,
            _ => HeadingLevel::H6,
        }
    }

    /// The number of this level (1 to 6).
    pub fn number(&self) -> (r: u8)
        ensures
            r == heading_number_spec(*self),
    {
        match self {
            HeadingLevel::H1 => 1,
            HeadingLevel::H2 => 2,
            HeadingLevel::H3 => 3,
            HeadingLevel::H4 => 4,
            HeadingLevel::H5 => 5,
            HeadingLevel::H6 => 6,
        }
    }
}

impl From<u8> for HeadingLevel {
    fn from(level: u8) -> (r: Self) {
        HeadingLevel::from_level(level)
    }
}

impl vstd::std_specs::convert::FromSpecImpl<u8> for HeadingLevel {
    open spec fn obeys_from_spec() -> bool {
        true
    }

    open spec fn from_spec(level: u8) -> Self {
        heading_level_spec(level)
    }
}

/// List type (ordered or unordered).
#[derive(Debug, Clone, Copy, PartialEq, Eq, Structural)]
pub enum ListType {
    Bullet,
    Ordered { start: u32, delimiter: char },
}

/// Table cell alignment.
#[derive(Debug, Clone, Copy, PartialEq, Eq, Structural)]
pub enum TableAlignment {
    Unaligned,
    Left,
    Center,
    Right,
}

impl Default for TableAlignment {
    fn default() -> (r: Self)
        ensures
            r == TableAlignment::Unaligned,
    {
        TableAlignment::Unaligned
    }
}

/// The type of a markdown node.
#[derive(Debug, Clone, PartialEq)]
pub enum MarkdownNodeType {
    Document,
    BlockQuote,
    List { list_type: ListType, tight: bool },
    Item,
    CodeBlock { language: String, info: String, literal: String },
    HtmlBlock(String),
    Paragraph,
    Heading { level: HeadingLevel, setext: bool },
    ThematicBreak,
    Table { alignments: Vec<TableAlignment>, num_columns: usize },
    TableRow { header: bool },
    TableCell,
    Text(String),
    TaskItem { checked: bool },
    SoftBreak,
    LineBreak,
    Code(String),
    HtmlInline(String),
    Emphasis,
    Strong,
    Strikethrough,
    Superscript,
    Link { url: String, title: String },
    Image { url: String, title: String },
    FootnoteReference(String),
    FootnoteDefinition(String),
    DescriptionList,
    DescriptionItem,
    DescriptionTerm,
    DescriptionDetails,
    FrontMatter(String),
}

/// A node in the markdown tree with its source lines.
#[derive(Debug)]
pub struct MarkdownNode {
    /// The type of this node
    pub node_type: MarkdownNodeType,
    /// Child nodes
    pub children: Vec<MarkdownNode>,
    /// Start line in source (1-indexed)
    pub start_line: usize,
    /// End line in source (1-indexed)
    pub end_line: usize,
}

/// A parsed markdown document.
#[derive(Debug)]
pub struct MarkdownDocument {
    /// Root node of the tree
    pub root: MarkdownNode,
    /// Original source text
    pub source: String,
    /// Front matter content if present
    pub front_matter: Option<String>,
}

// ─────────────────────────────── text content ────────────────────────────────

/// The text a node contributes by itself: text and code literals, a space
/// for a soft break, a newline for a hard break.
pub open spec fn own_text(t: MarkdownNodeType) -> Seq<char> {
    match t {
        MarkdownNodeType::Text(s) => s@,
        MarkdownNodeType::Code(s) => s@,
        MarkdownNodeType::SoftBreak => seq![' '],
        MarkdownNodeType::LineBreak => seq!['\n'],
        _ => seq![],
    }
}

/// All text content of a node and its descendants, in document order.
pub open spec fn text_of(n: MarkdownNode) -> Seq<char>
    decreases n, 1nat,
{
    own_text(n.node_type) + texts_of(n.children@)
}

/// The text content of a sequence of sibling nodes.
pub open spec fn texts_of(kids: Seq<MarkdownNode>) -> Seq<char>
    decreases kids, 0nat,
{
    if kids.len() == 0 {
        seq![]
    } else {
        proof {
            assert(decreases_to!(kids => kids[0]));
        }
        text_of(kids[0]) + texts_of(kids.drop_first())
    }
}

impl MarkdownNode {
    /// A node without children.
    pub fn new(
        node_type: MarkdownNodeType,
        start_line: usize,
        start_column: usize,
        end_line: usize,
        end_column: usize,
    ) -> (r: Self)
        ensures
            r.node_type == node_type,
            r.children@.len() == 0,
            r.start_line == start_line,
            r.end_line == end_line,
    {
        MarkdownNode { node_type, children: Vec::new(), start_line, end_line }
    }

    /// All text content of this node and its descendants.
    pub fn text_content(&self) -> (r: String)
        ensures
            r@ == text_of(*self),
    {
        let mut text = String::new();
        self.collect_text(&mut text);
        text
    }

    /// Append the text content of this node and its descendants to `output`.
    pub fn collect_text(&self, output: &mut String)
        ensures
            final(output)@ == old(output)@ + text_of(*self),
        decreases *self,
    {
        match &self.node_type {
            MarkdownNodeType::Text(t) => output.append(t.as_str()),
            MarkdownNodeType::Code(t) => output.append(t.as_str()),
            MarkdownNodeType::SoftBreak => crate::text::push_char(output, ' '),
            MarkdownNodeType::LineBreak => crate::text::push_char(output, '\n'),
            _ => {},
        }
        let ghost after_own = output@;
        assert(after_own =~= old(output)@ + own_text(self.node_type));
        let mut i: usize = 0;
        while i < self.children.len()
            invariant
                i <= self.children@.len(),
                output@ == after_own + texts_of(self.children@.take(i as int)),
            decreases self.children@.len() - i,
        {
            assert(decreases_to!(*self => self.children@[i as int]));
            self.children[i].collect_text(output);
            proof {
                lemma_texts_push(self.children@.take(i as int), self.children@[i as int]);
                assert(self.children@.take(i + 1 as int) =~= self.children@.take(i as int).push(
                    self.children@[i as int],
                ));
            }
            i = i + 1;
        }
        assert(self.children@.take(self.children@.len() as int) =~= self.children@);
    }
}

/// The text of siblings followed by one more node.
pub proof fn lemma_texts_push(kids: Seq<MarkdownNode>, n: MarkdownNode)
    ensures
        texts_of(kids.push(n)) == texts_of(kids) + text_of(n),
    decreases kids.len(),
{
    if kids.len() == 0 {
        assert(kids.push(n).drop_first() =~= seq![]);
        assert(texts_of(seq![]) == Seq::<char>::empty());
    } else {
        assert(kids.push(n).drop_first() =~= kids.drop_first().push(n));
        lemma_texts_push(kids.drop_first(), n);
    }
}


// ─────────────────────────── block quote merging ─────────────────────────────

/// Whether a node is a block quote.
pub open spec fn is_bq(n: MarkdownNode) -> bool {
    n.node_type is BlockQuote
}

/// `out` is the sibling list `a` followed by `b`, where a block quote that
/// ends `a` and one that starts `b` become a single block quote: the first
/// one, extended to the end line of the second, holding the children of
/// both, joined in the same way.
pub open spec fn joined(a: Seq<MarkdownNode>, b: Seq<MarkdownNode>, out: Seq<MarkdownNode>) -> bool
    decreases b,
{
    if a.len() > 0 && b.len() > 0 && is_bq(a.last()) && is_bq(b[0]) {
        let m = out[a.len() - 1];
        &&& out.len() == a.len() + b.len() - 1
        &&& out.take(a.len() - 1) == a.drop_last()
        &&& out.skip(a.len() as int) == b.drop_first()
        &&& m.node_type == a.last().node_type
        &&& m.start_line == a.last().start_line
        &&& m.end_line == b[0].end_line
        &&& decreases_to!(b => b[0].children@)
        &&& joined(a.last().children@, b[0].children@, m.children@)
    } else {
        out == a + b
    }
}

/// `steps` are the lists that joining the nodes of `mid` one by one from the
/// left goes through: it starts empty and each step joins the next node.
pub open spec fn join_steps(mid: Seq<MarkdownNode>, steps: Seq<Seq<MarkdownNode>>) -> bool {
    &&& steps.len() == mid.len() + 1
    &&& steps[0].len() == 0
    &&& forall|i: int| 0 <= i < mid.len() ==> joined(#[trigger] steps[i], seq![mid[i]], steps[i + 1])
}

/// `out` is the list `mid` joined node by node from the left, so that each
/// run of consecutive block quotes becomes one.
pub open spec fn level_joined(mid: Seq<MarkdownNode>, out: Seq<MarkdownNode>) -> bool {
    exists|steps: Seq<Seq<MarkdownNode>>| #[trigger] join_steps(mid, steps) && steps.last() == out
}

/// Joining one more node extends a left join.
proof fn lemma_level_joined_push(mid: Seq<MarkdownNode>, prev: Seq<MarkdownNode>, x: MarkdownNode, out: Seq<MarkdownNode>)
    requires
        level_joined(mid, prev),
        joined(prev, seq![x], out),
    ensures
        level_joined(mid.push(x), out),
{
    let steps = choose|steps: Seq<Seq<MarkdownNode>>| #[trigger] join_steps(mid, steps) && steps.last() == prev;
    let s2 = steps.push(out);
    let m2 = mid.push(x);
    assert forall|i: int| 0 <= i < m2.len() implies joined(#[trigger] s2[i], seq![m2[i]], s2[i + 1]) by {
        if i < mid.len() {
            assert(s2[i] == steps[i] && s2[i + 1] == steps[i + 1] && m2[i] == mid[i]);
        } else {
            assert(s2[i] == prev && s2[i + 1] == out && m2[i] == x);
        }
    }
    assert(join_steps(m2, s2));
}

/// An empty list joins to an empty list.
proof fn lemma_level_joined_empty()
    ensures
        level_joined(Seq::<MarkdownNode>::empty(), Seq::<MarkdownNode>::empty()),
{
    let steps = seq![Seq::<MarkdownNode>::empty()];
    assert(join_steps(Seq::<MarkdownNode>::empty(), steps));
}

/// `n2` is `n1` with block quotes merged throughout: every child is
/// processed first, then the children are joined from the left, so that
/// each run of consecutive block quote siblings becomes one block quote
/// whose own children are merged the same way.
pub open spec fn merged(n1: MarkdownNode, n2: MarkdownNode) -> bool
    decreases n1,
{
    &&& n2.node_type == n1.node_type
    &&& n2.start_line == n1.start_line
    &&& n2.end_line == n1.end_line
    &&& exists|mid: Seq<MarkdownNode>|
        #![trigger level_joined(mid, n2.children@)]
        {
            &&& mid.len() == n1.children@.len()
            &&& forall|k: int|
                0 <= k < mid.len() ==> {
                    &&& decreases_to!(n1 => n1.children@[k])
                    &&& merged(n1.children@[k], #[trigger] mid[k])
                }
            &&& level_joined(mid, n2.children@)
        }
}

/// Whether a node is a block quote.
fn is_blockquote(n: &MarkdownNode) -> (b: bool)
    ensures
        b == is_bq(*n),
{
    match n.node_type {
        MarkdownNodeType::BlockQuote => true,
        _ => false,
    }
}

/// Join the siblings `b` onto `a`: a block quote ending `a` and one starting
/// `b` become one, their children joined the same way.
fn join_into(a: &mut Vec<MarkdownNode>, b: Vec<MarkdownNode>)
    ensures
        joined(old(a)@, b@, final(a)@),
    decreases b,
{
    let n = a.len();
    if n > 0 && b.len() > 0 && is_blockquote(&a[n - 1]) && is_blockquote(&b[0]) {
        let ghost a0 = a@;
        let ghost b0 = b@;
        let mut rest = b;
        let f = rest.remove(0);
        let mut m = a.pop().unwrap();
        assert(decreases_to!(b => f.children));
        let mut kids: Vec<MarkdownNode> = Vec::new();
        std::mem::swap(&mut kids, &mut m.children);
        let ghost mk = kids@;
        join_into(&mut kids, f.children);
        m.children = kids;
        m.end_line = f.end_line;
        a.push(m);
        let ghost mid = a@;
        a.append(&mut rest);
        proof {
            assert(a@ =~= mid + b0.drop_first());
            assert(a@.take(a0.len() - 1) =~= a0.drop_last());
            assert(a@.skip(a0.len() as int) =~= b0.drop_first());
            assert(a@[a0.len() - 1] == m);
            assert(decreases_to!(b0 => b0[0].children@));
        }
    } else {
        let ghost a0 = a@;
        let mut rest = b;
        a.append(&mut rest);
        assert(a@ =~= a0 + b@);
    }
}

/// Join one more node onto a left join of `mid`.
fn push_joined(out: &mut Vec<MarkdownNode>, c: MarkdownNode, mid: Ghost<Seq<MarkdownNode>>)
    requires
        level_joined(mid@, old(out)@),
    ensures
        level_joined(mid@.push(c), final(out)@),
{
    let ghost old_out = out@;
    let one = vec![c];
    assert(one@ =~= seq![c]);
    join_into(out, one);
    proof {
        lemma_level_joined_push(mid@, old_out, c, out@);
    }
}

/// Merge consecutive block quote siblings throughout the tree: children are
/// processed first (depth-first), then they are joined from the left, so
/// that each run of consecutive block quote siblings becomes the first quote
/// of the run, extended to the end line of the last one and holding the
/// children of all of them, merged again where the merge brought block
/// quotes together.
pub fn merge_consecutive_blockquotes(node: &mut MarkdownNode)
    ensures
        merged(*old(node), *final(node)),
    decreases *old(node),
{
    let ghost orig = *node;
    let mut kids: Vec<MarkdownNode> = Vec::new();
    std::mem::swap(&mut kids, &mut node.children);
    let ghost olds = kids@;
    let mut out: Vec<MarkdownNode> = Vec::new();
    let ghost mut mid: Seq<MarkdownNode> = seq![];
    proof {
        lemma_level_joined_empty();
        assert(mid =~= Seq::<MarkdownNode>::empty());
        assert(out@ =~= Seq::<MarkdownNode>::empty());
    }
    while kids.len() > 0
        invariant
            orig == *old(node),
            olds == orig.children@,
            mid.len() + kids@.len() == olds.len(),
            kids@ =~= olds.subrange(mid.len() as int, olds.len() as int),
            forall|k: int|
                0 <= k < mid.len() ==> {
                    &&& decreases_to!(orig => orig.children@[k])
                    &&& merged(orig.children@[k], #[trigger] mid[k])
                },
            level_joined(mid, out@),
            node.node_type == orig.node_type,
            node.start_line == orig.start_line,
            node.end_line == orig.end_line,
        decreases kids@.len(),
    {
        let mut c = kids.remove(0);
        let ghost idx = mid.len() as int;
        assert(c == orig.children@[idx]);
        assert(decreases_to!(orig => orig.children@[idx]));
        merge_consecutive_blockquotes(&mut c);
        let ghost cv = c;
        push_joined(&mut out, c, Ghost(mid));
        proof {
            mid = mid.push(cv);
        }
    }
    node.children = out;
    proof {
        assert(mid.len() == orig.children@.len());
        assert(level_joined(mid, node.children@));
    }
}

// ───────────────────────────── line adjustment ───────────────────────────────

/// The line offset that front matter at the start of the document causes:
/// the lines of its content, plus one for each `---` delimiter line that the
/// content does not itself include. Zero without front matter.
pub open spec fn frontmatter_offset_spec(root: MarkdownNode) -> int {
    if root.children@.len() > 0 {
        match root.children@[0].node_type {
            MarkdownNodeType::FrontMatter(content) => {
                let c = content@;
                lines_spec(c).len() + (if starts_with_spec(c, dashes()) {
                    0int
                } else {
                    1int
                }) + (if ends_with_spec(trim_end_spec(c), dashes()) {
                    0int
                } else {
                    1int
                })
            },
            _ => 0,
        }
    } else {
        0
    }
}

/// The line offset that front matter at the start of the document causes,
/// or `None` where it does not fit in a `usize`.
pub fn calculate_frontmatter_offset(root: &MarkdownNode) -> (r: Option<usize>)
    ensures
        r == (if frontmatter_offset_spec(*root) <= usize::MAX {
            Some(frontmatter_offset_spec(*root) as usize)
        } else {
            None
        }),
{
    if root.children.len() == 0 {
        return Some(0);
    }
    match &root.children[0].node_type {
        MarkdownNodeType::FrontMatter(content) => {
            let c = chars_of(content.as_str());
            let ls = lines(c.as_slice());
            let content_lines = ls.len();
            proof {
                assert(views_of(ls@).len() == ls@.len());
            }
            let d: Vec<char> = vec!['-', '-', '-'];
            assert(d@ =~= dashes());
            let has_start = starts_with(c.as_slice(), d.as_slice());
            let t = trim_end(c.as_slice());
            let has_end = ends_with(t.as_slice(), d.as_slice());
            let delimiter_lines: usize = if has_start && has_end {
                0
            } else if has_start || has_end {
                1
            } else {
                2
            };
            content_lines.checked_add(delimiter_lines)
        },
        _ => Some(0),
    }
}

/// A line number moved down by `offset`; line 0 stays.
pub open spec fn shifted(line: usize, offset: usize) -> int {
    if line > 0 {
        line + offset
    } else {
        line as int
    }
}

/// Every line number of the tree, moved down by `offset`, still fits.
pub open spec fn fits_offset(n: MarkdownNode, offset: usize) -> bool
    decreases n,
{
    &&& (n.node_type is FrontMatter || (shifted(n.start_line, offset) <= usize::MAX && shifted(
        n.end_line,
        offset,
    ) <= usize::MAX))
    &&& forall|k: int|
        0 <= k < n.children@.len() ==> {
            &&& decreases_to!(n => n.children@[k])
            &&& fits_offset(#[trigger] n.children@[k], offset)
        }
}

/// `n2` is `n1` with every line number moved down by `offset`, except those
/// of front matter nodes and lines numbered 0.
pub open spec fn adjusted(n1: MarkdownNode, n2: MarkdownNode, offset: usize) -> bool
    decreases n1,
{
    &&& n2.node_type == n1.node_type
    &&& if n1.node_type is FrontMatter {
        n2.start_line == n1.start_line && n2.end_line == n1.end_line
    } else {
        n2.start_line == shifted(n1.start_line, offset) && n2.end_line == shifted(n1.end_line, offset)
    }
    &&& n2.children@.len() == n1.children@.len()
    &&& forall|k: int|
        0 <= k < n1.children@.len() ==> {
            &&& decreases_to!(n1 => n1.children@[k])
            &&& adjusted(n1.children@[k], #[trigger] n2.children@[k], offset)
        }
}

/// Whether every line number of the tree still fits after moving it down by
/// `offset`.
pub fn offset_fits(n: &MarkdownNode, offset: usize) -> (b: bool)
    ensures
        b == fits_offset(*n, offset),
    decreases *n,
{
    let own = match n.node_type {
        MarkdownNodeType::FrontMatter(_) => true,
        _ => (n.start_line == 0 || n.start_line <= usize::MAX - offset) && (n.end_line == 0
            || n.end_line <= usize::MAX - offset),
    };
    if !own {
        return false;
    }
    let mut i: usize = 0;
    while i < n.children.len()
        invariant
            i <= n.children@.len(),
            forall|k: int|
                0 <= k < i ==> {
                    &&& decreases_to!(*n => n.children@[k])
                    &&& fits_offset(#[trigger] n.children@[k], offset)
                },
        decreases n.children@.len() - i,
    {
        assert(decreases_to!(*n => n.children@[i as int]));
        if !offset_fits(&n.children[i], offset) {
            return false;
        }
        i = i + 1;
    }
    true
}

/// Move every line number of the tree down by `offset`, except those of
/// front matter nodes and lines numbered 0.
pub fn adjust_line_numbers(node: MarkdownNode, offset: usize) -> (r: MarkdownNode)
    requires
        fits_offset(node, offset),
    ensures
        adjusted(node, r, offset),
    decreases node,
{
    let ghost orig = node;
    let mut cur = node;
    match cur.node_type {
        MarkdownNodeType::FrontMatter(_) => {},
        _ => {
            if cur.start_line > 0 {
                cur.start_line = cur.start_line + offset;
            }
            if cur.end_line > 0 {
                cur.end_line = cur.end_line + offset;
            }
        },
    }
    let mut kids: Vec<MarkdownNode> = Vec::new();
    std::mem::swap(&mut kids, &mut cur.children);
    let mut out: Vec<MarkdownNode> = Vec::new();
    while kids.len() > 0
        invariant
            orig == node,
            out@.len() + kids@.len() == orig.children@.len(),
            kids@ =~= orig.children@.subrange(out@.len() as int, orig.children@.len() as int),
            fits_offset(orig, offset),
            forall|k: int|
                0 <= k < out@.len() ==> {
                    &&& decreases_to!(orig => orig.children@[k])
                    &&& adjusted(orig.children@[k], #[trigger] out@[k], offset)
                },
        decreases kids@.len(),
    {
        let c = kids.remove(0);
        let ghost idx = out@.len() as int;
        assert(c == orig.children@[idx]);
        assert(decreases_to!(orig => orig.children@[idx]));
        let a = adjust_line_numbers(c, offset);
        out.push(a);
    }
    cur.children = out;
    cur
}

// ─────────────────────────────── whole documents ─────────────────────────────

/// The root after the front matter correction: moved down by the front
/// matter offset where there is one.
pub open spec fn root_adjusted(m: MarkdownNode, root: MarkdownNode) -> bool {
    let off = frontmatter_offset_spec(m);
    if off > 0 {
        off <= usize::MAX && fits_offset(m, off as usize) && adjusted(m, root, off as usize)
    } else {
        root == m
    }
}

/// The line numbers of the merged tree `m` cannot be corrected for its front
/// matter within `usize`.
pub open spec fn offset_overflows(m: MarkdownNode) -> bool {
    let off = frontmatter_offset_spec(m);
    off > 0 && (off > usize::MAX || !fits_offset(m, off as usize))
}

/// `doc` is the document for the parser walk `ev` of `markdown`: the tree
/// walked, with block quotes merged and line numbers corrected for front
/// matter, the source text, and the last front matter content.
pub open spec fn document_from(ev: Seq<RawEvent>, markdown: Seq<char>, doc: MarkdownDocument) -> bool {
    &&& doc.source@ == markdown
    &&& doc.front_matter == front_matter_of(ev)
    &&& exists|t: MarkdownNode, m: MarkdownNode|
        #![trigger encodes(ev, 0, ev.len() as int, t), merged(t, m)]
        encodes(ev, 0, ev.len() as int, t) && merged(t, m) && root_adjusted(m, doc.root)
}

/// The walk `ev` gives a tree whose line numbers cannot be corrected for its
/// front matter within `usize`.
pub open spec fn walk_overflows(ev: Seq<RawEvent>) -> bool {
    exists|t: MarkdownNode, m: MarkdownNode|
        #![trigger encodes(ev, 0, ev.len() as int, t), merged(t, m)]
        encodes(ev, 0, ev.len() as int, t) && merged(t, m) && offset_overflows(m)
}

/// The document for a parser walk of `markdown`: rebuild the tree, merge
/// consecutive block quotes, correct line numbers for front matter.
pub fn document_from_events(ev: &Vec<RawEvent>, markdown: &str) -> (r: Result<MarkdownDocument, String>)
    requires
        events_form_tree(ev@),
    ensures
        match r {
            Ok(doc) => document_from(ev@, markdown@, doc),
            Err(_) => walk_overflows(ev@),
        },
{
    let front_matter = front_matter_from_events(ev);
    let mut root = tree_from_events(ev);
    let ghost t = root;
    merge_consecutive_blockquotes(&mut root);
    let ghost m = root;
    let adjusted_root = match calculate_frontmatter_offset(&root) {
        Some(offset) => {
            if offset > 0 {
                if !offset_fits(&root, offset) {
                    return Err(String::from_str("line numbers overflow after front matter"));
                }
                adjust_line_numbers(root, offset)
            } else {
                root
            }
        },
        None => {
            return Err(String::from_str("line numbers overflow after front matter"));
        },
    };
    let doc = MarkdownDocument {
        root: adjusted_root,
        source: String::from_str(markdown),
        front_matter,
    };
    assert(encodes(ev@, 0, ev@.len() as int, t) && merged(t, m));
    Ok(doc)
}

/// Parse markdown text with custom options. It succeeds on every text
/// shorter than half the address space (a `str` is never longer than
/// `isize::MAX` bytes), since then no line number, moved down past front
/// matter, can leave `usize`.
pub fn parse_markdown_with_options(markdown: &str, options: &MarkdownOptions) -> (r: Result<MarkdownDocument, String>)
    ensures
        match r {
            Ok(doc) => document_from(comrak_events(markdown@, options@), markdown@, doc),
            Err(_) => walk_overflows(comrak_events(markdown@, options@)),
        },
        markdown@.len() + 3 <= usize::MAX / 2 ==> r is Ok,
{
    let ev = comrak_parse(markdown, options);
    proof {
        if markdown@.len() + 3 <= usize::MAX / 2 {
            lemma_bounded_walk_fits(ev@, markdown@.len() + 1int);
        }
    }
    document_from_events(&ev, markdown)
}

/// Parse markdown text into a document with the default options; it
/// succeeds on every text shorter than half the address space.
pub fn parse_markdown(markdown: &str) -> (r: Result<MarkdownDocument, String>)
    ensures
        match r {
            Ok(doc) => document_from(comrak_events(markdown@, default_options_view()), markdown@, doc),
            Err(_) => walk_overflows(comrak_events(markdown@, default_options_view())),
        },
        markdown@.len() + 3 <= usize::MAX / 2 ==> r is Ok,
{
    parse_markdown_with_options(markdown, &MarkdownOptions::default())
}

/// No two consecutive nodes of `a` are block quotes.
pub open spec fn no_adjacent_bq(a: Seq<MarkdownNode>) -> bool {
    forall|k: int| 0 <= k && k + 1 < a.len() ==> !(is_bq(#[trigger] a[k]) && is_bq(a[k + 1]))
}

/// No node of the tree has two consecutive block quote children.
pub open spec fn fully_merged(n: MarkdownNode) -> bool
    decreases n,
{
    &&& no_adjacent_bq(n.children@)
    &&& forall|k: int|
        0 <= k < n.children@.len() ==> {
            &&& decreases_to!(n => n.children@[k])
            &&& fully_merged(#[trigger] n.children@[k])
        }
}

/// Every node of a sibling list is fully merged.
pub open spec fn all_fully_merged(a: Seq<MarkdownNode>) -> bool {
    forall|k: int| 0 <= k < a.len() ==> fully_merged(#[trigger] a[k])
}

/// Joining two merged sibling lists gives a merged sibling list.
proof fn lemma_joined_merged(a: Seq<MarkdownNode>, b: Seq<MarkdownNode>, out: Seq<MarkdownNode>)
    requires
        joined(a, b, out),
        no_adjacent_bq(a),
        no_adjacent_bq(b),
        all_fully_merged(a),
        all_fully_merged(b),
    ensures
        no_adjacent_bq(out),
        all_fully_merged(out),
    decreases b,
{
    if a.len() > 0 && b.len() > 0 && is_bq(a.last()) && is_bq(b[0]) {
        let n = a.len();
        let m = out[n - 1];
        let x = a.last();
        let y = b[0];
        assert(fully_merged(x) && fully_merged(y));
        lemma_joined_merged(x.children@, y.children@, m.children@);
        assert(fully_merged(m)) by {
            assert forall|k: int| 0 <= k < m.children@.len() implies {
                &&& decreases_to!(m => m.children@[k])
                &&& fully_merged(#[trigger] m.children@[k])
            } by {
            }
        }
        assert forall|k: int| 0 <= k < out.len() implies fully_merged(#[trigger] out[k]) by {
            if k < n - 1 {
                assert(out[k] == out.take(n - 1)[k]);
            } else if k >= n {
                assert(out[k] == out.skip(n as int)[k - n]);
            }
        }
        assert forall|k: int| 0 <= k && k + 1 < out.len() implies !(is_bq(#[trigger] out[k]) && is_bq(out[k + 1])) by {
            if k + 1 < n - 1 {
                assert(out[k] == out.take(n - 1)[k]);
                assert(out[k + 1] == out.take(n - 1)[k + 1]);
            } else if k + 1 == n - 1 {
                assert(out[k] == out.take(n - 1)[k]);
            } else if k == n - 1 {
                assert(out[k + 1] == out.skip(n as int)[0]);
                assert(out.skip(n as int)[0] == b[1]);
            } else {
                assert(out[k] == out.skip(n as int)[k - n]);
                assert(out[k + 1] == out.skip(n as int)[k + 1 - n]);
            }
        }
    } else {
        assert forall|k: int| 0 <= k < out.len() implies fully_merged(#[trigger] out[k]) by {
            if k < a.len() {
                assert(out[k] == a[k]);
            } else {
                assert(out[k] == b[k - a.len()]);
            }
        }
        assert forall|k: int| 0 <= k && k + 1 < out.len() implies !(is_bq(#[trigger] out[k]) && is_bq(out[k + 1])) by {
            if k + 1 < a.len() {
                assert(out[k] == a[k] && out[k + 1] == a[k + 1]);
            } else if k + 1 == a.len() {
                assert(out[k] == a[k] && out[k + 1] == b[0]);
            } else {
                assert(out[k] == b[k - a.len()] && out[k + 1] == b[k + 1 - a.len()]);
            }
        }
    }
}

/// Every step of joining merged nodes is a merged sibling list.
proof fn lemma_steps_merged(mid: Seq<MarkdownNode>, steps: Seq<Seq<MarkdownNode>>, i: int)
    requires
        join_steps(mid, steps),
        all_fully_merged(mid),
        0 <= i <= mid.len(),
    ensures
        no_adjacent_bq(steps[i]),
        all_fully_merged(steps[i]),
    decreases i,
{
    if i > 0 {
        lemma_steps_merged(mid, steps, i - 1);
        assert(joined(steps[i - 1], seq![mid[i - 1]], steps[i]));
        assert(fully_merged(mid[i - 1]));
        assert(all_fully_merged(seq![mid[i - 1]]));
        lemma_joined_merged(steps[i - 1], seq![mid[i - 1]], steps[i]);
    }
}

/// Joining merged nodes one by one gives a merged sibling list.
proof fn lemma_level_joined_merged(mid: Seq<MarkdownNode>, out: Seq<MarkdownNode>)
    requires
        level_joined(mid, out),
        all_fully_merged(mid),
    ensures
        no_adjacent_bq(out),
        all_fully_merged(out),
{
    let steps = choose|steps: Seq<Seq<MarkdownNode>>| #[trigger] join_steps(mid, steps) && steps.last() == out;
    lemma_steps_merged(mid, steps, mid.len() as int);
}

/// After merging, no node of the tree has two consecutive block quote
/// children: every run of block quotes became one, at every depth,
/// including where a merge brought nested quotes together.
pub proof fn law_merge_leaves_no_adjacent(n1: MarkdownNode, n2: MarkdownNode)
    requires
        merged(n1, n2),
    ensures
        fully_merged(n2),
    decreases n1,
{
    let mid = choose|mid: Seq<MarkdownNode>|
        #![trigger level_joined(mid, n2.children@)]
        {
            &&& mid.len() == n1.children@.len()
            &&& forall|k: int|
                0 <= k < mid.len() ==> {
                    &&& decreases_to!(n1 => n1.children@[k])
                    &&& merged(n1.children@[k], #[trigger] mid[k])
                }
            &&& level_joined(mid, n2.children@)
        };
    assert forall|k: int| 0 <= k < mid.len() implies fully_merged(#[trigger] mid[k]) by {
        law_merge_leaves_no_adjacent(n1.children@[k], mid[k]);
    }
    lemma_level_joined_merged(mid, n2.children@);
}

// ──────────────────────────── one document per walk ─────────────────────────

/// Two node types are alike: equal, or tables with the same column
/// alignments and count, or texts with the same characters.
pub open spec fn type_alike(a: MarkdownNodeType, b: MarkdownNodeType) -> bool {
    match a {
        MarkdownNodeType::Table { .. } => b is Table && a->Table_alignments@ == b->Table_alignments@
            && a->Table_num_columns == b->Table_num_columns,
        MarkdownNodeType::Text(x) => b is Text && x@ == b->Text_0@,
        _ => a == b,
    }
}

/// Two trees are alike: alike node types, the same lines, and alike
/// children in order. Alike trees differ at most in which vectors hold the
/// same elements.
pub open spec fn alike(n1: MarkdownNode, n2: MarkdownNode) -> bool
    decreases n1,
{
    &&& type_alike(n1.node_type, n2.node_type)
    &&& n1.start_line == n2.start_line
    &&& n1.end_line == n2.end_line
    &&& n1.children@.len() == n2.children@.len()
    &&& forall|k: int|
        0 <= k < n1.children@.len() ==> {
            &&& decreases_to!(n1 => n1.children@[k])
            &&& alike(n1.children@[k], #[trigger] n2.children@[k])
        }
}

/// Two sibling lists are alike, node by node.
pub open spec fn all_alike(a: Seq<MarkdownNode>, b: Seq<MarkdownNode>) -> bool {
    &&& a.len() == b.len()
    &&& forall|k: int| 0 <= k < a.len() ==> alike(#[trigger] a[k], b[k])
}

/// A walk of one tree from `i` ends at one place.
proof fn lemma_tree_end_unique(ev: Seq<RawEvent>, i: int, k1: int, k2: int)
    requires
        is_tree(ev, i, k1),
        is_tree(ev, i, k2),
    ensures
        k1 == k2,
{
    if k1 < k2 {
        assert(depth(ev, i, k1) > 0);
    } else if k2 < k1 {
        assert(depth(ev, i, k2) > 0);
    }
}

/// One value converts to alike node types.
proof fn lemma_converts_alike(v: RawValue, t1: MarkdownNodeType, t2: MarkdownNodeType)
    requires
        converts_to(v, t1),
        converts_to(v, t2),
    ensures
        type_alike(t1, t2),
{
    match v {
        RawValue::Table { alignments, num_columns } => {
            assert(t1 is Table && t2 is Table);
            assert(t1->Table_alignments@ == alignments@ && t2->Table_alignments@ == alignments@);
            assert(t1->Table_num_columns == num_columns && t2->Table_num_columns == num_columns);
        },
        RawValue::Other => {
            assert(t1 is Text && t2 is Text);
            assert(t1->Text_0@ =~= t2->Text_0@);
        },
        _ => {
            assert(!(t1 is Table));
            assert(t1 == t2);
        },
    }
}

/// The tree a walk encodes is one up to alikeness.
proof fn lemma_encodes_unique(ev: Seq<RawEvent>, i: int, j: int, n1: MarkdownNode, n2: MarkdownNode)
    requires
        encodes(ev, i, j, n1),
        encodes(ev, i, j, n2),
    ensures
        alike(n1, n2),
    decreases n1, 1nat,
{
    match ev[i] {
        RawEvent::Open { value, .. } => lemma_converts_alike(value, n1.node_type, n2.node_type),
        _ => {},
    }
    lemma_forest_unique(ev, i + 1, j - 1, n1.children@, n2.children@);
    assert forall|k: int| 0 <= k < n1.children@.len() implies {
        &&& decreases_to!(n1 => n1.children@[k])
        &&& alike(n1.children@[k], #[trigger] n2.children@[k])
    } by {
        assert(alike(n1.children@[k], n2.children@[k]));
    }
}

/// The forest a stretch of a walk encodes is one up to alikeness.
proof fn lemma_forest_unique(ev: Seq<RawEvent>, i: int, j: int, a: Seq<MarkdownNode>, b: Seq<MarkdownNode>)
    requires
        encodes_forest(ev, i, j, a),
        encodes_forest(ev, i, j, b),
    ensures
        all_alike(a, b),
    decreases a, 0nat,
{
    if a.len() == 0 {
        if b.len() > 0 {
            let k = choose|k: int| #![trigger is_tree(ev, i, k)] i < k <= j && is_tree(ev, i, k) && encodes(ev, i, k, b[0])
                && encodes_forest(ev, k, j, b.drop_first());
        }
    } else {
        let k1 = choose|k: int| #![trigger is_tree(ev, i, k)] i < k <= j && is_tree(ev, i, k) && encodes(ev, i, k, a[0])
            && encodes_forest(ev, k, j, a.drop_first());
        if b.len() == 0 {
            assert(i == j);
        } else {
            let k2 = choose|k: int| #![trigger is_tree(ev, i, k)] i < k <= j && is_tree(ev, i, k) && encodes(ev, i, k, b[0])
                && encodes_forest(ev, k, j, b.drop_first());
            lemma_tree_end_unique(ev, i, k1, k2);
            assert(decreases_to!(a => a[0]));
            lemma_encodes_unique(ev, i, k1, a[0], b[0]);
            lemma_forest_unique(ev, k1, j, a.drop_first(), b.drop_first());
            assert forall|k: int| 0 <= k < a.len() implies alike(#[trigger] a[k], b[k]) by {
                if k > 0 {
                    assert(a[k] == a.drop_first()[k - 1] && b[k] == b.drop_first()[k - 1]);
                }
            }
        }
    }
}

/// Alike nodes are block quotes together.
proof fn lemma_alike_bq(x1: MarkdownNode, x2: MarkdownNode)
    requires
        alike(x1, x2),
    ensures
        is_bq(x1) == is_bq(x2),
{
}

/// Joining alike lists gives alike lists.
proof fn lemma_joined_alike(
    a1: Seq<MarkdownNode>,
    b1: Seq<MarkdownNode>,
    o1: Seq<MarkdownNode>,
    a2: Seq<MarkdownNode>,
    b2: Seq<MarkdownNode>,
    o2: Seq<MarkdownNode>,
)
    requires
        joined(a1, b1, o1),
        joined(a2, b2, o2),
        all_alike(a1, a2),
        all_alike(b1, b2),
    ensures
        all_alike(o1, o2),
    decreases b1,
{
    if a1.len() > 0 && b1.len() > 0 {
        lemma_alike_bq(a1.last(), a2.last());
        lemma_alike_bq(b1[0], b2[0]);
        assert(alike(a1[a1.len() - 1], a2[a1.len() - 1]));
        assert(alike(b1[0], b2[0]));
    }
    if a1.len() > 0 && b1.len() > 0 && is_bq(a1.last()) && is_bq(b1[0]) {
        let n = a1.len() as int;
        let m1 = o1[n - 1];
        let m2 = o2[n - 1];
        let x1 = a1.last();
        let x2 = a2.last();
        lemma_joined_alike(x1.children@, b1[0].children@, m1.children@, x2.children@, b2[0].children@, m2.children@);
        assert(alike(m1, m2));
        assert forall|k: int| 0 <= k < o1.len() implies alike(#[trigger] o1[k], o2[k]) by {
            if k < n - 1 {
                assert(o1[k] == o1.take(n - 1)[k] && o2[k] == o2.take(n - 1)[k]);
                assert(alike(a1[k], a2[k]));
            } else if k >= n {
                assert(o1[k] == o1.skip(n)[k - n] && o2[k] == o2.skip(n)[k - n]);
                assert(alike(b1[k - n + 1], b2[k - n + 1]));
            }
        }
    } else {
        assert forall|k: int| 0 <= k < o1.len() implies alike(#[trigger] o1[k], o2[k]) by {
            if k < a1.len() {
                assert(o1[k] == a1[k] && o2[k] == a2[k]);
            } else {
                assert(o1[k] == b1[k - a1.len()] && o2[k] == b2[k - a1.len()]);
            }
        }
    }
}

/// Each step of joining alike lists is alike.
proof fn lemma_steps_alike(
    mid1: Seq<MarkdownNode>,
    s1: Seq<Seq<MarkdownNode>>,
    mid2: Seq<MarkdownNode>,
    s2: Seq<Seq<MarkdownNode>>,
    i: int,
)
    requires
        join_steps(mid1, s1),
        join_steps(mid2, s2),
        all_alike(mid1, mid2),
        0 <= i <= mid1.len(),
    ensures
        all_alike(s1[i], s2[i]),
    decreases i,
{
    if i == 0 {
    } else {
        lemma_steps_alike(mid1, s1, mid2, s2, i - 1);
        assert(joined(s1[i - 1], seq![mid1[i - 1]], s1[i]));
        assert(joined(s2[i - 1], seq![mid2[i - 1]], s2[i]));
        assert(alike(mid1[i - 1], mid2[i - 1]));
        assert(all_alike(seq![mid1[i - 1]], seq![mid2[i - 1]]));
        lemma_joined_alike(s1[i - 1], seq![mid1[i - 1]], s1[i], s2[i - 1], seq![mid2[i - 1]], s2[i]);
    }
}

/// Merging alike trees gives alike trees.
pub proof fn lemma_merged_alike(t1: MarkdownNode, m1: MarkdownNode, t2: MarkdownNode, m2: MarkdownNode)
    requires
        merged(t1, m1),
        merged(t2, m2),
        alike(t1, t2),
    ensures
        alike(m1, m2),
    decreases t1,
{
    let mid1 = choose|mid: Seq<MarkdownNode>|
        #![trigger level_joined(mid, m1.children@)]
        {
            &&& mid.len() == t1.children@.len()
            &&& forall|k: int|
                0 <= k < mid.len() ==> {
                    &&& decreases_to!(t1 => t1.children@[k])
                    &&& merged(t1.children@[k], #[trigger] mid[k])
                }
            &&& level_joined(mid, m1.children@)
        };
    let mid2 = choose|mid: Seq<MarkdownNode>|
        #![trigger level_joined(mid, m2.children@)]
        {
            &&& mid.len() == t2.children@.len()
            &&& forall|k: int|
                0 <= k < mid.len() ==> {
                    &&& decreases_to!(t2 => t2.children@[k])
                    &&& merged(t2.children@[k], #[trigger] mid[k])
                }
            &&& level_joined(mid, m2.children@)
        };
    assert forall|k: int| 0 <= k < mid1.len() implies alike(#[trigger] mid1[k], mid2[k]) by {
        assert(alike(t1.children@[k], t2.children@[k]));
        lemma_merged_alike(t1.children@[k], mid1[k], t2.children@[k], mid2[k]);
    }
    let s1 = choose|steps: Seq<Seq<MarkdownNode>>| #[trigger] join_steps(mid1, steps) && steps.last() == m1.children@;
    let s2 = choose|steps: Seq<Seq<MarkdownNode>>| #[trigger] join_steps(mid2, steps) && steps.last() == m2.children@;
    lemma_steps_alike(mid1, s1, mid2, s2, mid1.len() as int);
    assert forall|k: int| 0 <= k < m1.children@.len() implies {
        &&& decreases_to!(m1 => m1.children@[k])
        &&& alike(m1.children@[k], #[trigger] m2.children@[k])
    } by {
    }
}

/// Alike trees have the same front matter line offset.
proof fn lemma_offset_alike(m1: MarkdownNode, m2: MarkdownNode)
    requires
        alike(m1, m2),
    ensures
        frontmatter_offset_spec(m1) == frontmatter_offset_spec(m2),
{
    if m1.children@.len() > 0 {
        assert(alike(m1.children@[0], m2.children@[0]));
        let t1 = m1.children@[0].node_type;
        let t2 = m2.children@[0].node_type;
        if t1 is FrontMatter || t2 is FrontMatter {
            assert(t1 == t2);
        }
    }
}

/// Whether line numbers fit after a shift is the same for alike trees.
proof fn lemma_fits_alike(n1: MarkdownNode, n2: MarkdownNode, off: usize)
    requires
        alike(n1, n2),
    ensures
        fits_offset(n1, off) == fits_offset(n2, off),
    decreases n1,
{
    if n1.node_type is FrontMatter || n2.node_type is FrontMatter {
        assert(n1.node_type == n2.node_type);
    }
    assert forall|k: int| 0 <= k < n1.children@.len() implies fits_offset(n1.children@[k], off) == fits_offset(
        #[trigger] n2.children@[k],
        off,
    ) by {
        assert(alike(n1.children@[k], n2.children@[k]));
        lemma_fits_alike(n1.children@[k], n2.children@[k], off);
    }
    if fits_offset(n1, off) {
        assert forall|k: int| 0 <= k < n2.children@.len() implies {
            &&& decreases_to!(n2 => n2.children@[k])
            &&& fits_offset(#[trigger] n2.children@[k], off)
        } by {
            assert(fits_offset(n1.children@[k], off));
        }
    }
    if fits_offset(n2, off) {
        assert forall|k: int| 0 <= k < n1.children@.len() implies {
            &&& decreases_to!(n1 => n1.children@[k])
            &&& fits_offset(#[trigger] n1.children@[k], off)
        } by {
            assert(fits_offset(n2.children@[k], off));
        }
    }
}

/// Shifting the lines of alike trees gives alike trees.
proof fn lemma_adjusted_alike(m1: MarkdownNode, r1: MarkdownNode, m2: MarkdownNode, r2: MarkdownNode, off: usize)
    requires
        adjusted(m1, r1, off),
        adjusted(m2, r2, off),
        alike(m1, m2),
    ensures
        alike(r1, r2),
    decreases m1,
{
    if m1.node_type is FrontMatter || m2.node_type is FrontMatter {
        assert(m1.node_type == m2.node_type);
    }
    assert forall|k: int| 0 <= k < r1.children@.len() implies {
        &&& decreases_to!(r1 => r1.children@[k])
        &&& alike(r1.children@[k], #[trigger] r2.children@[k])
    } by {
        assert(alike(m1.children@[k], m2.children@[k]));
        lemma_adjusted_alike(m1.children@[k], r1.children@[k], m2.children@[k], r2.children@[k], off);
    }
}

/// Alike trees have the same text.
pub proof fn lemma_text_alike(n1: MarkdownNode, n2: MarkdownNode)
    requires
        alike(n1, n2),
    ensures
        text_of(n1) == text_of(n2),
    decreases n1, 1nat,
{
    if !(n1.node_type is Text) && !(n1.node_type is Table) {
        assert(n1.node_type == n2.node_type);
    }
    lemma_texts_alike(n1.children@, n2.children@);
}

/// Alike sibling lists have the same text.
pub proof fn lemma_texts_alike(a: Seq<MarkdownNode>, b: Seq<MarkdownNode>)
    requires
        all_alike(a, b),
    ensures
        texts_of(a) == texts_of(b),
    decreases a, 0nat,
{
    if a.len() > 0 {
        assert(decreases_to!(a => a[0]));
        assert(alike(a[0], b[0]));
        lemma_text_alike(a[0], b[0]);
        assert forall|k: int| 0 <= k < a.drop_first().len() implies alike(#[trigger] a.drop_first()[k], b.drop_first()[k]) by {
            assert(alike(a[k + 1], b[k + 1]));
        }
        lemma_texts_alike(a.drop_first(), b.drop_first());
    }
}

/// The documents that one parser walk gives are alike, and a walk that
/// gives a document does not overflow.
pub proof fn lemma_documents_alike(ev: Seq<RawEvent>, text: Seq<char>, d1: MarkdownDocument, d2: MarkdownDocument)
    requires
        document_from(ev, text, d1),
    ensures
        document_from(ev, text, d2) ==> alike(d1.root, d2.root),
        !walk_overflows(ev),
{
    let (t1, m1) = choose|t: MarkdownNode, m: MarkdownNode|
        #![trigger encodes(ev, 0, ev.len() as int, t), merged(t, m)]
        encodes(ev, 0, ev.len() as int, t) && merged(t, m) && root_adjusted(m, d1.root);
    if document_from(ev, text, d2) {
        let (t2, m2) = choose|t: MarkdownNode, m: MarkdownNode|
            #![trigger encodes(ev, 0, ev.len() as int, t), merged(t, m)]
            encodes(ev, 0, ev.len() as int, t) && merged(t, m) && root_adjusted(m, d2.root);
        lemma_encodes_unique(ev, 0, ev.len() as int, t1, t2);
        lemma_merged_alike(t1, m1, t2, m2);
        lemma_offset_alike(m1, m2);
        let off = frontmatter_offset_spec(m1);
        if off > 0 {
            lemma_adjusted_alike(m1, d1.root, m2, d2.root, off as usize);
        }
    }
    if walk_overflows(ev) {
        let (t2, m2) = choose|t: MarkdownNode, m: MarkdownNode|
            #![trigger encodes(ev, 0, ev.len() as int, t), merged(t, m)]
            encodes(ev, 0, ev.len() as int, t) && merged(t, m) && offset_overflows(m);
        lemma_encodes_unique(ev, 0, ev.len() as int, t1, t2);
        lemma_merged_alike(t1, m1, t2, m2);
        lemma_offset_alike(m1, m2);
        let off = frontmatter_offset_spec(m1);
        lemma_fits_alike(m1, m2, off as usize);
    }
}

// ─────────────────────────── line numbers fit ────────────────────────────────

/// Every line number of the tree is at most `b`, and so is the length of
/// every front matter in it.
pub open spec fn tree_bounded(n: MarkdownNode, b: int) -> bool
    decreases n,
{
    &&& n.start_line <= b
    &&& n.end_line <= b
    &&& (n.node_type matches MarkdownNodeType::FrontMatter(c) ==> c@.len() <= b)
    &&& forall|k: int|
        0 <= k < n.children@.len() ==> {
            &&& decreases_to!(n => n.children@[k])
            &&& tree_bounded(#[trigger] n.children@[k], b)
        }
}

/// Every tree of a list is bounded by `b`.
pub open spec fn all_bounded(a: Seq<MarkdownNode>, b: int) -> bool {
    forall|k: int| 0 <= k < a.len() ==> tree_bounded(#[trigger] a[k], b)
}

/// The tree a bounded walk encodes is bounded.
proof fn lemma_encodes_bounded(ev: Seq<RawEvent>, i: int, j: int, t: MarkdownNode, b: int)
    requires
        is_tree(ev, i, j),
        encodes(ev, i, j, t),
        events_bounded(ev, b),
    ensures
        tree_bounded(t, b),
    decreases t, 1nat,
{
    assert(0 <= i < ev.len());
    let e = ev[i];
    match e {
        RawEvent::Open { value, .. } => {
            if t.node_type is FrontMatter {
                assert(value is FrontMatter) by {
                    if !(value is FrontMatter) {
                        assert(!(t.node_type is FrontMatter));
                    }
                }
            }
        },
        _ => {},
    }
    lemma_forest_bounded(ev, i + 1, j - 1, t.children@, b);
}

/// The forest a bounded walk encodes is bounded.
proof fn lemma_forest_bounded(ev: Seq<RawEvent>, i: int, j: int, kids: Seq<MarkdownNode>, b: int)
    requires
        encodes_forest(ev, i, j, kids),
        events_bounded(ev, b),
    ensures
        all_bounded(kids, b),
    decreases kids, 0nat,
{
    if kids.len() > 0 {
        let k = choose|k: int| #![trigger is_tree(ev, i, k)] i < k <= j && is_tree(ev, i, k) && encodes(ev, i, k, kids[0])
            && encodes_forest(ev, k, j, kids.drop_first());
        assert(decreases_to!(kids => kids[0]));
        lemma_encodes_bounded(ev, i, k, kids[0], b);
        lemma_forest_bounded(ev, k, j, kids.drop_first(), b);
        assert forall|m: int| 0 <= m < kids.len() implies tree_bounded(#[trigger] kids[m], b) by {
            if m > 0 {
                assert(kids[m] == kids.drop_first()[m - 1]);
            }
        }
    }
}

/// Joining bounded lists gives a bounded list.
proof fn lemma_joined_bounded(a: Seq<MarkdownNode>, c: Seq<MarkdownNode>, out: Seq<MarkdownNode>, b: int)
    requires
        joined(a, c, out),
        all_bounded(a, b),
        all_bounded(c, b),
    ensures
        all_bounded(out, b),
    decreases c,
{
    if a.len() > 0 && c.len() > 0 && is_bq(a.last()) && is_bq(c[0]) {
        let n = a.len() as int;
        let m = out[n - 1];
        assert(tree_bounded(a[n - 1], b) && tree_bounded(c[0], b));
        lemma_joined_bounded(a.last().children@, c[0].children@, m.children@, b);
        assert(tree_bounded(m, b));
        assert forall|k: int| 0 <= k < out.len() implies tree_bounded(#[trigger] out[k], b) by {
            if k < n - 1 {
                assert(out[k] == out.take(n - 1)[k]);
            } else if k >= n {
                assert(out[k] == out.skip(n)[k - n]);
                assert(tree_bounded(c[k - n + 1], b));
            }
        }
    } else {
        assert forall|k: int| 0 <= k < out.len() implies tree_bounded(#[trigger] out[k], b) by {
            if k < a.len() {
                assert(out[k] == a[k]);
            } else {
                assert(out[k] == c[k - a.len()]);
            }
        }
    }
}

/// Each step of joining bounded trees is bounded.
proof fn lemma_steps_bounded(mid: Seq<MarkdownNode>, steps: Seq<Seq<MarkdownNode>>, i: int, b: int)
    requires
        join_steps(mid, steps),
        all_bounded(mid, b),
        0 <= i <= mid.len(),
    ensures
        all_bounded(steps[i], b),
    decreases i,
{
    if i > 0 {
        lemma_steps_bounded(mid, steps, i - 1, b);
        assert(joined(steps[i - 1], seq![mid[i - 1]], steps[i]));
        assert(tree_bounded(mid[i - 1], b));
        assert(all_bounded(seq![mid[i - 1]], b));
        lemma_joined_bounded(steps[i - 1], seq![mid[i - 1]], steps[i], b);
    }
}

/// Merging keeps a tree bounded.
proof fn lemma_merged_bounded(t: MarkdownNode, m: MarkdownNode, b: int)
    requires
        merged(t, m),
        tree_bounded(t, b),
    ensures
        tree_bounded(m, b),
    decreases t,
{
    let mid = choose|mid: Seq<MarkdownNode>|
        #![trigger level_joined(mid, m.children@)]
        {
            &&& mid.len() == t.children@.len()
            &&& forall|k: int|
                0 <= k < mid.len() ==> {
                    &&& decreases_to!(t => t.children@[k])
                    &&& merged(t.children@[k], #[trigger] mid[k])
                }
            &&& level_joined(mid, m.children@)
        };
    assert forall|k: int| 0 <= k < mid.len() implies tree_bounded(#[trigger] mid[k], b) by {
        assert(tree_bounded(t.children@[k], b));
        lemma_merged_bounded(t.children@[k], mid[k], b);
    }
    let steps = choose|steps: Seq<Seq<MarkdownNode>>| #[trigger] join_steps(mid, steps) && steps.last() == m.children@;
    lemma_steps_bounded(mid, steps, mid.len() as int, b);
    assert forall|k: int| 0 <= k < m.children@.len() implies {
        &&& decreases_to!(m => m.children@[k])
        &&& tree_bounded(#[trigger] m.children@[k], b)
    } by {
    }
}

/// A text has no more lines than characters.
proof fn lemma_lines_count(s: Seq<char>, i: int)
    requires
        0 <= i,
    ensures
        crate::text::lines_from(s, i).len() <= if i < s.len() { s.len() - i } else { 0 },
    decreases s.len() - i,
{
    if i < s.len() {
        crate::text::lemma_next_char_bounds(s, '\n', i);
        let k = crate::text::next_char_from(s, '\n', i);
        if k < s.len() {
            lemma_lines_count(s, k + 1);
        }
    }
}

/// A bounded tree's lines fit after moving them down by `off`.
proof fn lemma_bounded_fits(n: MarkdownNode, b: int, off: usize)
    requires
        tree_bounded(n, b),
        b + off <= usize::MAX,
    ensures
        fits_offset(n, off),
    decreases n,
{
    assert forall|k: int| 0 <= k < n.children@.len() implies {
        &&& decreases_to!(n => n.children@[k])
        &&& fits_offset(#[trigger] n.children@[k], off)
    } by {
        assert(tree_bounded(n.children@[k], b));
        lemma_bounded_fits(n.children@[k], b, off);
    }
}

/// A walk of one tree whose lines and front matter are bounded by `b`, at
/// most a little under half the address space, never overflows.
pub proof fn lemma_bounded_walk_fits(ev: Seq<RawEvent>, b: int)
    requires
        events_form_tree(ev),
        events_bounded(ev, b),
        0 <= b,
        b + 2 <= usize::MAX / 2,
    ensures
        !walk_overflows(ev),
{
    if walk_overflows(ev) {
        let (t, m) = choose|t: MarkdownNode, m: MarkdownNode|
            #![trigger encodes(ev, 0, ev.len() as int, t), merged(t, m)]
            encodes(ev, 0, ev.len() as int, t) && merged(t, m) && offset_overflows(m);
        lemma_encodes_bounded(ev, 0, ev.len() as int, t, b);
        lemma_merged_bounded(t, m, b);
        let off = frontmatter_offset_spec(m);
        if m.children@.len() > 0 {
            assert(tree_bounded(m.children@[0], b));
            match m.children@[0].node_type {
                MarkdownNodeType::FrontMatter(c) => {
                    lemma_lines_count(c@, 0);
                },
                _ => {},
            }
        }
        assert(off <= b + 2);
        lemma_bounded_fits(m, b, off as usize);
    }
}

} // verus!
