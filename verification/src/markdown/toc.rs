//! Table of contents generation: the headings of a document listed as nested
//! markdown links, kept between `<!-- TOC -->` and `<!-- /TOC -->` markers.
//!
//! Positions in the text (the cursor, the bounds of a TOC block) are byte
//! offsets into its UTF-8 encoding, as `str` indexing counts them.
use vstd::prelude::*;
use vstd::string::StringSliceAdditionalSpecFns;
use vstd::utf8::{char_is_scalar, encode_scalar, encode_utf8};
use crate::markdown::mermaid::flowchart::{byte_len, utf8_len};
use crate::markdown::comrak_tree::comrak_events;
use crate::markdown::parser::{
    alike, all_alike, lemma_documents_alike, lemma_text_alike, default_options_view, document_from, heading_number_spec, parse_markdown, text_of,
    walk_overflows, MarkdownDocument, MarkdownNode, MarkdownNodeType,
};
use crate::text::{
    chars_of, ends_with_spec, extend_chars, find, find_after, find_from, find_spec,
    lemma_find_from_bounds, lemma_skip_set_bounds, lemma_trim_set_end_bounds, matches_at,
    push_char, slice_copy, starts_with_spec, string_of, trim_end_matches, trim_end_matches_spec,
    trim_start_matches, trim_start_matches_spec,
};

verus! {

// ──────────────────────────────── markers ────────────────────────────────────

/// TOC block start marker.
pub const TOC_START: &'static str = "<!-- TOC -->";

/// TOC block end marker.
pub const TOC_END: &'static str = "<!-- /TOC -->";

/// The characters of the start marker.
pub open spec fn toc_start() -> Seq<char> {
    seq!['<', '!', '-', '-', ' ', 'T', 'O', 'C', ' ', '-', '-', '>']
}

/// The characters of the end marker.
pub open spec fn toc_end() -> Seq<char> {
    seq!['<', '!', '-', '-', ' ', '/', 'T', 'O', 'C', ' ', '-', '-', '>']
}

fn start_marker() -> (r: Vec<char>)
    ensures
        r@ == toc_start(),
{
    let r = chars_of(TOC_START);
    proof {
        reveal_strlit("<!-- TOC -->");
        assert(r@ =~= toc_start());
    }
    r
}

fn end_marker() -> (r: Vec<char>)
    ensures
        r@ == toc_end(),
{
    let r = chars_of(TOC_END);
    proof {
        reveal_strlit("<!-- /TOC -->");
        assert(r@ =~= toc_end());
    }
    r
}

// ──────────────────────────────── options ────────────────────────────────────

/// Options for TOC generation.
#[derive(Debug, Clone)]
pub struct TocOptions {
    /// Minimum heading level to include (1-6)
    pub min_level: u8,
    /// Maximum heading level to include (1-6)
    pub max_level: u8,
    /// Whether to use bullet points (-) or numbers (1.)
    pub use_bullets: bool,
    /// Indentation string for nested items (typically "  ")
    pub indent: String,
}

/// Two spaces, the default indentation.
pub open spec fn two_spaces() -> Seq<char> {
    seq![' ', ' ']
}

impl Default for TocOptions {
    fn default() -> (r: Self)
        ensures
            r.min_level == 1,
            r.max_level == 3,
            r.use_bullets,
            r.indent@ == two_spaces(),
    {
        let r = TocOptions {
            min_level: 1,
            max_level: 3,
            use_bullets: true,
            indent: String::from_str("  "),
        };
        proof {
            reveal_strlit("  ");
            assert(r.indent@ =~= two_spaces());
        }
        r
    }
}

/// A heading level brought into 1 to 6.
pub open spec fn clamp_level(level: u8) -> u8 {
    if level < 1 {
        1
    } else if level > 6 {
        6
    } else {
        level
    }
}

fn clamp_level_exec(level: u8) -> (r: u8)
    ensures
        r == clamp_level(level),
{
    if level < 1 {
        1
    } else if level > 6 {
        6
    } else {
        level
    }
}

impl TocOptions {
    /// Options that include all heading levels (H1-H6).
    pub fn all_levels() -> (r: Self)
        ensures
            r.min_level == 1,
            r.max_level == 6,
            r.use_bullets,
            r.indent@ == two_spaces(),
    {
        let mut r = TocOptions::default();
        r.max_level = 6;
        r
    }

    /// Set the maximum heading depth to include, brought into 1 to 6.
    pub fn with_max_level(self, level: u8) -> (r: Self)
        ensures
            r.max_level == clamp_level(level),
            r.min_level == self.min_level,
            r.use_bullets == self.use_bullets,
            r.indent == self.indent,
    {
        let mut r = self;
        r.max_level = clamp_level_exec(level);
        r
    }

    /// Set the minimum heading level to include, brought into 1 to 6.
    pub fn with_min_level(self, level: u8) -> (r: Self)
        ensures
            r.min_level == clamp_level(level),
            r.max_level == self.max_level,
            r.use_bullets == self.use_bullets,
            r.indent == self.indent,
    {
        let mut r = self;
        r.min_level = clamp_level_exec(level);
        r
    }
}

/// Result of TOC generation or insertion.
#[derive(Debug, Clone)]
pub struct TocResult {
    /// The modified text with TOC inserted/updated
    pub text: String,
    /// New cursor position after the TOC operation: the byte offset just
    /// after the block
    pub cursor: usize,
    /// Whether a TOC block was found and updated (vs inserted new)
    pub was_update: bool,
    /// Number of headings included in the TOC
    pub heading_count: usize,
}

// ──────────────────────────────── outline ────────────────────────────────────

/// An entry of a document outline: a heading's level and text.
#[derive(Debug, Clone)]
pub struct OutlineItem {
    /// Heading level (1-6)
    pub level: u8,
    /// The heading's text, inline formatting stripped
    pub title: String,
}

/// The outline entries as plain values.
pub open spec fn outline_views(v: Seq<OutlineItem>) -> Seq<(u8, Seq<char>)> {
    v.map_values(|o: OutlineItem| (o.level, o.title@))
}

/// The outline entry of a node: its level and text if it is a heading.
pub open spec fn own_heading(n: MarkdownNode) -> Seq<(u8, Seq<char>)> {
    match n.node_type {
        MarkdownNodeType::Heading { level, .. } => seq![(heading_number_spec(level), text_of(n))],
        _ => seq![],
    }
}

/// The headings of a tree, in document order.
pub open spec fn heading_items(n: MarkdownNode) -> Seq<(u8, Seq<char>)>
    decreases n, 1nat,
{
    own_heading(n) + heading_items_forest(n.children@)
}

/// The headings of a sequence of sibling trees, in document order.
pub open spec fn heading_items_forest(kids: Seq<MarkdownNode>) -> Seq<(u8, Seq<char>)>
    decreases kids, 0nat,
{
    if kids.len() == 0 {
        seq![]
    } else {
        proof {
            assert(decreases_to!(kids => kids[0]));
        }
        heading_items(kids[0]) + heading_items_forest(kids.drop_first())
    }
}

proof fn lemma_heading_items_push(kids: Seq<MarkdownNode>, n: MarkdownNode)
    ensures
        heading_items_forest(kids.push(n)) == heading_items_forest(kids) + heading_items(n),
    decreases kids.len(),
{
    if kids.len() == 0 {
        assert(kids.push(n).drop_first() =~= seq![]);
        assert(heading_items_forest(seq![]) == Seq::<(u8, Seq<char>)>::empty());
        assert(heading_items_forest(kids.push(n)) =~= heading_items(n));
    } else {
        assert(kids.push(n).drop_first() =~= kids.drop_first().push(n));
        lemma_heading_items_push(kids.drop_first(), n);
        assert(heading_items_forest(kids.push(n)) =~= heading_items_forest(kids) + heading_items(n));
    }
}

/// Append the headings of a tree to `out`.
fn collect_headings(n: &MarkdownNode, out: &mut Vec<OutlineItem>)
    ensures
        outline_views(final(out)@) == outline_views(old(out)@) + heading_items(*n),
    decreases *n,
{
    match &n.node_type {
        MarkdownNodeType::Heading { level, .. } => {
            let item = OutlineItem { level: level.number(), title: n.text_content() };
            out.push(item);
        },
        _ => {},
    }
    let ghost after_own = outline_views(out@);
    assert(after_own =~= outline_views(old(out)@) + own_heading(*n));
    let mut i: usize = 0;
    while i < n.children.len()
        invariant
            i <= n.children@.len(),
            outline_views(out@) == after_own + heading_items_forest(n.children@.take(i as int)),
        decreases n.children@.len() - i,
    {
        assert(decreases_to!(*n => n.children@[i as int]));
        collect_headings(&n.children[i], out);
        proof {
            lemma_heading_items_push(n.children@.take(i as int), n.children@[i as int]);
            assert(n.children@.take(i + 1 as int) =~= n.children@.take(i as int).push(
                n.children@[i as int],
            ));
        }
        i = i + 1;
    }
    assert(n.children@.take(n.children@.len() as int) =~= n.children@);
}

/// `items` is the outline of `text`: the headings of its parsed document,
/// in document order (none where the document cannot be parsed).
pub open spec fn outline_of_text(text: Seq<char>, items: Seq<(u8, Seq<char>)>) -> bool {
    let ev = comrak_events(text, default_options_view());
    ||| exists|doc: MarkdownDocument|
        #![trigger document_from(ev, text, doc)]
        document_from(ev, text, doc) && items == heading_items(doc.root)
    ||| walk_overflows(ev) && items.len() == 0
}

/// Alike trees have the same headings.
proof fn lemma_headings_alike(n1: MarkdownNode, n2: MarkdownNode)
    requires
        alike(n1, n2),
    ensures
        heading_items(n1) == heading_items(n2),
    decreases n1, 1nat,
{
    if n1.node_type is Heading || n2.node_type is Heading {
        assert(n1.node_type == n2.node_type);
        lemma_text_alike(n1, n2);
    }
    lemma_headings_forest_alike(n1.children@, n2.children@);
}

/// Alike sibling lists have the same headings.
proof fn lemma_headings_forest_alike(a: Seq<MarkdownNode>, b: Seq<MarkdownNode>)
    requires
        all_alike(a, b),
    ensures
        heading_items_forest(a) == heading_items_forest(b),
    decreases a, 0nat,
{
    if a.len() > 0 {
        assert(decreases_to!(a => a[0]));
        assert(alike(a[0], b[0]));
        lemma_headings_alike(a[0], b[0]);
        assert forall|k: int| 0 <= k < a.drop_first().len() implies alike(#[trigger] a.drop_first()[k], b.drop_first()[k]) by {
            assert(alike(a[k + 1], b[k + 1]));
        }
        lemma_headings_forest_alike(a.drop_first(), b.drop_first());
    }
}

/// A text has one outline: the headings of the document it parses to, or
/// none where the parse overflows. So the outline that `extract_outline`
/// returns, and the one `insert_or_update_toc` lists, are the same.
pub proof fn law_outline_unique(text: Seq<char>, o1: Seq<(u8, Seq<char>)>, o2: Seq<(u8, Seq<char>)>)
    requires
        outline_of_text(text, o1),
        outline_of_text(text, o2),
    ensures
        o1 == o2,
{
    let ev = comrak_events(text, default_options_view());
    if exists|doc: MarkdownDocument| #[trigger] document_from(ev, text, doc) {
        let d = choose|doc: MarkdownDocument| #[trigger] document_from(ev, text, doc);
        lemma_documents_alike(ev, text, d, d);
        let d1 = choose|doc: MarkdownDocument|
            #![trigger document_from(ev, text, doc)]
            document_from(ev, text, doc) && o1 == heading_items(doc.root);
        let d2 = choose|doc: MarkdownDocument|
            #![trigger document_from(ev, text, doc)]
            document_from(ev, text, doc) && o2 == heading_items(doc.root);
        lemma_documents_alike(ev, text, d1, d2);
        lemma_headings_alike(d1.root, d2.root);
    } else {
        assert(o1 =~= o2);
    }
}

/// The outline of a markdown text: its headings in document order, each
/// with its level and its text with inline formatting stripped.
pub fn extract_outline(text: &str) -> (r: Vec<OutlineItem>)
    ensures
        outline_of_text(text@, outline_views(r@)),
{
    match parse_markdown(text) {
        Ok(doc) => {
            let mut out: Vec<OutlineItem> = Vec::new();
            collect_headings(&doc.root, &mut out);
            assert(outline_views(out@) =~= heading_items(doc.root));
            out
        },
        Err(_) => {
            let out: Vec<OutlineItem> = Vec::new();
            assert(outline_views(out@) =~= seq![]);
            out
        },
    }
}

// ──────────────────────────────── headings ───────────────────────────────────

/// The slug `slug::slugify` makes of a string; it depends on the string
/// alone.
pub uninterp spec fn slugify_spec(s: Seq<char>) -> Seq<char>;

/// A slug: only `a-z`, `0-9` and `-`, never two `-` in a row, and no `-`
/// at either end.
pub open spec fn is_slug(s: Seq<char>) -> bool {
    &&& forall|i: int|
        0 <= i < s.len() ==> ('a' <= #[trigger] s[i] <= 'z' || '0' <= s[i] <= '9' || s[i] == '-')
    &&& forall|i: int| 0 <= i < s.len() - 1 ==> !(#[trigger] s[i] == '-' && s[i + 1] == '-')
    &&& s.len() > 0 ==> s[0] != '-' && s[s.len() - 1] != '-'
}

/// `slug::slugify`: the result is named by `slugify_spec` and, as the
/// crate documents and its code shows, is a slug (`is_slug`).
#[verifier::external_body]
fn slugify(s: &str) -> (r: String)
    ensures
        r@ == slugify_spec(s@),
        is_slug(r@),
{
    slug::slugify(s)
}

/// A heading extracted for TOC generation.
#[derive(Debug, Clone)]
pub struct TocHeading {
    /// Heading level (1-6)
    pub level: u8,
    /// Heading text (with inline formatting stripped)
    pub text: String,
    /// Slugified anchor (e.g., "getting-started")
    pub anchor: String,
}

/// The TOC headings as plain values.
pub open spec fn heading_views(v: Seq<TocHeading>) -> Seq<(u8, Seq<char>, Seq<char>)> {
    v.map_values(|h: TocHeading| (h.level, h.text@, h.anchor@))
}

/// The TOC entries of an outline: the headings whose level lies between
/// `min` and `max`, each with the slug of its text as anchor.
pub open spec fn toc_entries(items: Seq<(u8, Seq<char>)>, min: u8, max: u8) -> Seq<
    (u8, Seq<char>, Seq<char>),
>
    decreases items.len(),
{
    if items.len() == 0 {
        seq![]
    } else {
        let rest = toc_entries(items.drop_last(), min, max);
        let it = items.last();
        if min <= it.0 && it.0 <= max && it.0 != 0 {
            rest.push((it.0, it.1, slugify_spec(it.1)))
        } else {
            rest
        }
    }
}

/// Whether a number of leading spaces
/// The number of indentation steps of a heading below the base level.
pub open spec fn indent_count(level: u8, base: u8) -> nat {
    if level >= base {
        (level - base) as nat
    } else {
        0
    }
}

/// `s` repeated `n` times.
pub open spec fn repeat(s: Seq<char>, n: nat) -> Seq<char>
    decreases n,
{
    if n == 0 {
        seq![]
    } else {
        repeat(s, (n - 1) as nat) + s
    }
}

/// The list marker: `-` for bullets, `1.` for numbers.
pub open spec fn bullet_spec(use_bullets: bool) -> Seq<char> {
    if use_bullets {
        seq!['-']
    } else {
        seq!['1', '.']
    }
}

/// The TOC line of a heading: indentation for its depth below the base
/// level, the list marker, and a link `[text](#anchor)`.
pub open spec fn toc_line_spec(
    level: u8,
    text: Seq<char>,
    anchor: Seq<char>,
    base: u8,
    indent: Seq<char>,
    use_bullets: bool,
) -> Seq<char> {
    repeat(indent, indent_count(level, base)) + bullet_spec(use_bullets) + seq![' ', '['] + text
        + seq![']', '(', '#'] + anchor + seq![')']
}

impl TocHeading {
    /// The TOC heading of an outline entry; `None` for an entry that is not
    /// a heading (level 0).
    pub fn from_outline_item(item: &OutlineItem) -> (r: Option<Self>)
        ensures
            item.level == 0 ==> r is None,
            item.level != 0 ==> (r matches Some(h) && h.level == item.level && h.text@ == item.title@
                && h.anchor@ == slugify_spec(item.title@)),
    {
        if item.level == 0 {
            return None;
        }
        let anchor = slugify(item.title.as_str());
        Some(TocHeading { level: item.level, text: item.title.clone(), anchor })
    }

    /// The markdown line for this heading in the TOC.
    pub fn to_toc_line(&self, base_level: u8, options: &TocOptions) -> (r: String)
        ensures
            r@ == toc_line_spec(
                self.level,
                self.text@,
                self.anchor@,
                base_level,
                options.indent@,
                options.use_bullets,
            ),
    {
        let indent_level: u8 = if self.level >= base_level {
            self.level - base_level
        } else {
            0
        };
        let mut r = String::new();
        let mut i: u8 = 0;
        while i < indent_level
            invariant
                i <= indent_level,
                indent_level == indent_count(self.level, base_level),
                r@ == repeat(options.indent@, i as nat),
            decreases indent_level - i,
        {
            r.append(options.indent.as_str());
            i = i + 1;
        }
        if options.use_bullets {
            push_char(&mut r, '-');
        } else {
            push_char(&mut r, '1');
            push_char(&mut r, '.');
        }
        push_char(&mut r, ' ');
        push_char(&mut r, '[');
        r.append(self.text.as_str());
        push_char(&mut r, ']');
        push_char(&mut r, '(');
        push_char(&mut r, '#');
        r.append(self.anchor.as_str());
        push_char(&mut r, ')');
        assert(r@ =~= toc_line_spec(
            self.level,
            self.text@,
            self.anchor@,
            base_level,
            options.indent@,
            options.use_bullets,
        ));
        r
    }
}

/// The TOC headings of an outline: the entries whose level lies between the
/// options' minimum and maximum.
pub fn toc_headings_from_outline(items: &Vec<OutlineItem>, options: &TocOptions) -> (r: Vec<TocHeading>)
    ensures
        heading_views(r@) == toc_entries(outline_views(items@), options.min_level, options.max_level),
{
    let mut out: Vec<TocHeading> = Vec::new();
    let mut i: usize = 0;
    while i < items.len()
        invariant
            i <= items@.len(),
            heading_views(out@) == toc_entries(
                outline_views(items@.take(i as int)),
                options.min_level,
                options.max_level,
            ),
        decreases items@.len() - i,
    {
        let item = &items[i];
        let ghost before = heading_views(out@);
        proof {
            assert(outline_views(items@.take(i + 1 as int)).drop_last() =~= outline_views(
                items@.take(i as int),
            ));
        }
        if item.level >= options.min_level && item.level <= options.max_level {
            match TocHeading::from_outline_item(item) {
                Some(h) => {
                    out.push(h);
                    assert(heading_views(out@) =~= before.push((h.level, h.text@, h.anchor@)));
                },
                None => {},
            }
        }
        i = i + 1;
    }
    assert(items@.take(items@.len() as int) =~= items@);
    out
}

/// Headings of a markdown text for TOC generation: those of its outline
/// whose level lies between the options' minimum and maximum.
pub fn extract_toc_headings(text: &str, options: &TocOptions) -> (r: Vec<TocHeading>)
    ensures
        exists|o: Seq<(u8, Seq<char>)>|
            #![trigger outline_of_text(text@, o)]
            outline_of_text(text@, o) && heading_views(r@) == toc_entries(
                o,
                options.min_level,
                options.max_level,
            ),
{
    let outline = extract_outline(text);
    let r = toc_headings_from_outline(&outline, options);
    assert(outline_of_text(text@, outline_views(outline@)));
    r
}

// ──────────────────────────────── content ────────────────────────────────────

/// The smallest level among TOC entries (1 when there are none).
pub open spec fn min_level(hs: Seq<(u8, Seq<char>, Seq<char>)>) -> u8
    decreases hs.len(),
{
    if hs.len() == 0 {
        1
    } else if hs.len() == 1 {
        hs[0].0
    } else {
        let m = min_level(hs.drop_last());
        if hs.last().0 < m {
            hs.last().0
        } else {
            m
        }
    }
}

/// The TOC lines of the entries for a base level.
pub open spec fn toc_lines_spec(
    hs: Seq<(u8, Seq<char>, Seq<char>)>,
    base: u8,
    indent: Seq<char>,
    use_bullets: bool,
) -> Seq<Seq<char>> {
    hs.map_values(
        |h: (u8, Seq<char>, Seq<char>)| toc_line_spec(h.0, h.1, h.2, base, indent, use_bullets),
    )
}

/// Lines joined with newlines.
pub open spec fn join_lines(ls: Seq<Seq<char>>) -> Seq<char>
    decreases ls.len(),
{
    if ls.len() == 0 {
        seq![]
    } else if ls.len() == 1 {
        ls[0]
    } else {
        join_lines(ls.drop_last()) + seq!['\n'] + ls.last()
    }
}

/// The TOC text of the entries: one line per entry, indented relative to
/// the smallest level among them; empty without entries.
pub open spec fn toc_content_spec(
    hs: Seq<(u8, Seq<char>, Seq<char>)>,
    indent: Seq<char>,
    use_bullets: bool,
) -> Seq<char> {
    if hs.len() == 0 {
        seq![]
    } else {
        join_lines(toc_lines_spec(hs, min_level(hs), indent, use_bullets))
    }
}

/// The TOC text of headings, one line per heading.
pub fn toc_content_from_headings(headings: &Vec<TocHeading>, options: &TocOptions) -> (r: String)
    ensures
        r@ == toc_content_spec(heading_views(headings@), options.indent@, options.use_bullets),
{
    let ghost hv = heading_views(headings@);
    if headings.len() == 0 {
        let r = String::new();
        return r;
    }
    let mut base: u8 = headings[0].level;
    let mut i: usize = 1;
    proof {
        assert(hv.take(1).len() == 1);
    }
    while i < headings.len()
        invariant
            1 <= i <= headings@.len(),
            hv == heading_views(headings@),
            base == min_level(hv.take(i as int)),
        decreases headings@.len() - i,
    {
        proof {
            assert(hv.take(i + 1 as int).drop_last() =~= hv.take(i as int));
        }
        if headings[i].level < base {
            base = headings[i].level;
        }
        i = i + 1;
    }
    assert(hv.take(hv.len() as int) =~= hv);
    let ghost ls = toc_lines_spec(hv, base, options.indent@, options.use_bullets);
    let mut r = String::new();
    let mut k: usize = 0;
    while k < headings.len()
        invariant
            k <= headings@.len(),
            hv == heading_views(headings@),
            ls == toc_lines_spec(hv, base, options.indent@, options.use_bullets),
            r@ == join_lines(ls.take(k as int)),
        decreases headings@.len() - k,
    {
        if k > 0 {
            push_char(&mut r, '\n');
        }
        let line = headings[k].to_toc_line(base, options);
        r.append(line.as_str());
        proof {
            assert(ls.take(k + 1 as int).drop_last() =~= ls.take(k as int));
            if k == 0 {
                assert(ls.take(1)[0] == ls[0]);
            }
        }
        k = k + 1;
    }
    assert(ls.take(ls.len() as int) =~= ls);
    r
}

/// The TOC text of a markdown document (without the markers).
pub fn generate_toc_content(text: &str, options: &TocOptions) -> (r: String)
    ensures
        exists|o: Seq<(u8, Seq<char>)>|
            #![trigger outline_of_text(text@, o)]
            outline_of_text(text@, o) && r@ == toc_content_spec(
                toc_entries(o, options.min_level, options.max_level),
                options.indent@,
                options.use_bullets,
            ),
{
    let headings = extract_toc_headings(text, options);
    toc_content_from_headings(&headings, options)
}

/// A TOC block: the start marker, the content on lines of its own when
/// there is any, and the end marker.
pub open spec fn toc_block_spec(content: Seq<char>) -> Seq<char> {
    if content.len() == 0 {
        toc_start() + seq!['\n'] + toc_end()
    } else {
        toc_start() + seq!['\n'] + content + seq!['\n'] + toc_end()
    }
}

/// A block starts with the start marker and ends with the end marker.
pub proof fn lemma_block_markers(content: Seq<char>)
    ensures
        starts_with_spec(toc_block_spec(content), toc_start()),
        ends_with_spec(toc_block_spec(content), toc_end()),
{
    let b = toc_block_spec(content);
    assert(b.subrange(0, toc_start().len() as int) =~= toc_start());
    assert(b.subrange(b.len() - toc_end().len(), b.len() as int) =~= toc_end());
}

/// The TOC block of headings.
pub fn toc_block_from_headings(headings: &Vec<TocHeading>, options: &TocOptions) -> (r: String)
    ensures
        r@ == toc_block_spec(
            toc_content_spec(heading_views(headings@), options.indent@, options.use_bullets),
        ),
{
    let content = toc_content_from_headings(headings, options);
    let mut r = String::new();
    r.append(TOC_START);
    push_char(&mut r, '\n');
    if content.unicode_len() > 0 {
        r.append(content.as_str());
        push_char(&mut r, '\n');
    }
    r.append(TOC_END);
    proof {
        reveal_strlit("<!-- TOC -->");
        reveal_strlit("<!-- /TOC -->");
    }
    assert(r@ =~= toc_block_spec(content@));
    r
}

/// The complete TOC block of a markdown document, markers included.
pub fn generate_toc_block(text: &str, options: &TocOptions) -> (r: String)
    ensures
        exists|o: Seq<(u8, Seq<char>)>|
            #![trigger outline_of_text(text@, o)]
            outline_of_text(text@, o) && r@ == toc_block_spec(
                toc_content_spec(
                    toc_entries(o, options.min_level, options.max_level),
                    options.indent@,
                    options.use_bullets,
                ),
            ),
        starts_with_spec(r@, toc_start()),
        ends_with_spec(r@, toc_end()),
{
    let headings = extract_toc_headings(text, options);
    let r = toc_block_from_headings(&headings, options);
    proof {
        lemma_block_markers(
            toc_content_spec(heading_views(headings@), options.indent@, options.use_bullets),
        );
    }
    r
}

// ───────────────────────────── finding a block ───────────────────────────────

/// The first TOC block of `s`: from the first start marker to the end of
/// the first end marker after it.
pub open spec fn toc_block_range(s: Seq<char>) -> Option<(int, int)> {
    match find_spec(s, toc_start()) {
        None => None,
        Some(a) => match find_from(s, toc_end(), a) {
            None => None,
            Some(e) => Some((a, e + toc_end().len())),
        },
    }
}

/// A TOC block begins with the start marker and ends with the end marker.
pub proof fn lemma_block_range(s: Seq<char>)
    ensures
        toc_block_range(s) matches Some((a, b)) ==> 0 <= a < b <= s.len() && starts_with_spec(
            s.subrange(a, b),
            toc_start(),
        ) && ends_with_spec(s.subrange(a, b), toc_end()),
{
    lemma_find_from_bounds(s, toc_start(), 0);
    if let Some(a) = find_spec(s, toc_start()) {
        lemma_find_from_bounds(s, toc_end(), a);
        if let Some(e) = find_from(s, toc_end(), a) {
            let b = e + toc_end().len();
            let t = s.subrange(a, b);
            assert(t.subrange(0, toc_start().len() as int) =~= s.subrange(
                a,
                a + toc_start().len(),
            ));
            assert(t.subrange(t.len() - toc_end().len(), t.len() as int) =~= s.subrange(e, b));
        }
    }
}

// ──────────────────────────── byte positions ─────────────────────────────────

/// The bytes of two sequences together are the bytes of each.
pub proof fn lemma_byte_len_concat(a: Seq<char>, b: Seq<char>)
    ensures
        byte_len(a + b) == byte_len(a) + byte_len(b),
    decreases b.len(),
{
    if b.len() > 0 {
        lemma_byte_len_concat(a, b.drop_last());
        assert((a + b).drop_last() =~= a + b.drop_last());
    } else {
        assert(a + b =~= a);
    }
}

/// A longer prefix has at least as many bytes.
pub proof fn lemma_byte_len_prefix(s: Seq<char>, i: int, j: int)
    requires
        0 <= i <= j <= s.len(),
    ensures
        byte_len(s.take(i)) <= byte_len(s.take(j)),
{
    lemma_byte_len_concat(s.take(i), s.subrange(i, j));
    assert(s.take(i) + s.subrange(i, j) =~= s.take(j));
}

/// `byte_len` counts the bytes of the UTF-8 encoding.
pub proof fn lemma_byte_len_encoding(s: Seq<char>)
    ensures
        byte_len(s) == encode_utf8(s).len(),
    decreases s.len(),
{
    if s.len() > 0 {
        lemma_byte_len_encoding(s.drop_first());
        lemma_byte_len_concat(seq![s[0]], s.drop_first());
        assert(seq![s[0]] + s.drop_first() =~= s);
        assert(seq![s[0]].drop_last() =~= Seq::<char>::empty());
        char_is_scalar(s[0]);
        let v = s[0] as u32;
        assert(encode_scalar(v).len() == utf8_len(s[0])) by {
            if v < 0x80 {
            } else if v < 0x800 {
            } else if v < 0x10000 {
            } else {
            }
        }
        assert(byte_len(seq![s[0]]) == utf8_len(s[0])) by {
            reveal_with_fuel(byte_len, 2);
            assert(seq![s[0]].last() == s[0]);
        }
        assert(encode_utf8(s) == encode_scalar(v) + encode_utf8(s.drop_first()));
    }
}

/// The number of leading characters of `s` whose bytes fit in `b` bytes:
/// the character boundary at or before byte offset `b`, as a character
/// count (all of `s` when `b` reaches past its end).
pub open spec fn chars_within(s: Seq<char>, b: int) -> int
    decreases s.len(),
{
    if s.len() == 0 {
        0
    } else if byte_len(s) <= b {
        s.len() as int
    } else {
        chars_within(s.drop_last(), b)
    }
}

/// `chars_within` is the last prefix that fits.
pub proof fn lemma_chars_within(s: Seq<char>, b: int, k: int)
    requires
        0 <= k <= s.len(),
        byte_len(s.take(k)) <= b,
        k == s.len() || byte_len(s.take(k + 1)) > b,
    ensures
        chars_within(s, b) == k,
    decreases s.len(),
{
    if s.len() == k {
        assert(s.take(k) =~= s);
    } else {
        lemma_byte_len_prefix(s, k + 1, s.len() as int);
        assert(s.take(s.len() as int) =~= s);
        let d = s.drop_last();
        assert(d.take(k) =~= s.take(k));
        if k < d.len() {
            assert(d.take(k + 1) =~= s.take(k + 1));
        }
        lemma_chars_within(d, b, k);
    }
}

/// `chars_within` counts at most all characters, and its prefix fits when
/// `b` is not negative.
pub proof fn lemma_chars_within_bounds(s: Seq<char>, b: int)
    ensures
        0 <= chars_within(s, b) <= s.len(),
        b >= 0 ==> byte_len(s.take(chars_within(s, b))) <= b,
    decreases s.len(),
{
    if s.len() > 0 {
        lemma_chars_within_bounds(s.drop_last(), b);
        let k = chars_within(s.drop_last(), b);
        if byte_len(s) <= b {
            assert(s.take(s.len() as int) =~= s);
        } else {
            assert(s.drop_last().take(k) =~= s.take(k));
        }
    } else {
        assert(s.take(0) =~= s);
    }
}

/// The number of UTF-8 bytes of a character.
fn char_width(c: char) -> (w: usize)
    ensures
        w == utf8_len(c),
{
    let v = c as u32;
    if v < 0x80 {
        1
    } else if v < 0x800 {
        2
    } else if v < 0x10000 {
        3
    } else {
        4
    }
}

/// The byte offset of the first `k` characters.
fn byte_offset(t: &[char], k: usize) -> (r: usize)
    requires
        k <= t@.len(),
        byte_len(t@) <= usize::MAX,
    ensures
        r == byte_len(t@.take(k as int)),
{
    let mut i: usize = 0;
    let mut acc: usize = 0;
    proof {
        assert(t@.take(0) =~= Seq::<char>::empty());
    }
    while i < k
        invariant
            i <= k <= t@.len(),
            acc == byte_len(t@.take(i as int)),
            byte_len(t@) <= usize::MAX,
        decreases k - i,
    {
        proof {
            lemma_byte_len_prefix(t@, i + 1, t@.len() as int);
            assert(t@.take(t@.len() as int) =~= t@);
            assert(t@.take(i + 1).drop_last() =~= t@.take(i as int));
        }
        acc = acc + char_width(t[i]);
        i = i + 1;
    }
    acc
}

/// The number of leading characters whose bytes fit in `b` bytes.
fn chars_within_exec(t: &[char], b: usize) -> (k: usize)
    ensures
        k as int == chars_within(t@, b as int),
{
    let mut i: usize = 0;
    let mut acc: usize = 0;
    proof {
        assert(t@.take(0) =~= Seq::<char>::empty());
    }
    while i < t.len()
        invariant
            i <= t@.len(),
            acc == byte_len(t@.take(i as int)),
            acc <= b,
        decreases t@.len() - i,
    {
        let w = char_width(t[i]);
        proof {
            assert(t@.take(i + 1).drop_last() =~= t@.take(i as int));
        }
        if b - acc < w {
            proof {
                lemma_chars_within(t@, b as int, i as int);
            }
            return i;
        }
        acc = acc + w;
        i = i + 1;
    }
    proof {
        lemma_chars_within(t@, b as int, i as int);
    }
    i
}

/// The byte length of a text is the byte length of its characters, which
/// fits in `usize`.
fn text_byte_len(text: &str) -> (n: usize)
    ensures
        n == byte_len(text@),
{
    let n = text.as_bytes().len();
    proof {
        lemma_byte_len_encoding(text@);
    }
    n
}

/// The first TOC block of a character sequence.
fn find_block(t: &Vec<char>) -> (r: Option<(usize, usize)>)
    ensures
        r matches Some((a, b)) ==> toc_block_range(t@) == Some((a as int, b as int)),
        r is None ==> toc_block_range(t@) is None,
{
    let start = start_marker();
    let end = end_marker();
    match find(t.as_slice(), start.as_slice()) {
        None => None,
        Some(a) => match find_after(t.as_slice(), end.as_slice(), a) {
            None => None,
            Some(e) => {
                let tl = t.len();
                proof {
                    lemma_find_from_bounds(t@, toc_end(), a as int);
                    assert(e + end@.len() <= tl);
                }
                Some((a, e + end.len()))
            },
        },
    }
}

/// The byte offsets of the first TOC block of `s`: the range from its start
/// marker to the end of the first end marker after it, markers included.
pub open spec fn toc_block_bytes(s: Seq<char>) -> Option<(int, int)> {
    match toc_block_range(s) {
        None => None,
        Some((a, b)) => Some((byte_len(s.take(a)) as int, byte_len(s.take(b)) as int)),
    }
}

/// Find the first TOC block of the document: the byte range from its start
/// marker to the end of the first end marker after it, markers included.
pub fn find_toc_block(text: &str) -> (r: Option<(usize, usize)>)
    ensures
        r matches Some((a, b)) ==> toc_block_bytes(text@) == Some((a as int, b as int)),
        r is None ==> toc_block_bytes(text@) is None,
        toc_block_range(text@) matches Some((a, b)) ==> a < b <= text@.len() && starts_with_spec(
            text@.subrange(a, b),
            toc_start(),
        ) && ends_with_spec(text@.subrange(a, b), toc_end()),
{
    let t = chars_of(text);
    let n = text_byte_len(text);
    proof {
        lemma_block_range(text@);
    }
    match find_block(&t) {
        None => None,
        Some((a, b)) => Some((byte_offset(t.as_slice(), a), byte_offset(t.as_slice(), b))),
    }
}

// ──────────────────────────── inserting a block ──────────────────────────────

/// Two newlines.
pub open spec fn blank_line() -> Seq<char> {
    seq!['\n', '\n']
}

/// The text, cursor and update flag after putting `block` into `s`: in
/// place of the first TOC block if there is one, else at the cursor (a byte
/// offset, brought back to the end of the text and to the character
/// boundary at or before it), with a blank line before the block unless it
/// starts a line and after it unless a newline follows. The cursor returned
/// is the byte offset just after the block.
pub open spec fn insert_toc_spec(s: Seq<char>, cursor: int, block: Seq<char>) -> (Seq<char>, int, bool) {
    match toc_block_range(s) {
        Some((a, b)) => (
            s.subrange(0, a) + block + s.subrange(b, s.len() as int),
            (byte_len(s.take(a)) + byte_len(block)) as int,
            true,
        ),
        None => {
            let c = chars_within(s, cursor);
            let pre = if c > 0 && s[c - 1] != '\n' {
                blank_line()
            } else {
                seq![]
            };
            let suf = if c < s.len() && s[c] != '\n' {
                blank_line()
            } else {
                seq![]
            };
            (
                s.subrange(0, c) + pre + block + suf + s.subrange(c, s.len() as int),
                (byte_len(s.take(c)) + pre.len() + byte_len(block)) as int,
                false,
            )
        },
    }
}

/// The byte offset just after the first `k` characters of the result, which
/// start with `head` followed by `block`.
fn cursor_after(out: &Vec<char>, k: usize, head: Ghost<Seq<char>>, block: Ghost<Seq<char>>) -> (r: usize)
    requires
        k == head@.len() + block@.len(),
        k <= out@.len(),
        out@.take(k as int) == head@ + block@,
    ensures
        r == byte_len(head@) + byte_len(block@),
{
    let res = string_of(out.as_slice());
    let n = text_byte_len(res.as_str());
    let r = byte_offset(out.as_slice(), k);
    proof {
        lemma_byte_len_concat(head@, block@);
    }
    r
}

/// A blank line is two bytes.
proof fn lemma_blank_line_bytes()
    ensures
        byte_len(blank_line()) == 2,
        byte_len(Seq::<char>::empty()) == 0,
{
    reveal_with_fuel(byte_len, 3);
    assert(blank_line().drop_last() =~= seq!['\n']);
    assert(blank_line().drop_last().drop_last() =~= Seq::<char>::empty());
}

/// The new block in place of the first TOC block `start..end` of `t`.
fn replace_block(t: &Vec<char>, b: &Vec<char>, start: usize, end: usize, heading_count: usize) -> (r: TocResult)
    requires
        toc_block_range(t@) == Some((start as int, end as int)),
    ensures
        (r.text@, r.cursor as int, r.was_update) == insert_toc_spec(t@, 0, b@),
        r.heading_count == heading_count,
{
    proof {
        lemma_block_range(t@);
    }
    let mut out: Vec<char> = Vec::new();
    extend_chars(&mut out, slice_copy(t.as_slice(), 0, start).as_slice());
    extend_chars(&mut out, b.as_slice());
    extend_chars(&mut out, slice_copy(t.as_slice(), end, t.len()).as_slice());
    let n = out.len();
    assert(start + b@.len() <= n);
    assert(out@.take(start + b@.len()) =~= t@.take(start as int) + b@);
    let cursor = cursor_after(&out, start + b.len(), Ghost(t@.take(start as int)), Ghost(b@));
    assert(out@ =~= t@.subrange(0, start as int) + b@ + t@.subrange(end as int, t@.len() as int));
    TocResult { text: string_of(out.as_slice()), cursor, was_update: true, heading_count }
}

/// The new block at the cursor of a text without a TOC block.
fn insert_at_cursor(t: &Vec<char>, b: &Vec<char>, cursor: usize, heading_count: usize) -> (r: TocResult)
    requires
        toc_block_range(t@) is None,
    ensures
        (r.text@, r.cursor as int, r.was_update) == insert_toc_spec(t@, cursor as int, b@),
        r.heading_count == heading_count,
{
    let c = chars_within_exec(t.as_slice(), cursor);
    proof {
        lemma_chars_within_bounds(t@, cursor as int);
    }
    let needs_before = c > 0 && t[c - 1] != '\n';
    let needs_after = c < t.len() && t[c] != '\n';
    let mut out: Vec<char> = Vec::new();
    extend_chars(&mut out, slice_copy(t.as_slice(), 0, c).as_slice());
    let mut pre_len: usize = 0;
    if needs_before {
        out.push('\n');
        out.push('\n');
        pre_len = 2;
    }
    extend_chars(&mut out, b.as_slice());
    if needs_after {
        out.push('\n');
        out.push('\n');
    }
    extend_chars(&mut out, slice_copy(t.as_slice(), c, t.len()).as_slice());
    let n = out.len();
    assert(c + pre_len + b@.len() <= n);
    let ghost pre = if needs_before {
        blank_line()
    } else {
        seq![]
    };
    let ghost suf = if needs_after {
        blank_line()
    } else {
        seq![]
    };
    assert(out@ =~= t@.subrange(0, c as int) + pre + b@ + suf + t@.subrange(c as int, t@.len() as int));
    let ghost head = t@.take(c as int) + pre;
    assert(out@.take(c + pre_len + b@.len()) =~= head + b@);
    proof {
        lemma_byte_len_concat(t@.take(c as int), pre);
        lemma_blank_line_bytes();
    }
    let cursor = cursor_after(&out, c + pre_len + b.len(), Ghost(head), Ghost(b@));
    TocResult { text: string_of(out.as_slice()), cursor, was_update: false, heading_count }
}

/// Put a TOC block into a text: in place of its first TOC block, or at the
/// cursor (a byte offset).
pub fn insert_toc_block(text: &str, cursor: usize, block: &str, heading_count: usize) -> (r: TocResult)
    ensures
        (r.text@, r.cursor as int, r.was_update) == insert_toc_spec(text@, cursor as int, block@),
        r.heading_count == heading_count,
{
    let t = chars_of(text);
    let b = chars_of(block);
    match find_block(&t) {
        Some((start, end)) => replace_block(&t, &b, start, end, heading_count),
        None => insert_at_cursor(&t, &b, cursor, heading_count),
    }
}

/// Insert or update the table of contents of a document: the block for its
/// headings replaces its first TOC block, or goes in at the cursor (a byte
/// offset, brought back to a character boundary).
pub fn insert_or_update_toc(text: &str, cursor: usize, options: &TocOptions) -> (r: TocResult)
    ensures
        exists|o: Seq<(u8, Seq<char>)>|
            #![trigger outline_of_text(text@, o)]
            outline_of_text(text@, o) && {
                let hs = toc_entries(o, options.min_level, options.max_level);
                &&& r.heading_count == hs.len()
                &&& (r.text@, r.cursor as int, r.was_update) == insert_toc_spec(
                    text@,
                    cursor as int,
                    toc_block_spec(toc_content_spec(hs, options.indent@, options.use_bullets)),
                )
            },
{
    let headings = extract_toc_headings(text, options);
    let block = toc_block_from_headings(&headings, options);
    insert_toc_block(text, cursor, block.as_str(), headings.len())
}

// ──────────────────────────── removing a block ───────────────────────────────

/// Space and tab.
pub open spec fn spaces_tabs() -> Seq<char> {
    seq![' ', '\t']
}

/// Space, tab, newline and carriage return.
pub open spec fn blank_chars() -> Seq<char> {
    seq![' ', '\t', '\n', '\r']
}

/// `s` without its first TOC block: the text before it loses trailing
/// spaces and tabs, the text after it leading blank characters, and a blank
/// line separates them when both remain. Unchanged without a block.
pub open spec fn remove_toc_spec(s: Seq<char>) -> Seq<char> {
    match toc_block_range(s) {
        None => s,
        Some((a, b)) => {
            let before = trim_end_matches_spec(s.subrange(0, a), spaces_tabs());
            let after = trim_start_matches_spec(s.subrange(b, s.len() as int), blank_chars());
            if before.len() > 0 && after.len() > 0 {
                before + blank_line() + after
            } else {
                before + after
            }
        },
    }
}

/// Remove the first TOC block from a document, if there is one.
pub fn remove_toc(text: &str) -> (r: String)
    ensures
        r@ == remove_toc_spec(text@),
{
    let t = chars_of(text);
    match find_block(&t) {
        None => string_of(t.as_slice()),
        Some((start, end)) => {
            proof {
                lemma_block_range(t@);
            }
            let st: Vec<char> = vec![' ', '\t'];
            let bl: Vec<char> = vec![' ', '\t', '\n', '\r'];
            assert(st@ =~= spaces_tabs());
            assert(bl@ =~= blank_chars());
            let before = trim_end_matches(slice_copy(t.as_slice(), 0, start).as_slice(), st.as_slice());
            let after = trim_start_matches(slice_copy(t.as_slice(), end, t.len()).as_slice(), bl.as_slice());
            let mut out: Vec<char> = Vec::new();
            extend_chars(&mut out, before.as_slice());
            if before.len() > 0 && after.len() > 0 {
                out.push('\n');
                out.push('\n');
            }
            extend_chars(&mut out, after.as_slice());
            assert(out@ =~= remove_toc_spec(t@));
            string_of(out.as_slice())
        },
    }
}

/// A text that holds a TOC block somewhere has a TOC block.
proof fn lemma_block_inside(p: Seq<char>, content: Seq<char>, q: Seq<char>)
    ensures
        toc_block_range(p + toc_block_spec(content) + q) is Some,
{
    let block = toc_block_spec(content);
    let t = p + block + q;
    lemma_block_markers(content);
    let sp = p.len() as int;
    let ep = sp + block.len() - toc_end().len();
    assert(t.subrange(sp, sp + toc_start().len()) =~= block.subrange(0, toc_start().len() as int));
    assert(matches_at(t, toc_start(), sp));
    assert(t.subrange(ep, ep + toc_end().len()) =~= block.subrange(
        block.len() - toc_end().len(),
        block.len() as int,
    ));
    assert(matches_at(t, toc_end(), ep));
    lemma_find_from_bounds(t, toc_start(), 0);
    let a = find_spec(t, toc_start()).unwrap();
    assert(a <= sp);
    assert(block.len() >= toc_start().len() + toc_end().len()) by {
        reveal_strlit("<!-- TOC -->");
        reveal_strlit("<!-- /TOC -->");
    }
    lemma_find_from_bounds(t, toc_end(), a);
}

/// The first occurrence from `i` is at `k` when `p` occurs at `k` and
/// nowhere in between.
proof fn lemma_find_from_exact(s: Seq<char>, p: Seq<char>, i: int, k: int)
    requires
        0 <= i <= k,
        matches_at(s, p, k),
        forall|m: int| i <= m < k ==> !matches_at(s, p, m),
    ensures
        find_from(s, p, i) == Some(k),
    decreases k - i,
{
    if i < k {
        assert(!matches_at(s, p, i));
        lemma_find_from_exact(s, p, i + 1, k);
    }
}

/// Updating a TOC block and then removing it is removing the old block:
/// the new block takes the old one's place, and `find_toc_block` finds it
/// there, as long as its content holds no end marker of its own.
pub proof fn law_update_then_remove(s: Seq<char>, cursor: int, content: Seq<char>)
    requires
        toc_block_range(s) is Some,
        find_spec(toc_block_spec(content), toc_end()) == Some(toc_block_spec(content).len() - toc_end().len()),
    ensures
        ({
            let a = toc_block_range(s).unwrap().0;
            let t = insert_toc_spec(s, cursor, toc_block_spec(content)).0;
            &&& toc_block_range(t) == Some((a, a + toc_block_spec(content).len()))
            &&& remove_toc_spec(t) == remove_toc_spec(s)
        }),
{
    let (a, b) = toc_block_range(s).unwrap();
    let blk = toc_block_spec(content);
    let l = blk.len() as int;
    let t = s.subrange(0, a) + blk + s.subrange(b, s.len() as int);
    assert(insert_toc_spec(s, cursor, blk).0 == t);
    lemma_block_range(s);
    lemma_block_markers(content);
    lemma_find_from_bounds(s, toc_start(), 0);
    lemma_find_from_bounds(blk, toc_end(), 0);
    let ns = toc_start().len() as int;
    let ne = toc_end().len() as int;
    assert(l >= ns + ne) by {
        reveal_strlit("<!-- TOC -->");
        reveal_strlit("<!-- /TOC -->");
    }
    // the start marker: first at `a`, as in `s`
    assert forall|q: int| 0 <= q < a + ns implies #[trigger] t[q] == s[q] by {
        if q >= a {
            assert(t[q] == blk[q - a]);
            assert(blk.subrange(0, ns)[q - a] == blk[q - a]);
            assert(s.subrange(a, b).subrange(0, ns)[q - a] == s[q]);
        }
    }
    assert forall|m: int| 0 <= m < a implies !matches_at(t, toc_start(), m) by {
        assert(!matches_at(s, toc_start(), m));
        if m + ns <= t.len() {
            assert(t.subrange(m, m + ns) =~= s.subrange(m, m + ns));
        }
    }
    assert(t.subrange(a, a + ns) =~= blk.subrange(0, ns));
    lemma_find_from_exact(t, toc_start(), 0, a);
    // the end marker: first at the end of the new block
    assert forall|m: int| a <= m < a + l - ne implies !matches_at(t, toc_end(), m) by {
        assert(!matches_at(blk, toc_end(), m - a));
        assert(t.subrange(m, m + ne) =~= blk.subrange(m - a, m - a + ne));
    }
    assert(t.subrange(a + l - ne, a + l) =~= blk.subrange(l - ne, l));
    lemma_find_from_exact(t, toc_end(), a, a + l - ne);
    assert(toc_block_range(t) == Some((a, a + l)));
    assert(t.subrange(0, a) =~= s.subrange(0, a));
    assert(t.subrange(a + l, t.len() as int) =~= s.subrange(b, s.len() as int));
}

/// Updating a document that has a TOC block, in bytes: with `find_toc_block`
/// giving the block's bytes `bs..be`, the new block replaces exactly that
/// stretch and the cursor is left `bs` plus the new block's byte length
/// after the start, whatever the cursor was.
pub proof fn law_update_in_bytes(s: Seq<char>, cursor: int, block: Seq<char>)
    requires
        toc_block_range(s) is Some,
    ensures
        ({
            let (a, b) = toc_block_range(s).unwrap();
            let (bs, be) = toc_block_bytes(s).unwrap();
            let (t, c, updated) = insert_toc_spec(s, cursor, block);
            &&& updated
            &&& t == s.take(a) + block + s.skip(b)
            &&& c == bs + byte_len(block)
            &&& byte_len(s.take(a)) == bs
            &&& byte_len(s.take(b)) == be
            &&& byte_len(t) == bs + byte_len(block) + (byte_len(s) - be)
        }),
{
    let (a, b) = toc_block_range(s).unwrap();
    lemma_block_range(s);
    let t = s.subrange(0, a) + block + s.subrange(b, s.len() as int);
    assert(s.take(a) =~= s.subrange(0, a));
    assert(s.skip(b) =~= s.subrange(b, s.len() as int));
    lemma_byte_len_concat(s.take(a) + block, s.skip(b));
    lemma_byte_len_concat(s.take(a), block);
    lemma_byte_len_concat(s.take(b), s.skip(b));
    assert(s.take(b) + s.skip(b) =~= s);
    assert(t =~= s.take(a) + block + s.skip(b));
}

/// Inserting or updating a TOC leaves the document with a TOC block that
/// `find_toc_block` finds, whether it replaced the first block or went in
/// at the cursor.
pub proof fn law_insert_then_find(s: Seq<char>, cursor: int, content: Seq<char>)
    ensures
        toc_block_range(insert_toc_spec(s, cursor, toc_block_spec(content)).0) is Some,
{
    let block = toc_block_spec(content);
    match toc_block_range(s) {
        Some((a, b)) => {
            lemma_block_inside(s.subrange(0, a), content, s.subrange(b, s.len() as int));
        },
        None => {
            lemma_chars_within_bounds(s, cursor);
            let c = chars_within(s, cursor);
            let pre = if c > 0 && s[c - 1] != '\n' {
                blank_line()
            } else {
                seq![]
            };
            let suf = if c < s.len() && s[c] != '\n' {
                blank_line()
            } else {
                seq![]
            };
            let t = s.subrange(0, c) + pre + block + suf + s.subrange(c, s.len() as int);
            assert(t =~= (s.subrange(0, c) + pre) + block + (suf + s.subrange(c, s.len() as int)));
            lemma_block_inside(s.subrange(0, c) + pre, content, suf + s.subrange(c, s.len() as int));
        },
    }
}

} // verus!
