//! The boundary with comrak: running its parser and reading its tree as a
//! walk of plain events. Nothing here is proved; each item says what it
//! claims of comrak.
use vstd::prelude::*;
use comrak::arena_tree::NodeEdge;
use comrak::nodes::{ListDelimType, NodeValue};
use crate::markdown::events::{events_bounded, events_form_tree, RawDelimiter, RawEvent, RawListKind, RawValue};
use crate::markdown::parser::{MarkdownOptions, MarkdownOptionsView, TableAlignment};

verus! {

/// comrak's node value, carried through opaquely.
#[verifier::external_type_specification]
#[verifier::external_body]
pub struct ExNodeValue(comrak::nodes::NodeValue);

/// comrak's parser options, carried through opaquely.
#[verifier::external_type_specification]
#[verifier::external_body]
pub struct ExComrakOptions<'c>(comrak::Options<'c>);

/// The walk that comrak's `parse_document` followed by `Node::traverse` on
/// the root gives for `markdown` under `options`: its result depends on these
/// arguments alone.
pub uninterp spec fn comrak_events(markdown: Seq<char>, options: MarkdownOptionsView) -> Seq<RawEvent>;

/// comrak's `Options` for the editor's options: `Options::default()` with
/// the extension switches, the front matter delimiter and the heading id
/// prefix copied over. The URL safety switch belongs to comrak's HTML
/// rendering, which parsing does not read, so it is not passed. Nothing is
/// stated of the opaque result.
#[verifier::external_body]
fn comrak_options(o: &MarkdownOptions) -> comrak::Options<'static> {
    let mut options = comrak::Options::default();
    options.extension.strikethrough = o.strikethrough;
    options.extension.table = o.tables;
    options.extension.autolink = o.autolink;
    options.extension.tasklist = o.tasklist;
    options.extension.superscript = o.superscript;
    options.extension.footnotes = o.footnotes;
    options.extension.description_lists = o.description_lists;
    options.extension.front_matter_delimiter = o.front_matter_delimiter.clone();
    options.extension.header_id_prefix = o.header_ids.clone();
    options
}

/// Reads a comrak container value (document, front matter, quotes, items,
/// description lists) as plain data; `None` for other kinds. Nothing is
/// stated of the opaque argument.
#[verifier::external_body]
fn container_value(v: &NodeValue) -> Option<RawValue> {
    match v {
        NodeValue::Document => Some(RawValue::Document),
        NodeValue::FrontMatter(s) => Some(RawValue::FrontMatter(s.clone())),
        NodeValue::BlockQuote => Some(RawValue::BlockQuote),
        NodeValue::Item(_) => Some(RawValue::Item),
        NodeValue::DescriptionList => Some(RawValue::DescriptionList),
        NodeValue::DescriptionItem(_) => Some(RawValue::DescriptionItem),
        NodeValue::DescriptionTerm => Some(RawValue::DescriptionTerm),
        NodeValue::DescriptionDetails => Some(RawValue::DescriptionDetails),
        _ => None,
    }
}

/// Reads a comrak list value as plain data (its kind, start number,
/// delimiter and tightness); `None` for other kinds.
#[verifier::external_body]
fn list_value(v: &NodeValue) -> Option<RawValue> {
    match v {
        NodeValue::List(l) => Some(RawValue::List {
            kind: match l.list_type {
                comrak::nodes::ListType::Bullet => RawListKind::Bullet,
                comrak::nodes::ListType::Ordered => RawListKind::Ordered,
            },
            start: l.start,
            delimiter: match l.delimiter {
                ListDelimType::Period => RawDelimiter::Period,
                ListDelimType::Paren => RawDelimiter::Paren,
            },
            tight: l.tight,
        }),
        _ => None,
    }
}

/// Reads a comrak leaf block value (code and HTML blocks, paragraphs,
/// headings, rules, footnote definitions, table rows and cells) as plain
/// data; `None` for other kinds.
#[verifier::external_body]
fn block_value(v: &NodeValue) -> Option<RawValue> {
    match v {
        NodeValue::CodeBlock(c) => Some(RawValue::CodeBlock { info: c.info.clone(), literal: c.literal.clone() }),
        NodeValue::HtmlBlock(h) => Some(RawValue::HtmlBlock(h.literal.clone())),
        NodeValue::Paragraph => Some(RawValue::Paragraph),
        NodeValue::Heading(h) => Some(RawValue::Heading { level: h.level, setext: h.setext }),
        NodeValue::ThematicBreak => Some(RawValue::ThematicBreak),
        NodeValue::FootnoteDefinition(d) => Some(RawValue::FootnoteDefinition(d.name.clone())),
        NodeValue::TableRow(header) => Some(RawValue::TableRow(*header)),
        NodeValue::TableCell => Some(RawValue::TableCell),
        _ => None,
    }
}

/// Reads a comrak table value (its column alignments and column count) as
/// plain data; `None` for other kinds.
#[verifier::external_body]
fn table_value(v: &NodeValue) -> Option<RawValue> {
    match v {
        NodeValue::Table(t) => Some(RawValue::Table {
            alignments: t.alignments.iter().map(|a| match a {
                comrak::nodes::TableAlignment::None => TableAlignment::Unaligned,
                comrak::nodes::TableAlignment::Left => TableAlignment::Left,
                comrak::nodes::TableAlignment::Center => TableAlignment::Center,
                comrak::nodes::TableAlignment::Right => TableAlignment::Right,
            }).collect(),
            num_columns: t.num_columns,
        }),
        _ => None,
    }
}

/// Reads a comrak inline value (text, task marks, breaks, code spans, inline
/// HTML, emphasis kinds) as plain data; `None` for other kinds.
#[verifier::external_body]
fn inline_value(v: &NodeValue) -> Option<RawValue> {
    match v {
        NodeValue::Text(t) => Some(RawValue::Text(t.to_string())),
        NodeValue::TaskItem(t) => Some(RawValue::TaskItem(t.symbol)),
        NodeValue::SoftBreak => Some(RawValue::SoftBreak),
        NodeValue::LineBreak => Some(RawValue::LineBreak),
        NodeValue::Code(c) => Some(RawValue::Code(c.literal.clone())),
        NodeValue::HtmlInline(h) => Some(RawValue::HtmlInline(h.clone())),
        NodeValue::Emph => Some(RawValue::Emph),
        NodeValue::Strong => Some(RawValue::Strong),
        NodeValue::Strikethrough => Some(RawValue::Strikethrough),
        NodeValue::Superscript => Some(RawValue::Superscript),
        _ => None,
    }
}

/// Reads a comrak link, image or footnote reference value as plain data;
/// `None` for other kinds.
#[verifier::external_body]
fn link_value(v: &NodeValue) -> Option<RawValue> {
    match v {
        NodeValue::Link(l) => Some(RawValue::Link { url: l.url.clone(), title: l.title.clone() }),
        NodeValue::Image(l) => Some(RawValue::Image { url: l.url.clone(), title: l.title.clone() }),
        NodeValue::FootnoteReference(r) => Some(RawValue::FootnoteReference(r.name.clone())),
        _ => None,
    }
}

/// A comrak node value as plain data; kinds the editor does not distinguish
/// are `Other`.
fn raw_value(v: &NodeValue) -> RawValue {
    if let Some(r) = container_value(v) {
        return r;
    }
    if let Some(r) = list_value(v) {
        return r;
    }
    if let Some(r) = block_value(v) {
        return r;
    }
    if let Some(r) = table_value(v) {
        return r;
    }
    if let Some(r) = inline_value(v) {
        return r;
    }
    if let Some(r) = link_value(v) {
        return r;
    }
    RawValue::Other
}

/// The opening event of a comrak node with the given value and lines.
fn open_event(v: &NodeValue, start_line: usize, end_line: usize) -> (e: RawEvent)
    ensures
        e matches RawEvent::Open { start_line: s, end_line: t, .. } && s == start_line && t == end_line,
{
    RawEvent::Open { value: raw_value(v), start_line, end_line }
}

/// Parses `markdown` with comrak's `parse_document` and walks the tree with
/// `Node::traverse` from the root: an opening event (value and first and
/// last source line) when a node starts, a closing event after its
/// descendants. The result is named by `comrak_events`; as `traverse` goes,
/// it opens with the root, closes it last, and closes every node it opens.
/// The parser numbers the lines it reads, one per line ending (`\n`, `\r`
/// or `\r\n`) and one for a last unterminated line, after counting the
/// newlines of any front matter; every node's lines lie among them, so no
/// line number exceeds the number of characters plus one. Front matter is
/// carried as the slice of the input it was split off from.
#[verifier::external_body]
pub(crate) fn comrak_parse(markdown: &str, options: &MarkdownOptions) -> (r: Vec<RawEvent>)
    ensures
        r@ == comrak_events(markdown@, options@),
        events_form_tree(r@),
        events_bounded(r@, markdown@.len() + 1int),
{
    let arena = comrak::Arena::new();
    let root = comrak::parse_document(&arena, markdown, &comrak_options(options));
    root.traverse().map(|edge| match edge {
        NodeEdge::Start(n) => open_event(&n.data().value, n.data().sourcepos.start.line, n.data().sourcepos.end.line),
        NodeEdge::End(_) => RawEvent::Close,
    }).collect()
}

} // verus!
