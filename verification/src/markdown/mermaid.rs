//! Parsers for Mermaid diagram sources, and the choice of parser for a
//! source.
pub mod flowchart;
pub mod cache;
pub mod timeline;
pub mod journey;
pub mod mindmap;
pub mod sequence;
pub mod er_diagram;
pub mod state;
pub mod gantt;
pub mod git_graph;
pub mod class_diagram;
pub mod frontmatter;
pub mod layering;
pub mod state_layers;

use vstd::prelude::*;
use crate::markdown::mermaid::timeline::percent2;
use crate::text::{
    chars_of, extend_chars, lines, lines_spec, starts_with, starts_with_lower, starts_with_lower_spec,
    starts_with_spec, string_of, trim, trim_spec, views_of,
};

verus! {

/// Result of attempting to render a mermaid diagram.
#[derive(Debug, Clone)]
pub enum RenderResult {
    /// Successfully rendered.
    Success,
    /// Parse error with message.
    ParseError(String),
    /// Diagram type not yet supported.
    Unsupported(String),
}

/// The kinds of diagram, by the keyword of their first line.
#[derive(Debug, Clone, Copy, PartialEq, Eq, Structural)]
pub enum DiagramKind {
    /// `flowchart` or `graph`
    Flowchart,
    /// `sequenceDiagram`
    Sequence,
    /// `pie`
    Pie,
    /// `stateDiagram`
    State,
    /// `mindmap`
    Mindmap,
    /// `classDiagram`
    Class,
    /// `erDiagram`
    Er,
    /// `gantt`
    Gantt,
    /// `gitGraph`
    GitGraph,
    /// `timeline`
    Timeline,
    /// `journey`
    Journey,
}

/// The lowercase of a text, as `str::to_lowercase` gives it; it depends on
/// the text alone.
pub uninterp spec fn lowercase_of(s: Seq<char>) -> Seq<char>;

/// Calls `str::to_lowercase`, whose result is named by `lowercase_of`.
#[verifier::external_body]
fn to_lowercase(s: &str) -> (r: String)
    ensures
        r@ == lowercase_of(s@),
{
    s.to_lowercase()
}

/// The first trimmed line from index `i` on that is neither empty nor a
/// `%%` comment; empty when there is none.
pub open spec fn first_content_from(ls: Seq<Seq<char>>, i: int) -> Seq<char>
    decreases ls.len() - i,
{
    if i < 0 || i >= ls.len() {
        seq![]
    } else {
        let t = trim_spec(ls[i]);
        if t.len() > 0 && !starts_with_spec(t, percent2()) {
            t
        } else {
            first_content_from(ls, i + 1)
        }
    }
}

/// The kind named by the lowercase of a first line, tried in this order.
pub open spec fn kind_of_line(l: Seq<char>) -> Option<DiagramKind> {
    if starts_with_lower_spec(l, "flowchart"@) || starts_with_lower_spec(l, "graph"@) {
        Some(DiagramKind::Flowchart)
    } else if starts_with_lower_spec(l, "sequencediagram"@) {
        Some(DiagramKind::Sequence)
    } else if starts_with_lower_spec(l, "pie"@) {
        Some(DiagramKind::Pie)
    } else if starts_with_lower_spec(l, "statediagram"@) {
        Some(DiagramKind::State)
    } else if starts_with_lower_spec(l, "mindmap"@) {
        Some(DiagramKind::Mindmap)
    } else if starts_with_lower_spec(l, "classdiagram"@) {
        Some(DiagramKind::Class)
    } else if starts_with_lower_spec(l, "erdiagram"@) {
        Some(DiagramKind::Er)
    } else if starts_with_lower_spec(l, "gantt"@) {
        Some(DiagramKind::Gantt)
    } else if starts_with_lower_spec(l, "gitgraph"@) {
        Some(DiagramKind::GitGraph)
    } else if starts_with_lower_spec(l, "timeline"@) {
        Some(DiagramKind::Timeline)
    } else if starts_with_lower_spec(l, "journey"@) {
        Some(DiagramKind::Journey)
    } else {
        None
    }
}

/// The first line begins, in any ASCII case, with the keyword of the kind
/// as its documentation gives it.
pub open spec fn begins_with_keyword_of(k: DiagramKind, l: Seq<char>) -> bool {
    match k {
        DiagramKind::Flowchart => starts_with_lower_spec(l, "flowchart"@) || starts_with_lower_spec(l, "graph"@),
        DiagramKind::Sequence => starts_with_lower_spec(l, "sequencediagram"@),
        DiagramKind::Pie => starts_with_lower_spec(l, "pie"@),
        DiagramKind::State => starts_with_lower_spec(l, "statediagram"@),
        DiagramKind::Mindmap => starts_with_lower_spec(l, "mindmap"@),
        DiagramKind::Class => starts_with_lower_spec(l, "classdiagram"@),
        DiagramKind::Er => starts_with_lower_spec(l, "erdiagram"@),
        DiagramKind::Gantt => starts_with_lower_spec(l, "gantt"@),
        DiagramKind::GitGraph => starts_with_lower_spec(l, "gitgraph"@),
        DiagramKind::Timeline => starts_with_lower_spec(l, "timeline"@),
        DiagramKind::Journey => starts_with_lower_spec(l, "journey"@),
    }
}

/// A line names the kind whose keyword it begins with: whatever kind is
/// chosen, the line begins with that kind's keyword (`flowchart` or
/// `graph`, `sequenceDiagram`, `pie`, `stateDiagram`, `mindmap`,
/// `classDiagram`, `erDiagram`, `gantt`, `gitGraph`, `timeline`,
/// `journey`), and no kind is chosen for a line that begins with none.
pub proof fn law_kind_from_keyword(l: Seq<char>)
    ensures
        kind_of_line(l) matches Some(k) ==> begins_with_keyword_of(k, l),
        kind_of_line(l) is None <==> (forall|k: DiagramKind| !#[trigger] begins_with_keyword_of(k, l)),
{
    if kind_of_line(l) is None {
        assert forall|k: DiagramKind| !#[trigger] begins_with_keyword_of(k, l) by {
            match k {
                DiagramKind::Flowchart => {},
                _ => {},
            }
        }
    } else {
        let k = kind_of_line(l).unwrap();
        assert(begins_with_keyword_of(k, l));
    }
}

/// The first line that decides the kind of a diagram source: of the
/// trimmed source, the first trimmed line that is neither empty nor a
/// comment.
pub open spec fn first_line_spec(source: Seq<char>) -> Seq<char> {
    first_content_from(lines_spec(trim_spec(source)), 0)
}

/// The kind of a diagram line by its keyword.
pub fn kind_of(line: &[char]) -> (r: Option<DiagramKind>)
    ensures
        r == kind_of_line(line@),
{
    let words: [&str; 12] = [
        "flowchart",
        "graph",
        "sequencediagram",
        "pie",
        "statediagram",
        "mindmap",
        "classdiagram",
        "erdiagram",
        "gantt",
        "gitgraph",
        "timeline",
        "journey",
    ];
    proof {
        reveal_strlit("flowchart");
        reveal_strlit("graph");
        reveal_strlit("sequencediagram");
        reveal_strlit("pie");
        reveal_strlit("statediagram");
        reveal_strlit("mindmap");
        reveal_strlit("classdiagram");
        reveal_strlit("erdiagram");
        reveal_strlit("gantt");
        reveal_strlit("gitgraph");
        reveal_strlit("timeline");
        reveal_strlit("journey");
    }
    if starts_with_lower(line, chars_of(words[0]).as_slice()) || starts_with_lower(line, chars_of(words[1]).as_slice()) {
        Some(DiagramKind::Flowchart)
    } else if starts_with_lower(line, chars_of(words[2]).as_slice()) {
        Some(DiagramKind::Sequence)
    } else if starts_with_lower(line, chars_of(words[3]).as_slice()) {
        Some(DiagramKind::Pie)
    } else if starts_with_lower(line, chars_of(words[4]).as_slice()) {
        Some(DiagramKind::State)
    } else if starts_with_lower(line, chars_of(words[5]).as_slice()) {
        Some(DiagramKind::Mindmap)
    } else if starts_with_lower(line, chars_of(words[6]).as_slice()) {
        Some(DiagramKind::Class)
    } else if starts_with_lower(line, chars_of(words[7]).as_slice()) {
        Some(DiagramKind::Er)
    } else if starts_with_lower(line, chars_of(words[8]).as_slice()) {
        Some(DiagramKind::Gantt)
    } else if starts_with_lower(line, chars_of(words[9]).as_slice()) {
        Some(DiagramKind::GitGraph)
    } else if starts_with_lower(line, chars_of(words[10]).as_slice()) {
        Some(DiagramKind::Timeline)
    } else if starts_with_lower(line, chars_of(words[11]).as_slice()) {
        Some(DiagramKind::Journey)
    } else {
        None
    }
}

/// The first line that decides the kind of a diagram source.
pub fn first_line(source: &str) -> (r: String)
    ensures
        r@ == first_line_spec(source@),
{
    let src = chars_of(source);
    let t = trim(src.as_slice());
    let ls = lines(t.as_slice());
    let ghost lv = lines_spec(t@);
    let pct: Vec<char> = vec!['%', '%'];
    assert(pct@ =~= percent2());
    let mut i: usize = 0;
    while i < ls.len()
        invariant
            i <= ls@.len(),
            views_of(ls@) == lv,
            lv == lines_spec(trim_spec(source@)),
            pct@ == percent2(),
            first_content_from(lv, i as int) == first_content_from(lv, 0),
        decreases ls@.len() - i,
    {
        assert(lv[i as int] == ls@[i as int]@);
        let l = trim(ls[i].as_slice());
        if l.len() > 0 && !starts_with(l.as_slice(), pct.as_slice()) {
            return string_of(l.as_slice());
        }
        i = i + 1;
    }
    assert(views_of(ls@).len() == ls@.len());
    String::new()
}

/// The error for a source of no known kind, from the lowercase of its
/// first line.
pub fn unknown_type_error(first_line_lower: &str) -> (r: RenderResult)
    ensures
        r matches RenderResult::ParseError(m) && m@ == "Unknown diagram type: "@ + first_line_lower@,
{
    let mut v = chars_of("Unknown diagram type: ");
    let l = chars_of(first_line_lower);
    extend_chars(&mut v, l.as_slice());
    RenderResult::ParseError(string_of(v.as_slice()))
}

/// Which parser a diagram source needs, by the keyword of its first line
/// that is neither blank nor a comment; the error for an empty source or
/// an unknown keyword.
pub fn diagram_kind(source: &str) -> (r: Result<DiagramKind, RenderResult>)
    ensures
        trim_spec(source@).len() == 0 ==> (r matches Err(RenderResult::ParseError(m)) && m@
            == "Empty diagram source"@),
        trim_spec(source@).len() > 0 ==> match kind_of_line(lowercase_of(first_line_spec(source@))) {
            Some(k) => r == Ok::<DiagramKind, RenderResult>(k),
            None => (r matches Err(RenderResult::ParseError(m)) && m@ == "Unknown diagram type: "@
                + lowercase_of(first_line_spec(source@))),
        },
{
    let src = chars_of(source);
    let t = trim(src.as_slice());
    if t.len() == 0 {
        return Err(RenderResult::ParseError(String::from_str("Empty diagram source")));
    }
    let line = first_line(source);
    let lower = to_lowercase(line.as_str());
    let lc = chars_of(lower.as_str());
    match kind_of(lc.as_slice()) {
        Some(k) => Ok(k),
        None => Err(unknown_type_error(lower.as_str())),
    }
}

} // verus!
