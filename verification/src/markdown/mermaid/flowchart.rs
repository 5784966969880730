//! Flowchart diagram model and the parsing of its headers and node texts.
use vstd::prelude::*;
use crate::text::{
    lower_code,
    char_is_alphanumeric, chars_of, contains, contains_spec, eq_ci, eq_ci_spec, find, find_spec,
    is_alphanumeric, replace, replace_spec, rfind_char, rfind_char_spec, slice_copy, split_whitespace,
    split_whitespace_spec, string_of, trim, trim_end, trim_end_spec, trim_spec, views_of,
    lemma_find_from_bounds, lemma_rfind_bounds, find_char, matches_at, contains_char, starts_with,
    starts_with_spec, split_char, split_char_spec, char_is_whitespace, is_whitespace,
    starts_with_lower, starts_with_lower_spec, eq_lower, eq_lower_spec, next_ws_from, next_ws_index, lemma_next_ws_bounds,
    parse_usize, parse_usize_spec, ends_with, ends_with_spec, decimal, decimal_spec, push_char,
    extend_chars, rfind_char_before, is_ascii_alpha, trim_start, trim_start_spec, lines, lines_spec,
};
use crate::markdown::mermaid::journey::trimmed_all;
use crate::markdown::mermaid::timeline::{strings_view, trimmed_nonempty};

verus! {

/// Direction of the flowchart layout.
#[derive(Debug, Clone, Copy, PartialEq, Eq, Structural)]
pub enum FlowDirection {
    /// `TD` or `TB`
    TopDown,
    /// `BT`
    BottomUp,
    /// `LR`
    LeftRight,
    /// `RL`
    RightLeft,
}

impl Default for FlowDirection {
    fn default() -> (r: Self)
        ensures
            r == FlowDirection::TopDown,
    {
        FlowDirection::TopDown
    }
}

/// Shape of a flowchart node.
#[derive(Debug, Clone, Copy, PartialEq, Eq, Structural)]
pub enum NodeShape {
    /// `[text]`
    Rectangle,
    /// `(text)`
    RoundRect,
    /// `([text])`
    Stadium,
    /// `{text}`
    Diamond,
    /// `{{text}}`
    Hexagon,
    /// `[/text/]`
    Parallelogram,
    /// `((text))`
    Circle,
    /// `[(text)]`
    Cylinder,
    /// `[[text]]`
    Subroutine,
    /// `>text]`
    Asymmetric,
}

impl Default for NodeShape {
    fn default() -> (r: Self)
        ensures
            r == NodeShape::Rectangle,
    {
        NodeShape::Rectangle
    }
}

/// A node in the flowchart.
#[derive(Debug, Clone)]
pub struct FlowNode {
    pub id: String,
    pub label: String,
    pub shape: NodeShape,
}

/// Style of an edge line.
#[derive(Debug, Clone, Copy, PartialEq, Eq, Structural)]
pub enum EdgeStyle {
    /// `---`
    Solid,
    /// `-.-`
    Dotted,
    /// `===`
    Thick,
}

/// Type of arrow head.
#[derive(Debug, Clone, Copy, PartialEq, Eq, Structural)]
pub enum ArrowHead {
    /// `>`
    Arrow,
    /// `o`
    Circle,
    /// `x`
    Cross,
    /// no head (`---`)
    NoArrow,
}

/// An edge connecting two nodes.
#[derive(Debug, Clone)]
pub struct FlowEdge {
    pub from: String,
    pub to: String,
    pub label: Option<String>,
    pub style: EdgeStyle,
    pub arrow_start: ArrowHead,
    pub arrow_end: ArrowHead,
}

/// A subgraph (cluster) in a flowchart.
#[derive(Debug, Clone)]
pub struct FlowSubgraph {
    /// Unique identifier for the subgraph
    pub id: String,
    /// Display title (may differ from id)
    pub title: Option<String>,
    /// IDs of nodes directly contained in this subgraph
    pub node_ids: Vec<String>,
    /// IDs of nested subgraphs
    pub child_subgraph_ids: Vec<String>,
    /// Optional direction override for this subgraph
    pub direction: Option<FlowDirection>,
}

// ─────────────────────────────── specifications ──────────────────────────────

/// `s` without one trailing `;`, then without trailing whitespace.
pub open spec fn strip_semi_spec(s: Seq<char>) -> Seq<char> {
    if s.len() > 0 && s.last() == ';' {
        trim_end_spec(s.drop_last())
    } else {
        trim_end_spec(s)
    }
}

/// The direction named by a flowchart header such as `flowchart LR;`: the
/// second whitespace-separated word (trailing `;` removed) compared without
/// regard to ASCII case; `TopDown` when absent or unknown.
pub open spec fn direction_spec(header: Seq<char>) -> FlowDirection {
    let parts = split_whitespace_spec(strip_semi_spec(header));
    if parts.len() > 1 {
        let d = strip_semi_spec(parts[1]);
        if eq_ci_spec(d, seq!['T', 'D']) || eq_ci_spec(d, seq!['T', 'B']) {
            FlowDirection::TopDown
        } else if eq_ci_spec(d, seq!['B', 'T']) {
            FlowDirection::BottomUp
        } else if eq_ci_spec(d, seq!['L', 'R']) {
            FlowDirection::LeftRight
        } else if eq_ci_spec(d, seq!['R', 'L']) {
            FlowDirection::RightLeft
        } else {
            FlowDirection::TopDown
        }
    } else {
        FlowDirection::TopDown
    }
}

/// Length of the longest prefix of `s` made of alphanumeric characters and `_`.
pub open spec fn id_prefix_len(s: Seq<char>, i: int) -> int
    decreases s.len() - i,
{
    if i < 0 || i >= s.len() {
        s.len() as int
    } else if char_is_alphanumeric(s[i]) || s[i] == '_' {
        id_prefix_len(s, i + 1)
    } else {
        i
    }
}

/// The node id: `id` itself, or when it is empty the leading run of
/// alphanumeric characters and underscores of the whole node text.
pub open spec fn extract_id_spec(id: Seq<char>, full: Seq<char>) -> Seq<char> {
    if id.len() == 0 {
        full.subrange(0, id_prefix_len(full, 0))
    } else {
        id
    }
}

/// A label with HTML line breaks (`<br/>`, `<br>`, `<br />`) turned into
/// newlines.
pub open spec fn clean_label_spec(label: Seq<char>) -> Seq<char> {
    replace_spec(
        replace_spec(
            replace_spec(label, "<br/>"@, seq!['\n']),
            "<br>"@,
            seq!['\n'],
        ),
        "<br />"@,
        seq!['\n'],
    )
}

/// Position of the first occurrence (a `find` that is known to succeed).
pub open spec fn pos(t: Seq<char>, p: Seq<char>) -> int {
    find_spec(t, p)->0
}

/// Position of the last occurrence of `c`.
pub open spec fn rpos(t: Seq<char>, c: char) -> int {
    rfind_char_spec(t, c)->0
}

/// The node of a delimited shape whose label spans `t[a..b]` and whose id
/// is the text before `start`.
pub open spec fn shaped(t: Seq<char>, start: int, a: int, b: int, shape: NodeShape) -> (
    Seq<char>,
    Seq<char>,
    NodeShape,
) {
    (
        extract_id_spec(trim_spec(t.subrange(0, start)), t),
        clean_label_spec(trim_spec(t.subrange(a, b))),
        shape,
    )
}

/// The two-character delimiters that are tried first, in order.
pub open spec fn has_pair(t: Seq<char>, open: Seq<char>, close: Seq<char>) -> bool {
    contains_spec(t, open) && contains_spec(t, close)
}

pub open spec fn is_diamond(t: Seq<char>) -> bool {
    contains_spec(t, seq!['{']) && contains_spec(t, seq!['}']) && !contains_spec(t, "{{"@)
}

pub open spec fn is_round(t: Seq<char>) -> bool {
    contains_spec(t, seq!['(']) && contains_spec(t, seq![')']) && !contains_spec(t, "(("@)
        && !contains_spec(t, "(["@) && !contains_spec(t, "[("@)
}

pub open spec fn is_rect(t: Seq<char>) -> bool {
    contains_spec(t, seq!['[']) && contains_spec(t, seq![']']) && !contains_spec(t, "[["@)
        && !contains_spec(t, "[("@) && !contains_spec(t, "(["@)
}

pub open spec fn is_asym(t: Seq<char>) -> bool {
    contains_spec(t, seq!['>']) && contains_spec(t, seq![']']) && pos(t, seq!['>']) < rpos(t, ']')
}

/// The node text once trimmed and stripped of a trailing `;`.
pub open spec fn node_text(text: Seq<char>) -> Seq<char> {
    strip_semi_spec(trim_spec(text))
}

/// The inputs on which the node-text parser would slice backwards (its
/// closing delimiter found before the opening one) and panic.
pub open spec fn node_text_panics(text: Seq<char>) -> bool {
    let t = node_text(text);
    if t.len() == 0 {
        false
    } else if has_pair(t, "(["@, "])"@) {
        pos(t, "])"@) < pos(t, "(["@) + 2
    } else if has_pair(t, "(("@, "))"@) {
        pos(t, "))"@) < pos(t, "(("@) + 2
    } else if has_pair(t, "[("@, ")]"@) {
        pos(t, ")]"@) < pos(t, "[("@) + 2
    } else if has_pair(t, "[["@, "]]"@) {
        pos(t, "]]"@) < pos(t, "[["@) + 2
    } else if has_pair(t, "{{"@, "}}"@) {
        pos(t, "}}"@) < pos(t, "{{"@) + 2
    } else if is_diamond(t) {
        rpos(t, '}') < pos(t, seq!['{']) + 1
    } else if is_round(t) {
        rpos(t, ')') < pos(t, seq!['(']) + 1
    } else if is_rect(t) {
        rpos(t, ']') < pos(t, seq!['[']) + 1
    } else {
        false
    }
}

/// The node of the first matching two-character delimiter pair:
/// `(( ))`, `[( )]`, `[[ ]]`, `{{ }}`.
pub open spec fn pair_shape_spec(t: Seq<char>) -> Option<(Seq<char>, Seq<char>, NodeShape)> {
    if has_pair(t, "(("@, "))"@) {
        Some(shaped(t, pos(t, "(("@), pos(t, "(("@) + 2, pos(t, "))"@), NodeShape::Circle))
    } else if has_pair(t, "[("@, ")]"@) {
        Some(shaped(t, pos(t, "[("@), pos(t, "[("@) + 2, pos(t, ")]"@), NodeShape::Cylinder))
    } else if has_pair(t, "[["@, "]]"@) {
        Some(shaped(t, pos(t, "[["@), pos(t, "[["@) + 2, pos(t, "]]"@), NodeShape::Subroutine))
    } else if has_pair(t, "{{"@, "}}"@) {
        Some(shaped(t, pos(t, "{{"@), pos(t, "{{"@) + 2, pos(t, "}}"@), NodeShape::Hexagon))
    } else {
        None
    }
}

/// The node of the first matching single-character delimiters:
/// `{ }`, `( )`, `[ ]`, `> ]`.
pub open spec fn single_shape_spec(t: Seq<char>) -> Option<(Seq<char>, Seq<char>, NodeShape)> {
    if is_diamond(t) {
        Some(shaped(t, pos(t, seq!['{']), pos(t, seq!['{']) + 1, rpos(t, '}'), NodeShape::Diamond))
    } else if is_round(t) {
        Some(shaped(t, pos(t, seq!['(']), pos(t, seq!['(']) + 1, rpos(t, ')'), NodeShape::RoundRect))
    } else if is_rect(t) {
        Some(shaped(t, pos(t, seq!['[']), pos(t, seq!['[']) + 1, rpos(t, ']'), NodeShape::Rectangle))
    } else if is_asym(t) {
        Some(shaped(t, pos(t, seq!['>']), pos(t, seq!['>']) + 1, rpos(t, ']'), NodeShape::Asymmetric))
    } else {
        None
    }
}

/// A node text without delimiters: its first word (trailing `;` removed)
/// is both id and label.
pub open spec fn plain_node_spec(t: Seq<char>) -> (Seq<char>, Seq<char>, NodeShape) {
    let words = split_whitespace_spec(t);
    let first = if words.len() > 0 {
        words[0]
    } else {
        t
    };
    let id = strip_semi_spec(first);
    (id, id, NodeShape::Rectangle)
}

/// The stadium node `id([label])`.
pub open spec fn stadium_spec(t: Seq<char>) -> (Seq<char>, Seq<char>, NodeShape) {
    let s = pos(t, "(["@);
    let id = trim_spec(t.subrange(0, s));
    let id = if id.len() == 0 {
        t.subrange(0, if s > 1 { s } else { 1 })
    } else {
        id
    };
    (id, clean_label_spec(trim_spec(t.subrange(s + 2, pos(t, "])"@)))), NodeShape::Stadium)
}

/// The node (id, label, shape) that a node text such as `A[Start]`,
/// `B{Decision}` or `C((Circle))` denotes; `None` for blank text.  The
/// delimiters are tried in this order: `([ ])`, `(( ))`, `[( )]`, `[[ ]]`,
/// `{{ }}`, `{ }`, `( )`, `[ ]`, `> ]`; text without any is a plain id.
pub open spec fn parse_node_spec(text: Seq<char>) -> Option<(Seq<char>, Seq<char>, NodeShape)> {
    let t = node_text(text);
    if t.len() == 0 {
        None
    } else if has_pair(t, "(["@, "])"@) {
        Some(stadium_spec(t))
    } else if pair_shape_spec(t) is Some {
        pair_shape_spec(t)
    } else if single_shape_spec(t) is Some {
        single_shape_spec(t)
    } else {
        Some(plain_node_spec(t))
    }
}

/// A node's shape is drawn by delimiters its text holds: `([ ])` a stadium,
/// `(( ))` a circle, `[( )]` a cylinder, `[[ ]]` a subroutine, `{{ }}` a
/// hexagon, `{ }` a diamond, `( )` a rounded rectangle, `> ]` an asymmetric
/// shape; a rectangle is either written `[ ]` or is a plain id, labelled
/// by the id itself.
pub proof fn law_node_shape_from_delimiters(text: Seq<char>)
    ensures
        parse_node_spec(text) matches Some((id, label, shape)) ==> ({
            let t = node_text(text);
            &&& (shape == NodeShape::Stadium ==> contains_spec(t, "(["@) && contains_spec(t, "])"@))
            &&& (shape == NodeShape::Circle ==> contains_spec(t, "(("@) && contains_spec(t, "))"@))
            &&& (shape == NodeShape::Cylinder ==> contains_spec(t, "[("@) && contains_spec(t, ")]"@))
            &&& (shape == NodeShape::Subroutine ==> contains_spec(t, "[["@) && contains_spec(t, "]]"@))
            &&& (shape == NodeShape::Hexagon ==> contains_spec(t, "{{"@) && contains_spec(t, "}}"@))
            &&& (shape == NodeShape::Diamond ==> contains_spec(t, seq!['{']) && contains_spec(t, seq!['}']))
            &&& (shape == NodeShape::RoundRect ==> contains_spec(t, seq!['(']) && contains_spec(t, seq![')']))
            &&& (shape == NodeShape::Asymmetric ==> contains_spec(t, seq!['>']) && contains_spec(t, seq![']']))
            &&& (shape == NodeShape::Rectangle ==> (contains_spec(t, seq!['[']) && contains_spec(t, seq![']']))
                || label == id)
            &&& shape != NodeShape::Parallelogram
        }),
{
}

/// The direction of a flowchart is named by the word after the keyword
/// (a trailing `;` removed, in any ASCII case): `BT` bottom-up, `LR` left to
/// right, `RL` right to left; anything else, `TD` and `TB` among it, or no
/// word at all, top-down.
pub proof fn law_direction_from_word(header: Seq<char>)
    ensures
        ({
            let parts = split_whitespace_spec(strip_semi_spec(header));
            let d = if parts.len() > 1 {
                strip_semi_spec(parts[1])
            } else {
                seq![]
            };
            &&& (direction_spec(header) == FlowDirection::BottomUp <==> eq_ci_spec(d, seq!['B', 'T']))
            &&& (direction_spec(header) == FlowDirection::LeftRight <==> eq_ci_spec(d, seq!['L', 'R']))
            &&& (direction_spec(header) == FlowDirection::RightLeft <==> eq_ci_spec(d, seq!['R', 'L']))
            &&& (direction_spec(header) == FlowDirection::TopDown <==> !eq_ci_spec(d, seq!['B', 'T'])
                && !eq_ci_spec(d, seq!['L', 'R']) && !eq_ci_spec(d, seq!['R', 'L']))
        }),
{
    let parts = split_whitespace_spec(strip_semi_spec(header));
    let d = if parts.len() > 1 {
        strip_semi_spec(parts[1])
    } else {
        seq![]
    };
    if d.len() == 2 {
        let c0 = lower_code(d[0]);
        let c1 = lower_code(d[1]);
        assert(eq_ci_spec(d, seq!['T', 'D']) ==> c0 == lower_code('T') && c1 == lower_code('D'));
        assert(eq_ci_spec(d, seq!['T', 'B']) ==> c0 == lower_code('T') && c1 == lower_code('B'));
        assert(eq_ci_spec(d, seq!['B', 'T']) ==> c0 == lower_code('B') && c1 == lower_code('T'));
        assert(eq_ci_spec(d, seq!['L', 'R']) ==> c0 == lower_code('L') && c1 == lower_code('R'));
        assert(eq_ci_spec(d, seq!['R', 'L']) ==> c0 == lower_code('R') && c1 == lower_code('L'));
    }
}

/// The view of a parsed node.
pub open spec fn node_view(r: Option<(String, String, NodeShape)>) -> Option<(Seq<char>, Seq<char>, NodeShape)> {
    match r {
        Some((i, l, s)) => Some((i@, l@, s)),
        None => None,
    }
}

// ─────────────────────────────── implementation ──────────────────────────────

/// Strip one trailing semicolon, then trailing whitespace.
pub fn strip_trailing_semicolon(s: &[char]) -> (r: Vec<char>)
    ensures
        r@ == strip_semi_spec(s@),
{
    if s.len() > 0 && s[s.len() - 1] == ';' {
        let t = &s[0..s.len() - 1];
        assert(t@ =~= s@.drop_last());
        trim_end(t)
    } else {
        trim_end(s)
    }
}

/// The direction given by a flowchart header line.
pub fn parse_direction(header: &str) -> (d: FlowDirection)
    ensures
        d == direction_spec(header@),
{
    let h = chars_of(header);
    direction_of(&h)
}

/// [`parse_direction`] on characters.
pub fn direction_of(header: &[char]) -> (d: FlowDirection)
    ensures
        d == direction_spec(header@),
{
    let h = strip_trailing_semicolon(header);
    let parts = split_whitespace(&h);
    proof {
        assert(views_of(parts@).len() == parts@.len());
    }
    if parts.len() > 1 {
        assert(views_of(parts@)[1] == parts@[1]@);
        let d = strip_trailing_semicolon(parts[1].as_slice());
        let td = ['T', 'D'];
        let tb = ['T', 'B'];
        let bt = ['B', 'T'];
        let lr = ['L', 'R'];
        let rl = ['R', 'L'];
        assert(td@ =~= seq!['T', 'D']);
        assert(tb@ =~= seq!['T', 'B']);
        assert(bt@ =~= seq!['B', 'T']);
        assert(lr@ =~= seq!['L', 'R']);
        assert(rl@ =~= seq!['R', 'L']);
        if eq_ci(&d, &td) || eq_ci(&d, &tb) {
            FlowDirection::TopDown
        } else if eq_ci(&d, &bt) {
            FlowDirection::BottomUp
        } else if eq_ci(&d, &lr) {
            FlowDirection::LeftRight
        } else if eq_ci(&d, &rl) {
            FlowDirection::RightLeft
        } else {
            FlowDirection::TopDown
        }
    } else {
        FlowDirection::TopDown
    }
}

/// The node id: `id` itself, or when empty the leading run of alphanumeric
/// characters and underscores of `full_text`.
pub fn extract_id(id: &[char], full_text: &[char]) -> (r: Vec<char>)
    ensures
        r@ == extract_id_spec(id@, full_text@),
{
    if id.len() == 0 {
        let mut k: usize = 0;
        while k < full_text.len() && (is_alphanumeric(full_text[k]) || full_text[k] == '_')
            invariant
                k <= full_text@.len(),
                id_prefix_len(full_text@, k as int) == id_prefix_len(full_text@, 0),
            decreases full_text@.len() - k,
        {
            k = k + 1;
        }
        slice_copy(full_text, 0, k)
    } else {
        slice_copy(id, 0, id.len())
    }
}

/// Turn HTML line breaks in a label into newlines.
pub fn clean_label(label: &[char]) -> (r: Vec<char>)
    ensures
        r@ == clean_label_spec(label@),
{
    let br1 = chars_of("<br/>");
    let br2 = chars_of("<br>");
    let br3 = chars_of("<br />");
    proof {
        reveal_strlit("<br/>");
        reveal_strlit("<br>");
        reveal_strlit("<br />");
    }
    let nl = ['\n'];
    assert(nl@ =~= seq!['\n']);
    let a = replace(label, &br1, &nl);
    let b = replace(&a, &br2, &nl);
    replace(&b, &br3, &nl)
}

/// The node of a delimited shape whose label spans `t[a..b]`.
fn make_shaped(t: &[char], start: usize, a: usize, b: usize, shape: NodeShape) -> (r: (
    String,
    String,
    NodeShape,
))
    requires
        start <= a <= b <= t@.len(),
    ensures
        (r.0@, r.1@, r.2) == shaped(t@, start as int, a as int, b as int, shape),
{
    let id = trim(&t[0..start]);
    let label = trim(&t[a..b]);
    let id = extract_id(&id, t);
    let label = clean_label(&label);
    (string_of(&id), string_of(&label), shape)
}

proof fn lemma_pos_found(t: Seq<char>, p: Seq<char>)
    requires
        contains_spec(t, p),
    ensures
        0 <= pos(t, p),
        pos(t, p) + p.len() <= t.len(),
        matches_at(t, p, pos(t, p)),
{
    lemma_find_from_bounds(t, p, 0);
}

proof fn lemma_rpos_found(t: Seq<char>, c: char)
    requires
        contains_spec(t, seq![c]),
    ensures
        rfind_char_spec(t, c) is Some,
        0 <= rpos(t, c) < t.len(),
        t[rpos(t, c)] == c,
{
    lemma_find_from_bounds(t, seq![c], 0);
    let k = pos(t, seq![c]);
    assert(t.subrange(k, k + 1)[0] == t[k]);
    lemma_rfind_bounds(t, c, t.len() as int);
}

/// The node of the first matching two-character delimiter pair.
fn parse_pair_shape(t: &[char]) -> (r: Option<(String, String, NodeShape)>)
    requires
        !has_pair(t@, "(["@, "])"@),
        has_pair(t@, "(("@, "))"@) ==> pos(t@, "))"@) >= pos(t@, "(("@) + 2,
        !has_pair(t@, "(("@, "))"@) && has_pair(t@, "[("@, ")]"@) ==> pos(t@, ")]"@) >= pos(t@, "[("@) + 2,
        !has_pair(t@, "(("@, "))"@) && !has_pair(t@, "[("@, ")]"@) && has_pair(t@, "[["@, "]]"@)
            ==> pos(t@, "]]"@) >= pos(t@, "[["@) + 2,
        !has_pair(t@, "(("@, "))"@) && !has_pair(t@, "[("@, ")]"@) && !has_pair(t@, "[["@, "]]"@)
            && has_pair(t@, "{{"@, "}}"@) ==> pos(t@, "}}"@) >= pos(t@, "{{"@) + 2,
    ensures
        node_view(r) == pair_shape_spec(t@),
{
    let pats: [([char; 2], [char; 2], NodeShape); 4] = [
        (['(', '('], [')', ')'], NodeShape::Circle),
        (['[', '('], [')', ']'], NodeShape::Cylinder),
        (['[', '['], [']', ']'], NodeShape::Subroutine),
        (['{', '{'], ['}', '}'], NodeShape::Hexagon),
    ];
    proof {
        reveal_strlit("((");
        reveal_strlit("))");
        reveal_strlit("[(");
        reveal_strlit(")]");
        reveal_strlit("[[");
        reveal_strlit("]]");
        reveal_strlit("{{");
        reveal_strlit("}}");
        assert(pats@[0].0@ =~= "(("@);
        assert(pats@[0].1@ =~= "))"@);
        assert(pats@[1].0@ =~= "[("@);
        assert(pats@[1].1@ =~= ")]"@);
        assert(pats@[2].0@ =~= "[["@);
        assert(pats@[2].1@ =~= "]]"@);
        assert(pats@[3].0@ =~= "{{"@);
        assert(pats@[3].1@ =~= "}}"@);
    }
    let mut k: usize = 0;
    while k < 4
        invariant
            k <= 4,
            forall|m: int| 0 <= m < k ==> !has_pair(t@, #[trigger] pats@[m].0@, pats@[m].1@),
            pats@[0].0@ == "(("@ && pats@[0].1@ == "))"@ && pats@[0].2 == NodeShape::Circle,
            pats@[1].0@ == "[("@ && pats@[1].1@ == ")]"@ && pats@[1].2 == NodeShape::Cylinder,
            pats@[2].0@ == "[["@ && pats@[2].1@ == "]]"@ && pats@[2].2 == NodeShape::Subroutine,
            pats@[3].0@ == "{{"@ && pats@[3].1@ == "}}"@ && pats@[3].2 == NodeShape::Hexagon,
            !has_pair(t@, "(["@, "])"@),
            has_pair(t@, "(("@, "))"@) ==> pos(t@, "))"@) >= pos(t@, "(("@) + 2,
            !has_pair(t@, "(("@, "))"@) && has_pair(t@, "[("@, ")]"@) ==> pos(t@, ")]"@) >= pos(t@, "[("@) + 2,
            !has_pair(t@, "(("@, "))"@) && !has_pair(t@, "[("@, ")]"@) && has_pair(t@, "[["@, "]]"@)
                ==> pos(t@, "]]"@) >= pos(t@, "[["@) + 2,
            !has_pair(t@, "(("@, "))"@) && !has_pair(t@, "[("@, ")]"@) && !has_pair(t@, "[["@, "]]"@)
                && has_pair(t@, "{{"@, "}}"@) ==> pos(t@, "}}"@) >= pos(t@, "{{"@) + 2,
        decreases 4 - k,
    {
        let (o, c, shape) = pats[k];
        if contains(t, &o) && contains(t, &c) {
            proof {
                lemma_pos_found(t@, o@);
                lemma_pos_found(t@, c@);
            }
            let s = find(t, &o).unwrap();
            let e = find(t, &c).unwrap();
            return Some(make_shaped(t, s, s + 2, e, shape));
        }
        k = k + 1;
    }
    None
}

/// The node of the first matching single-character delimiters.
fn parse_single_shape(t: &[char]) -> (r: Option<(String, String, NodeShape)>)
    requires
        is_diamond(t@) ==> rpos(t@, '}') >= pos(t@, seq!['{']) + 1,
        !is_diamond(t@) && is_round(t@) ==> rpos(t@, ')') >= pos(t@, seq!['(']) + 1,
        !is_diamond(t@) && !is_round(t@) && is_rect(t@) ==> rpos(t@, ']') >= pos(t@, seq!['[']) + 1,
    ensures
        node_view(r) == single_shape_spec(t@),
{
    let o_hex = ['{', '{'];
    let o_circle = ['(', '('];
    let o_stadium = ['(', '['];
    let o_cyl = ['[', '('];
    let o_sub = ['[', '['];
    proof {
        reveal_strlit("{{");
        reveal_strlit("((");
        reveal_strlit("([");
        reveal_strlit("[(");
        reveal_strlit("[[");
        assert(o_hex@ =~= "{{"@);
        assert(o_circle@ =~= "(("@);
        assert(o_stadium@ =~= "(["@);
        assert(o_cyl@ =~= "[("@);
        assert(o_sub@ =~= "[["@);
    }
    // Diamond: {text}
    if contains_char(t, '{') && contains_char(t, '}') && !contains(t, &o_hex) {
        proof {
            lemma_pos_found(t@, seq!['{']);
            lemma_rpos_found(t@, '}');
        }
        let s = find_char(t, '{').unwrap();
        let e = rfind_char(t, '}').unwrap();
        return Some(make_shaped(t, s, s + 1, e, NodeShape::Diamond));
    }
    // Round rect: (text)
    if contains_char(t, '(') && contains_char(t, ')') && !contains(t, &o_circle) && !contains(
        t,
        &o_stadium,
    ) && !contains(t, &o_cyl) {
        proof {
            lemma_pos_found(t@, seq!['(']);
            lemma_rpos_found(t@, ')');
        }
        let s = find_char(t, '(').unwrap();
        let e = rfind_char(t, ')').unwrap();
        return Some(make_shaped(t, s, s + 1, e, NodeShape::RoundRect));
    }
    // Rectangle: [text]
    if contains_char(t, '[') && contains_char(t, ']') && !contains(t, &o_sub) && !contains(t, &o_cyl)
        && !contains(t, &o_stadium) {
        proof {
            lemma_pos_found(t@, seq!['[']);
            lemma_rpos_found(t@, ']');
        }
        let s = find_char(t, '[').unwrap();
        let e = rfind_char(t, ']').unwrap();
        return Some(make_shaped(t, s, s + 1, e, NodeShape::Rectangle));
    }
    // Asymmetric: >text]
    if contains_char(t, '>') && contains_char(t, ']') {
        proof {
            lemma_pos_found(t@, seq!['>']);
            lemma_rpos_found(t@, ']');
        }
        let s = find_char(t, '>').unwrap();
        let e = rfind_char(t, ']').unwrap();
        if s < e {
            return Some(make_shaped(t, s, s + 1, e, NodeShape::Asymmetric));
        }
    }
    None
}

/// A node text without delimiters.
fn parse_plain_node(t: &[char]) -> (r: (String, String, NodeShape))
    ensures
        (r.0@, r.1@, r.2) == plain_node_spec(t@),
{
    let words = split_whitespace(t);
    proof {
        assert(views_of(words@).len() == words@.len());
    }
    let first = if words.len() > 0 {
        assert(views_of(words@)[0] == words@[0]@);
        let w = slice_copy(words[0].as_slice(), 0, words[0].len());
        assert(w@ =~= split_whitespace_spec(t@)[0]);
        w
    } else {
        let w = slice_copy(t, 0, t.len());
        assert(w@ =~= t@);
        w
    };
    let id = strip_trailing_semicolon(&first);
    (string_of(&id), string_of(&id), NodeShape::Rectangle)
}

/// Parse a node text such as `A[Start]`, `B{Decision}` or `C((Circle))` into
/// its id, label and shape; `None` for blank text.
pub fn parse_node_from_text(text: &str) -> (r: Option<(String, String, NodeShape)>)
    requires
        !node_text_panics(text@),
    ensures
        node_view(r) == parse_node_spec(text@),
{
    let raw = chars_of(text);
    parse_node_chars(&raw)
}

/// [`parse_node_from_text`] on characters.
pub fn parse_node_chars(raw: &[char]) -> (r: Option<(String, String, NodeShape)>)
    requires
        !node_text_panics(raw@),
    ensures
        node_view(r) == parse_node_spec(raw@),
{
    let tr = trim(raw);
    let t = strip_trailing_semicolon(&tr);
    assert(t@ == node_text(raw@));
    if t.len() == 0 {
        return None;
    }
    let o_stadium = ['(', '['];
    let c_stadium = [']', ')'];
    proof {
        reveal_strlit("([");
        reveal_strlit("])");
        assert(o_stadium@ =~= "(["@);
        assert(c_stadium@ =~= "])"@);
    }
    // Stadium: ([text])
    if contains(&t, &o_stadium) && contains(&t, &c_stadium) {
        proof {
            lemma_pos_found(t@, "(["@);
            lemma_pos_found(t@, "])"@);
        }
        let s = find(&t, &o_stadium).unwrap();
        let e = find(&t, &c_stadium).unwrap();
        let id = trim(&t[0..s]);
        let id = if id.len() == 0 {
            slice_copy(&t, 0, if s > 1 { s } else { 1 })
        } else {
            id
        };
        let label = trim(&t[s + 2..e]);
        let label = clean_label(&label);
        return Some((string_of(&id), string_of(&label), NodeShape::Stadium));
    }
    let p = parse_pair_shape(&t);
    if p.is_some() {
        return p;
    }
    let q = parse_single_shape(&t);
    if q.is_some() {
        return q;
    }
    Some(parse_plain_node(&t))
}

/// Where the text holds both `open` and `close`: whether the first `close`
/// starts before the first `open` ends.
fn pair_backwards(t: &[char], open: &[char], close: &[char]) -> (r: Option<bool>)
    ensures
        r is Some == has_pair(t@, open@, close@),
        r matches Some(b) ==> b == (pos(t@, close@) < pos(t@, open@) + open@.len()),
{
    match find(t, open) {
        Some(s) => match find(t, close) {
            Some(e) => Some(e < s || e - s < open.len()),
            None => None,
        },
        None => None,
    }
}

/// Where the text holds `open` and `close`: whether the last `close`
/// comes no later than the first `open`.
fn single_backwards(t: &[char], open: char, close: char) -> (b: bool)
    requires
        contains_spec(t@, seq![open]),
        contains_spec(t@, seq![close]),
    ensures
        b == (rpos(t@, close) < pos(t@, seq![open]) + 1),
{
    proof {
        lemma_pos_found(t@, seq![open]);
        lemma_rpos_found(t@, close);
    }
    let s = find_char(t, open).unwrap();
    let e = rfind_char(t, close).unwrap();
    e <= s
}

/// Whether [`parse_node_from_text`] would slice backwards on this text
/// (a closing delimiter found before its opening one) and so panic; it may
/// be called exactly when this is false.
pub fn node_text_would_panic(text: &str) -> (b: bool)
    ensures
        b == node_text_panics(text@),
{
    let raw = chars_of(text);
    node_chars_would_panic(&raw)
}

/// [`node_text_would_panic`] on characters.
pub fn node_chars_would_panic(raw: &[char]) -> (b: bool)
    ensures
        b == node_text_panics(raw@),
{
    let tr = trim(raw);
    let t = strip_trailing_semicolon(&tr);
    assert(t@ == node_text(raw@));
    if t.len() == 0 {
        return false;
    }
    let o_stadium = ['(', '['];
    let c_stadium = [']', ')'];
    let o_circle = ['(', '('];
    let c_circle = [')', ')'];
    let o_cyl = ['[', '('];
    let c_cyl = [')', ']'];
    let o_sub = ['[', '['];
    let c_sub = [']', ']'];
    let o_hex = ['{', '{'];
    let c_hex = ['}', '}'];
    proof {
        reveal_strlit("([");
        reveal_strlit("])");
        reveal_strlit("((");
        reveal_strlit("))");
        reveal_strlit("[(");
        reveal_strlit(")]");
        reveal_strlit("[[");
        reveal_strlit("]]");
        reveal_strlit("{{");
        reveal_strlit("}}");
        assert(o_stadium@ =~= "(["@);
        assert(c_stadium@ =~= "])"@);
        assert(o_circle@ =~= "(("@);
        assert(c_circle@ =~= "))"@);
        assert(o_cyl@ =~= "[("@);
        assert(c_cyl@ =~= ")]"@);
        assert(o_sub@ =~= "[["@);
        assert(c_sub@ =~= "]]"@);
        assert(o_hex@ =~= "{{"@);
        assert(c_hex@ =~= "}}"@);
    }
    if let Some(b) = pair_backwards(&t, &o_stadium, &c_stadium) {
        return b;
    }
    if let Some(b) = pair_backwards(&t, &o_circle, &c_circle) {
        return b;
    }
    if let Some(b) = pair_backwards(&t, &o_cyl, &c_cyl) {
        return b;
    }
    if let Some(b) = pair_backwards(&t, &o_sub, &c_sub) {
        return b;
    }
    if let Some(b) = pair_backwards(&t, &o_hex, &c_hex) {
        return b;
    }
    if contains_char(&t, '{') && contains_char(&t, '}') && !contains(&t, &o_hex) {
        return single_backwards(&t, '{', '}');
    }
    if contains_char(&t, '(') && contains_char(&t, ')') && !contains(&t, &o_circle) && !contains(
        &t,
        &o_stadium,
    ) && !contains(&t, &o_cyl) {
        return single_backwards(&t, '(', ')');
    }
    if contains_char(&t, '[') && contains_char(&t, ']') && !contains(&t, &o_sub) && !contains(
        &t,
        &o_cyl,
    ) && !contains(&t, &o_stadium) {
        return single_backwards(&t, '[', ']');
    }
    false
}

/// [`parse_node_definition`] on characters.
fn parse_node_definition_chars(line: &[char]) -> (r: Option<FlowNode>)
    requires
        !node_text_panics(line@),
    ensures
        r matches Some(n) ==> parse_node_spec(line@) == Some((n.id@, n.label@, n.shape)),
        r is None ==> parse_node_spec(line@) is None,
{
    match parse_node_chars(line) {
        Some((id, label, shape)) => Some(FlowNode { id, label, shape }),
        None => None,
    }
}

/// A standalone node definition line.
pub fn parse_node_definition(line: &str) -> (r: Option<FlowNode>)
    requires
        !node_text_panics(line@),
    ensures
        r matches Some(n) ==> parse_node_spec(line@) == Some((n.id@, n.label@, n.shape)),
        r is None ==> parse_node_spec(line@) is None,
{
    match parse_node_from_text(line) {
        Some((id, label, shape)) => Some(FlowNode { id, label, shape }),
        None => None,
    }
}

// ──────────────────────────────── edge syntax ────────────────────────────────

/// The arrows, longest first, with the line style and the heads at the
/// start and end they give.
pub open spec fn flow_arrow(i: int) -> (Seq<char>, EdgeStyle, ArrowHead, ArrowHead) {
    if i == 0 {
        (seq!['<', '-', '-', '>'], EdgeStyle::Solid, ArrowHead::Arrow, ArrowHead::Arrow)
    } else if i == 1 {
        (seq!['o', '-', '-', 'o'], EdgeStyle::Solid, ArrowHead::Circle, ArrowHead::Circle)
    } else if i == 2 {
        (seq!['x', '-', '-', 'x'], EdgeStyle::Solid, ArrowHead::Cross, ArrowHead::Cross)
    } else if i == 3 {
        (seq!['-', '-', '-', '>'], EdgeStyle::Solid, ArrowHead::NoArrow, ArrowHead::Arrow)
    } else if i == 4 {
        (seq!['-', '.', '-', '>'], EdgeStyle::Dotted, ArrowHead::NoArrow, ArrowHead::Arrow)
    } else if i == 5 {
        (seq!['-', '-', '>'], EdgeStyle::Solid, ArrowHead::NoArrow, ArrowHead::Arrow)
    } else if i == 6 {
        (seq!['-', '-', '-'], EdgeStyle::Solid, ArrowHead::NoArrow, ArrowHead::NoArrow)
    } else if i == 7 {
        (seq!['-', '.', '-'], EdgeStyle::Dotted, ArrowHead::NoArrow, ArrowHead::NoArrow)
    } else if i == 8 {
        (seq!['=', '=', '>'], EdgeStyle::Thick, ArrowHead::NoArrow, ArrowHead::Arrow)
    } else if i == 9 {
        (seq!['=', '=', '='], EdgeStyle::Thick, ArrowHead::NoArrow, ArrowHead::NoArrow)
    } else if i == 10 {
        (seq!['-', '-', 'o'], EdgeStyle::Solid, ArrowHead::NoArrow, ArrowHead::Circle)
    } else {
        (seq!['-', '-', 'x'], EdgeStyle::Solid, ArrowHead::NoArrow, ArrowHead::Cross)
    }
}

fn flow_arrow_exec(i: usize) -> (r: (Vec<char>, EdgeStyle, ArrowHead, ArrowHead))
    requires
        i < 12,
    ensures
        (r.0@, r.1, r.2, r.3) == flow_arrow(i as int),
{
    let r = if i == 0 {
        (vec!['<', '-', '-', '>'], EdgeStyle::Solid, ArrowHead::Arrow, ArrowHead::Arrow)
    } else if i == 1 {
        (vec!['o', '-', '-', 'o'], EdgeStyle::Solid, ArrowHead::Circle, ArrowHead::Circle)
    } else if i == 2 {
        (vec!['x', '-', '-', 'x'], EdgeStyle::Solid, ArrowHead::Cross, ArrowHead::Cross)
    } else if i == 3 {
        (vec!['-', '-', '-', '>'], EdgeStyle::Solid, ArrowHead::NoArrow, ArrowHead::Arrow)
    } else if i == 4 {
        (vec!['-', '.', '-', '>'], EdgeStyle::Dotted, ArrowHead::NoArrow, ArrowHead::Arrow)
    } else if i == 5 {
        (vec!['-', '-', '>'], EdgeStyle::Solid, ArrowHead::NoArrow, ArrowHead::Arrow)
    } else if i == 6 {
        (vec!['-', '-', '-'], EdgeStyle::Solid, ArrowHead::NoArrow, ArrowHead::NoArrow)
    } else if i == 7 {
        (vec!['-', '.', '-'], EdgeStyle::Dotted, ArrowHead::NoArrow, ArrowHead::NoArrow)
    } else if i == 8 {
        (vec!['=', '=', '>'], EdgeStyle::Thick, ArrowHead::NoArrow, ArrowHead::Arrow)
    } else if i == 9 {
        (vec!['=', '=', '='], EdgeStyle::Thick, ArrowHead::NoArrow, ArrowHead::NoArrow)
    } else if i == 10 {
        (vec!['-', '-', 'o'], EdgeStyle::Solid, ArrowHead::NoArrow, ArrowHead::Circle)
    } else {
        (vec!['-', '-', 'x'], EdgeStyle::Solid, ArrowHead::NoArrow, ArrowHead::Cross)
    };
    assert(r.0@ =~= flow_arrow(i as int).0);
    r
}

/// The earliest arrow among the first `i` patterns (position and pattern
/// index); at equal positions the longer pattern, and among equally long
/// ones the earlier, wins.
pub open spec fn best_arrow(t: Seq<char>, i: int) -> Option<(int, int)>
    decreases i,
{
    if i <= 0 {
        None
    } else {
        let prev = best_arrow(t, i - 1);
        match find_spec(t, flow_arrow(i - 1).0) {
            None => prev,
            Some(p) => match prev {
                None => Some((p, i - 1)),
                Some((bp, bi)) => if p > bp || (p == bp && flow_arrow(i - 1).0.len() <= flow_arrow(
                    bi,
                ).0.len()) {
                    prev
                } else {
                    Some((p, i - 1))
                },
            },
        }
    }
}

/// The first arrow of a text: its position and pattern index.
pub open spec fn arrow_in(t: Seq<char>) -> Option<(int, int)> {
    best_arrow(t, 12)
}

/// An arrow found is one of the patterns, found at its position.
pub proof fn lemma_best_arrow(t: Seq<char>, i: int)
    requires
        0 <= i <= 12,
    ensures
        best_arrow(t, i) matches Some((p, k)) ==> 0 <= k < i && find_spec(t, flow_arrow(k).0) == Some(p)
            && 0 <= p && p + flow_arrow(k).0.len() <= t.len(),
    decreases i,
{
    if i > 0 {
        lemma_best_arrow(t, i - 1);
        lemma_find_from_bounds(t, flow_arrow(i - 1).0, 0);
    }
}

/// The arrow chosen among the first `i` patterns is the first that occurs
/// and, among those that occur there, a longest; none is chosen only when
/// none occurs.
pub proof fn lemma_best_arrow_first_longest(t: Seq<char>, i: int)
    requires
        0 <= i <= 12,
    ensures
        best_arrow(t, i) is None ==> forall|j: int| 0 <= j < i ==> #[trigger] find_spec(t, flow_arrow(j).0) is None,
        best_arrow(t, i) matches Some((p, k)) ==> forall|j: int|
            0 <= j < i ==> (#[trigger] find_spec(t, flow_arrow(j).0) matches Some(q) ==> (q > p || (q
                == p && flow_arrow(j).0.len() <= flow_arrow(k).0.len()))),
    decreases i,
{
    if i > 0 {
        lemma_best_arrow_first_longest(t, i - 1);
    }
}

/// The arrow of an edge line is the first arrow in it, and the longest of
/// the arrows that start there: every pattern found in the text starts
/// later, or at the same place and is no longer. No arrow is found only
/// when no pattern occurs.
pub proof fn law_arrow_first_longest(t: Seq<char>)
    ensures
        arrow_in(t) is None ==> forall|j: int| 0 <= j < 12 ==> #[trigger] find_spec(t, flow_arrow(j).0) is None,
        arrow_in(t) matches Some((p, k)) ==> find_spec(t, flow_arrow(k).0) == Some(p) && forall|j: int|
            0 <= j < 12 ==> (#[trigger] find_spec(t, flow_arrow(j).0) matches Some(q) ==> (q > p || (q
                == p && flow_arrow(j).0.len() <= flow_arrow(k).0.len()))),
{
    lemma_best_arrow_first_longest(t, 12);
    lemma_best_arrow(t, 12);
}

/// The line style an arrow's line character gives: `=` thick, `.` dotted,
/// `-` solid.
pub open spec fn line_style_of(c: char) -> EdgeStyle {
    if c == '=' {
        EdgeStyle::Thick
    } else if c == '.' {
        EdgeStyle::Dotted
    } else {
        EdgeStyle::Solid
    }
}

/// The head an arrow's end character draws: `>` or `<` an arrow, `o` a
/// circle, `x` a cross, a line character none.
pub open spec fn head_of(c: char) -> ArrowHead {
    if c == '>' || c == '<' {
        ArrowHead::Arrow
    } else if c == 'o' {
        ArrowHead::Circle
    } else if c == 'x' {
        ArrowHead::Cross
    } else {
        ArrowHead::NoArrow
    }
}

/// Each arrow pattern draws what its characters say: its second character
/// is a line character, which gives the style, and its first and last
/// characters give the heads at the start and at the end.
proof fn lemma_arrow_draws(i: int)
    requires
        0 <= i < 12,
    ensures
        ({
            let (a, style, h0, h1) = flow_arrow(i);
            &&& 3 <= a.len() <= 4
            &&& (a[1] == '-' || a[1] == '.' || a[1] == '=')
            &&& style == line_style_of(a[1])
            &&& h0 == head_of(a[0])
            &&& h1 == head_of(a[a.len() - 1])
        }),
{
}

/// The arrow found in a text draws what the text says there: where it
/// starts at `p`, the character after `p` is its line character and
/// decides the style (`=` thick, `.` dotted, `-` solid), and the characters
/// at its two ends decide the heads (`<`/`>` an arrow, `o` a circle, `x` a
/// cross, a line character none). So `A ==> B` gives a thick edge, `A -.-> B`
/// a dotted one, `A --> B` a solid one.
pub proof fn law_arrow_style_and_heads(t: Seq<char>)
    ensures
        arrow_in(t) matches Some((p, k)) ==> ({
            let (a, style, h0, h1) = flow_arrow(k);
            &&& 0 <= p && p + a.len() <= t.len() && 3 <= a.len()
            &&& t.subrange(p, p + a.len()) == a
            &&& (t[p + 1] == '-' || t[p + 1] == '.' || t[p + 1] == '=')
            &&& style == line_style_of(t[p + 1])
            &&& h0 == head_of(t[p])
            &&& h1 == head_of(t[p + a.len() - 1])
        }),
{
    lemma_best_arrow(t, 12);
    if let Some((p, k)) = arrow_in(t) {
        let a = flow_arrow(k).0;
        lemma_find_from_bounds(t, a, 0);
        lemma_arrow_draws(k);
        assert(t.subrange(p, p + a.len()) == a);
        assert(t[p + 1] == t.subrange(p, p + a.len())[1]);
        assert(t[p] == t.subrange(p, p + a.len())[0]);
        assert(t[p + a.len() - 1] == t.subrange(p, p + a.len())[a.len() - 1]);
    }
}

/// The first arrow of a text: its position and pattern index.
pub fn find_arrow_pattern(t: &[char]) -> (r: Option<(usize, usize)>)
    ensures
        r matches Some((p, k)) ==> arrow_in(t@) == Some((p as int, k as int)),
        r is None ==> arrow_in(t@) is None,
{
    let mut best: Option<(usize, usize)> = None;
    let mut best_len: usize = 0;
    let mut i: usize = 0;
    while i < 12
        invariant
            i <= 12,
            best matches Some((p, k)) ==> best_arrow(t@, i as int) == Some((p as int, k as int))
                && best_len == flow_arrow(k as int).0.len(),
            best is None ==> best_arrow(t@, i as int) is None,
        decreases 12 - i,
    {
        let (pat, _, _, _) = flow_arrow_exec(i);
        match find(t, pat.as_slice()) {
            Some(p) => {
                let dominated = match best {
                    Some((bp, _)) => p > bp || (p == bp && pat.len() <= best_len),
                    None => false,
                };
                if !dominated {
                    best = Some((p, i));
                    best_len = pat.len();
                }
            },
            None => {},
        }
        i = i + 1;
    }
    best
}

/// The label `|text|` at the start of the text after an arrow, and the
/// rest: the label trimmed and cleaned, the rest trimmed.
pub open spec fn edge_label_spec(text: Seq<char>) -> (Option<Seq<char>>, Seq<char>) {
    let t = trim_spec(text);
    if t.len() > 0 && t[0] == '|' {
        match find_spec(t.skip(1), seq!['|']) {
            Some(e) => (Some(clean_label_spec(trim_spec(t.subrange(1, e + 1)))), trim_spec(t.skip(e + 2))),
            None => (None, t),
        }
    } else {
        (None, t)
    }
}

/// The label `|text|` after an arrow, and the rest.
pub fn parse_edge_label(text: &[char]) -> (r: (Option<Vec<char>>, Vec<char>))
    ensures
        (match r.0 {
            Some(l) => Some(l@),
            None => None,
        }, r.1@) == edge_label_spec(text@),
{
    let t = trim(text);
    if t.len() > 0 && t[0] == '|' {
        let inner = slice_copy(t.as_slice(), 1, t.len());
        assert(inner@ =~= t@.skip(1));
        let bar: Vec<char> = vec!['|'];
        assert(bar@ =~= seq!['|']);
        match find(inner.as_slice(), bar.as_slice()) {
            Some(e) => {
                let il = inner.len();
                proof {
                    lemma_find_from_bounds(inner@, seq!['|'], 0);
                    assert(e + 1 <= il);
                }
                let label = clean_label(trim(&t.as_slice()[1..e + 1]).as_slice());
                let rest = trim(&t.as_slice()[e + 2..t.len()]);
                assert(t@.subrange(e + 2, t@.len() as int) =~= t@.skip(e + 2));
                return (Some(label), rest);
            },
            None => {},
        }
    }
    (None, t)
}

/// The position of the last of `]`, `)`, `}`, `|` in a text.
pub open spec fn last_closer(t: Seq<char>) -> Option<int> {
    let a = rfind_char_spec(t, ']');
    let b = rfind_char_spec(t, ')');
    let c = rfind_char_spec(t, '}');
    let d = rfind_char_spec(t, '|');
    opt_max(opt_max(opt_max(a, b), c), d)
}

/// The larger of two optional positions.
pub open spec fn opt_max(a: Option<int>, b: Option<int>) -> Option<int> {
    match (a, b) {
        (Some(x), Some(y)) => Some(if x >= y { x } else { y }),
        (Some(x), None) => Some(x),
        (None, y) => y,
    }
}

/// A dash-style label after a node's closing delimiter, as in
/// `A[Node]-- label`: the node part and the cleaned label. The label
/// begins with `-- `, `-. ` or `== `, or with `--`, `-.` or `==` at the end
/// or before a blank.
pub open spec fn dash_label_spec(node_text: Seq<char>) -> (Seq<char>, Option<Seq<char>>) {
    let t = trim_spec(node_text);
    match last_closer(t) {
        None => (t, None),
        Some(c) => {
            let after = t.skip(c + 1);
            let node = t.take(c + 1);
            if starts_with_spec(after, seq!['-', '-', ' ']) || starts_with_spec(after, seq!['-', '.', ' '])
                || starts_with_spec(after, seq!['=', '=', ' ']) {
                (node, Some(clean_label_spec(trim_spec(after.skip(3)))))
            } else if (starts_with_spec(after, seq!['-', '-']) || starts_with_spec(after, seq!['-', '.'])
                || starts_with_spec(after, seq!['=', '='])) && (after.len() == 2 || char_is_whitespace(
                after[2],
            )) {
                (node, Some(clean_label_spec(trim_spec(after.skip(2)))))
            } else {
                (t, None)
            }
        },
    }
}

fn opt_max_exec(a: Option<usize>, b: Option<usize>) -> (r: Option<usize>)
    ensures
        (match r {
            Some(x) => Some(x as int),
            None => None,
        }) == opt_max(
            match a {
                Some(x) => Some(x as int),
                None => None,
            },
            match b {
                Some(x) => Some(x as int),
                None => None,
            },
        ),
{
    match (a, b) {
        (Some(x), Some(y)) => Some(if x >= y { x } else { y }),
        (Some(x), None) => Some(x),
        (None, y) => y,
    }
}

/// Split a node text into its node part and a dash-style label.
pub fn extract_dash_label(node_text: &[char]) -> (r: (Vec<char>, Option<Vec<char>>))
    ensures
        (r.0@, match r.1 {
            Some(l) => Some(l@),
            None => None,
        }) == dash_label_spec(node_text@),
{
    let t = trim(node_text);
    let a = rfind_char(t.as_slice(), ']');
    let b = rfind_char(t.as_slice(), ')');
    let c = rfind_char(t.as_slice(), '}');
    let d = rfind_char(t.as_slice(), '|');
    let closer = opt_max_exec(opt_max_exec(opt_max_exec(a, b), c), d);
    match closer {
        None => (t, None),
        Some(cp) => {
            proof {
                lemma_rfind_bounds(t@, ']', t@.len() as int);
                lemma_rfind_bounds(t@, ')', t@.len() as int);
                lemma_rfind_bounds(t@, '}', t@.len() as int);
                lemma_rfind_bounds(t@, '|', t@.len() as int);
            }
            let tl = t.len();
            assert(cp < tl);
            let after = slice_copy(t.as_slice(), cp + 1, t.len());
            assert(after@ =~= t@.skip(cp + 1));
            let node = slice_copy(t.as_slice(), 0, cp + 1);
            assert(node@ =~= t@.take(cp + 1));
            let p1: Vec<char> = vec!['-', '-', ' '];
            let p2: Vec<char> = vec!['-', '.', ' '];
            let p3: Vec<char> = vec!['=', '=', ' '];
            assert(p1@ =~= seq!['-', '-', ' ']);
            assert(p2@ =~= seq!['-', '.', ' ']);
            assert(p3@ =~= seq!['=', '=', ' ']);
            if starts_with(after.as_slice(), p1.as_slice()) || starts_with(after.as_slice(), p2.as_slice())
                || starts_with(after.as_slice(), p3.as_slice()) {
                let label = clean_label(trim(&after.as_slice()[3..after.len()]).as_slice());
                assert(after@.subrange(3, after@.len() as int) =~= after@.skip(3));
                return (node, Some(label));
            }
            let q1: Vec<char> = vec!['-', '-'];
            let q2: Vec<char> = vec!['-', '.'];
            let q3: Vec<char> = vec!['=', '='];
            assert(q1@ =~= seq!['-', '-']);
            assert(q2@ =~= seq!['-', '.']);
            assert(q3@ =~= seq!['=', '=']);
            if (starts_with(after.as_slice(), q1.as_slice()) || starts_with(after.as_slice(), q2.as_slice())
                || starts_with(after.as_slice(), q3.as_slice())) && (after.len() == 2 || is_whitespace(
                after[2],
            )) {
                let label = clean_label(trim(&after.as_slice()[2..after.len()]).as_slice());
                assert(after@.subrange(2, after@.len() as int) =~= after@.skip(2));
                return (node, Some(label));
            }
            (t, None)
        },
    }
}

/// The smaller of two optional positions.
pub open spec fn opt_min(a: Option<int>, b: Option<int>) -> Option<int> {
    match (a, b) {
        (Some(x), Some(y)) => Some(if x <= y { x } else { y }),
        (Some(x), None) => Some(x),
        (None, y) => y,
    }
}

/// The position of the first shape marker `[`, `(`, `{` or `>`.
pub open spec fn marker_pos(t: Seq<char>) -> Option<int> {
    opt_min(
        opt_min(opt_min(find_spec(t, seq!['[']), find_spec(t, seq!['('])), find_spec(t, seq!['{'])),
        find_spec(t, seq!['>']),
    )
}

/// The node texts of an `A & B` list. With a shape marker present, only
/// ids before the first marker are split (and only when that gives more
/// than one piece, each trimmed); without one, the trimmed non-empty pieces
/// between `&`s; otherwise the text itself.
pub open spec fn amp_split(t: Seq<char>) -> Seq<Seq<char>> {
    match marker_pos(t) {
        Some(m) => match find_spec(t, seq!['&']) {
            Some(a) => if a < m && trimmed_all(split_char_spec(t.take(m), '&')).len() > 1 {
                trimmed_all(split_char_spec(t.take(m), '&'))
            } else {
                seq![t]
            },
            None => seq![t],
        },
        None => if contains_spec(t, seq!['&']) {
            trimmed_nonempty(split_char_spec(t, '&'))
        } else {
            seq![t]
        },
    }
}

fn opt_min_exec(a: Option<usize>, b: Option<usize>) -> (r: Option<usize>)
    ensures
        (match r {
            Some(x) => Some(x as int),
            None => None,
        }) == opt_min(
            match a {
                Some(x) => Some(x as int),
                None => None,
            },
            match b {
                Some(x) => Some(x as int),
                None => None,
            },
        ),
{
    match (a, b) {
        (Some(x), Some(y)) => Some(if x <= y { x } else { y }),
        (Some(x), None) => Some(x),
        (None, y) => y,
    }
}

fn find_one(t: &[char], c: char) -> (r: Option<usize>)
    ensures
        (match r {
            Some(x) => Some(x as int),
            None => None,
        }) == find_spec(t@, seq![c]),
{
    let p: Vec<char> = vec![c];
    assert(p@ =~= seq![c]);
    find(t, p.as_slice())
}

/// Each piece trimmed.
pub(crate) fn trim_pieces(parts: &Vec<Vec<char>>) -> (r: Vec<Vec<char>>)
    ensures
        views_of(r@) == trimmed_all(views_of(parts@)),
{
    let mut r: Vec<Vec<char>> = Vec::new();
    let mut i: usize = 0;
    while i < parts.len()
        invariant
            i <= parts@.len(),
            views_of(r@) == trimmed_all(views_of(parts@)).take(i as int),
        decreases parts@.len() - i,
    {
        let ghost before = views_of(r@);
        let t = trim(parts[i].as_slice());
        r.push(t);
        assert(views_of(parts@)[i as int] == parts@[i as int]@);
        assert(views_of(r@) =~= before.push(t@));
        assert(views_of(r@) =~= trimmed_all(views_of(parts@)).take(i + 1 as int));
        i = i + 1;
    }
    assert(trimmed_all(views_of(parts@)).take(parts@.len() as int) =~= trimmed_all(views_of(parts@)));
    r
}

/// The trimmed non-empty pieces.
fn nonempty_pieces(parts: &Vec<Vec<char>>) -> (r: Vec<Vec<char>>)
    ensures
        views_of(r@) == trimmed_nonempty(views_of(parts@)),
{
    let ghost ps = views_of(parts@);
    let mut r: Vec<Vec<char>> = Vec::new();
    let mut i: usize = 0;
    while i < parts.len()
        invariant
            i <= parts@.len(),
            ps == views_of(parts@),
            views_of(r@) == trimmed_nonempty(ps.take(i as int)),
        decreases parts@.len() - i,
    {
        let t = trim(parts[i].as_slice());
        proof {
            assert(ps.take(i + 1 as int).drop_last() =~= ps.take(i as int));
            assert(ps.take(i + 1 as int).last() == parts@[i as int]@);
        }
        if t.len() > 0 {
            let ghost before = views_of(r@);
            r.push(t);
            assert(views_of(r@) =~= before.push(t@));
        }
        i = i + 1;
    }
    assert(ps.take(parts@.len() as int) =~= ps);
    r
}

/// Split node text by ampersand, handling the `A & B` syntax.
pub fn split_by_ampersand(text: &[char]) -> (r: Vec<Vec<char>>)
    ensures
        views_of(r@) == amp_split(text@),
{
    let m = opt_min_exec(
        opt_min_exec(opt_min_exec(find_one(text, '['), find_one(text, '(')), find_one(text, '{')),
        find_one(text, '>'),
    );
    let whole = slice_copy(text, 0, text.len());
    assert(whole@ =~= text@);
    let mut single: Vec<Vec<char>> = Vec::new();
    single.push(whole);
    assert(views_of(single@) =~= seq![text@]);
    match m {
        Some(mp) => {
            proof {
                lemma_find_from_bounds(text@, seq!['['], 0);
                lemma_find_from_bounds(text@, seq!['('], 0);
                lemma_find_from_bounds(text@, seq!['{'], 0);
                lemma_find_from_bounds(text@, seq!['>'], 0);
            }
            match find_one(text, '&') {
                Some(a) => {
                    if a < mp {
                        let pieces = split_char(&text[0..mp], '&');
                        assert(text@.subrange(0, mp as int) =~= text@.take(mp as int));
                        let ids = trim_pieces(&pieces);
                        assert(views_of(ids@).len() == ids@.len());
                        if ids.len() > 1 {
                            return ids;
                        }
                    }
                    single
                },
                None => single,
            }
        },
        None => {
            if contains_char(text, '&') {
                let pieces = split_char(text, '&');
                nonempty_pieces(&pieces)
            } else {
                single
            }
        },
    }
}

// ─────────────────────────────── edge lines ──────────────────────────────────

/// An edge as plain values.
pub struct EdgeV {
    pub from: Seq<char>,
    pub to: Seq<char>,
    pub label: Option<Seq<char>>,
    pub style: EdgeStyle,
    pub arrow_start: ArrowHead,
    pub arrow_end: ArrowHead,
}

pub open spec fn edge_view(e: FlowEdge) -> EdgeV {
    EdgeV {
        from: e.from@,
        to: e.to@,
        label: match e.label {
            Some(l) => Some(l@),
            None => None,
        },
        style: e.style,
        arrow_start: e.arrow_start,
        arrow_end: e.arrow_end,
    }
}

/// Edges as plain values.
pub open spec fn edges_view(v: Seq<FlowEdge>) -> Seq<EdgeV> {
    v.map_values(|e: FlowEdge| edge_view(e))
}

/// Node triples as plain values.
pub open spec fn triples_view(v: Seq<(String, String, NodeShape)>) -> Seq<(Seq<char>, Seq<char>, NodeShape)> {
    v.map_values(|t: (String, String, NodeShape)| (t.0@, t.1@, t.2))
}

/// What walking an edge line has collected: nodes in order of first
/// mention, edges, the ids seen, and whether a node text would have made
/// the parser panic.
pub struct EdgeWalk {
    pub nodes: Seq<(Seq<char>, Seq<char>, NodeShape)>,
    pub edges: Seq<EdgeV>,
    pub seen: Seq<Seq<char>>,
    pub panics: bool,
}

/// Parse node texts in turn, declaring ids not seen before; also the ids
/// in order.
pub open spec fn parse_parts(w: EdgeWalk, parts: Seq<Seq<char>>) -> (EdgeWalk, Seq<Seq<char>>)
    decreases parts.len(),
{
    if parts.len() == 0 {
        (w, seq![])
    } else {
        let (w1, ids) = parse_parts(w, parts.drop_last());
        let p = parts.last();
        let w2 = EdgeWalk { panics: w1.panics || node_text_panics(p), ..w1 };
        match parse_node_spec(p) {
            Some(n) => if w1.seen.contains(n.0) {
                (w2, ids.push(n.0))
            } else {
                (EdgeWalk { nodes: w1.nodes.push(n), seen: w1.seen.push(n.0), ..w2 }, ids.push(n.0))
            },
            None => (w2, ids),
        }
    }
}

/// An edge from each source to each target, sources outermost.
pub open spec fn cross_edges(
    from: Seq<Seq<char>>,
    to: Seq<Seq<char>>,
    label: Option<Seq<char>>,
    style: EdgeStyle,
    a: ArrowHead,
    b: ArrowHead,
) -> Seq<EdgeV>
    decreases from.len(),
{
    if from.len() == 0 {
        seq![]
    } else {
        cross_edges(from.drop_last(), to, label, style, a, b) + to.map_values(
            |t: Seq<char>| EdgeV { from: from.last(), to: t, label, style, arrow_start: a, arrow_end: b },
        )
    }
}

/// Every arrow pattern is at least three characters long.
pub proof fn lemma_arrow_len(i: int)
    ensures
        flow_arrow(i).0.len() >= 3,
{
}

/// The label part leaves a text no longer than it was.
pub proof fn lemma_edge_label_len(text: Seq<char>)
    ensures
        edge_label_spec(text).1.len() <= text.len(),
{
    crate::text::lemma_trim_len(text);
    let t = trim_spec(text);
    if t.len() > 0 && t[0] == '|' {
        lemma_find_from_bounds(t.skip(1), seq!['|'], 0);
        if let Some(e) = find_spec(t.skip(1), seq!['|']) {
            crate::text::lemma_trim_len(t.skip(e + 2));
        }
    }
}

/// Walk the rest of an edge line: at each arrow, the node texts before it
/// (or the previous targets, when there are none) are the sources, and the
/// texts up to the next arrow the targets.
pub open spec fn edge_walk(rem: Seq<char>, w: EdgeWalk, prev: Seq<Seq<char>>) -> EdgeWalk
    decreases rem.len(),
{
    if rem.len() == 0 {
        w
    } else {
        match arrow_in(rem) {
            None => w,
            Some((pos, ai)) => {
                let (pat, style, a, b) = flow_arrow(ai);
                let raw = trim_spec(rem.take(pos));
                let after = rem.skip(pos + pat.len());
                let (pipe, rest_after) = edge_label_spec(after);
                let (node_text, dash) = dash_label_spec(raw);
                let label = if pipe is Some {
                    pipe
                } else {
                    dash
                };
                let (w1, from_ids) = if node_text.len() > 0 {
                    parse_parts(w, amp_split(node_text))
                } else {
                    (w, prev)
                };
                let next = trim_spec(rest_after);
                let te = match arrow_in(next) {
                    Some((p, _)) => p,
                    None => next.len() as int,
                };
                let target = strip_semi_spec(trim_spec(next.take(te)));
                let (w2, to_ids) = parse_parts(w1, amp_split(target));
                let w3 = EdgeWalk {
                    edges: w2.edges + cross_edges(from_ids, to_ids, label, style, a, b),
                    ..w2
                };
                proof {
                    lemma_best_arrow(rem, 12);
                    lemma_arrow_len(ai);
                    lemma_edge_label_len(after);
                    crate::text::lemma_trim_len(rest_after);
                    lemma_best_arrow(next, 12);
                }
                edge_walk(next.skip(te), w3, to_ids)
            },
        }
    }
}

/// The walk of a whole edge line (trimmed, a trailing `;` removed).
pub open spec fn edge_line_walk(line: Seq<char>) -> EdgeWalk {
    let l = strip_semi_spec(trim_spec(line));
    edge_walk(l, EdgeWalk { nodes: seq![], edges: seq![], seen: seq![], panics: false }, seq![])
}

/// The nodes and edges of a line with arrows, such as `A --> B`,
/// `A -->|yes| B --> C` or `A & B --> C`; `None` without an arrow or
/// without any node.
pub open spec fn edge_line_spec(line: Seq<char>) -> Option<
    (Seq<(Seq<char>, Seq<char>, NodeShape)>, Seq<EdgeV>),
> {
    let l = strip_semi_spec(trim_spec(line));
    let w = edge_line_walk(line);
    if arrow_in(l) is None || w.nodes.len() == 0 {
        None
    } else {
        Some((w.nodes, w.edges))
    }
}

/// The line has an arrow and a node text that would make the parser slice
/// backwards and panic.
pub open spec fn edge_line_panics(line: Seq<char>) -> bool {
    arrow_in(strip_semi_spec(trim_spec(line))) is Some && edge_line_walk(line).panics
}

/// The exec walk state is the walk `w`.
pub open spec fn walk_is(
    nodes: Seq<(String, String, NodeShape)>,
    edges: Seq<FlowEdge>,
    seen: Seq<String>,
    w: EdgeWalk,
) -> bool {
    &&& triples_view(nodes) == w.nodes
    &&& edges_view(edges) == w.edges
    &&& strings_view(seen) == w.seen
}

/// Whether an id is among those seen.
fn seen_contains(seen: &Vec<String>, id: &String) -> (b: bool)
    ensures
        b == strings_view(seen@).contains(id@),
{
    let mut k: usize = 0;
    while k < seen.len()
        invariant
            k <= seen@.len(),
            forall|j: int| 0 <= j < k ==> strings_view(seen@)[j] != id@,
        decreases seen@.len() - k,
    {
        if seen[k] == *id {
            assert(strings_view(seen@)[k as int] == id@);
            return true;
        }
        k = k + 1;
    }
    false
}

/// Parse node texts in turn, declaring ids not seen before.
fn parse_parts_exec(
    nodes: &mut Vec<(String, String, NodeShape)>,
    seen: &mut Vec<String>,
    parts: &Vec<Vec<char>>,
    Ghost(w): Ghost<EdgeWalk>,
) -> (ids: Vec<String>)
    requires
        triples_view(old(nodes)@) == w.nodes,
        strings_view(old(seen)@) == w.seen,
        !parse_parts(w, views_of(parts@)).0.panics,
    ensures
        ({
            let (w2, ids2) = parse_parts(w, views_of(parts@));
            &&& triples_view(final(nodes)@) == w2.nodes
            &&& strings_view(final(seen)@) == w2.seen
            &&& strings_view(ids@) == ids2
        }),
{
    let ghost ps = views_of(parts@);
    let mut ids: Vec<String> = Vec::new();
    let mut i: usize = 0;
    proof {
        assert(ps.take(0) =~= seq![]);
        assert(strings_view(ids@) =~= seq![]);
        lemma_parts_panic_prefix(w, ps, 0);
    }
    while i < parts.len()
        invariant
            i <= parts@.len(),
            ps == views_of(parts@),
            !parse_parts(w, ps).0.panics,
            ({
                let (w2, ids2) = parse_parts(w, ps.take(i as int));
                &&& triples_view(nodes@) == w2.nodes
                &&& strings_view(seen@) == w2.seen
                &&& strings_view(ids@) == ids2
                &&& !w2.panics
            }),
        decreases parts@.len() - i,
    {
        proof {
            assert(ps.take(i + 1 as int).drop_last() =~= ps.take(i as int));
            assert(ps.take(i + 1 as int).last() == parts@[i as int]@);
            lemma_parts_panic_prefix(w, ps, i + 1);
        }
        match parse_node_chars(parts[i].as_slice()) {
            Some((id, label, shape)) => {
                if !seen_contains(seen, &id) {
                    let ghost sb = strings_view(seen@);
                    let ghost nb = triples_view(nodes@);
                    seen.push(id.clone());
                    assert(strings_view(seen@) =~= sb.push(id@));
                    nodes.push((id.clone(), label, shape));
                    assert(triples_view(nodes@) =~= nb.push((id@, label@, shape)));
                }
                let ghost ib = strings_view(ids@);
                ids.push(id);
                assert(strings_view(ids@) =~= ib.push(id@));
            },
            None => {},
        }
        i = i + 1;
    }
    assert(ps.take(parts@.len() as int) =~= ps);
    ids
}

/// A panic in the walk of a prefix is a panic in the walk of the whole.
proof fn lemma_parts_panic_prefix(w: EdgeWalk, ps: Seq<Seq<char>>, k: int)
    requires
        0 <= k <= ps.len(),
    ensures
        parse_parts(w, ps.take(k)).0.panics ==> parse_parts(w, ps).0.panics,
    decreases ps.len() - k,
{
    if k < ps.len() {
        lemma_parts_panic_prefix(w, ps, k + 1);
        assert(ps.take(k + 1).drop_last() =~= ps.take(k));
    } else {
        assert(ps.take(k) =~= ps);
    }
}

/// Parts walked after a panic still panic.
proof fn lemma_parts_keeps_panic(w: EdgeWalk, ps: Seq<Seq<char>>)
    ensures
        w.panics ==> parse_parts(w, ps).0.panics,
    decreases ps.len(),
{
    if ps.len() > 0 {
        lemma_parts_keeps_panic(w, ps.drop_last());
    }
}

/// Walking node texts leaves the edges alone.
proof fn lemma_parts_edges(w: EdgeWalk, ps: Seq<Seq<char>>)
    ensures
        parse_parts(w, ps).0.edges == w.edges,
    decreases ps.len(),
{
    if ps.len() > 0 {
        lemma_parts_edges(w, ps.drop_last());
    }
}

/// Add an edge from each source to each target.
fn add_cross_edges(
    edges: &mut Vec<FlowEdge>,
    from: &Vec<String>,
    to: &Vec<String>,
    label: &Option<Vec<char>>,
    style: EdgeStyle,
    a: ArrowHead,
    b: ArrowHead,
)
    ensures
        edges_view(final(edges)@) == edges_view(old(edges)@) + cross_edges(
            strings_view(from@),
            strings_view(to@),
            match label {
                Some(l) => Some(l@),
                None => None,
            },
            style,
            a,
            b,
        ),
{
    let ghost lv = match label {
        Some(l) => Some(l@),
        None => None,
    };
    let ghost fv = strings_view(from@);
    let ghost tv = strings_view(to@);
    let mut i: usize = 0;
    assert(fv.take(0) =~= seq![]);
    assert(edges_view(edges@) =~= edges_view(old(edges)@) + cross_edges(fv.take(0), tv, lv, style, a, b));
    while i < from.len()
        invariant
            i <= from@.len(),
            fv == strings_view(from@),
            tv == strings_view(to@),
            lv == (match label {
                Some(l) => Some(l@),
                None => None,
            }),
            edges_view(edges@) == edges_view(old(edges)@) + cross_edges(fv.take(i as int), tv, lv, style, a, b),
        decreases from@.len() - i,
    {
        let ghost base = edges_view(edges@);
        let mut j: usize = 0;
        while j < to.len()
            invariant
                i < from@.len(),
                j <= to@.len(),
                fv == strings_view(from@),
                tv == strings_view(to@),
                lv == (match label {
                    Some(l) => Some(l@),
                    None => None,
                }),
                edges_view(edges@) == base + tv.take(j as int).map_values(
                    |t: Seq<char>| EdgeV { from: fv[i as int], to: t, label: lv, style, arrow_start: a, arrow_end: b },
                ),
            decreases to@.len() - j,
        {
            let ghost before = edges_view(edges@);
            let l = match label {
                Some(x) => Some(string_of(x.as_slice())),
                None => None,
            };
            let e = FlowEdge { from: from[i].clone(), to: to[j].clone(), label: l, style, arrow_start: a, arrow_end: b };
            edges.push(e);
            assert(edges_view(edges@) =~= before.push(edge_view(e)));
            assert(tv.take(j + 1 as int) =~= tv.take(j as int).push(tv[j as int]));
            j = j + 1;
            assert(edges_view(edges@) =~= base + tv.take(j as int).map_values(
                |t: Seq<char>| EdgeV { from: fv[i as int], to: t, label: lv, style, arrow_start: a, arrow_end: b },
            ));
        }
        assert(tv.take(to@.len() as int) =~= tv);
        assert(fv.take(i + 1 as int).drop_last() =~= fv.take(i as int));
        assert(fv.take(i + 1 as int).last() == fv[i as int]);
        i = i + 1;
        assert(edges_view(edges@) =~= edges_view(old(edges)@) + cross_edges(fv.take(i as int), tv, lv, style, a, b));
    }
    assert(fv.take(from@.len() as int) =~= fv);
}

/// Node texts walked after a panic still panic.
proof fn lemma_walk_keeps_panic(rem: Seq<char>, w: EdgeWalk, prev: Seq<Seq<char>>)
    ensures
        w.panics ==> edge_walk(rem, w, prev).panics,
    decreases rem.len(),
{
    if rem.len() > 0 {
        if let Some((pos, ai)) = arrow_in(rem) {
            let (pat, style, a, b) = flow_arrow(ai);
            let raw = trim_spec(rem.take(pos));
            let after = rem.skip(pos + pat.len());
            let (pipe, rest_after) = edge_label_spec(after);
            let (node_text, dash) = dash_label_spec(raw);
            let label = if pipe is Some {
                pipe
            } else {
                dash
            };
            let (w1, from_ids) = if node_text.len() > 0 {
                parse_parts(w, amp_split(node_text))
            } else {
                (w, prev)
            };
            if node_text.len() > 0 {
                lemma_parts_keeps_panic(w, amp_split(node_text));
            }
            let next = trim_spec(rest_after);
            let te = match arrow_in(next) {
                Some((p, _)) => p,
                None => next.len() as int,
            };
            let target = strip_semi_spec(trim_spec(next.take(te)));
            let (w2, to_ids) = parse_parts(w1, amp_split(target));
            lemma_parts_keeps_panic(w1, amp_split(target));
            let w3 = EdgeWalk {
                edges: w2.edges + cross_edges(from_ids, to_ids, label, style, a, b),
                ..w2
            };
            lemma_best_arrow(rem, 12);
            lemma_arrow_len(ai);
            lemma_edge_label_len(after);
            crate::text::lemma_trim_len(rest_after);
            lemma_best_arrow(next, 12);
            lemma_walk_keeps_panic(next.skip(te), w3, to_ids);
        }
    }
}

/// Whether walking the node texts would panic, for a walk that has not.
fn parts_would_panic(parts: &Vec<Vec<char>>, Ghost(w): Ghost<EdgeWalk>) -> (b: bool)
    requires
        !w.panics,
    ensures
        b == parse_parts(w, views_of(parts@)).0.panics,
{
    let ghost ps = views_of(parts@);
    let mut found = false;
    let mut i: usize = 0;
    assert(ps.take(0) =~= seq![]);
    while i < parts.len()
        invariant
            i <= parts@.len(),
            ps == views_of(parts@),
            !w.panics,
            found == parse_parts(w, ps.take(i as int)).0.panics,
        decreases parts@.len() - i,
    {
        proof {
            assert(ps.take(i + 1 as int).drop_last() =~= ps.take(i as int));
            assert(ps.take(i + 1 as int).last() == parts@[i as int]@);
        }
        let p = node_chars_would_panic(parts[i].as_slice());
        found = found || p;
        i = i + 1;
    }
    assert(ps.take(parts@.len() as int) =~= ps);
    found
}

/// Walk an edge line: `None` where one of its node texts would make the
/// parser panic, else what [`parse_edge_line_full`] returns.
fn walk_edge_line(line: &[char]) -> (r: Option<Option<(Vec<(String, String, NodeShape)>, Vec<FlowEdge>)>>)
    ensures
        r is None <==> edge_line_panics(line@),
        r matches Some(x) ==> match x {
            Some((n, e)) => edge_line_spec(line@) == Some((triples_view(n@), edges_view(e@))),
            None => edge_line_spec(line@) is None,
        },
{
    let l = strip_trailing_semicolon(trim(line).as_slice());
    if find_arrow_pattern(l.as_slice()).is_none() {
        return Some(None);
    }
    let ghost w0 = EdgeWalk { nodes: seq![], edges: seq![], seen: seq![], panics: false };
    let mut nodes: Vec<(String, String, NodeShape)> = Vec::new();
    let mut edges: Vec<FlowEdge> = Vec::new();
    let mut seen: Vec<String> = Vec::new();
    let mut prev: Vec<String> = Vec::new();
    let mut remaining = slice_copy(l.as_slice(), 0, l.len());
    let ghost mut cur = w0;
    proof {
        assert(remaining@ =~= l@);
        assert(triples_view(nodes@) =~= seq![]);
        assert(edges_view(edges@) =~= seq![]);
        assert(strings_view(seen@) =~= seq![]);
        assert(strings_view(prev@) =~= seq![]);
    }
    loop
        invariant
            edge_walk(remaining@, cur, strings_view(prev@)) == edge_line_walk(line@),
            walk_is(nodes@, edges@, seen@, cur),
            !cur.panics,
            arrow_in(strip_semi_spec(trim_spec(line@))) is Some,
        ensures
            cur == edge_line_walk(line@),
            !cur.panics,
            walk_is(nodes@, edges@, seen@, cur),
            arrow_in(strip_semi_spec(trim_spec(line@))) is Some,
        decreases remaining@.len(),
    {
        if remaining.len() == 0 {
            break;
        }
        let (pos, ai) = match find_arrow_pattern(remaining.as_slice()) {
            None => {
                break;
            },
            Some(x) => x,
        };
        let ghost rem = remaining@;
        let ghost pv = strings_view(prev@);
        proof {
            lemma_best_arrow(rem, 12);
            lemma_arrow_len(ai as int);
        }
        let (pat, style, a, b) = flow_arrow_exec(ai);
        let raw = trim(&remaining.as_slice()[0..pos]);
        assert(rem.subrange(0, pos as int) =~= rem.take(pos as int));
        let after = slice_copy(remaining.as_slice(), pos + pat.len(), remaining.len());
        assert(after@ =~= rem.skip(pos + pat@.len()));
        let (pipe, rest_after) = parse_edge_label(after.as_slice());
        let (node_text, dash) = extract_dash_label(raw.as_slice());
        let label = if pipe.is_some() {
            pipe
        } else {
            dash
        };
        let ghost w_before = cur;
        let from_ids: Vec<String> = if node_text.len() > 0 {
            let parts = split_by_ampersand(node_text.as_slice());
            proof {
                lemma_parts_keeps_panic(parse_parts(cur, views_of(parts@)).0, seq![]);
                if parse_parts(cur, views_of(parts@)).0.panics {
                    let w1 = parse_parts(cur, views_of(parts@)).0;
                    let next = trim_spec(rest_after@);
                    let te = match arrow_in(next) {
                        Some((p, _)) => p,
                        None => next.len() as int,
                    };
                    let target = strip_semi_spec(trim_spec(next.take(te)));
                    lemma_parts_keeps_panic(w1, amp_split(target));
                    let (w2, to_ids) = parse_parts(w1, amp_split(target));
                    let lv = if edge_label_spec(after@).0 is Some {
                        edge_label_spec(after@).0
                    } else {
                        dash_label_spec(raw@).1
                    };
                    let w3 = EdgeWalk {
                        edges: w2.edges + cross_edges(parse_parts(cur, views_of(parts@)).1, to_ids, lv, style, a, b),
                        ..w2
                    };
                    lemma_edge_label_len(after@);
                    crate::text::lemma_trim_len(rest_after@);
                    lemma_best_arrow(next, 12);
                    lemma_walk_keeps_panic(next.skip(te), w3, to_ids);
                }
            }
            if parts_would_panic(&parts, Ghost(cur)) {
                return None;
            }
            let ids = parse_parts_exec(&mut nodes, &mut seen, &parts, Ghost(cur));
            proof {
                cur = parse_parts(w_before, views_of(parts@)).0;
            }
            ids
        } else {
            let mut p: Vec<String> = Vec::new();
            std::mem::swap(&mut p, &mut prev);
            p
        };
        let ghost w1 = cur;
        let next = trim(rest_after.as_slice());
        let te = match find_arrow_pattern(next.as_slice()) {
            Some((p, _)) => {
                proof {
                    lemma_best_arrow(next@, 12);
                }
                p
            },
            None => next.len(),
        };
        let target = strip_trailing_semicolon(trim(&next.as_slice()[0..te]).as_slice());
        assert(next@.subrange(0, te as int) =~= next@.take(te as int));
        let tparts = split_by_ampersand(target.as_slice());
        proof {
            if parse_parts(w1, views_of(tparts@)).0.panics {
                let (w2, to_ids) = parse_parts(w1, views_of(tparts@));
                let lv = if edge_label_spec(after@).0 is Some {
                    edge_label_spec(after@).0
                } else {
                    dash_label_spec(raw@).1
                };
                let w3 = EdgeWalk {
                    edges: w2.edges + cross_edges(strings_view(from_ids@), to_ids, lv, style, a, b),
                    ..w2
                };
                lemma_edge_label_len(after@);
                crate::text::lemma_trim_len(rest_after@);
                lemma_walk_keeps_panic(next@.skip(te as int), w3, to_ids);
            }
        }
        if parts_would_panic(&tparts, Ghost(w1)) {
            return None;
        }
        let to_ids = parse_parts_exec(&mut nodes, &mut seen, &tparts, Ghost(w1));
        let ghost w2 = parse_parts(w1, views_of(tparts@)).0;
        proof {
            lemma_parts_edges(w1, views_of(tparts@));
            if node_text@.len() > 0 {
                lemma_parts_edges(w_before, amp_split(node_text@));
            }
        }
        add_cross_edges(&mut edges, &from_ids, &to_ids, &label, style, a, b);
        proof {
            cur = EdgeWalk {
                edges: w2.edges + cross_edges(
                    strings_view(from_ids@),
                    strings_view(to_ids@),
                    match label {
                        Some(x) => Some(x@),
                        None => None,
                    },
                    style,
                    a,
                    b,
                ),
                ..w2
            };
            lemma_edge_label_len(after@);
            crate::text::lemma_trim_len(rest_after@);
        }
        let nl = next.len();
        let new_rem = slice_copy(next.as_slice(), te, nl);
        assert(new_rem@ =~= next@.skip(te as int));
        prev = to_ids;
        remaining = new_rem;
    }
    if nodes.len() == 0 {
        return Some(None);
    }
    Some(Some((nodes, edges)))
}

/// Parse a line that may contain chained edges (`A --> B --> C`) and
/// ampersand lists (`A & B --> C`), returning all nodes and all edges.
pub fn parse_edge_line_full(line: &[char]) -> (r: Option<(Vec<(String, String, NodeShape)>, Vec<FlowEdge>)>)
    requires
        !edge_line_panics(line@),
    ensures
        match r {
            Some((n, e)) => edge_line_spec(line@) == Some((triples_view(n@), edges_view(e@))),
            None => edge_line_spec(line@) is None,
        },
{
    match walk_edge_line(line) {
        Some(x) => x,
        None => None,
    }
}

/// Whether [`parse_edge_line_full`] would panic on this line, where a node
/// text on an edge line closes a delimiter before opening it; it may be
/// called exactly when this is false.
pub fn edge_line_would_panic(line: &[char]) -> (b: bool)
    ensures
        b == edge_line_panics(line@),
{
    walk_edge_line(line).is_none()
}

// ──────────────────────────────── styles ─────────────────────────────────────

/// A color: red, green, blue and alpha (not premultiplied).
#[derive(Debug, Clone, Copy, PartialEq, Eq, Structural)]
pub struct Color {
    pub r: u8,
    pub g: u8,
    pub b: u8,
    pub a: u8,
}

/// Custom style for a node defined via classDef.
#[derive(Debug, Clone)]
pub struct NodeStyle {
    /// Fill color (background)
    pub fill: Option<Color>,
    /// Stroke color (border)
    pub stroke: Option<Color>,
    /// Stroke width as written, a `px` suffix removed; the renderer reads
    /// the number
    pub stroke_width: Option<String>,
}

impl Default for NodeStyle {
    fn default() -> (r: Self)
        ensures
            r.fill is None && r.stroke is None && r.stroke_width is None,
    {
        NodeStyle { fill: None, stroke: None, stroke_width: None }
    }
}

/// Custom style for an edge defined via linkStyle directive.
#[derive(Debug, Clone)]
pub struct LinkStyle {
    /// Stroke color
    pub stroke: Option<Color>,
    /// Stroke width as written, a `px` suffix removed
    pub stroke_width: Option<String>,
}

impl Default for LinkStyle {
    fn default() -> (r: Self)
        ensures
            r.stroke is None && r.stroke_width is None,
    {
        LinkStyle { stroke: None, stroke_width: None }
    }
}

/// A style as plain values: fill, stroke, stroke width text.
pub struct StyleV {
    pub fill: Option<Color>,
    pub stroke: Option<Color>,
    pub width: Option<Seq<char>>,
}

pub open spec fn opt_chars_of(s: Option<String>) -> Option<Seq<char>> {
    match s {
        Some(t) => Some(t@),
        None => None,
    }
}

pub open spec fn node_style_view(s: NodeStyle) -> StyleV {
    StyleV { fill: s.fill, stroke: s.stroke, width: opt_chars_of(s.stroke_width) }
}

pub open spec fn link_style_view(s: LinkStyle) -> StyleV {
    StyleV { fill: None, stroke: s.stroke, width: opt_chars_of(s.stroke_width) }
}

/// The value of a hexadecimal digit.
pub open spec fn hex_val(c: char) -> Option<nat> {
    if '0' <= c && c <= '9' {
        Some((c as nat - 48) as nat)
    } else if 'a' <= c && c <= 'f' {
        Some((c as nat - 87) as nat)
    } else if 'A' <= c && c <= 'F' {
        Some((c as nat - 55) as nat)
    } else {
        None
    }
}

/// `u8::from_str_radix(p, 16)` for a piece of one or two characters: an
/// optional `+`, then one or two hexadecimal digits.
pub open spec fn hex_byte(p: Seq<char>) -> Option<u8> {
    let body = if p.len() > 0 && p[0] == '+' {
        p.drop_first()
    } else {
        p
    };
    if body.len() == 1 {
        match hex_val(body[0]) {
            Some(v) => Some(v as u8),
            None => None,
        }
    } else if body.len() == 2 {
        match (hex_val(body[0]), hex_val(body[1])) {
            (Some(a), Some(b)) => Some((a * 16 + b) as u8),
            _ => None,
        }
    } else {
        None
    }
}

/// All characters are ASCII.
pub open spec fn is_ascii_chars(s: Seq<char>) -> bool {
    forall|i: int| 0 <= i < s.len() ==> (#[trigger] s[i] as u32) < 0x80
}

/// The color of a CSS hex value `#RGB`, `#RRGGBB` or `#RRGGBBAA`.
pub open spec fn css_color_spec(value: Seq<char>) -> Option<Color> {
    let t = trim_spec(value);
    if t.len() == 0 || t[0] != '#' {
        None
    } else {
        let h = t.skip(1);
        if !is_ascii_chars(h) {
            None
        } else if h.len() == 3 {
            match (hex_byte(h.subrange(0, 1)), hex_byte(h.subrange(1, 2)), hex_byte(h.subrange(2, 3))) {
                (Some(r), Some(g), Some(b)) => Some(
                    Color { r: (r * 17) as u8, g: (g * 17) as u8, b: (b * 17) as u8, a: 255 },
                ),
                _ => None,
            }
        } else if h.len() == 6 {
            match (hex_byte(h.subrange(0, 2)), hex_byte(h.subrange(2, 4)), hex_byte(h.subrange(4, 6))) {
                (Some(r), Some(g), Some(b)) => Some(Color { r, g, b, a: 255 }),
                _ => None,
            }
        } else if h.len() == 8 {
            match (
                hex_byte(h.subrange(0, 2)),
                hex_byte(h.subrange(2, 4)),
                hex_byte(h.subrange(4, 6)),
                hex_byte(h.subrange(6, 8)),
            ) {
                (Some(r), Some(g), Some(b), Some(a)) => Some(Color { r, g, b, a }),
                _ => None,
            }
        } else {
            None
        }
    }
}

/// The number of bytes of a character in UTF-8.
pub open spec fn utf8_len(c: char) -> nat {
    if (c as u32) < 0x80 {
        1
    } else if (c as u32) < 0x800 {
        2
    } else if (c as u32) < 0x10000 {
        3
    } else {
        4
    }
}

/// The number of bytes of a string in UTF-8.
pub open spec fn byte_len(s: Seq<char>) -> nat
    decreases s.len(),
{
    if s.len() == 0 {
        0
    } else {
        byte_len(s.drop_last()) + utf8_len(s.last())
    }
}

/// Byte offset `b` falls between characters of `s`.
pub open spec fn is_boundary(s: Seq<char>, b: int) -> bool {
    exists|k: int| 0 <= k <= s.len() && #[trigger] byte_len(s.take(k)) == b
}

/// The hex part of the value has 3, 6 or 8 bytes but a piece the color
/// parser cuts out would split a character, so it would panic.
pub open spec fn css_color_panics(value: Seq<char>) -> bool {
    let t = trim_spec(value);
    t.len() > 0 && t[0] == '#' && {
        let h = t.skip(1);
        let n = byte_len(h);
        ||| n == 3 && !(is_boundary(h, 1) && is_boundary(h, 2))
        ||| n == 6 && !(is_boundary(h, 2) && is_boundary(h, 4))
        ||| n == 8 && !(is_boundary(h, 2) && is_boundary(h, 4) && is_boundary(h, 6))
    }
}

fn hex_val_exec(c: char) -> (r: Option<u8>)
    ensures
        (match r {
            Some(v) => Some(v as nat),
            None => None,
        }) == hex_val(c),
        r matches Some(v) ==> v < 16,
{
    if '0' <= c && c <= '9' {
        Some((c as u32 - 48) as u8)
    } else if 'a' <= c && c <= 'f' {
        Some((c as u32 - 87) as u8)
    } else if 'A' <= c && c <= 'F' {
        Some((c as u32 - 55) as u8)
    } else {
        None
    }
}

fn hex_byte_exec(p: &[char]) -> (r: Option<u8>)
    requires
        1 <= p@.len() <= 2,
    ensures
        r == hex_byte(p@),
        p@.len() == 1 ==> (r matches Some(v) ==> v < 16),
{
    let start: usize = if p[0] == '+' {
        1
    } else {
        0
    };
    let ghost body = if p@.len() > 0 && p@[0] == '+' {
        p@.drop_first()
    } else {
        p@
    };
    assert(body =~= p@.subrange(start as int, p@.len() as int));
    let n = p.len() - start;
    if n == 1 {
        assert(body[0] == p@[start as int]);
        match hex_val_exec(p[start]) {
            Some(v) => Some(v),
            None => None,
        }
    } else if n == 2 {
        assert(body[0] == p@[start as int]);
        assert(body[1] == p@[start + 1]);
        match (hex_val_exec(p[start]), hex_val_exec(p[start + 1])) {
            (Some(a), Some(b)) => Some(a * 16 + b),
            _ => None,
        }
    } else {
        None
    }
}

/// The number of bytes of a character in UTF-8.
fn utf8_len_exec(c: char) -> (n: usize)
    ensures
        n == utf8_len(c),
{
    if (c as u32) < 0x80 {
        1
    } else if (c as u32) < 0x800 {
        2
    } else if (c as u32) < 0x10000 {
        3
    } else {
        4
    }
}

/// Some prefix of `h` of at most `i` characters has exactly `b` bytes.
pub open spec fn boundary_upto(h: Seq<char>, i: int, b: int) -> bool {
    exists|k: int| 0 <= k <= i && #[trigger] byte_len(h.take(k)) == b
}

/// Whether [`parse_css_color`] would cut a character of the value in two
/// and so panic, on a `#` value of 3, 6 or 8 bytes that are not all
/// single-byte characters; it may be called exactly when this is false.
pub fn css_color_would_panic(value: &[char]) -> (b: bool)
    ensures
        b == css_color_panics(value@),
{
    let t = trim(value);
    if t.len() == 0 || t[0] != '#' {
        return false;
    }
    let h = slice_copy(t.as_slice(), 1, t.len());
    assert(h@ =~= t@.skip(1));
    let mut acc: usize = 0;
    let mut at1 = false;
    let mut at2 = false;
    let mut at4 = false;
    let mut at6 = false;
    let mut i: usize = 0;
    proof {
        assert(h@.take(0) =~= seq![]);
        assert(byte_len(h@.take(0)) == 0);
        assert(!boundary_upto(h@, 0, 1) && !boundary_upto(h@, 0, 2) && !boundary_upto(h@, 0, 4)
            && !boundary_upto(h@, 0, 6)) by {
            assert forall|k: int| 0 <= k <= 0 implies byte_len(#[trigger] h@.take(k)) == 0 by {
                assert(h@.take(k) =~= seq![]);
            }
        }
    }
    while i < h.len()
        invariant
            i <= h@.len(),
            acc <= 9,
            acc == (if byte_len(h@.take(i as int)) < 9 {
                byte_len(h@.take(i as int))
            } else {
                9
            }),
            at1 == boundary_upto(h@, i as int, 1),
            at2 == boundary_upto(h@, i as int, 2),
            at4 == boundary_upto(h@, i as int, 4),
            at6 == boundary_upto(h@, i as int, 6),
        decreases h@.len() - i,
    {
        let ghost before = byte_len(h@.take(i as int));
        proof {
            assert(h@.take(i + 1 as int).drop_last() =~= h@.take(i as int));
            assert(h@.take(i + 1 as int).last() == h@[i as int]);
        }
        let w = utf8_len_exec(h[i]);
        acc = if acc + w < 9 {
            acc + w
        } else {
            9
        };
        i = i + 1;
        let ghost now = byte_len(h@.take(i as int));
        assert(now == before + utf8_len(h@[i - 1]));
        proof {
            assert forall|b: int| #![trigger boundary_upto(h@, i as int, b)]
                boundary_upto(h@, i as int, b) == (boundary_upto(h@, i - 1, b) || now == b) by {
                if now == b {
                    assert(byte_len(h@.take(i as int)) == b);
                }
                if boundary_upto(h@, i as int, b) {
                    let k = choose|k: int| 0 <= k <= i && #[trigger] byte_len(h@.take(k)) == b;
                    if k < i {
                        assert(boundary_upto(h@, i - 1, b));
                    }
                }
                if boundary_upto(h@, i - 1, b) {
                    let k = choose|k: int| 0 <= k <= i - 1 && #[trigger] byte_len(h@.take(k)) == b;
                    assert(0 <= k <= i);
                }
            }
        }
        at1 = at1 || acc == 1;
        at2 = at2 || acc == 2;
        at4 = at4 || acc == 4;
        at6 = at6 || acc == 6;
    }
    assert(h@.take(h@.len() as int) =~= h@);
    proof {
        assert(boundary_upto(h@, h@.len() as int, 1) == is_boundary(h@, 1));
        assert(boundary_upto(h@, h@.len() as int, 2) == is_boundary(h@, 2));
        assert(boundary_upto(h@, h@.len() as int, 4) == is_boundary(h@, 4));
        assert(boundary_upto(h@, h@.len() as int, 6) == is_boundary(h@, 6));
    }
    (acc == 3 && !(at1 && at2)) || (acc == 6 && !(at2 && at4)) || (acc == 8 && !(at2 && at4 && at6))
}

/// Parse a CSS hex color.
pub fn parse_css_color(value: &[char]) -> (r: Option<Color>)
    requires
        !css_color_panics(value@),
    ensures
        r == css_color_spec(value@),
{
    let t = trim(value);
    if t.len() == 0 || t[0] != '#' {
        return None;
    }
    let h = slice_copy(t.as_slice(), 1, t.len());
    assert(h@ =~= t@.skip(1));
    let mut i: usize = 0;
    while i < h.len()
        invariant
            i <= h@.len(),
            h@ == t@.skip(1),
            t@ == trim_spec(value@),
            t@.len() > 0 && t@[0] == '#',
            forall|k: int| 0 <= k < i ==> (#[trigger] h@[k] as u32) < 0x80,
        decreases h@.len() - i,
    {
        if (h[i] as u32) >= 0x80 {
            assert((h@[i as int] as u32) >= 0x80);
            assert(!is_ascii_chars(h@));
            assert(t@.len() > 0 && t@[0] == '#');
            assert(trim_spec(value@).skip(1) == h@);
            assert(css_color_spec(value@) is None);
            return None;
        }
        i = i + 1;
    }
    if h.len() == 3 {
        match (hex_byte_exec(&h.as_slice()[0..1]), hex_byte_exec(&h.as_slice()[1..2]), hex_byte_exec(&h.as_slice()[2..3])) {
            (Some(r), Some(g), Some(b)) => Some(Color { r: r * 17, g: g * 17, b: b * 17, a: 255 }),
            _ => None,
        }
    } else if h.len() == 6 {
        match (hex_byte_exec(&h.as_slice()[0..2]), hex_byte_exec(&h.as_slice()[2..4]), hex_byte_exec(&h.as_slice()[4..6])) {
            (Some(r), Some(g), Some(b)) => Some(Color { r, g, b, a: 255 }),
            _ => None,
        }
    } else if h.len() == 8 {
        match (
            hex_byte_exec(&h.as_slice()[0..2]),
            hex_byte_exec(&h.as_slice()[2..4]),
            hex_byte_exec(&h.as_slice()[4..6]),
            hex_byte_exec(&h.as_slice()[6..8]),
        ) {
            (Some(r), Some(g), Some(b), Some(a)) => Some(Color { r, g, b, a }),
            _ => None,
        }
    } else {
        None
    }
}

/// A stroke width as written: trimmed, one `px` suffix removed.
pub open spec fn stroke_width_spec(value: Seq<char>) -> Seq<char> {
    let t = trim_spec(value);
    if ends_with_spec(t, seq!['p', 'x']) {
        t.take(t.len() - 2)
    } else {
        t
    }
}

/// The stroke width text of a value.
pub fn parse_stroke_width(value: &[char]) -> (r: String)
    ensures
        r@ == stroke_width_spec(value@),
{
    let t = trim(value);
    let px: Vec<char> = vec!['p', 'x'];
    assert(px@ =~= seq!['p', 'x']);
    if ends_with(t.as_slice(), px.as_slice()) {
        let s = slice_copy(t.as_slice(), 0, t.len() - 2);
        assert(s@ =~= t@.take(t@.len() - 2));
        string_of(s.as_slice())
    } else {
        string_of(t.as_slice())
    }
}

/// What style properties `key:value` separated by commas set, starting
/// from `st`; keys compared without regard to ASCII case (`fill` only
/// where `with_fill`); also whether a color value would make the parser
/// panic.
pub open spec fn style_fold(props: Seq<Seq<char>>, with_fill: bool) -> (StyleV, bool)
    decreases props.len(),
{
    if props.len() == 0 {
        (StyleV { fill: None, stroke: None, width: None }, false)
    } else {
        let (st, pan) = style_fold(props.drop_last(), with_fill);
        let prop = trim_spec(props.last());
        match find_spec(prop, seq![':']) {
            None => (st, pan),
            Some(c) => {
                let key = trim_spec(prop.take(c));
                let value = trim_spec(prop.skip(c + 1));
                if with_fill && eq_lower_spec(key, "fill"@) {
                    (StyleV { fill: css_color_spec(value), ..st }, pan || css_color_panics(value))
                } else if eq_lower_spec(key, "stroke"@) {
                    (StyleV { stroke: css_color_spec(value), ..st }, pan || css_color_panics(value))
                } else if eq_lower_spec(key, "stroke-width"@) {
                    (StyleV { width: Some(stroke_width_spec(value)), ..st }, pan)
                } else {
                    (st, pan)
                }
            },
        }
    }
}

/// Apply style properties; `with_fill` decides whether `fill` counts.
/// `None` where a color among them would make the parser panic.
fn style_props(props: &Vec<Vec<char>>, with_fill: bool) -> (r: Option<(Option<Color>, Option<Color>, Option<String>)>)
    ensures
        r is None == style_fold(views_of(props@), with_fill).1,
        r matches Some(x) ==> ({
            let st = style_fold(views_of(props@), with_fill).0;
            &&& x.0 == st.fill
            &&& x.1 == st.stroke
            &&& opt_chars_of(x.2) == st.width
        }),
{
    let ghost ps = views_of(props@);
    let fw = chars_of("fill");
    let sw = chars_of("stroke");
    let ww = chars_of("stroke-width");
    let colon: Vec<char> = vec![':'];
    assert(colon@ =~= seq![':']);
    let mut fill: Option<Color> = None;
    let mut stroke: Option<Color> = None;
    let mut width: Option<String> = None;
    let mut i: usize = 0;
    proof {
        assert(ps.take(0) =~= seq![]);
        lemma_style_panic_prefix(ps, with_fill, 0);
    }
    while i < props.len()
        invariant
            i <= props@.len(),
            ps == views_of(props@),
            fw@ == "fill"@,
            sw@ == "stroke"@,
            ww@ == "stroke-width"@,
            colon@ == seq![':'],
            ({
                let (st, pan) = style_fold(ps.take(i as int), with_fill);
                &&& fill == st.fill
                &&& stroke == st.stroke
                &&& opt_chars_of(width) == st.width
                &&& !pan
            }),
        decreases props@.len() - i,
    {
        proof {
            assert(ps.take(i + 1 as int).drop_last() =~= ps.take(i as int));
            assert(ps.take(i + 1 as int).last() == props@[i as int]@);
            lemma_style_panic_prefix(ps, with_fill, i + 1);
        }
        let prop = trim(props[i].as_slice());
        match find(prop.as_slice(), colon.as_slice()) {
            Some(c) => {
                let pl = prop.len();
                proof {
                    lemma_find_from_bounds(prop@, seq![':'], 0);
                    assert(c + 1 <= pl);
                }
                let key = trim(&prop.as_slice()[0..c]);
                assert(prop@.subrange(0, c as int) =~= prop@.take(c as int));
                let value = trim(&prop.as_slice()[c + 1..pl]);
                assert(prop@.subrange(c + 1, pl as int) =~= prop@.skip(c + 1));
                if with_fill && eq_lower(key.as_slice(), fw.as_slice()) {
                    if css_color_would_panic(value.as_slice()) {
                        return None;
                    }
                    fill = parse_css_color(value.as_slice());
                } else if eq_lower(key.as_slice(), sw.as_slice()) {
                    if css_color_would_panic(value.as_slice()) {
                        return None;
                    }
                    stroke = parse_css_color(value.as_slice());
                } else if eq_lower(key.as_slice(), ww.as_slice()) {
                    width = Some(parse_stroke_width(value.as_slice()));
                }
            },
            None => {},
        }
        i = i + 1;
    }
    assert(ps.take(props@.len() as int) =~= ps);
    Some((fill, stroke, width))
}

/// A panic in a prefix of the properties is a panic of the whole.
proof fn lemma_style_panic_prefix(ps: Seq<Seq<char>>, with_fill: bool, k: int)
    requires
        0 <= k <= ps.len(),
    ensures
        style_fold(ps.take(k), with_fill).1 ==> style_fold(ps, with_fill).1,
    decreases ps.len() - k,
{
    if k < ps.len() {
        lemma_style_panic_prefix(ps, with_fill, k + 1);
        assert(ps.take(k + 1).drop_last() =~= ps.take(k));
    } else {
        assert(ps.take(k) =~= ps);
    }
}

/// Without `fill` among the keys that count, no style sets a fill.
proof fn lemma_style_no_fill(ps: Seq<Seq<char>>)
    ensures
        style_fold(ps, false).0.fill is None,
    decreases ps.len(),
{
    if ps.len() > 0 {
        lemma_style_no_fill(ps.drop_last());
    }
}

// ───────────────────────────── keyed entries ─────────────────────────────────

/// The index of the first entry with key `k`, or -1.
pub open spec fn key_index<K, V>(m: Seq<(K, V)>, k: K) -> int
    decreases m.len(),
{
    if m.len() == 0 {
        -1
    } else {
        let i = key_index(m.drop_last(), k);
        if i >= 0 {
            i
        } else if m.last().0 == k {
            m.len() - 1
        } else {
            -1
        }
    }
}

/// Set the value of key `k`: in place where the key has an entry,
/// otherwise as a new last entry.
pub open spec fn map_put<K, V>(m: Seq<(K, V)>, k: K, v: V) -> Seq<(K, V)> {
    let i = key_index(m, k);
    if i >= 0 {
        m.update(i, (k, v))
    } else {
        m.push((k, v))
    }
}

pub proof fn lemma_key_index<K, V>(m: Seq<(K, V)>, k: K)
    ensures
        -1 <= key_index(m, k) < m.len(),
        key_index(m, k) >= 0 ==> m[key_index(m, k)].0 == k,
        forall|j: int| 0 <= j < m.len() && (key_index(m, k) < 0 || j < key_index(m, k)) ==> #[trigger] m[j].0 != k,
    decreases m.len(),
{
    if m.len() > 0 {
        lemma_key_index(m.drop_last(), k);
        assert forall|j: int| 0 <= j < m.len() - 1 implies #[trigger] m[j] == m.drop_last()[j] by {}
    }
}

// ───────────────────────────── directive lines ───────────────────────────────

/// The class name and style of a `classDef name prop:value,...` line.
pub open spec fn class_def_spec(line: Seq<char>) -> Option<(Seq<char>, StyleV, bool)> {
    if !starts_with_lower_spec(line, "classdef "@) {
        None
    } else {
        let rest = trim_spec(line.skip(9));
        if rest.len() == 0 {
            None
        } else {
            let ws = next_ws_from(rest, 0);
            let name = trim_spec(rest.take(ws));
            let props = if ws < rest.len() {
                trim_spec(rest.skip(ws + 1))
            } else {
                seq![]
            };
            if name.len() == 0 {
                None
            } else {
                let (st, pan) = style_fold(split_char_spec(props, ','), true);
                Some((name, st, pan))
            }
        }
    }
}

/// Parse a `classDef` line into the class name and its style.
pub fn parse_class_def(line: &[char]) -> (r: Option<(String, NodeStyle)>)
    requires
        !(class_def_spec(line@) matches Some((_, _, true))),
    ensures
        match r {
            Some((n, st)) => class_def_spec(line@) matches Some((n2, st2, _)) && n2 == n@ && st2
                == node_style_view(st),
            None => class_def_spec(line@) is None,
        },
{
    match class_def_checked(line) {
        Some(x) => x,
        None => None,
    }
}

/// [`parse_class_def`], or `None` where a color in the line would make the
/// parser panic.
fn class_def_checked(line: &[char]) -> (r: Option<Option<(String, NodeStyle)>>)
    ensures
        r is None == (class_def_spec(line@) matches Some((_, _, true))),
        r matches Some(x) ==> match x {
            Some((n, st)) => class_def_spec(line@) matches Some((n2, st2, _)) && n2 == n@ && st2
                == node_style_view(st),
            None => class_def_spec(line@) is None,
        },
{
    let kw = chars_of("classdef ");
    proof {
        reveal_strlit("classdef ");
    }
    if !starts_with_lower(line, kw.as_slice()) {
        return Some(None);
    }
    let rest = trim(&line[9..line.len()]);
    assert(line@.subrange(9, line@.len() as int) =~= line@.skip(9));
    if rest.len() == 0 {
        return Some(None);
    }
    let ws = next_ws_index(rest.as_slice(), 0);
    proof {
        lemma_next_ws_bounds(rest@, 0);
    }
    let name = trim(&rest.as_slice()[0..ws]);
    assert(rest@.subrange(0, ws as int) =~= rest@.take(ws as int));
    let props = if ws < rest.len() {
        let p = trim(&rest.as_slice()[ws + 1..rest.len()]);
        assert(rest@.subrange(ws + 1, rest@.len() as int) =~= rest@.skip(ws + 1));
        p
    } else {
        let p: Vec<char> = Vec::new();
        assert(p@ =~= seq![]);
        p
    };
    if name.len() == 0 {
        return Some(None);
    }
    let parts = split_char(props.as_slice(), ',');
    match style_props(&parts, true) {
        Some((fill, stroke, width)) => Some(Some((string_of(name.as_slice()), NodeStyle { fill, stroke, stroke_width: width }))),
        None => None,
    }
}

/// Words joined with single spaces.
pub open spec fn join_words(ws: Seq<Seq<char>>) -> Seq<char>
    decreases ws.len(),
{
    if ws.len() == 0 {
        seq![]
    } else if ws.len() == 1 {
        ws[0]
    } else {
        join_words(ws.drop_last()) + seq![' '] + ws.last()
    }
}

fn join_words_exec(ws: &Vec<Vec<char>>, n: usize) -> (r: Vec<char>)
    requires
        n <= ws@.len(),
    ensures
        r@ == join_words(views_of(ws@).take(n as int)),
{
    let ghost vs = views_of(ws@);
    let mut r: Vec<char> = Vec::new();
    let mut i: usize = 0;
    assert(vs.take(0) =~= seq![]);
    while i < n
        invariant
            i <= n <= ws@.len(),
            vs == views_of(ws@),
            r@ == join_words(vs.take(i as int)),
        decreases n - i,
    {
        if i > 0 {
            r.push(' ');
        }
        extend_chars(&mut r, ws[i].as_slice());
        proof {
            assert(vs.take(i + 1 as int).drop_last() =~= vs.take(i as int));
            assert(vs.take(i + 1 as int).last() == ws@[i as int]@);
            if i == 0 {
                assert(vs.take(1)[0] == ws@[0]@);
            }
        }
        i = i + 1;
    }
    r
}

/// Assign a class to each id of a list: the ids in order, each trimmed,
/// the empty ones skipped.
pub open spec fn assign_all(m: Seq<(Seq<char>, Seq<char>)>, ids: Seq<Seq<char>>, class: Seq<char>) -> Seq<
    (Seq<char>, Seq<char>),
>
    decreases ids.len(),
{
    if ids.len() == 0 {
        m
    } else {
        let m1 = assign_all(m, ids.drop_last(), class);
        let id = trim_spec(ids.last());
        if id.len() > 0 {
            map_put(m1, id, class)
        } else {
            m1
        }
    }
}

/// The class assignments after a `class a,b name` line: the last word is
/// the class, the words before it (joined by spaces) a comma-separated id
/// list.
pub open spec fn class_assign_spec(m: Seq<(Seq<char>, Seq<char>)>, line: Seq<char>) -> Seq<(Seq<char>, Seq<char>)> {
    if !starts_with_lower_spec(line, "class "@) {
        m
    } else {
        let rest = trim_spec(line.skip(6));
        let tokens = split_whitespace_spec(rest);
        if rest.len() == 0 || tokens.len() < 2 {
            m
        } else {
            let class = trim_spec(tokens.last());
            assign_all(m, split_char_spec(join_words(tokens.drop_last()), ','), class)
        }
    }
}

/// Set the value of key `k`.
fn put_class(m: &mut Vec<(String, String)>, k: String, v: String)
    ensures
        pairs_view(final(m)@) == map_put(pairs_view(old(m)@), k@, v@),
{
    let ghost mv = pairs_view(m@);
    proof {
        lemma_key_index(mv, k@);
    }
    let mut i: usize = 0;
    while i < m.len()
        invariant
            i <= m@.len(),
            m@ == old(m)@,
            mv == pairs_view(m@),
            forall|j: int| 0 <= j < i ==> #[trigger] mv[j].0 != k@,
        decreases m@.len() - i,
    {
        if m[i].0 == k {
            proof {
                lemma_key_index(mv, k@);
                assert(mv[i as int].0 == k@);
            }
            m.set(i, (k, v));
            assert(pairs_view(m@) =~= mv.update(i as int, (k@, v@)));
            return;
        }
        i = i + 1;
    }
    proof {
        lemma_key_index(mv, k@);
    }
    m.push((k, v));
    assert(pairs_view(m@) =~= mv.push((k@, v@)));
}

/// Pairs of strings as plain values.
pub open spec fn pairs_view(v: Seq<(String, String)>) -> Seq<(Seq<char>, Seq<char>)> {
    v.map_values(|p: (String, String)| (p.0@, p.1@))
}

/// Apply a `class` line to the class assignments.
pub fn parse_class_assignment(line: &[char], node_classes: &mut Vec<(String, String)>)
    ensures
        pairs_view(final(node_classes)@) == class_assign_spec(pairs_view(old(node_classes)@), line@),
{
    let kw = chars_of("class ");
    proof {
        reveal_strlit("class ");
    }
    if !starts_with_lower(line, kw.as_slice()) {
        return;
    }
    let rest = trim(&line[6..line.len()]);
    assert(line@.subrange(6, line@.len() as int) =~= line@.skip(6));
    if rest.len() == 0 {
        return;
    }
    let tokens = split_whitespace(rest.as_slice());
    assert(views_of(tokens@).len() == tokens@.len());
    if tokens.len() < 2 {
        return;
    }
    let n = tokens.len();
    let class = trim(tokens[n - 1].as_slice());
    assert(views_of(tokens@).last() == tokens@[n - 1]@);
    let joined = join_words_exec(&tokens, n - 1);
    assert(views_of(tokens@).take(n - 1) =~= views_of(tokens@).drop_last());
    let ids = split_char(joined.as_slice(), ',');
    let ghost iv = views_of(ids@);
    let ghost m0 = pairs_view(node_classes@);
    let mut i: usize = 0;
    assert(iv.take(0) =~= seq![]);
    while i < ids.len()
        invariant
            i <= ids@.len(),
            iv == views_of(ids@),
            pairs_view(node_classes@) == assign_all(m0, iv.take(i as int), class@),
        decreases ids@.len() - i,
    {
        proof {
            assert(iv.take(i + 1 as int).drop_last() =~= iv.take(i as int));
            assert(iv.take(i + 1 as int).last() == ids@[i as int]@);
        }
        let id = trim(ids[i].as_slice());
        if id.len() > 0 {
            put_class(node_classes, string_of(id.as_slice()), string_of(class.as_slice()));
        }
        i = i + 1;
    }
    assert(iv.take(ids@.len() as int) =~= iv);
}

/// What a `linkStyle <index|default> prop:value,...` line does: the style
/// and the target (`None` for the default style), or nothing; also whether
/// a color would make the parser panic.
pub open spec fn link_style_spec(line: Seq<char>) -> Option<(Option<usize>, StyleV, bool)> {
    // the keyword is ten bytes long, or twelve with a Kelvin sign for its `k`
    let kelvin = line.len() > 3 && line[3] == '\u{212A}';
    if !kelvin && line.len() <= 10 {
        None
    } else {
        let content = trim_spec(line.skip(if kelvin { 8 } else { 10 }));
        let pos = next_ws_from(content, 0);
        if pos >= content.len() {
            None
        } else {
            let idx = trim_spec(content.take(pos));
            let css = trim_spec(content.skip(pos));
            let (st, pan) = style_fold(split_char_spec(css, ','), false);
            if eq_ci_spec(idx, "default"@) {
                Some((None, st, pan))
            } else {
                match parse_usize_spec(idx) {
                    Some(n) => Some((Some(n), st, pan)),
                    None => None,
                }
            }
        }
    }
}

/// Pairs of an index and a link style as plain values.
pub open spec fn link_styles_view(v: Seq<(usize, LinkStyle)>) -> Seq<(usize, StyleV)> {
    v.map_values(|p: (usize, LinkStyle)| (p.0, link_style_view(p.1)))
}

/// The optional link style as plain values.
pub open spec fn opt_link_style(s: Option<LinkStyle>) -> Option<StyleV> {
    match s {
        Some(x) => Some(link_style_view(x)),
        None => None,
    }
}

/// Set the style of edge `k`.
fn put_link_style(m: &mut Vec<(usize, LinkStyle)>, k: usize, v: LinkStyle)
    ensures
        link_styles_view(final(m)@) == map_put(link_styles_view(old(m)@), k, link_style_view(v)),
{
    let ghost mv = link_styles_view(m@);
    proof {
        lemma_key_index(mv, k);
    }
    let mut i: usize = 0;
    while i < m.len()
        invariant
            i <= m@.len(),
            m@ == old(m)@,
            mv == link_styles_view(m@),
            forall|j: int| 0 <= j < i ==> #[trigger] mv[j].0 != k,
        decreases m@.len() - i,
    {
        if m[i].0 == k {
            proof {
                lemma_key_index(mv, k);
                assert(mv[i as int].0 == k);
            }
            let ghost vv = link_style_view(v);
            m.set(i, (k, v));
            assert(link_styles_view(m@) =~= mv.update(i as int, (k, vv)));
            return;
        }
        i = i + 1;
    }
    proof {
        lemma_key_index(mv, k);
    }
    let ghost vv = link_style_view(v);
    m.push((k, v));
    assert(link_styles_view(m@) =~= mv.push((k, vv)));
}

/// Apply a `linkStyle` line.
pub fn parse_link_style(
    line: &[char],
    link_styles: &mut Vec<(usize, LinkStyle)>,
    default_link_style: &mut Option<LinkStyle>,
)
    requires
        starts_with_lower_spec(line@, "linkstyle "@),
        !(link_style_spec(line@) matches Some((_, _, true))),
    ensures
        match link_style_spec(line@) {
            Some((Some(n), st, _)) => link_styles_view(final(link_styles)@) == map_put(
                link_styles_view(old(link_styles)@),
                n,
                st,
            ) && *final(default_link_style) == *old(default_link_style),
            Some((None, st, _)) => link_styles_view(final(link_styles)@) == link_styles_view(
                old(link_styles)@,
            ) && opt_link_style(*final(default_link_style)) == Some(st),
            None => link_styles_view(final(link_styles)@) == link_styles_view(old(link_styles)@)
                && *final(default_link_style) == *old(default_link_style),
        },
{
    link_style_checked(line, link_styles, default_link_style);
}

/// Whether [`parse_class_def`] would panic on this line, on a color it
/// cannot slice; it may be called exactly when this is false.
pub fn class_def_would_panic(line: &[char]) -> (b: bool)
    ensures
        b == (class_def_spec(line@) matches Some((_, _, true))),
{
    class_def_checked(line).is_none()
}

/// Whether [`parse_link_style`] would panic on this line, on a color it
/// cannot slice; it may be called exactly when this is false.
pub fn link_style_would_panic(line: &[char]) -> (b: bool)
    requires
        starts_with_lower_spec(line@, "linkstyle "@),
    ensures
        b == (link_style_spec(line@) matches Some((_, _, true))),
{
    let mut styles: Vec<(usize, LinkStyle)> = Vec::new();
    let mut default_style: Option<LinkStyle> = None;
    link_style_checked(line, &mut styles, &mut default_style)
}

/// [`parse_link_style`]; `true`, before anything is changed, where a color
/// in the line would make the parser panic.
fn link_style_checked(
    line: &[char],
    link_styles: &mut Vec<(usize, LinkStyle)>,
    default_link_style: &mut Option<LinkStyle>,
) -> (panicked: bool)
    requires
        starts_with_lower_spec(line@, "linkstyle "@),
    ensures
        panicked == (link_style_spec(line@) matches Some((_, _, true))),
        !panicked ==> match link_style_spec(line@) {
            Some((Some(n), st, _)) => link_styles_view(final(link_styles)@) == map_put(
                link_styles_view(old(link_styles)@),
                n,
                st,
            ) && *final(default_link_style) == *old(default_link_style),
            Some((None, st, _)) => link_styles_view(final(link_styles)@) == link_styles_view(
                old(link_styles)@,
            ) && opt_link_style(*final(default_link_style)) == Some(st),
            None => link_styles_view(final(link_styles)@) == link_styles_view(old(link_styles)@)
                && *final(default_link_style) == *old(default_link_style),
        },
{
    let kelvin = line.len() > 3 && line[3] == '\u{212A}';
    if !kelvin && line.len() <= 10 {
        return false;
    }
    proof {
        reveal_strlit("linkstyle ");
    }
    let skip: usize = if kelvin {
        8
    } else {
        10
    };
    let content = trim(&line[skip..line.len()]);
    assert(line@.subrange(skip as int, line@.len() as int) =~= line@.skip(skip as int));
    let pos = next_ws_index(content.as_slice(), 0);
    proof {
        lemma_next_ws_bounds(content@, 0);
    }
    if pos >= content.len() {
        return false;
    }
    let idx = trim(&content.as_slice()[0..pos]);
    assert(content@.subrange(0, pos as int) =~= content@.take(pos as int));
    let css = trim(&content.as_slice()[pos..content.len()]);
    assert(content@.subrange(pos as int, content@.len() as int) =~= content@.skip(pos as int));
    let parts = split_char(css.as_slice(), ',');
    let dw = chars_of("default");
    proof {
        lemma_style_no_fill(split_char_spec(css@, ','));
    }
    if eq_ci(idx.as_slice(), dw.as_slice()) {
        match style_props(&parts, false) {
            Some((_, stroke, width)) => {
                *default_link_style = Some(LinkStyle { stroke, stroke_width: width });
            },
            None => {
                return true;
            },
        }
    } else {
        match parse_usize(idx.as_slice()) {
            Some(n) => {
                match style_props(&parts, false) {
                    Some((_, stroke, width)) => {
                        put_link_style(link_styles, n, LinkStyle { stroke, stroke_width: width });
                    },
                    None => {
                        return true;
                    },
                }
            },
            None => {},
        }
    }
    false
}

// ──────────────────────────────── subgraphs ──────────────────────────────────

/// The first index at or after `i` that is not an ASCII letter.
pub open spec fn alpha_run(s: Seq<char>, i: int) -> int
    decreases s.len() - i,
{
    if i < 0 || i >= s.len() {
        s.len() as int
    } else if is_ascii_alpha(s[i]) {
        alpha_run(s, i + 1)
    } else {
        i
    }
}

/// What follows the `subgraph` keyword: the line without its leading
/// ASCII letters and the whitespace after them.
pub open spec fn subgraph_rest(line: Seq<char>) -> Seq<char> {
    trim_start_spec(line.skip(alpha_run(line, 0)))
}

/// The generated id of the `n`-th unnamed subgraph.
pub open spec fn subgraph_name(n: nat) -> Seq<char> {
    "subgraph_"@ + decimal_spec(n)
}

/// Whether the header has a `]` only before its first `[`, which the
/// parser cannot slice.
pub open spec fn subgraph_header_panics(line: Seq<char>) -> bool {
    let rest = subgraph_rest(line);
    match (find_spec(rest, seq!['[']), rfind_char_spec(rest, ']')) {
        (Some(bs), Some(be)) => be < bs + 1,
        _ => false,
    }
}

/// The id and title a subgraph header gives, and the counter of generated
/// ids after it, from the counter before it.
pub open spec fn subgraph_header_spec(line: Seq<char>, counter: nat) -> (Seq<char>, Option<Seq<char>>, nat) {
    let rest = subgraph_rest(line);
    let next = counter + 1;
    if rest.len() == 0 {
        (subgraph_name(next), None, next)
    } else {
        match (find_spec(rest, seq!['[']), rfind_char_spec(rest, ']')) {
            (Some(bs), Some(be)) => {
                let id = trim_spec(rest.take(bs));
                let title = trim_spec(rest.subrange(bs + 1, be));
                if id.len() == 0 {
                    (subgraph_name(next), Some(title), next)
                } else {
                    (id, Some(title), counter)
                }
            },
            _ => {
                let quoted = rest[0] == '"' || rest[0] == '\'';
                match find_spec(rest.skip(1), seq![rest[0]]) {
                    Some(e) if quoted => (subgraph_name(next), Some(rest.subrange(1, e + 1)), next),
                    _ => {
                        let toks = split_whitespace_spec(rest);
                        if toks.len() == 1 {
                            (toks[0], Some(toks[0]), counter)
                        } else if toks.len() >= 2 {
                            (toks[0], Some(join_words(toks.skip(1))), counter)
                        } else {
                            (subgraph_name(next), Some(rest), next)
                        }
                    },
                }
            },
        }
    }
}

/// `"subgraph_"` and the decimal number `n`.
fn subgraph_name_exec(n: usize) -> (r: String)
    ensures
        r@ == subgraph_name(n as nat),
{
    let mut v = chars_of("subgraph_");
    let d = decimal(n as u64);
    extend_chars(&mut v, d.as_slice());
    string_of(v.as_slice())
}

/// Whether [`parse_subgraph_header`] would slice backwards on this header
/// (its `]` only before its first `[`) and so panic; it may be called
/// exactly when this is false.
pub fn subgraph_header_would_panic(line: &[char]) -> (b: bool)
    ensures
        b == subgraph_header_panics(line@),
{
    let mut k: usize = 0;
    while k < line.len() && (('a' <= line[k] && line[k] <= 'z') || ('A' <= line[k] && line[k] <= 'Z'))
        invariant
            k <= line@.len(),
            alpha_run(line@, k as int) == alpha_run(line@, 0),
        decreases line@.len() - k,
    {
        k = k + 1;
    }
    let after = &line[k..line.len()];
    assert(after@ =~= line@.skip(k as int));
    let rest = trim_start(after);
    assert(rest@ == subgraph_rest(line@));
    match (find_char(rest.as_slice(), '['), rfind_char(rest.as_slice(), ']')) {
        (Some(bs), Some(be)) => be <= bs,
        _ => false,
    }
}

/// Parse a subgraph header line to its id and title; `counter` numbers the
/// generated ids. Supports `subgraph title` and `subgraph id [title]`.
pub fn parse_subgraph_header(line: &[char], counter: &mut usize) -> (r: (String, Option<String>))
    requires
        *old(counter) < usize::MAX,
        !subgraph_header_panics(line@),
    ensures
        ({
            let (id, title, c) = subgraph_header_spec(line@, *old(counter) as nat);
            &&& r.0@ == id
            &&& opt_chars_of(r.1) == title
            &&& *final(counter) == c
        }),
{
    let mut k: usize = 0;
    while k < line.len() && (('a' <= line[k] && line[k] <= 'z') || ('A' <= line[k] && line[k] <= 'Z'))
        invariant
            k <= line@.len(),
            alpha_run(line@, k as int) == alpha_run(line@, 0),
        decreases line@.len() - k,
    {
        k = k + 1;
    }
    let after = &line[k..line.len()];
    assert(after@ =~= line@.skip(k as int));
    let rest = trim_start(after);
    assert(rest@ == subgraph_rest(line@));
    if rest.len() == 0 {
        *counter = *counter + 1;
        return (subgraph_name_exec(*counter), None);
    }
    let bs = find_char(rest.as_slice(), '[');
    let be = rfind_char(rest.as_slice(), ']');
    if bs.is_some() && be.is_some() {
        let bs = bs.unwrap();
        let be = be.unwrap();
        proof {
            lemma_find_from_bounds(rest@, seq!['['], 0);
            lemma_rfind_bounds(rest@, ']', rest@.len() as int);
        }
        let id = trim(&rest.as_slice()[0..bs]);
        assert(rest@.subrange(0, bs as int) =~= rest@.take(bs as int));
        let title = trim(&rest.as_slice()[bs + 1..be]);
        if id.len() == 0 {
            *counter = *counter + 1;
            return (subgraph_name_exec(*counter), Some(string_of(title.as_slice())));
        }
        return (string_of(id.as_slice()), Some(string_of(title.as_slice())));
    }
    let q = rest[0];
    if q == '"' || q == '\'' {
        let tail = &rest.as_slice()[1..rest.len()];
        assert(tail@ =~= rest@.skip(1));
        match find_char(tail, q) {
            Some(e) => {
                proof {
                    lemma_find_from_bounds(tail@, seq![q], 0);
                }
                let title = slice_copy(rest.as_slice(), 1, e + 1);
                *counter = *counter + 1;
                return (subgraph_name_exec(*counter), Some(string_of(title.as_slice())));
            },
            None => {},
        }
    }
    let toks = split_whitespace(rest.as_slice());
    let ghost tv = views_of(toks@);
    if toks.len() == 1 {
        assert(tv[0] == toks@[0]@);
        let t = string_of(toks[0].as_slice());
        let t2 = string_of(toks[0].as_slice());
        return (t, Some(t2));
    } else if toks.len() >= 2 {
        assert(tv[0] == toks@[0]@);
        let mut tail_toks: Vec<Vec<char>> = Vec::new();
        let mut i: usize = 1;
        while i < toks.len()
            invariant
                1 <= i <= toks@.len(),
                tv == views_of(toks@),
                views_of(tail_toks@) =~= tv.subrange(1, i as int),
            decreases toks@.len() - i,
        {
            let w = slice_copy(toks[i].as_slice(), 0, toks[i].len());
            assert(toks[i as int]@.subrange(0, toks[i as int]@.len() as int) =~= toks[i as int]@);
            assert(tv[i as int] == toks@[i as int]@);
            let ghost before = tail_toks@;
            tail_toks.push(w);
            assert(tail_toks@ =~= before.push(w));
            assert(views_of(tail_toks@) =~= views_of(before).push(w@));
            assert(views_of(tail_toks@) =~= tv.subrange(1, i + 1 as int));
            i = i + 1;
        }
        assert(tv.subrange(1, tv.len() as int) =~= tv.skip(1));
        assert(views_of(tail_toks@).take(tail_toks@.len() as int) =~= views_of(tail_toks@));
        let title = join_words_exec(&tail_toks, tail_toks.len());
        return (string_of(toks[0].as_slice()), Some(string_of(title.as_slice())));
    }
    *counter = *counter + 1;
    (subgraph_name_exec(*counter), Some(string_of(rest.as_slice())))
}

// ──────────────────────────────── the document ───────────────────────────────

/// A parsed flowchart.
#[derive(Debug, Clone)]
pub struct Flowchart {
    pub direction: FlowDirection,
    pub nodes: Vec<FlowNode>,
    pub edges: Vec<FlowEdge>,
    pub subgraphs: Vec<FlowSubgraph>,
    /// Class name and style, one entry per class name
    pub class_defs: Vec<(String, NodeStyle)>,
    /// Node id and class name, one entry per node id
    pub node_classes: Vec<(String, String)>,
    /// Edge index and style, one entry per index
    pub link_styles: Vec<(usize, LinkStyle)>,
    pub default_link_style: Option<LinkStyle>,
}

/// A subgraph as plain values.
pub struct SubV {
    pub id: Seq<char>,
    pub title: Option<Seq<char>>,
    pub node_ids: Seq<Seq<char>>,
    pub child_ids: Seq<Seq<char>>,
    pub direction: Option<FlowDirection>,
}

pub open spec fn sub_view(s: FlowSubgraph) -> SubV {
    SubV {
        id: s.id@,
        title: opt_chars_of(s.title),
        node_ids: strings_view(s.node_ids@),
        child_ids: strings_view(s.child_subgraph_ids@),
        direction: s.direction,
    }
}

/// Subgraphs as plain values.
pub open spec fn subs_view(v: Seq<FlowSubgraph>) -> Seq<SubV> {
    v.map_values(|s: FlowSubgraph| sub_view(s))
}

/// A node as its id, label and shape.
pub open spec fn node_triple(n: FlowNode) -> (Seq<char>, Seq<char>, NodeShape) {
    (n.id@, n.label@, n.shape)
}

/// Nodes as plain values.
pub open spec fn nodes_view(v: Seq<FlowNode>) -> Seq<(Seq<char>, Seq<char>, NodeShape)> {
    v.map_values(|n: FlowNode| node_triple(n))
}

/// Class definitions as plain values.
pub open spec fn class_defs_view(v: Seq<(String, NodeStyle)>) -> Seq<(Seq<char>, StyleV)> {
    v.map_values(|p: (String, NodeStyle)| (p.0@, node_style_view(p.1)))
}

/// A flowchart as plain values.
pub struct FlowV {
    pub direction: FlowDirection,
    pub nodes: Seq<(Seq<char>, Seq<char>, NodeShape)>,
    pub edges: Seq<EdgeV>,
    pub subgraphs: Seq<SubV>,
    pub class_defs: Seq<(Seq<char>, StyleV)>,
    pub node_classes: Seq<(Seq<char>, Seq<char>)>,
    pub link_styles: Seq<(usize, StyleV)>,
    pub default_link_style: Option<StyleV>,
}

pub open spec fn flow_view(f: Flowchart) -> FlowV {
    FlowV {
        direction: f.direction,
        nodes: nodes_view(f.nodes@),
        edges: edges_view(f.edges@),
        subgraphs: subs_view(f.subgraphs@),
        class_defs: class_defs_view(f.class_defs@),
        node_classes: pairs_view(f.node_classes@),
        link_styles: link_styles_view(f.link_styles@),
        default_link_style: opt_link_style(f.default_link_style),
    }
}

/// A flowchart with nothing in it yet.
pub open spec fn empty_flow(d: FlowDirection) -> FlowV {
    FlowV {
        direction: d,
        nodes: seq![],
        edges: seq![],
        subgraphs: seq![],
        class_defs: seq![],
        node_classes: seq![],
        link_styles: seq![],
        default_link_style: None,
    }
}

impl Default for Flowchart {
    fn default() -> (r: Self)
        ensures
            flow_view(r) == empty_flow(FlowDirection::TopDown),
    {
        let r = Flowchart {
            direction: FlowDirection::TopDown,
            nodes: Vec::new(),
            edges: Vec::new(),
            subgraphs: Vec::new(),
            class_defs: Vec::new(),
            node_classes: Vec::new(),
            link_styles: Vec::new(),
            default_link_style: None,
        };
        assert(flow_view(r) =~= empty_flow(FlowDirection::TopDown)) by {
            assert(nodes_view(r.nodes@) =~= seq![]);
            assert(edges_view(r.edges@) =~= seq![]);
            assert(subs_view(r.subgraphs@) =~= seq![]);
            assert(class_defs_view(r.class_defs@) =~= seq![]);
            assert(pairs_view(r.node_classes@) =~= seq![]);
            assert(link_styles_view(r.link_styles@) =~= seq![]);
        }
        r
    }
}

/// The parser between lines: the flowchart so far, the open subgraphs
/// (innermost last), the count of generated subgraph ids, and whether a
/// line would have made the parser panic.
pub struct FlowState {
    pub chart: FlowV,
    pub stack: Seq<SubV>,
    pub counter: nat,
    pub panics: bool,
}

/// The index of the first node with id `id`, or -1.
pub open spec fn node_pos(ns: Seq<(Seq<char>, Seq<char>, NodeShape)>, id: Seq<char>) -> int
    decreases ns.len(),
{
    if ns.len() == 0 {
        -1
    } else {
        let k = node_pos(ns.drop_last(), id);
        if k >= 0 {
            k
        } else if ns.last().0 == id {
            ns.len() - 1
        } else {
            -1
        }
    }
}

pub proof fn lemma_node_pos(ns: Seq<(Seq<char>, Seq<char>, NodeShape)>, id: Seq<char>)
    ensures
        -1 <= node_pos(ns, id) < ns.len(),
        node_pos(ns, id) >= 0 ==> ns[node_pos(ns, id)].0 == id,
        forall|j: int| 0 <= j < ns.len() && (node_pos(ns, id) < 0 || j < node_pos(ns, id)) ==> #[trigger] ns[j].0 != id,
    decreases ns.len(),
{
    if ns.len() > 0 {
        lemma_node_pos(ns.drop_last(), id);
        assert forall|j: int| 0 <= j < ns.len() - 1 implies #[trigger] ns[j] == ns.drop_last()[j] by {}
    }
}

/// List `id` in the innermost open subgraph, if there is one; where
/// `once`, only if it is not listed there yet.
pub open spec fn list_in_top(stack: Seq<SubV>, id: Seq<char>, once: bool) -> Seq<SubV> {
    if stack.len() == 0 {
        stack
    } else {
        let top = stack.last();
        if once && top.node_ids.contains(id) {
            stack
        } else {
            stack.update(stack.len() - 1, SubV { node_ids: top.node_ids.push(id), ..top })
        }
    }
}

/// A node named in an edge line. A new id is added, and listed in the
/// innermost open subgraph. A known id whose node still has its id as
/// label takes a label that differs from the id, with its shape, and is
/// then listed in the innermost open subgraph once; other mentions change
/// nothing.
pub open spec fn merge_edge_node(st: FlowState, n: (Seq<char>, Seq<char>, NodeShape)) -> FlowState {
    let k = node_pos(st.chart.nodes, n.0);
    if k >= 0 {
        let ex = st.chart.nodes[k];
        if n.1 != n.0 && ex.1 == ex.0 {
            FlowState {
                chart: FlowV { nodes: st.chart.nodes.update(k, (ex.0, n.1, n.2)), ..st.chart },
                stack: list_in_top(st.stack, n.0, true),
                ..st
            }
        } else {
            st
        }
    } else {
        FlowState {
            chart: FlowV { nodes: st.chart.nodes.push(n), ..st.chart },
            stack: list_in_top(st.stack, n.0, false),
            ..st
        }
    }
}

/// The nodes of an edge line, in order.
pub open spec fn merge_edge_nodes(st: FlowState, ns: Seq<(Seq<char>, Seq<char>, NodeShape)>) -> FlowState
    decreases ns.len(),
{
    if ns.len() == 0 {
        st
    } else {
        merge_edge_node(merge_edge_nodes(st, ns.drop_last()), ns.last())
    }
}

/// A standalone node definition: as a node of an edge line, except that a
/// known id is listed in the innermost open subgraph (once) whether or not
/// its label changes.
pub open spec fn merge_def_node(st: FlowState, n: (Seq<char>, Seq<char>, NodeShape)) -> FlowState {
    let k = node_pos(st.chart.nodes, n.0);
    if k >= 0 {
        let ex = st.chart.nodes[k];
        let nodes = if n.1 != n.0 && ex.1 == ex.0 {
            st.chart.nodes.update(k, (ex.0, n.1, n.2))
        } else {
            st.chart.nodes
        };
        FlowState { chart: FlowV { nodes, ..st.chart }, stack: list_in_top(st.stack, n.0, true), ..st }
    } else {
        FlowState {
            chart: FlowV { nodes: st.chart.nodes.push(n), ..st.chart },
            stack: list_in_top(st.stack, n.0, false),
            ..st
        }
    }
}

/// Close the innermost open subgraph: it joins the finished subgraphs, and
/// its id the children of the subgraph around it.
pub open spec fn close_top(st: FlowState) -> FlowState {
    if st.stack.len() == 0 {
        st
    } else {
        let b = st.stack.last();
        let rest = st.stack.drop_last();
        let rest2 = if rest.len() > 0 {
            rest.update(rest.len() - 1, SubV { child_ids: rest.last().child_ids.push(b.id), ..rest.last() })
        } else {
            rest
        };
        FlowState { chart: FlowV { subgraphs: st.chart.subgraphs.push(b), ..st.chart }, stack: rest2, ..st }
    }
}

/// Close every open subgraph, innermost first.
pub open spec fn close_all(st: FlowState) -> FlowState
    decreases st.stack.len(),
{
    if st.stack.len() == 0 {
        st
    } else {
        close_all(close_top(st))
    }
}

/// What one line of the body does.
#[verifier::opaque]
pub open spec fn flow_step(st: FlowState, raw: Seq<char>) -> FlowState {
    let line = trim_spec(raw);
    if line.len() == 0 || starts_with_spec(line, seq!['%', '%']) {
        st
    } else if starts_with_lower_spec(line, "classdef "@) {
        match class_def_spec(line) {
            Some((name, style, pan)) => FlowState {
                chart: FlowV { class_defs: map_put(st.chart.class_defs, name, style), ..st.chart },
                panics: st.panics || pan,
                ..st
            },
            None => st,
        }
    } else if starts_with_lower_spec(line, "class "@) {
        FlowState {
            chart: FlowV { node_classes: class_assign_spec(st.chart.node_classes, line), ..st.chart },
            ..st
        }
    } else if starts_with_lower_spec(line, "linkstyle "@) {
        match link_style_spec(line) {
            Some((Some(n), style, pan)) => FlowState {
                chart: FlowV { link_styles: map_put(st.chart.link_styles, n, style), ..st.chart },
                panics: st.panics || pan,
                ..st
            },
            Some((None, style, pan)) => FlowState {
                chart: FlowV { default_link_style: Some(style), ..st.chart },
                panics: st.panics || pan,
                ..st
            },
            None => st,
        }
    } else if starts_with_lower_spec(line, "style "@) || starts_with_lower_spec(line, "click "@) {
        st
    } else if starts_with_lower_spec(line, "subgraph"@) {
        let (id, title, c) = subgraph_header_spec(line, st.counter);
        FlowState {
            stack: st.stack.push(
                SubV { id, title, node_ids: seq![], child_ids: seq![], direction: None },
            ),
            counter: c,
            panics: st.panics || subgraph_header_panics(line),
            ..st
        }
    } else if eq_lower_spec(line, "end"@) {
        close_top(st)
    } else if st.stack.len() > 0 && starts_with_lower_spec(line, "direction"@) {
        let top = st.stack.last();
        FlowState {
            stack: st.stack.update(
                st.stack.len() - 1,
                SubV { direction: Some(direction_spec(line)), ..top },
            ),
            ..st
        }
    } else if edge_line_panics(line) {
        FlowState { panics: true, ..st }
    } else {
        match edge_line_spec(line) {
            Some((ns, es)) => {
                let s2 = merge_edge_nodes(st, ns);
                FlowState { chart: FlowV { edges: s2.chart.edges + es, ..s2.chart }, ..s2 }
            },
            None => if node_text_panics(line) {
                FlowState { panics: true, ..st }
            } else {
                match parse_node_spec(line) {
                    Some(n) => merge_def_node(st, n),
                    None => st,
                }
            },
        }
    }
}

/// The parser state after the given body lines.
pub open spec fn flow_fold(init: FlowState, ls: Seq<Seq<char>>) -> FlowState
    decreases ls.len(),
{
    if ls.len() == 0 {
        init
    } else {
        flow_step(flow_fold(init, ls.drop_last()), ls.last())
    }
}

/// The header search from line `i`: the direction and the index of the
/// first body line, or the error.
pub open spec fn flow_header_from(ls: Seq<Seq<char>>, i: int) -> Result<(FlowDirection, int), Seq<char>>
    decreases ls.len() - i,
{
    if i < 0 || i >= ls.len() {
        Err("Empty flowchart source"@)
    } else {
        let t = trim_spec(ls[i]);
        if t.len() == 0 || starts_with_spec(t, seq!['%', '%']) {
            flow_header_from(ls, i + 1)
        } else if starts_with_lower_spec(t, "flowchart"@) || starts_with_lower_spec(t, "graph"@) {
            Ok((direction_spec(t), i + 1))
        } else {
            Err("Expected 'flowchart' or 'graph' declaration"@)
        }
    }
}

/// The state once every line of the source is read and the open
/// subgraphs are closed, when the header is found.
pub open spec fn flowchart_end(source: Seq<char>) -> Option<FlowState> {
    let ls = lines_spec(source);
    match flow_header_from(ls, 0) {
        Ok((d, start)) => Some(
            close_all(
                flow_fold(
                    FlowState { chart: empty_flow(d), stack: seq![], counter: 0, panics: false },
                    ls.skip(start),
                ),
            ),
        ),
        Err(_) => None,
    }
}

/// The flowchart of a source as plain values, or the error.
pub open spec fn flowchart_spec(source: Seq<char>) -> Result<FlowV, Seq<char>> {
    match flow_header_from(lines_spec(source), 0) {
        Ok(_) => Ok(flowchart_end(source).unwrap().chart),
        Err(e) => Err(e),
    }
}

/// Whether some line of the source would make the parser panic: a color
/// or a bracket it cannot slice.
pub open spec fn flowchart_panics(source: Seq<char>) -> bool {
    match flowchart_end(source) {
        Some(st) => st.panics,
        None => false,
    }
}

/// Merging nodes keeps the counter and the panic flag.
proof fn lemma_merge_nodes_keeps(st: FlowState, ns: Seq<(Seq<char>, Seq<char>, NodeShape)>)
    ensures
        merge_edge_nodes(st, ns).counter == st.counter,
        merge_edge_nodes(st, ns).panics == st.panics,
    decreases ns.len(),
{
    if ns.len() > 0 {
        lemma_merge_nodes_keeps(st, ns.drop_last());
    }
}

/// A line never clears the panic flag, and adds at most one generated id.
proof fn lemma_step_keeps(st: FlowState, raw: Seq<char>)
    ensures
        st.panics ==> flow_step(st, raw).panics,
        flow_step(st, raw).counter <= st.counter + 1,
{
    reveal(flow_step);
    let line = trim_spec(raw);
    match edge_line_spec(line) {
        Some((ns, es)) => lemma_merge_nodes_keeps(st, ns),
        None => {},
    }
}

/// The panic flag of a prefix carries to the whole.
proof fn lemma_fold_prefix(init: FlowState, ls: Seq<Seq<char>>, k: int)
    requires
        0 <= k <= ls.len(),
    ensures
        flow_fold(init, ls.take(k)).panics ==> flow_fold(init, ls).panics,
    decreases ls.len() - k,
{
    if k < ls.len() {
        lemma_fold_prefix(init, ls, k + 1);
        assert(ls.take(k + 1).drop_last() =~= ls.take(k));
        assert(ls.take(k + 1).last() == ls[k]);
        lemma_step_keeps(flow_fold(init, ls.take(k)), ls[k]);
    } else {
        assert(ls.take(k) =~= ls);
    }
}

/// Closing subgraphs keeps the panic flag.
proof fn lemma_close_all_keeps(st: FlowState)
    ensures
        close_all(st).panics == st.panics,
    decreases st.stack.len(),
{
    if st.stack.len() > 0 {
        lemma_close_all_keeps(close_top(st));
    }
}

/// The index of the node with id `id`.
fn node_pos_exec(nodes: &Vec<FlowNode>, id: &String) -> (r: Option<usize>)
    ensures
        r matches Some(k) ==> node_pos(nodes_view(nodes@), id@) == k,
        r is None ==> node_pos(nodes_view(nodes@), id@) == -1,
{
    let ghost nv = nodes_view(nodes@);
    proof {
        lemma_node_pos(nv, id@);
    }
    let mut i: usize = 0;
    while i < nodes.len()
        invariant
            i <= nodes@.len(),
            nv == nodes_view(nodes@),
            forall|j: int| 0 <= j < i ==> #[trigger] nv[j].0 != id@,
        decreases nodes@.len() - i,
    {
        if nodes[i].id == *id {
            assert(nv[i as int].0 == id@);
            proof {
                lemma_node_pos(nv, id@);
            }
            return Some(i);
        }
        i = i + 1;
    }
    None
}

/// [`list_in_top`] on the open subgraphs.
fn list_in_top_exec(stack: &mut Vec<FlowSubgraph>, id: String, once: bool)
    ensures
        subs_view(final(stack)@) == list_in_top(subs_view(old(stack)@), id@, once),
{
    let ghost sv = subs_view(stack@);
    if stack.len() == 0 {
        return;
    }
    let mut top = stack.pop().unwrap();
    assert(stack@ =~= old(stack)@.drop_last());
    assert(sub_view(top) == sv.last());
    if once && seen_contains(&top.node_ids, &id) {
        stack.push(top);
        assert(subs_view(stack@) =~= sv);
        return;
    }
    let ghost before = top.node_ids@;
    top.node_ids.push(id);
    assert(strings_view(top.node_ids@) =~= strings_view(before).push(id@));
    stack.push(top);
    assert(subs_view(stack@) =~= sv.update(sv.len() - 1, SubV { node_ids: sv.last().node_ids.push(id@), ..sv.last() }));
}

/// [`merge_edge_node`]: `def` chooses [`merge_def_node`] instead.
fn merge_node_exec(
    chart: &mut Flowchart,
    stack: &mut Vec<FlowSubgraph>,
    id: String,
    label: String,
    shape: NodeShape,
    def: bool,
    Ghost(st): Ghost<FlowState>,
)
    requires
        flow_view(*old(chart)) == st.chart,
        subs_view(old(stack)@) == st.stack,
    ensures
        ({
            let s2 = if def {
                merge_def_node(st, (id@, label@, shape))
            } else {
                merge_edge_node(st, (id@, label@, shape))
            };
            &&& flow_view(*final(chart)) == s2.chart
            &&& subs_view(final(stack)@) == s2.stack
        }),
{
    let ghost nv = nodes_view(chart.nodes@);
    proof {
        lemma_node_pos(nv, id@);
    }
    match node_pos_exec(&chart.nodes, &id) {
        Some(k) => {
            let fresh = label != id && chart.nodes[k].label == chart.nodes[k].id;
            assert(nv[k as int] == node_triple(chart.nodes@[k as int]));
            if fresh {
                let id2 = id.clone();
                chart.nodes.set(k, FlowNode { id: id2, label, shape });
                assert(nodes_view(chart.nodes@) =~= nv.update(k as int, (nv[k as int].0, label@, shape)));
                list_in_top_exec(stack, id, true);
            } else if def {
                list_in_top_exec(stack, id, true);
            }
        },
        None => {
            let id2 = id.clone();
            chart.nodes.push(FlowNode { id: id2, label, shape });
            assert(nodes_view(chart.nodes@) =~= nv.push((id@, label@, shape)));
            list_in_top_exec(stack, id, false);
        },
    }
}

/// [`close_top`] on the parser state.
fn close_top_exec(chart: &mut Flowchart, stack: &mut Vec<FlowSubgraph>, Ghost(st): Ghost<FlowState>)
    requires
        flow_view(*old(chart)) == st.chart,
        subs_view(old(stack)@) == st.stack,
    ensures
        flow_view(*final(chart)) == close_top(st).chart,
        subs_view(final(stack)@) == close_top(st).stack,
{
    if stack.len() == 0 {
        return;
    }
    let ghost sv = subs_view(stack@);
    let b = stack.pop().unwrap();
    assert(stack@ =~= old(stack)@.drop_last());
    assert(sub_view(b) == sv.last());
    assert(subs_view(stack@) =~= sv.drop_last());
    if stack.len() > 0 {
        let mut parent = stack.pop().unwrap();
        let ghost rest = subs_view(stack@.push(parent));
        assert(sub_view(parent) == sv.drop_last().last());
        let ghost before = parent.child_subgraph_ids@;
        parent.child_subgraph_ids.push(b.id.clone());
        assert(strings_view(parent.child_subgraph_ids@) =~= strings_view(before).push(b.id@));
        stack.push(parent);
        assert(subs_view(stack@) =~= sv.drop_last().update(
            sv.len() - 2,
            SubV { child_ids: sv.drop_last().last().child_ids.push(b.id@), ..sv.drop_last().last() },
        ));
    }
    let ghost subs = subs_view(chart.subgraphs@);
    chart.subgraphs.push(b);
    assert(subs_view(chart.subgraphs@) =~= subs.push(sv.last()));
}

/// Set the style of class `k`.
fn put_class_def(m: &mut Vec<(String, NodeStyle)>, k: String, v: NodeStyle)
    ensures
        class_defs_view(final(m)@) == map_put(class_defs_view(old(m)@), k@, node_style_view(v)),
{
    let ghost mv = class_defs_view(m@);
    proof {
        lemma_key_index(mv, k@);
    }
    let mut i: usize = 0;
    while i < m.len()
        invariant
            i <= m@.len(),
            m@ == old(m)@,
            mv == class_defs_view(m@),
            forall|j: int| 0 <= j < i ==> #[trigger] mv[j].0 != k@,
        decreases m@.len() - i,
    {
        if m[i].0 == k {
            proof {
                lemma_key_index(mv, k@);
                assert(mv[i as int].0 == k@);
            }
            let ghost vv = node_style_view(v);
            m.set(i, (k, v));
            assert(class_defs_view(m@) =~= mv.update(i as int, (k@, vv)));
            return;
        }
        i = i + 1;
    }
    proof {
        lemma_key_index(mv, k@);
    }
    let ghost kv = (k@, node_style_view(v));
    m.push((k, v));
    assert(class_defs_view(m@) =~= mv.push(kv));
}

/// Apply one body line.
#[verifier::rlimit(60)]
#[verifier::spinoff_prover]
fn flow_line(
    chart: &mut Flowchart,
    stack: &mut Vec<FlowSubgraph>,
    counter: &mut usize,
    raw: &[char],
    Ghost(st): Ghost<FlowState>,
) -> (panicked: bool)
    requires
        flow_view(*old(chart)) == st.chart,
        subs_view(old(stack)@) == st.stack,
        *old(counter) == st.counter,
        *old(counter) < usize::MAX,
        !st.panics,
    ensures
        panicked == flow_step(st, raw@).panics,
        !panicked ==> ({
            let s2 = flow_step(st, raw@);
            &&& flow_view(*final(chart)) == s2.chart
            &&& subs_view(final(stack)@) == s2.stack
            &&& *final(counter) == s2.counter
        }),
{
    reveal(flow_step);
    let line = trim(raw);
    let pct: Vec<char> = vec!['%', '%'];
    assert(pct@ =~= seq!['%', '%']);
    if line.len() == 0 || starts_with(line.as_slice(), pct.as_slice()) {
        return false;
    }
    let w_classdef = chars_of("classdef ");
    let w_class = chars_of("class ");
    let w_link = chars_of("linkstyle ");
    let w_style = chars_of("style ");
    let w_click = chars_of("click ");
    let w_sub = chars_of("subgraph");
    let w_end = chars_of("end");
    let w_dir = chars_of("direction");
    proof {
        reveal_strlit("classdef ");
        reveal_strlit("class ");
        reveal_strlit("linkstyle ");
        reveal_strlit("style ");
        reveal_strlit("click ");
        reveal_strlit("subgraph");
        reveal_strlit("end");
        reveal_strlit("direction");
    }
    if starts_with_lower(line.as_slice(), w_classdef.as_slice()) {
        match class_def_checked(line.as_slice()) {
            Some(Some((name, style))) => put_class_def(&mut chart.class_defs, name, style),
            Some(None) => {},
            None => {
                return true;
            },
        }
        return false;
    }
    if starts_with_lower(line.as_slice(), w_class.as_slice()) {
        parse_class_assignment(line.as_slice(), &mut chart.node_classes);
        return false;
    }
    if starts_with_lower(line.as_slice(), w_link.as_slice()) {
        return link_style_checked(line.as_slice(), &mut chart.link_styles, &mut chart.default_link_style);
    }
    if starts_with_lower(line.as_slice(), w_style.as_slice()) || starts_with_lower(
        line.as_slice(),
        w_click.as_slice(),
    ) {
        return false;
    }
    if starts_with_lower(line.as_slice(), w_sub.as_slice()) {
        if subgraph_header_would_panic(line.as_slice()) {
            return true;
        }
        let (id, title) = parse_subgraph_header(line.as_slice(), counter);
        let ghost sv = subs_view(stack@);
        let b = FlowSubgraph {
            id,
            title,
            node_ids: Vec::new(),
            child_subgraph_ids: Vec::new(),
            direction: None,
        };
        assert(strings_view(b.node_ids@) =~= seq![]);
        assert(strings_view(b.child_subgraph_ids@) =~= seq![]);
        stack.push(b);
        assert(subs_view(stack@) =~= sv.push(sub_view(b)));
        return false;
    }
    if eq_lower(line.as_slice(), w_end.as_slice()) {
        close_top_exec(chart, stack, Ghost(st));
        return false;
    }
    if stack.len() > 0 && starts_with_lower(line.as_slice(), w_dir.as_slice()) {
        let ghost sv = subs_view(stack@);
        let mut top = stack.pop().unwrap();
        assert(sub_view(top) == sv.last());
        top.direction = Some(direction_of(line.as_slice()));
        stack.push(top);
        assert(subs_view(stack@) =~= sv.update(sv.len() - 1, sub_view(top)));
        return false;
    }
    let walked = walk_edge_line(line.as_slice());
    if walked.is_none() {
        return true;
    }
    match walked.unwrap() {
        Some((nodes, edges)) => {
            let ghost tv = triples_view(nodes@);
            let mut i: usize = 0;
            assert(tv.take(0) =~= seq![]);
            while i < nodes.len()
                invariant
                    i <= nodes@.len(),
                    tv == triples_view(nodes@),
                    flow_view(*chart) == merge_edge_nodes(st, tv.take(i as int)).chart,
                    subs_view(stack@) == merge_edge_nodes(st, tv.take(i as int)).stack,
                decreases nodes@.len() - i,
            {
                proof {
                    assert(tv.take(i + 1 as int).drop_last() =~= tv.take(i as int));
                }
                let ghost s_i = merge_edge_nodes(st, tv.take(i as int));
                let id = nodes[i].0.clone();
                let label = nodes[i].1.clone();
                let shape = nodes[i].2;
                merge_node_exec(chart, stack, id, label, shape, false, Ghost(s_i));
                i = i + 1;
            }
            assert(tv.take(nodes@.len() as int) =~= tv);
            proof {
                lemma_merge_nodes_keeps(st, tv);
            }
            let ghost ev = edges_view(chart.edges@);
            let mut edges = edges;
            let ghost added = edges_view(edges@);
            chart.edges.append(&mut edges);
            assert(edges_view(chart.edges@) =~= ev + added);
        },
        None => {
            if node_chars_would_panic(line.as_slice()) {
                return true;
            }
            match parse_node_definition_chars(line.as_slice()) {
                Some(node) => {
                    merge_node_exec(chart, stack, node.id, node.label, node.shape, true, Ghost(st));
                },
                None => {},
            }
        },
    }
    false
}

/// Parse mermaid flowchart source into a [`Flowchart`]: the header line
/// (`flowchart` or `graph`, with an optional direction) after any blank
/// and `%%` comment lines, then one directive, edge chain or node
/// definition per line; subgraphs left open are closed at the end.
pub fn parse_flowchart(source: &str) -> (r: Result<Flowchart, String>)
    requires
        !flowchart_panics(source@),
    ensures
        match r {
            Ok(f) => flowchart_spec(source@) == Ok::<FlowV, Seq<char>>(flow_view(f)),
            Err(e) => flowchart_spec(source@) == Err::<FlowV, Seq<char>>(e@),
        },
{
    match flowchart_checked(source) {
        Some(r) => r,
        None => Err(String::new()),
    }
}

/// Whether parsing `source` as a flowchart would panic, on a node text,
/// subgraph header or color that cannot be sliced; [`parse_flowchart`] may
/// be called exactly when this is false.
pub fn flowchart_would_panic(source: &str) -> (b: bool)
    ensures
        b == flowchart_panics(source@),
{
    flowchart_checked(source).is_none()
}

/// [`parse_flowchart`], or `None` where the source would make the parser
/// panic.
fn flowchart_checked(source: &str) -> (r: Option<Result<Flowchart, String>>)
    ensures
        r is None == flowchart_panics(source@),
        r matches Some(x) ==> match x {
            Ok(f) => flowchart_spec(source@) == Ok::<FlowV, Seq<char>>(flow_view(f)),
            Err(e) => flowchart_spec(source@) == Err::<FlowV, Seq<char>>(e@),
        },
{
    let src = chars_of(source);
    let ls = lines(src.as_slice());
    let ghost lv = lines_spec(source@);
    assert(views_of(ls@) == lv);
    assert(views_of(ls@).len() == ls@.len());
    let w_flow = chars_of("flowchart");
    let w_graph = chars_of("graph");
    let pct: Vec<char> = vec!['%', '%'];
    assert(pct@ =~= seq!['%', '%']);
    proof {
        reveal_strlit("flowchart");
        reveal_strlit("graph");
        reveal_strlit("Expected 'flowchart' or 'graph' declaration");
        reveal_strlit("Empty flowchart source");
    }
    let mut li: usize = 0;
    let mut dir: Option<FlowDirection> = None;
    while li < ls.len()
        invariant_except_break
            li <= ls@.len(),
            dir is None,
            flow_header_from(lv, li as int) == flow_header_from(lv, 0),
        invariant
            views_of(ls@) == lv,
            lv == lines_spec(source@),
            w_flow@ == "flowchart"@,
            w_graph@ == "graph"@,
            pct@ == seq!['%', '%'],
        ensures
            match dir {
                Some(d) => flow_header_from(lv, 0) == Ok::<(FlowDirection, int), Seq<char>>((d, li as int)),
                None => li == ls@.len() && flow_header_from(lv, li as int) == flow_header_from(lv, 0),
            },
            li <= ls@.len(),
        decreases ls@.len() - li,
    {
        assert(lv[li as int] == ls@[li as int]@);
        let t = trim(ls[li].as_slice());
        li = li + 1;
        if t.len() == 0 || starts_with(t.as_slice(), pct.as_slice()) {
            continue;
        }
        if starts_with_lower(t.as_slice(), w_flow.as_slice()) || starts_with_lower(t.as_slice(), w_graph.as_slice()) {
            dir = Some(direction_of(t.as_slice()));
            break;
        }
        proof {
            reveal_strlit("Expected 'flowchart' or 'graph' declaration");
            assert(flow_header_from(lv, li - 1) == Err::<(FlowDirection, int), Seq<char>>(
                "Expected 'flowchart' or 'graph' declaration"@,
            ));
        }
        return Some(Err(String::from_str("Expected 'flowchart' or 'graph' declaration")));
    }
    let d = match dir {
        Some(d) => d,
        None => {
            return Some(Err(String::from_str("Empty flowchart source")));
        },
    };
    let start = li;
    let ghost body = lv.skip(start as int);
    let ghost init = FlowState { chart: empty_flow(d), stack: seq![], counter: 0, panics: false };
    let mut chart = Flowchart::default();
    chart.direction = d;
    let mut stack: Vec<FlowSubgraph> = Vec::new();
    let mut counter: usize = 0;
    proof {
        assert(subs_view(stack@) =~= seq![]);
        assert(body.take(0) =~= seq![]);
    }
    while li < ls.len()
        invariant
            start <= li <= ls@.len(),
            views_of(ls@) == lv,
            lv == lines_spec(source@),
            body == lv.skip(start as int),
            flow_header_from(lv, 0) == Ok::<(FlowDirection, int), Seq<char>>((d, start as int)),
            init == (FlowState { chart: empty_flow(d), stack: seq![], counter: 0, panics: false }),
            !flow_fold(init, body.take(li - start)).panics,
            flow_view(chart) == flow_fold(init, body.take(li - start)).chart,
            subs_view(stack@) == flow_fold(init, body.take(li - start)).stack,
            counter == flow_fold(init, body.take(li - start)).counter,
            counter <= li - start,
        decreases ls@.len() - li,
    {
        let ghost k = li - start;
        proof {
            assert(body.take(k + 1).drop_last() =~= body.take(k));
            assert(body.take(k + 1).last() == ls@[li as int]@);
            lemma_fold_prefix(init, body, k + 1);
            lemma_step_keeps(flow_fold(init, body.take(k)), body[k]);
        }
        let ghost s_k = flow_fold(init, body.take(k));
        if flow_line(&mut chart, &mut stack, &mut counter, ls[li].as_slice(), Ghost(s_k)) {
            proof {
                lemma_close_all_keeps(flow_fold(init, body));
            }
            return None;
        }
        li = li + 1;
    }
    assert(body.take(li - start) =~= body);
    proof {
        lemma_close_all_keeps(flow_fold(init, body));
    }
    let ghost mut s = flow_fold(init, body);
    while stack.len() > 0
        invariant
            flow_view(chart) == s.chart,
            subs_view(stack@) == s.stack,
            close_all(s) == close_all(flow_fold(init, body)),
        decreases stack@.len(),
    {
        close_top_exec(&mut chart, &mut stack, Ghost(s));
        proof {
            s = close_top(s);
        }
    }
    Some(Ok(chart))
}

// ──────────────────────────────── the laws ───────────────────────────────────

/// Whether a node has id `id`.
pub open spec fn has_node(ns: Seq<(Seq<char>, Seq<char>, NodeShape)>, id: Seq<char>) -> bool {
    exists|k: int| 0 <= k < ns.len() && (#[trigger] ns[k]).0 == id
}

/// Whether every edge runs between nodes of `ns`.
pub open spec fn edges_connect(ns: Seq<(Seq<char>, Seq<char>, NodeShape)>, es: Seq<EdgeV>) -> bool {
    forall|j: int| 0 <= j < es.len() ==> has_node(ns, (#[trigger] es[j]).from) && has_node(ns, es[j].to)
}

/// Whether every id of `ns1` is an id of `ns2`.
pub open spec fn ids_kept(
    ns1: Seq<(Seq<char>, Seq<char>, NodeShape)>,
    ns2: Seq<(Seq<char>, Seq<char>, NodeShape)>,
) -> bool {
    forall|id: Seq<char>| has_node(ns1, id) ==> #[trigger] has_node(ns2, id)
}

proof fn lemma_kept_connect(
    ns1: Seq<(Seq<char>, Seq<char>, NodeShape)>,
    ns2: Seq<(Seq<char>, Seq<char>, NodeShape)>,
    es: Seq<EdgeV>,
)
    requires
        edges_connect(ns1, es),
        ids_kept(ns1, ns2),
    ensures
        edges_connect(ns2, es),
{
    assert forall|j: int| 0 <= j < es.len() implies has_node(ns2, (#[trigger] es[j]).from) && has_node(ns2, es[j].to) by {
        assert(has_node(ns1, es[j].from));
        assert(has_node(ns1, es[j].to));
    }
}

proof fn lemma_push_kept(ns: Seq<(Seq<char>, Seq<char>, NodeShape)>, n: (Seq<char>, Seq<char>, NodeShape))
    ensures
        ids_kept(ns, ns.push(n)),
        has_node(ns.push(n), n.0),
{
    let w = ns.push(n);
    assert(w[ns.len() as int] == n);
    assert forall|id: Seq<char>| has_node(ns, id) implies #[trigger] has_node(w, id) by {
        let k = choose|k: int| 0 <= k < ns.len() && (#[trigger] ns[k]).0 == id;
        assert(w[k] == ns[k]);
    }
}

proof fn lemma_update_kept(ns: Seq<(Seq<char>, Seq<char>, NodeShape)>, k: int, n: (Seq<char>, Seq<char>, NodeShape))
    requires
        0 <= k < ns.len(),
        n.0 == ns[k].0,
    ensures
        ids_kept(ns, ns.update(k, n)),
{
    let w = ns.update(k, n);
    assert forall|id: Seq<char>| has_node(ns, id) implies #[trigger] has_node(w, id) by {
        let j = choose|j: int| 0 <= j < ns.len() && (#[trigger] ns[j]).0 == id;
        assert(w[j].0 == ns[j].0);
    }
}

/// The walk so far: each id seen has a node, each edge runs between nodes.
pub open spec fn walk_ok(w: EdgeWalk) -> bool {
    &&& forall|i: int| 0 <= i < w.seen.len() ==> has_node(w.nodes, #[trigger] w.seen[i])
    &&& edges_connect(w.nodes, w.edges)
}

proof fn lemma_parse_parts_ok(w: EdgeWalk, parts: Seq<Seq<char>>)
    requires
        walk_ok(w),
    ensures
        walk_ok(parse_parts(w, parts).0),
        ids_kept(w.nodes, parse_parts(w, parts).0.nodes),
        parse_parts(w, parts).0.edges == w.edges,
        forall|i: int| 0 <= i < parse_parts(w, parts).1.len() ==> has_node(parse_parts(w, parts).0.nodes, #[trigger] parse_parts(w, parts).1[i]),
    decreases parts.len(),
{
    if parts.len() > 0 {
        lemma_parse_parts_ok(w, parts.drop_last());
        let (w1, ids) = parse_parts(w, parts.drop_last());
        let p = parts.last();
        let w2 = EdgeWalk { panics: w1.panics || node_text_panics(p), ..w1 };
        match parse_node_spec(p) {
            Some(n) => if w1.seen.contains(n.0) {
                let i = choose|i: int| 0 <= i < w1.seen.len() && w1.seen[i] == n.0;
                assert(has_node(w1.nodes, w1.seen[i]));
                let ids2 = ids.push(n.0);
                assert forall|j: int| 0 <= j < ids2.len() implies has_node(w2.nodes, #[trigger] ids2[j]) by {
                    if j < ids.len() {
                        assert(ids2[j] == ids[j]);
                    }
                }
            } else {
                let nodes = w1.nodes.push(n);
                let seen = w1.seen.push(n.0);
                let w3 = EdgeWalk { nodes, seen, ..w2 };
                lemma_push_kept(w1.nodes, n);
                lemma_kept_connect(w1.nodes, nodes, w1.edges);
                assert forall|i: int| 0 <= i < seen.len() implies has_node(nodes, #[trigger] seen[i]) by {
                    if i < w1.seen.len() {
                        assert(seen[i] == w1.seen[i]);
                        assert(has_node(w1.nodes, w1.seen[i]));
                    }
                }
                let ids2 = ids.push(n.0);
                assert forall|j: int| 0 <= j < ids2.len() implies has_node(nodes, #[trigger] ids2[j]) by {
                    if j < ids.len() {
                        assert(ids2[j] == ids[j]);
                        assert(has_node(w1.nodes, ids[j]));
                    }
                }
                assert forall|id: Seq<char>| has_node(w.nodes, id) implies #[trigger] has_node(nodes, id) by {
                    assert(has_node(w1.nodes, id));
                }
            },
            None => {},
        }
    }
}

proof fn lemma_cross_edges(
    from: Seq<Seq<char>>,
    to: Seq<Seq<char>>,
    label: Option<Seq<char>>,
    style: EdgeStyle,
    a: ArrowHead,
    b: ArrowHead,
)
    ensures
        forall|j: int| 0 <= j < cross_edges(from, to, label, style, a, b).len() ==> from.contains(
            (#[trigger] cross_edges(from, to, label, style, a, b)[j]).from,
        ) && to.contains(cross_edges(from, to, label, style, a, b)[j].to),
    decreases from.len(),
{
    if from.len() > 0 {
        lemma_cross_edges(from.drop_last(), to, label, style, a, b);
        let c0 = cross_edges(from.drop_last(), to, label, style, a, b);
        let m = to.map_values(
            |t: Seq<char>| EdgeV { from: from.last(), to: t, label, style, arrow_start: a, arrow_end: b },
        );
        let c = cross_edges(from, to, label, style, a, b);
        assert(c == c0 + m);
        assert forall|j: int| 0 <= j < c.len() implies from.contains((#[trigger] c[j]).from) && to.contains(c[j].to) by {
            if j < c0.len() {
                assert(c[j] == c0[j]);
                let i = choose|i: int| 0 <= i < from.drop_last().len() && from.drop_last()[i] == c0[j].from;
                assert(from[i] == from.drop_last()[i]);
            } else {
                let t = j - c0.len();
                assert(c[j] == m[t]);
                assert(m[t].to == to[t]);
                assert(from[from.len() - 1] == from.last());
            }
        }
    }
}

proof fn lemma_walk_ok(rem: Seq<char>, w: EdgeWalk, prev: Seq<Seq<char>>)
    requires
        walk_ok(w),
        forall|i: int| 0 <= i < prev.len() ==> has_node(w.nodes, #[trigger] prev[i]),
    ensures
        walk_ok(edge_walk(rem, w, prev)),
    decreases rem.len(),
{
    if rem.len() > 0 {
        match arrow_in(rem) {
            None => {},
            Some((pos, ai)) => {
                let (pat, style, a, b) = flow_arrow(ai);
                let raw = trim_spec(rem.take(pos));
                let after = rem.skip(pos + pat.len());
                let (pipe, rest_after) = edge_label_spec(after);
                let (node_text, dash) = dash_label_spec(raw);
                let label = if pipe is Some {
                    pipe
                } else {
                    dash
                };
                let (w1, from_ids) = if node_text.len() > 0 {
                    parse_parts(w, amp_split(node_text))
                } else {
                    (w, prev)
                };
                if node_text.len() > 0 {
                    lemma_parse_parts_ok(w, amp_split(node_text));
                }
                let next = trim_spec(rest_after);
                let te = match arrow_in(next) {
                    Some((p, _)) => p,
                    None => next.len() as int,
                };
                let target = strip_semi_spec(trim_spec(next.take(te)));
                let (w2, to_ids) = parse_parts(w1, amp_split(target));
                lemma_parse_parts_ok(w1, amp_split(target));
                let cross = cross_edges(from_ids, to_ids, label, style, a, b);
                lemma_cross_edges(from_ids, to_ids, label, style, a, b);
                let w3 = EdgeWalk { edges: w2.edges + cross, ..w2 };
                assert forall|j: int| 0 <= j < w3.edges.len() implies has_node(w3.nodes, (#[trigger] w3.edges[j]).from)
                    && has_node(w3.nodes, w3.edges[j].to) by {
                    if j < w2.edges.len() {
                        assert(w3.edges[j] == w2.edges[j]);
                    } else {
                        let e = cross[j - w2.edges.len()];
                        assert(w3.edges[j] == e);
                        let fi = choose|i: int| 0 <= i < from_ids.len() && from_ids[i] == e.from;
                        let ti = choose|i: int| 0 <= i < to_ids.len() && to_ids[i] == e.to;
                        assert(has_node(w1.nodes, from_ids[fi]));
                        assert(has_node(w2.nodes, to_ids[ti]));
                    }
                }
                lemma_best_arrow(rem, 12);
                lemma_arrow_len(ai);
                lemma_edge_label_len(after);
                crate::text::lemma_trim_len(rest_after);
                lemma_best_arrow(next, 12);
                lemma_walk_ok(next.skip(te), w3, to_ids);
            },
        }
    }
}

/// The edges of an edge line run between the nodes of the line.
proof fn lemma_edge_line_connects(line: Seq<char>)
    ensures
        edge_line_spec(line) matches Some((ns, es)) ==> edges_connect(ns, es),
{
    let l = strip_semi_spec(trim_spec(line));
    let w0 = EdgeWalk { nodes: seq![], edges: seq![], seen: seq![], panics: false };
    lemma_walk_ok(l, w0, seq![]);
}

/// Whether every edge of the chart runs between nodes of the chart.
pub open spec fn chart_connected(c: FlowV) -> bool {
    edges_connect(c.nodes, c.edges)
}

proof fn lemma_merge_edge_nodes_ids(st: FlowState, ns: Seq<(Seq<char>, Seq<char>, NodeShape)>)
    ensures
        ids_kept(st.chart.nodes, merge_edge_nodes(st, ns).chart.nodes),
        forall|i: int| 0 <= i < ns.len() ==> has_node(merge_edge_nodes(st, ns).chart.nodes, (#[trigger] ns[i]).0),
        merge_edge_nodes(st, ns).chart.edges == st.chart.edges,
    decreases ns.len(),
{
    if ns.len() > 0 {
        lemma_merge_edge_nodes_ids(st, ns.drop_last());
        let s1 = merge_edge_nodes(st, ns.drop_last());
        let n = ns.last();
        lemma_merge_node_ids(s1, n, false);
        let s2 = merge_edge_nodes(st, ns);
        assert forall|id: Seq<char>| has_node(st.chart.nodes, id) implies #[trigger] has_node(s2.chart.nodes, id) by {
            assert(has_node(s1.chart.nodes, id));
        }
        assert forall|i: int| 0 <= i < ns.len() implies has_node(s2.chart.nodes, (#[trigger] ns[i]).0) by {
            if i < ns.len() - 1 {
                assert(ns[i] == ns.drop_last()[i]);
                assert(has_node(s1.chart.nodes, ns.drop_last()[i].0));
            }
        }
    }
}

proof fn lemma_merge_node_ids(st: FlowState, n: (Seq<char>, Seq<char>, NodeShape), def: bool)
    ensures
        ({
            let s2 = if def {
                merge_def_node(st, n)
            } else {
                merge_edge_node(st, n)
            };
            &&& ids_kept(st.chart.nodes, s2.chart.nodes)
            &&& has_node(s2.chart.nodes, n.0)
            &&& s2.chart.edges == st.chart.edges
        }),
{
    let ns = st.chart.nodes;
    lemma_node_pos(ns, n.0);
    let k = node_pos(ns, n.0);
    if k >= 0 {
        let ex = ns[k];
        lemma_update_kept(ns, k, (ex.0, n.1, n.2));
        assert(ns.update(k, (ex.0, n.1, n.2))[k].0 == n.0);
        assert forall|id: Seq<char>| has_node(ns, id) implies #[trigger] has_node(ns, id) by {}
    } else {
        lemma_push_kept(ns, n);
    }
}

proof fn lemma_step_connected(st: FlowState, raw: Seq<char>)
    requires
        chart_connected(st.chart),
    ensures
        chart_connected(flow_step(st, raw).chart),
{
    reveal(flow_step);
    let line = trim_spec(raw);
    if line.len() == 0 || starts_with_spec(line, seq!['%', '%']) {
    } else if starts_with_lower_spec(line, "classdef "@) {
    } else if starts_with_lower_spec(line, "class "@) {
    } else if starts_with_lower_spec(line, "linkstyle "@) {
    } else if starts_with_lower_spec(line, "style "@) || starts_with_lower_spec(line, "click "@) {
    } else if starts_with_lower_spec(line, "subgraph"@) {
    } else if eq_lower_spec(line, "end"@) {
    } else if st.stack.len() > 0 && starts_with_lower_spec(line, "direction"@) {
    } else if edge_line_panics(line) {
    } else {
        match edge_line_spec(line) {
            Some((ns, es)) => {
                lemma_edge_line_connects(line);
                lemma_merge_edge_nodes_ids(st, ns);
                let s2 = merge_edge_nodes(st, ns);
                lemma_kept_connect(st.chart.nodes, s2.chart.nodes, st.chart.edges);
                let all = s2.chart.edges + es;
                assert forall|j: int| 0 <= j < all.len() implies has_node(s2.chart.nodes, (#[trigger] all[j]).from)
                    && has_node(s2.chart.nodes, all[j].to) by {
                    if j < s2.chart.edges.len() {
                        assert(all[j] == s2.chart.edges[j]);
                    } else {
                        let e = es[j - s2.chart.edges.len()];
                        assert(all[j] == e);
                        assert(has_node(ns, e.from) && has_node(ns, e.to));
                        let fi = choose|i: int| 0 <= i < ns.len() && (#[trigger] ns[i]).0 == e.from;
                        let ti = choose|i: int| 0 <= i < ns.len() && (#[trigger] ns[i]).0 == e.to;
                        assert(has_node(s2.chart.nodes, ns[fi].0));
                        assert(has_node(s2.chart.nodes, ns[ti].0));
                    }
                }
            },
            None => if node_text_panics(line) {
            } else {
                match parse_node_spec(line) {
                    Some(n) => {
                        lemma_merge_node_ids(st, n, true);
                        lemma_kept_connect(st.chart.nodes, merge_def_node(st, n).chart.nodes, st.chart.edges);
                    },
                    None => {},
                }
            },
        }
    }
}

proof fn lemma_fold_connected(init: FlowState, ls: Seq<Seq<char>>)
    requires
        chart_connected(init.chart),
    ensures
        chart_connected(flow_fold(init, ls).chart),
    decreases ls.len(),
{
    if ls.len() > 0 {
        lemma_fold_connected(init, ls.drop_last());
        lemma_step_connected(flow_fold(init, ls.drop_last()), ls.last());
    }
}

proof fn lemma_close_all_chart(st: FlowState)
    ensures
        close_all(st).chart.nodes == st.chart.nodes,
        close_all(st).chart.edges == st.chart.edges,
    decreases st.stack.len(),
{
    if st.stack.len() > 0 {
        lemma_close_all_chart(close_top(st));
    }
}

/// Every edge of a parsed flowchart runs between nodes of the flowchart:
/// each end of an edge line becomes a node when it is new.
pub proof fn law_edges_connect_nodes(source: Seq<char>)
    ensures
        flowchart_spec(source) matches Ok(c) ==> edges_connect(c.nodes, c.edges),
{
    let ls = lines_spec(source);
    match flow_header_from(ls, 0) {
        Ok((d, start)) => {
            let init = FlowState { chart: empty_flow(d), stack: seq![], counter: 0, panics: false };
            lemma_fold_connected(init, ls.skip(start));
            lemma_close_all_chart(flow_fold(init, ls.skip(start)));
        },
        Err(_) => {},
    }
}


// ───────────────────────── subgraph membership ──────────────────────────────

/// No two nodes share an id.
pub open spec fn ids_unique(ns: Seq<(Seq<char>, Seq<char>, NodeShape)>) -> bool {
    forall|i: int, j: int| 0 <= i < j < ns.len() ==> (#[trigger] ns[i]).0 != (#[trigger] ns[j]).0
}

/// A subgraph lists each id at most once, and only ids of nodes of `ns`.
pub open spec fn lists_nodes_once(g: SubV, ns: Seq<(Seq<char>, Seq<char>, NodeShape)>) -> bool {
    &&& forall|i: int, j: int| 0 <= i < j < g.node_ids.len() ==> #[trigger] g.node_ids[i] != #[trigger] g.node_ids[j]
    &&& forall|k: int| 0 <= k < g.node_ids.len() ==> has_node(ns, #[trigger] g.node_ids[k])
}

/// Node ids are unique, and every subgraph, finished or open, lists each
/// node once.
pub open spec fn members_ok(st: FlowState) -> bool {
    &&& ids_unique(st.chart.nodes)
    &&& forall|i: int| 0 <= i < st.chart.subgraphs.len() ==> lists_nodes_once(#[trigger] st.chart.subgraphs[i], st.chart.nodes)
    &&& forall|i: int| 0 <= i < st.stack.len() ==> lists_nodes_once(#[trigger] st.stack[i], st.chart.nodes)
}

proof fn lemma_lists_kept(g: SubV, ns1: Seq<(Seq<char>, Seq<char>, NodeShape)>, ns2: Seq<(Seq<char>, Seq<char>, NodeShape)>)
    requires
        lists_nodes_once(g, ns1),
        ids_kept(ns1, ns2),
    ensures
        lists_nodes_once(g, ns2),
{
    assert forall|k: int| 0 <= k < g.node_ids.len() implies has_node(ns2, #[trigger] g.node_ids[k]) by {
        assert(has_node(ns1, g.node_ids[k]));
    }
}

proof fn lemma_merge_node_members(st: FlowState, n: (Seq<char>, Seq<char>, NodeShape), def: bool)
    requires
        members_ok(st),
    ensures
        members_ok(
            if def {
                merge_def_node(st, n)
            } else {
                merge_edge_node(st, n)
            },
        ),
{
    let ns = st.chart.nodes;
    lemma_node_pos(ns, n.0);
    lemma_merge_node_ids(st, n, def);
    let s2 = if def {
        merge_def_node(st, n)
    } else {
        merge_edge_node(st, n)
    };
    let k = node_pos(ns, n.0);
    let ns2 = s2.chart.nodes;
    assert(ids_unique(ns2)) by {
        if k >= 0 {
            assert forall|i: int, j: int| 0 <= i < j < ns2.len() implies (#[trigger] ns2[i]).0 != (#[trigger] ns2[j]).0 by {
                assert(ns2[i].0 == ns[i].0 && ns2[j].0 == ns[j].0);
            }
        } else {
            assert forall|i: int, j: int| 0 <= i < j < ns2.len() implies (#[trigger] ns2[i]).0 != (#[trigger] ns2[j]).0 by {
                if j == ns.len() {
                    assert(ns2[i] == ns[i]);
                } else {
                    assert(ns2[i] == ns[i] && ns2[j] == ns[j]);
                }
            }
        }
    }
    assert forall|i: int| 0 <= i < s2.chart.subgraphs.len() implies lists_nodes_once(#[trigger] s2.chart.subgraphs[i], ns2) by {
        lemma_lists_kept(st.chart.subgraphs[i], ns, ns2);
    }
    let once = k >= 0;
    let changed = k < 0 || def || (n.1 != n.0 && ns[k].1 == ns[k].0);
    if changed {
        assert(s2.stack == list_in_top(st.stack, n.0, once));
    } else {
        assert(s2.stack == st.stack);
    }
    assert forall|i: int| 0 <= i < s2.stack.len() implies lists_nodes_once(#[trigger] s2.stack[i], ns2) by {
        if changed && st.stack.len() > 0 && i == st.stack.len() - 1 && !(once && st.stack.last().node_ids.contains(n.0)) {
            let top = st.stack.last();
            let l2 = top.node_ids.push(n.0);
            assert(s2.stack[i].node_ids == l2);
            assert(lists_nodes_once(top, ns));
            assert forall|a: int, b: int| 0 <= a < b < l2.len() implies #[trigger] l2[a] != #[trigger] l2[b] by {
                if b == top.node_ids.len() {
                    assert(l2[a] == top.node_ids[a]);
                    if !once {
                        assert(has_node(ns, top.node_ids[a]));
                        let q = choose|q: int| 0 <= q < ns.len() && (#[trigger] ns[q]).0 == top.node_ids[a];
                        assert(ns[q].0 != n.0);
                    } else {
                        assert(top.node_ids.contains(top.node_ids[a]));
                    }
                } else {
                    assert(l2[a] == top.node_ids[a] && l2[b] == top.node_ids[b]);
                }
            }
            assert forall|q: int| 0 <= q < l2.len() implies has_node(ns2, #[trigger] l2[q]) by {
                if q < top.node_ids.len() {
                    assert(l2[q] == top.node_ids[q]);
                    assert(has_node(ns, top.node_ids[q]));
                }
            }
        } else {
            assert(s2.stack[i] == st.stack[i]);
            lemma_lists_kept(st.stack[i], ns, ns2);
        }
    }
}

proof fn lemma_merge_nodes_members(st: FlowState, ns: Seq<(Seq<char>, Seq<char>, NodeShape)>)
    requires
        members_ok(st),
    ensures
        members_ok(merge_edge_nodes(st, ns)),
    decreases ns.len(),
{
    if ns.len() > 0 {
        lemma_merge_nodes_members(st, ns.drop_last());
        lemma_merge_node_members(merge_edge_nodes(st, ns.drop_last()), ns.last(), false);
    }
}

proof fn lemma_close_top_members(st: FlowState)
    requires
        members_ok(st),
    ensures
        members_ok(close_top(st)),
{
    if st.stack.len() > 0 {
        let s2 = close_top(st);
        let rest = st.stack.drop_last();
        assert forall|i: int| 0 <= i < s2.chart.subgraphs.len() implies lists_nodes_once(#[trigger] s2.chart.subgraphs[i], s2.chart.nodes) by {
            if i < st.chart.subgraphs.len() {
                assert(s2.chart.subgraphs[i] == st.chart.subgraphs[i]);
            } else {
                assert(s2.chart.subgraphs[i] == st.stack.last());
                assert(lists_nodes_once(st.stack[st.stack.len() - 1], st.chart.nodes));
            }
        }
        assert forall|i: int| 0 <= i < s2.stack.len() implies lists_nodes_once(#[trigger] s2.stack[i], s2.chart.nodes) by {
            assert(s2.stack[i].node_ids == st.stack[i].node_ids);
            assert(lists_nodes_once(st.stack[i], st.chart.nodes));
        }
    }
}

proof fn lemma_close_all_members(st: FlowState)
    requires
        members_ok(st),
    ensures
        members_ok(close_all(st)),
    decreases st.stack.len(),
{
    if st.stack.len() > 0 {
        lemma_close_top_members(st);
        lemma_close_all_members(close_top(st));
    }
}

proof fn lemma_step_members(st: FlowState, raw: Seq<char>)
    requires
        members_ok(st),
    ensures
        members_ok(flow_step(st, raw)),
{
    reveal(flow_step);
    let line = trim_spec(raw);
    if line.len() == 0 || starts_with_spec(line, seq!['%', '%']) {
    } else if starts_with_lower_spec(line, "classdef "@) {
    } else if starts_with_lower_spec(line, "class "@) {
    } else if starts_with_lower_spec(line, "linkstyle "@) {
    } else if starts_with_lower_spec(line, "style "@) || starts_with_lower_spec(line, "click "@) {
    } else if starts_with_lower_spec(line, "subgraph"@) {
        let s2 = flow_step(st, raw);
        assert forall|i: int| 0 <= i < s2.stack.len() implies lists_nodes_once(#[trigger] s2.stack[i], s2.chart.nodes) by {
            if i < st.stack.len() {
                assert(s2.stack[i] == st.stack[i]);
            }
        }
    } else if eq_lower_spec(line, "end"@) {
        lemma_close_top_members(st);
    } else if st.stack.len() > 0 && starts_with_lower_spec(line, "direction"@) {
        let s2 = flow_step(st, raw);
        assert forall|i: int| 0 <= i < s2.stack.len() implies lists_nodes_once(#[trigger] s2.stack[i], s2.chart.nodes) by {
            assert(s2.stack[i].node_ids == st.stack[i].node_ids);
            assert(lists_nodes_once(st.stack[i], st.chart.nodes));
        }
    } else if edge_line_panics(line) {
    } else {
        match edge_line_spec(line) {
            Some((ns, es)) => {
                lemma_merge_nodes_members(st, ns);
            },
            None => if node_text_panics(line) {
            } else {
                match parse_node_spec(line) {
                    Some(n) => {
                        lemma_merge_node_members(st, n, true);
                    },
                    None => {},
                }
            },
        }
    }
}

proof fn lemma_fold_members(init: FlowState, ls: Seq<Seq<char>>)
    requires
        members_ok(init),
    ensures
        members_ok(flow_fold(init, ls)),
    decreases ls.len(),
{
    if ls.len() > 0 {
        lemma_fold_members(init, ls.drop_last());
        lemma_step_members(flow_fold(init, ls.drop_last()), ls.last());
    }
}

/// In a parsed flowchart no two nodes share an id, and each subgraph lists
/// a node at most once, and only nodes of the flowchart: a known node is
/// listed only where it is not listed yet, and a new one is listed nowhere
/// yet.
pub proof fn law_subgraphs_list_nodes_once(source: Seq<char>)
    ensures
        flowchart_spec(source) matches Ok(c) ==> ids_unique(c.nodes) && forall|i: int|
            0 <= i < c.subgraphs.len() ==> lists_nodes_once(#[trigger] c.subgraphs[i], c.nodes),
{
    let ls = lines_spec(source);
    match flow_header_from(ls, 0) {
        Ok((d, start)) => {
            let init = FlowState { chart: empty_flow(d), stack: seq![], counter: 0, panics: false };
            lemma_fold_members(init, ls.skip(start));
            lemma_close_all_members(flow_fold(init, ls.skip(start)));
        },
        Err(_) => {},
    }
}

} // verus!
