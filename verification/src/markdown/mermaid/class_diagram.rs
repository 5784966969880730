//! Class diagram parsing.
//!
//! After the header line: `class Name`, `class Name {`, `class Name~T~` or
//! `class Name <<stereotype>>` starts a class (finishing the one before);
//! a `}` line finishes it; inside a class, lines without `--` or `..` are
//! members (`+name: Type`, `-method() Type`, ...); other lines are
//! relations `A <arrow> B : label`, whose classes are created when unknown.
use vstd::prelude::*;
use crate::markdown::mermaid::flowchart::opt_chars_of;
use crate::markdown::mermaid::git_graph::{second_piece, second_piece_exec};
use crate::markdown::mermaid::timeline::percent2;
use crate::text::{
    after_first, chars_of, contains, contains_char, contains_spec, find, find_char, find_spec,
    lemma_find_from_bounds, lemma_rfind_bounds, lines, lines_spec, matches_at, rfind_char,
    rfind_char_spec, slice_copy, split_whitespace, split_whitespace_spec, starts_with,
    starts_with_spec, string_of, trim, trim_end_matches, trim_end_matches_spec, trim_matches,
    trim_matches_spec, trim_spec, views_of,
};

verus! {

/// Visibility modifier for class members.
#[derive(Debug, Clone, Copy, PartialEq, Eq, Structural)]
pub enum Visibility {
    /// `+`
    Public,
    /// `-`
    Private,
    /// `#`
    Protected,
    /// `~`
    Package,
}

/// A member of a class (attribute or method).
#[derive(Debug, Clone)]
pub struct ClassMember {
    pub visibility: Visibility,
    pub name: String,
    /// return type or attribute type
    pub member_type: String,
    pub is_method: bool,
}

/// A class in the diagram.
#[derive(Debug, Clone)]
pub struct Class {
    pub id: String,
    pub name: String,
    /// `<<interface>>`, `<<abstract>>`, etc.
    pub stereotype: Option<String>,
    pub attributes: Vec<ClassMember>,
    pub methods: Vec<ClassMember>,
}

/// Relationship type between classes.
#[derive(Debug, Clone, Copy, PartialEq, Eq, Structural)]
pub enum ClassRelationType {
    /// `--|>`
    Inheritance,
    /// `*--`
    Composition,
    /// `o--`
    Aggregation,
    /// `--`
    Association,
    /// `..>`
    Dependency,
    /// `..|>`
    Realization,
}

/// A relationship between classes.
#[derive(Debug, Clone)]
pub struct ClassRelation {
    pub from: String,
    pub to: String,
    pub relation_type: ClassRelationType,
    pub label: Option<String>,
    pub from_cardinality: Option<String>,
    pub to_cardinality: Option<String>,
}

/// A class diagram.
#[derive(Debug, Clone)]
pub struct ClassDiagram {
    pub classes: Vec<Class>,
    pub relations: Vec<ClassRelation>,
}

// ─────────────────────────────── plain values ────────────────────────────────

/// A member as plain values.
pub struct MemberV {
    pub visibility: Visibility,
    pub name: Seq<char>,
    pub member_type: Seq<char>,
    pub is_method: bool,
}

pub open spec fn member_view(m: ClassMember) -> MemberV {
    MemberV { visibility: m.visibility, name: m.name@, member_type: m.member_type@, is_method: m.is_method }
}

pub open spec fn members_view(v: Seq<ClassMember>) -> Seq<MemberV> {
    v.map_values(|m: ClassMember| member_view(m))
}

/// A class as plain values.
pub struct ClassV {
    pub id: Seq<char>,
    pub name: Seq<char>,
    pub stereotype: Option<Seq<char>>,
    pub attributes: Seq<MemberV>,
    pub methods: Seq<MemberV>,
}

pub open spec fn class_view(c: Class) -> ClassV {
    ClassV {
        id: c.id@,
        name: c.name@,
        stereotype: opt_chars_of(c.stereotype),
        attributes: members_view(c.attributes@),
        methods: members_view(c.methods@),
    }
}

pub open spec fn classes_view(v: Seq<Class>) -> Seq<ClassV> {
    v.map_values(|c: Class| class_view(c))
}

pub open spec fn opt_class(c: Option<Class>) -> Option<ClassV> {
    match c {
        Some(x) => Some(class_view(x)),
        None => None,
    }
}

/// A relation as plain values.
pub struct RelationV {
    pub from: Seq<char>,
    pub to: Seq<char>,
    pub relation_type: ClassRelationType,
    pub label: Option<Seq<char>>,
    pub from_cardinality: Option<Seq<char>>,
    pub to_cardinality: Option<Seq<char>>,
}

pub open spec fn relation_view(r: ClassRelation) -> RelationV {
    RelationV {
        from: r.from@,
        to: r.to@,
        relation_type: r.relation_type,
        label: opt_chars_of(r.label),
        from_cardinality: opt_chars_of(r.from_cardinality),
        to_cardinality: opt_chars_of(r.to_cardinality),
    }
}

pub open spec fn relations_view(v: Seq<ClassRelation>) -> Seq<RelationV> {
    v.map_values(|r: ClassRelation| relation_view(r))
}

// ──────────────────────────────── members ────────────────────────────────────

/// The visibility a member line gives, and how many characters its marker
/// takes.
pub open spec fn visibility_of(line: Seq<char>) -> (Visibility, int) {
    if line.len() > 0 && line[0] == '+' {
        (Visibility::Public, 1)
    } else if line.len() > 0 && line[0] == '-' {
        (Visibility::Private, 1)
    } else if line.len() > 0 && line[0] == '#' {
        (Visibility::Protected, 1)
    } else if line.len() > 0 && line[0] == '~' {
        (Visibility::Package, 1)
    } else {
        (Visibility::Public, 0)
    }
}

/// The marker that writes a visibility: `+` public, `-` private, `#`
/// protected, `~` package.
pub open spec fn visibility_marker(v: Visibility) -> char {
    match v {
        Visibility::Public => '+',
        Visibility::Private => '-',
        Visibility::Protected => '#',
        Visibility::Package => '~',
    }
}

/// A member's visibility is the one its leading marker writes, and the
/// marker takes one character; without a marker the member is public and
/// nothing is taken.
pub proof fn law_visibility_from_marker(v: Visibility, rest: Seq<char>, line: Seq<char>)
    ensures
        visibility_of(seq![visibility_marker(v)] + rest) == (v, 1int),
        (line.len() == 0 || (line[0] != '+' && line[0] != '-' && line[0] != '#' && line[0] != '~'))
            ==> visibility_of(line) == (Visibility::Public, 0int),
{
    let l = seq![visibility_marker(v)] + rest;
    assert(l[0] == visibility_marker(v));
}

/// The member that a trimmed, nonempty line declares. A method (a line
/// with `(`) is named by what precedes the `(`; its type follows the last
/// `:`, else the last `)`, else is `void`. An attribute is `name: Type`
/// or a bare name with an empty type.
pub open spec fn member_spec(line: Seq<char>) -> MemberV {
    let (vis, skip) = visibility_of(line);
    let rest = line.skip(skip);
    if contains_spec(rest, seq!['(']) {
        let paren = find_spec(rest, seq!['(']).unwrap();
        let ty = if contains_spec(rest, seq![':']) {
            trim_spec(rest.skip(rfind_char_spec(rest, ':').unwrap() + 1))
        } else if contains_spec(rest, seq![')']) {
            trim_spec(rest.skip(rfind_char_spec(rest, ')').unwrap() + 1))
        } else {
            "void"@
        };
        MemberV { visibility: vis, name: trim_spec(rest.take(paren)), member_type: ty, is_method: true }
    } else if contains_spec(rest, seq![':']) {
        let c = find_spec(rest, seq![':']).unwrap();
        MemberV {
            visibility: vis,
            name: trim_spec(rest.take(c)),
            member_type: trim_spec(rest.skip(c + 1)),
            is_method: false,
        }
    } else {
        MemberV { visibility: vis, name: trim_spec(rest), member_type: seq![], is_method: false }
    }
}

// ─────────────────────────────── relations ───────────────────────────────────

/// The relation arrows, in the order they are tried.
pub open spec fn rel_pattern(i: int) -> (Seq<char>, ClassRelationType) {
    if i == 0 {
        ("--|>"@, ClassRelationType::Inheritance)
    } else if i == 1 {
        ("<|--"@, ClassRelationType::Inheritance)
    } else if i == 2 {
        ("..|>"@, ClassRelationType::Realization)
    } else if i == 3 {
        ("<|.."@, ClassRelationType::Realization)
    } else if i == 4 {
        ("*--"@, ClassRelationType::Composition)
    } else if i == 5 {
        ("--*"@, ClassRelationType::Composition)
    } else if i == 6 {
        ("o--"@, ClassRelationType::Aggregation)
    } else if i == 7 {
        ("--o"@, ClassRelationType::Aggregation)
    } else if i == 8 {
        ("..>"@, ClassRelationType::Dependency)
    } else if i == 9 {
        ("<.."@, ClassRelationType::Dependency)
    } else if i == 10 {
        ("--"@, ClassRelationType::Association)
    } else {
        (".."@, ClassRelationType::Dependency)
    }
}

/// The first arrow at or after `i` that the line holds.
pub open spec fn first_arrow(line: Seq<char>, i: int) -> Option<int>
    decreases 12 - i,
{
    if i < 0 || i >= 12 {
        None
    } else if contains_spec(line, rel_pattern(i).0) {
        Some(i)
    } else {
        first_arrow(line, i + 1)
    }
}

/// The relation a line declares: the first arrow it holds splits it; the
/// last word before the arrow and the first word after it (quotes around
/// either side removed) are the classes, and the text after the last `:`
/// of the piece after the arrow is the label. `None` where the line holds
/// no arrow or a side has no word.
pub open spec fn relation_spec(line: Seq<char>) -> Option<RelationV> {
    match first_arrow(line, 0) {
        None => None,
        Some(i) => {
            let (pat, ty) = rel_pattern(i);
            let before = line.take(find_spec(line, pat).unwrap());
            let after = second_piece(line, pat);
            let fw = split_whitespace_spec(trim_matches_spec(trim_spec(before), '"'));
            let tw = split_whitespace_spec(trim_matches_spec(trim_spec(after), '"'));
            if fw.len() == 0 || tw.len() == 0 {
                None
            } else {
                let label = if contains_spec(after, seq![':']) {
                    Some(trim_spec(after.skip(rfind_char_spec(after, ':').unwrap() + 1)))
                } else {
                    None
                };
                Some(
                    RelationV {
                        from: fw.last(),
                        to: tw[0],
                        relation_type: ty,
                        label,
                        from_cardinality: None,
                        to_cardinality: None,
                    },
                )
            }
        },
    }
}

// ──────────────────────────────── the document ───────────────────────────────

/// The name and stereotype a `class` line gives (from the text after the
/// keyword), and whether its `>>` comes before its `<<`, which the parser
/// cannot slice.
pub open spec fn class_head(rest: Seq<char>) -> (Seq<char>, Option<Seq<char>>, bool) {
    if contains_spec(rest, seq!['~']) {
        (trim_spec(rest.take(find_spec(rest, seq!['~']).unwrap())), None, false)
    } else if contains_spec(rest, "<<"@) && contains_spec(rest, ">>"@) {
        let start = find_spec(rest, "<<"@).unwrap();
        let end = find_spec(rest, ">>"@).unwrap();
        let name = trim_spec(trim_end_matches_spec(trim_spec(rest.take(start)), seq!['{']));
        if end < start + 2 {
            (name, None, true)
        } else {
            (name, Some(trim_spec(rest.subrange(start + 2, end))), false)
        }
    } else {
        (trim_spec(trim_end_matches_spec(rest, seq!['{'])), None, false)
    }
}

/// A class with no members.
pub open spec fn bare_class(id: Seq<char>, stereotype: Option<Seq<char>>) -> ClassV {
    ClassV { id, name: id, stereotype, attributes: seq![], methods: seq![] }
}

/// The parser between lines.
pub struct ClassState {
    pub classes: Seq<ClassV>,
    pub relations: Seq<RelationV>,
    pub current: Option<ClassV>,
    pub panics: bool,
}

/// The finished classes with the open one, if any, added.
pub open spec fn with_current(classes: Seq<ClassV>, current: Option<ClassV>) -> Seq<ClassV> {
    match current {
        Some(c) => classes.push(c),
        None => classes,
    }
}

/// Create class `id` for a relation unless a finished class or the open
/// one has that id.
pub open spec fn ensure_class(classes: Seq<ClassV>, current: Option<ClassV>, id: Seq<char>) -> Seq<ClassV> {
    let known = (exists|k: int| 0 <= k < classes.len() && #[trigger] classes[k].id == id) || (
    current matches Some(c) && c.id == id);
    if known {
        classes
    } else {
        classes.push(bare_class(id, None))
    }
}

/// What one line does.
pub open spec fn class_step(st: ClassState, raw: Seq<char>) -> ClassState {
    let line = trim_spec(raw);
    if line.len() == 0 || starts_with_spec(line, percent2()) {
        st
    } else if starts_with_spec(line, "class "@) {
        let (name, stereotype, pan) = class_head(trim_spec(line.skip(6)));
        ClassState {
            classes: with_current(st.classes, st.current),
            current: Some(bare_class(name, stereotype)),
            panics: st.panics || pan,
            ..st
        }
    } else if line == seq!['}'] {
        ClassState { classes: with_current(st.classes, st.current), current: None, ..st }
    } else if st.current is Some && !contains_spec(line, "--"@) && !contains_spec(line, ".."@) {
        let c = st.current.unwrap();
        let m = member_spec(line);
        ClassState {
            current: Some(
                if m.is_method {
                    ClassV { methods: c.methods.push(m), ..c }
                } else {
                    ClassV { attributes: c.attributes.push(m), ..c }
                },
            ),
            ..st
        }
    } else {
        match relation_spec(line) {
            Some(r) => ClassState {
                classes: ensure_class(ensure_class(st.classes, st.current, r.from), st.current, r.to),
                relations: st.relations.push(r),
                ..st
            },
            None => st,
        }
    }
}

/// The parser after the given lines.
pub open spec fn class_fold(ls: Seq<Seq<char>>) -> ClassState
    decreases ls.len(),
{
    if ls.len() == 0 {
        ClassState { classes: seq![], relations: seq![], current: None, panics: false }
    } else {
        class_step(class_fold(ls.drop_last()), ls.last())
    }
}

/// Whether a `class` line of the source has its `>>` before its `<<`.
pub open spec fn class_diagram_panics(source: Seq<char>) -> bool {
    class_fold(after_first(lines_spec(source))).panics
}

/// The classes and relations of a class diagram source, or the error.
pub open spec fn class_diagram_spec(source: Seq<char>) -> Result<(Seq<ClassV>, Seq<RelationV>), Seq<char>> {
    let st = class_fold(after_first(lines_spec(source)));
    let classes = with_current(st.classes, st.current);
    if classes.len() == 0 {
        Err("No classes found in diagram"@)
    } else {
        Ok((classes, st.relations))
    }
}

/// Some class of `cs` has the id `id`.
pub open spec fn names_class(cs: Seq<ClassV>, id: Seq<char>) -> bool {
    exists|k: int| 0 <= k < cs.len() && #[trigger] cs[k].id == id
}

/// Every relation's two ends are classes of the state, the open one
/// included.
pub open spec fn class_ends_declared(st: ClassState) -> bool {
    forall|i: int|
        0 <= i < st.relations.len() ==> names_class(with_current(st.classes, st.current), #[trigger] st.relations[i].from)
            && names_class(with_current(st.classes, st.current), st.relations[i].to)
}

/// Creating a class for a relation end keeps every id there and adds that
/// one.
proof fn lemma_ensure_class(classes: Seq<ClassV>, current: Option<ClassV>, id: Seq<char>, x: Seq<char>)
    ensures
        names_class(with_current(classes, current), x) ==> names_class(
            with_current(ensure_class(classes, current, id), current),
            x,
        ),
        names_class(with_current(ensure_class(classes, current, id), current), id),
{
    let c = with_current(classes, current);
    let e = ensure_class(classes, current, id);
    let c2 = with_current(e, current);
    let known_k = exists|k: int| 0 <= k < classes.len() && #[trigger] classes[k].id == id;
    if names_class(c, x) {
        let k = choose|k: int| 0 <= k < c.len() && #[trigger] c[k].id == x;
        if known_k || (current matches Some(cc) && cc.id == id) {
            assert(c2[k] == c[k]);
        } else if k < classes.len() {
            assert(c2[k] == c[k]);
        } else {
            assert(c2[k + 1] == c[k]);
        }
    }
    if known_k {
        let j = choose|j: int| 0 <= j < classes.len() && #[trigger] classes[j].id == id;
        assert(c2[j].id == id);
    } else if current matches Some(cc) && cc.id == id {
        assert(c2[c2.len() - 1].id == id);
    } else {
        assert(c2[classes.len() as int].id == id);
    }
}

/// Each line keeps the ends of every relation declared.
proof fn lemma_class_step_ends(st: ClassState, raw: Seq<char>)
    requires
        class_ends_declared(st),
    ensures
        class_ends_declared(class_step(st, raw)),
{
    let line = trim_spec(raw);
    let st2 = class_step(st, raw);
    let c = with_current(st.classes, st.current);
    let c2 = with_current(st2.classes, st2.current);
    if line.len() == 0 || starts_with_spec(line, percent2()) {
    } else if starts_with_spec(line, "class "@) || line == seq!['}'] || (st.current is Some && !contains_spec(
        line,
        "--"@,
    ) && !contains_spec(line, ".."@)) {
        assert(st2.relations == st.relations);
        assert(c2.len() >= c.len());
        assert forall|k: int| 0 <= k < c.len() implies #[trigger] c2[k].id == c[k].id by {}
        assert forall|i: int| 0 <= i < st2.relations.len() implies names_class(c2, #[trigger] st2.relations[i].from)
            && names_class(c2, st2.relations[i].to) by {
            let a = st.relations[i].from;
            let b = st.relations[i].to;
            let ka = choose|k: int| 0 <= k < c.len() && #[trigger] c[k].id == a;
            let kb = choose|k: int| 0 <= k < c.len() && #[trigger] c[k].id == b;
            assert(c2[ka].id == a && c2[kb].id == b);
        }
        assert(class_ends_declared(st2));
    } else {
        match relation_spec(line) {
            Some(r) => {
                let e1 = ensure_class(st.classes, st.current, r.from);
                let e1c = with_current(e1, st.current);
                lemma_ensure_class(st.classes, st.current, r.from, r.from);
                lemma_ensure_class(e1, st.current, r.to, r.from);
                assert forall|i: int| 0 <= i < st2.relations.len() implies names_class(c2, #[trigger] st2.relations[i].from)
                    && names_class(c2, st2.relations[i].to) by {
                    if i < st.relations.len() {
                        assert(st2.relations[i] == st.relations[i]);
                        lemma_ensure_class(st.classes, st.current, r.from, st.relations[i].from);
                        lemma_ensure_class(st.classes, st.current, r.from, st.relations[i].to);
                        lemma_ensure_class(e1, st.current, r.to, st.relations[i].from);
                        lemma_ensure_class(e1, st.current, r.to, st.relations[i].to);
                    } else {
                        assert(st2.relations[i] == r);
                    }
                }
                assert(class_ends_declared(st2));
            },
            None => {
                assert(st2 == st);
            },
        }
    }
}

/// The ends of every relation are declared after any lines.
proof fn lemma_class_fold_ends(ls: Seq<Seq<char>>)
    ensures
        class_ends_declared(class_fold(ls)),
    decreases ls.len(),
{
    if ls.len() > 0 {
        lemma_class_fold_ends(ls.drop_last());
        lemma_class_step_ends(class_fold(ls.drop_last()), ls.last());
    }
}

/// Whether a line brings a class in: after trimming it is not empty and not
/// a `%%` comment, and it declares a class (`class ...`) or a relation.
pub open spec fn brings_class(raw: Seq<char>) -> bool {
    let line = trim_spec(raw);
    !(line.len() == 0 || starts_with_spec(line, percent2())) && (starts_with_spec(line, "class "@)
        || relation_spec(line) is Some)
}

/// No line brings a class in.
pub open spec fn none_brings_class(ls: Seq<Seq<char>>) -> bool {
    forall|i: int| 0 <= i < ls.len() ==> !brings_class(#[trigger] ls[i])
}

/// The line character of a relation arrow: `-` for a solid line, `.` for a
/// dotted one (the arrow's first character, or its last where it begins
/// with a head).
pub open spec fn arrow_line_char(p: Seq<char>) -> char {
    if p[0] == '-' || p[0] == '.' {
        p[0]
    } else {
        p.last()
    }
}

/// A relation arrow: a line of two `-` or two `.`, bare or with one head: a
/// triangle (`<|` before or `|>` after) on either line; a diamond `*` or a
/// circle `o` at either end of a solid line; an open head (`<` before or
/// `>` after) on a dotted line.
pub open spec fn is_relation_arrow(p: Seq<char>) -> bool {
    let c = arrow_line_char(p);
    &&& p.len() >= 2
    &&& (c == '-' || c == '.')
    &&& {
        ||| p == seq![c, c]
        ||| p == seq![c, c, '|', '>']
        ||| p == seq!['<', '|', c, c]
        ||| c == '-' && (p == seq!['*', c, c] || p == seq![c, c, '*'] || p == seq!['o', c, c] || p == seq![
            c,
            c,
            'o',
        ])
        ||| c == '.' && (p == seq![c, c, '>'] || p == seq!['<', c, c])
    }
}

/// The relation an arrow draws: a triangle inheritance (solid line) or
/// realization (dotted line), a diamond composition, a circle aggregation;
/// otherwise a dotted line dependency and a solid line association.
pub open spec fn relation_of_arrow(p: Seq<char>) -> ClassRelationType {
    let c = arrow_line_char(p);
    if (p[0] == '<' && p[1] == '|') || (p.last() == '>' && p[p.len() - 2] == '|') {
        if c == '.' {
            ClassRelationType::Realization
        } else {
            ClassRelationType::Inheritance
        }
    } else if p[0] == '*' || p.last() == '*' {
        ClassRelationType::Composition
    } else if p[0] == 'o' || p.last() == 'o' {
        ClassRelationType::Aggregation
    } else if c == '.' {
        ClassRelationType::Dependency
    } else {
        ClassRelationType::Association
    }
}

/// Each arrow tried is a relation arrow and gives the relation it draws.
proof fn lemma_rel_pattern_draws(i: int)
    requires
        0 <= i < 12,
    ensures
        is_relation_arrow(rel_pattern(i).0),
        rel_pattern(i).1 == relation_of_arrow(rel_pattern(i).0),
{
    reveal_strlit("--|>");
    reveal_strlit("<|--");
    reveal_strlit("..|>");
    reveal_strlit("<|..");
    reveal_strlit("*--");
    reveal_strlit("--*");
    reveal_strlit("o--");
    reveal_strlit("--o");
    reveal_strlit("..>");
    reveal_strlit("<..");
    reveal_strlit("--");
    reveal_strlit("..");
    let p = rel_pattern(i).0;
    let c = arrow_line_char(p);
    if i == 0 {
        assert(p == seq![c, c, '|', '>']);
    } else if i == 1 {
        assert(p == seq!['<', '|', c, c]);
    } else if i == 2 {
        assert(p == seq![c, c, '|', '>']);
    } else if i == 3 {
        assert(p == seq!['<', '|', c, c]);
    } else if i == 4 {
        assert(p == seq!['*', c, c]);
    } else if i == 5 {
        assert(p == seq![c, c, '*']);
    } else if i == 6 {
        assert(p == seq!['o', c, c]);
    } else if i == 7 {
        assert(p == seq![c, c, 'o']);
    } else if i == 8 {
        assert(p == seq![c, c, '>']);
    } else if i == 9 {
        assert(p == seq!['<', c, c]);
    } else {
        assert(p == seq![c, c]);
    }
}

/// The arrow chosen from the `i`-th on occurs in the line.
proof fn lemma_first_arrow_occurs(line: Seq<char>, i: int)
    ensures
        first_arrow(line, i) matches Some(k) ==> 0 <= k < 12 && contains_spec(line, rel_pattern(k).0),
    decreases 12 - i,
{
    if 0 <= i < 12 {
        lemma_first_arrow_occurs(line, i + 1);
    }
}

/// A relation's type is the one its arrow draws: the arrow stands in the
/// line, and a triangle (`--|>`, `<|--`) gives inheritance, a dotted
/// triangle (`..|>`, `<|..`) realization, a diamond (`*--`, `--*`)
/// composition, a circle (`o--`, `--o`) aggregation, a dotted arrow or line
/// (`..>`, `<..`, `..`) dependency and a bare solid line (`--`)
/// association.
pub proof fn law_relation_type_from_arrow(line: Seq<char>)
    ensures
        relation_spec(line) matches Some(r) ==> exists|q: int, p: Seq<char>|
            #![trigger matches_at(line, p, q)]
            is_relation_arrow(p) && matches_at(line, p, q) && r.relation_type == relation_of_arrow(p),
{
    lemma_first_arrow_occurs(line, 0);
    if let Some(r) = relation_spec(line) {
        let i = first_arrow(line, 0).unwrap();
        let p = rel_pattern(i).0;
        lemma_rel_pattern_draws(i);
        lemma_find_from_bounds(line, p, 0);
        let q = find_spec(line, p).unwrap();
        assert(matches_at(line, p, q));
    }
}

/// A line of one character holds no arrow: every arrow is longer.
proof fn lemma_first_arrow_short(line: Seq<char>, i: int)
    requires
        line.len() < 2,
    ensures
        first_arrow(line, i) is None,
    decreases 12 - i,
{
    if 0 <= i < 12 {
        assert(rel_pattern(i).0.len() >= 2) by {
            reveal_strlit("--|>");
            reveal_strlit("<|--");
            reveal_strlit("..|>");
            reveal_strlit("<|..");
            reveal_strlit("*--");
            reveal_strlit("--*");
            reveal_strlit("o--");
            reveal_strlit("--o");
            reveal_strlit("..>");
            reveal_strlit("<..");
            reveal_strlit("--");
            reveal_strlit("..");
        }
        lemma_find_from_bounds(line, rel_pattern(i).0, 0);
        lemma_first_arrow_short(line, i + 1);
    }
}

/// Each line keeps the classes empty exactly when it brings none in, and
/// never empties them.
proof fn lemma_class_step_nonempty(st: ClassState, raw: Seq<char>)
    ensures
        with_current(st.classes, st.current).len() > 0 ==> with_current(
            class_step(st, raw).classes,
            class_step(st, raw).current,
        ).len() > 0,
        brings_class(raw) ==> with_current(class_step(st, raw).classes, class_step(st, raw).current).len() > 0,
        with_current(st.classes, st.current).len() == 0 && !brings_class(raw) ==> with_current(
            class_step(st, raw).classes,
            class_step(st, raw).current,
        ).len() == 0,
{
    let line = trim_spec(raw);
    if line.len() == 0 || starts_with_spec(line, percent2()) {
    } else if starts_with_spec(line, "class "@) {
    } else if line == seq!['}'] {
        lemma_first_arrow_short(line, 0);
    } else if st.current is Some && !contains_spec(line, "--"@) && !contains_spec(line, ".."@) {
    } else {
        match relation_spec(line) {
            Some(r) => {
                let e1 = ensure_class(st.classes, st.current, r.from);
                lemma_ensure_class(st.classes, st.current, r.from, r.from);
                lemma_ensure_class(e1, st.current, r.to, r.from);
            },
            None => {},
        }
    }
}

/// The classes after any lines are empty exactly when no line brings one
/// in.
proof fn lemma_class_fold_nonempty(ls: Seq<Seq<char>>)
    ensures
        with_current(class_fold(ls).classes, class_fold(ls).current).len() == 0 <==> none_brings_class(ls),
    decreases ls.len(),
{
    if ls.len() > 0 {
        let d = ls.drop_last();
        lemma_class_fold_nonempty(d);
        lemma_class_step_nonempty(class_fold(d), ls.last());
        if none_brings_class(ls) {
            assert forall|i: int| 0 <= i < d.len() implies !brings_class(#[trigger] d[i]) by {
                assert(d[i] == ls[i]);
            }
            assert(!brings_class(ls[ls.len() - 1]));
        } else {
            let i = choose|i: int| 0 <= i < ls.len() && brings_class(#[trigger] ls[i]);
            if i < d.len() {
                assert(d[i] == ls[i]);
            }
        }
    }
}

/// A class diagram source fails with "No classes found in diagram" exactly
/// when no line after the first declares a class or a relation (blank and
/// `%%` lines aside).
pub proof fn law_class_error_condition(source: Seq<char>)
    ensures
        class_diagram_spec(source) is Err <==> none_brings_class(after_first(lines_spec(source))),
{
    lemma_class_fold_nonempty(after_first(lines_spec(source)));
}

/// Every relation of a parsed class diagram joins two classes of the
/// diagram: a class that a relation names without declaring it is created
/// by the relation.
pub proof fn law_relation_ends_are_classes(source: Seq<char>)
    requires
        class_diagram_spec(source) is Ok,
    ensures
        ({
            let (classes, relations) = class_diagram_spec(source)->Ok_0;
            forall|i: int|
                0 <= i < relations.len() ==> names_class(classes, #[trigger] relations[i].from) && names_class(
                    classes,
                    relations[i].to,
                )
        }),
{
    let st = class_fold(after_first(lines_spec(source)));
    lemma_class_fold_ends(after_first(lines_spec(source)));
    assert(class_diagram_spec(source) == Ok::<(Seq<ClassV>, Seq<RelationV>), Seq<char>>(
        (with_current(st.classes, st.current), st.relations),
    ));
    assert(class_ends_declared(st));
}

// ─────────────────────────────── implementation ──────────────────────────────

/// Parse a member line (trimmed, nonempty).
fn parse_class_member(line: &[char]) -> (m: ClassMember)
    ensures
        member_view(m) == member_spec(line@),
{
    let (vis, skip): (Visibility, usize) = if line.len() > 0 && line[0] == '+' {
        (Visibility::Public, 1)
    } else if line.len() > 0 && line[0] == '-' {
        (Visibility::Private, 1)
    } else if line.len() > 0 && line[0] == '#' {
        (Visibility::Protected, 1)
    } else if line.len() > 0 && line[0] == '~' {
        (Visibility::Package, 1)
    } else {
        (Visibility::Public, 0)
    };
    let rest = &line[skip..line.len()];
    assert(rest@ =~= line@.skip(skip as int));
    if contains_char(rest, '(') {
        let paren = find_char(rest, '(').unwrap();
        proof {
            lemma_find_from_bounds(rest@, seq!['('], 0);
        }
        let name = trim(&rest[0..paren]);
        assert(rest@.subrange(0, paren as int) =~= rest@.take(paren as int));
        let ty = if contains_char(rest, ':') {
            proof {
                crate::text::lemma_contains_char_rfind(rest@, ':');
            }
            let k = rfind_char(rest, ':').unwrap();
            let t = trim(&rest[k + 1..rest.len()]);
            assert(rest@.subrange(k + 1, rest@.len() as int) =~= rest@.skip(k + 1));
            t
        } else if contains_char(rest, ')') {
            proof {
                crate::text::lemma_contains_char_rfind(rest@, ')');
            }
            let k = rfind_char(rest, ')').unwrap();
            let t = trim(&rest[k + 1..rest.len()]);
            assert(rest@.subrange(k + 1, rest@.len() as int) =~= rest@.skip(k + 1));
            t
        } else {
            proof {
                reveal_strlit("void");
            }
            chars_of("void")
        };
        return ClassMember {
            visibility: vis,
            name: string_of(name.as_slice()),
            member_type: string_of(ty.as_slice()),
            is_method: true,
        };
    }
    if contains_char(rest, ':') {
        let c = find_char(rest, ':').unwrap();
        proof {
            lemma_find_from_bounds(rest@, seq![':'], 0);
        }
        let name = trim(&rest[0..c]);
        assert(rest@.subrange(0, c as int) =~= rest@.take(c as int));
        let ty = trim(&rest[c + 1..rest.len()]);
        assert(rest@.subrange(c + 1, rest@.len() as int) =~= rest@.skip(c + 1));
        return ClassMember {
            visibility: vis,
            name: string_of(name.as_slice()),
            member_type: string_of(ty.as_slice()),
            is_method: false,
        };
    }
    let name = trim(rest);
    let empty: Vec<char> = Vec::new();
    assert(empty@ =~= seq![]);
    ClassMember { visibility: vis, name: string_of(name.as_slice()), member_type: string_of(empty.as_slice()), is_method: false }
}

/// [`rel_pattern`].
fn rel_pattern_exec(i: usize) -> (r: (Vec<char>, ClassRelationType))
    requires
        i < 12,
    ensures
        (r.0@, r.1) == rel_pattern(i as int),
{
    proof {
        reveal_strlit("--|>");
        reveal_strlit("<|--");
        reveal_strlit("..|>");
        reveal_strlit("<|..");
        reveal_strlit("*--");
        reveal_strlit("--*");
        reveal_strlit("o--");
        reveal_strlit("--o");
        reveal_strlit("..>");
        reveal_strlit("<..");
        reveal_strlit("--");
        reveal_strlit("..");
    }
    if i == 0 {
        (chars_of("--|>"), ClassRelationType::Inheritance)
    } else if i == 1 {
        (chars_of("<|--"), ClassRelationType::Inheritance)
    } else if i == 2 {
        (chars_of("..|>"), ClassRelationType::Realization)
    } else if i == 3 {
        (chars_of("<|.."), ClassRelationType::Realization)
    } else if i == 4 {
        (chars_of("*--"), ClassRelationType::Composition)
    } else if i == 5 {
        (chars_of("--*"), ClassRelationType::Composition)
    } else if i == 6 {
        (chars_of("o--"), ClassRelationType::Aggregation)
    } else if i == 7 {
        (chars_of("--o"), ClassRelationType::Aggregation)
    } else if i == 8 {
        (chars_of("..>"), ClassRelationType::Dependency)
    } else if i == 9 {
        (chars_of("<.."), ClassRelationType::Dependency)
    } else if i == 10 {
        (chars_of("--"), ClassRelationType::Association)
    } else {
        (chars_of(".."), ClassRelationType::Dependency)
    }
}

/// Parse a relation line.
fn parse_class_relation(line: &[char]) -> (r: Option<ClassRelation>)
    ensures
        match r {
            Some(x) => relation_spec(line@) == Some(relation_view(x)),
            None => relation_spec(line@) is None,
        },
{
    let mut i: usize = 0;
    while i < 12
        invariant
            i <= 12,
            first_arrow(line@, i as int) == first_arrow(line@, 0),
        decreases 12 - i,
    {
        let (pat, ty) = rel_pattern_exec(i);
        if contains(line, pat.as_slice()) {
            let p = find(line, pat.as_slice()).unwrap();
            proof {
                lemma_find_from_bounds(line@, pat@, 0);
            }
            let before = &line[0..p];
            assert(before@ =~= line@.take(p as int));
            let after = second_piece_exec(line, pat.as_slice());
            let fb = trim(before);
            let fb = trim_matches(fb.as_slice(), '"');
            let fw = split_whitespace(fb.as_slice());
            let tb = trim(after.as_slice());
            let tb = trim_matches(tb.as_slice(), '"');
            let tw = split_whitespace(tb.as_slice());
            assert(views_of(fw@).len() == fw@.len());
            assert(views_of(tw@).len() == tw@.len());
            if fw.len() == 0 || tw.len() == 0 {
                return None;
            }
            assert(views_of(fw@).last() == fw@[fw@.len() - 1]@);
            assert(views_of(tw@)[0] == tw@[0]@);
            let label = if contains_char(after.as_slice(), ':') {
                proof {
                    crate::text::lemma_contains_char_rfind(after@, ':');
                }
                let k = rfind_char(after.as_slice(), ':').unwrap();
                assert(rfind_char_spec(after@, ':') == Some(k as int));
                assert(k < after@.len());
                let l = trim(&after.as_slice()[k + 1..after.len()]);
                assert(after@.subrange(k + 1, after@.len() as int) =~= after@.skip(k + 1));
                Some(string_of(l.as_slice()))
            } else {
                None
            };
            return Some(
                ClassRelation {
                    from: string_of(fw[fw.len() - 1].as_slice()),
                    to: string_of(tw[0].as_slice()),
                    relation_type: ty,
                    label,
                    from_cardinality: None,
                    to_cardinality: None,
                },
            );
        }
        i = i + 1;
    }
    None
}

/// [`class_head`], where it does not panic.
fn class_head_exec(rest: &[char]) -> (r: (Vec<char>, Option<String>))
    requires
        !class_head(rest@).2,
    ensures
        (r.0@, opt_chars_of(r.1), false) == class_head(rest@),
{
    let lt: Vec<char> = vec!['<', '<'];
    let gt: Vec<char> = vec!['>', '>'];
    let brace: Vec<char> = vec!['{'];
    proof {
        reveal_strlit("<<");
        reveal_strlit(">>");
        assert(lt@ =~= "<<"@);
        assert(gt@ =~= ">>"@);
        assert(brace@ =~= seq!['{']);
    }
    if contains_char(rest, '~') {
        let k = find_char(rest, '~').unwrap();
        proof {
            lemma_find_from_bounds(rest@, seq!['~'], 0);
        }
        let name = trim(&rest[0..k]);
        assert(rest@.subrange(0, k as int) =~= rest@.take(k as int));
        return (name, None);
    }
    if contains(rest, lt.as_slice()) && contains(rest, gt.as_slice()) {
        let start = find(rest, lt.as_slice()).unwrap();
        let end = find(rest, gt.as_slice()).unwrap();
        proof {
            lemma_find_from_bounds(rest@, lt@, 0);
            lemma_find_from_bounds(rest@, gt@, 0);
        }
        let head = trim(&rest[0..start]);
        assert(rest@.subrange(0, start as int) =~= rest@.take(start as int));
        let name = trim(trim_end_matches(head.as_slice(), brace.as_slice()).as_slice());
        let stereo = trim(&rest[start + 2..end]);
        return (name, Some(string_of(stereo.as_slice())));
    }
    let name = trim(trim_end_matches(rest, brace.as_slice()).as_slice());
    (name, None)
}

/// A class with no members.
fn new_class(id: &[char], stereotype: Option<String>) -> (c: Class)
    ensures
        class_view(c) == bare_class(id@, opt_chars_of(stereotype)),
{
    let c = Class {
        id: string_of(id),
        name: string_of(id),
        stereotype,
        attributes: Vec::new(),
        methods: Vec::new(),
    };
    assert(members_view(c.attributes@) =~= seq![]);
    assert(members_view(c.methods@) =~= seq![]);
    c
}

/// The parser's state.
struct ClassParser {
    classes: Vec<Class>,
    relations: Vec<ClassRelation>,
    current: Option<Class>,
}

spec fn parser_view(p: ClassParser) -> ClassState {
    ClassState {
        classes: classes_view(p.classes@),
        relations: relations_view(p.relations@),
        current: opt_class(p.current),
        panics: false,
    }
}

/// Finish the open class, if any.
fn finish_current(p: &mut ClassParser)
    ensures
        classes_view(final(p).classes@) == with_current(classes_view(old(p).classes@), opt_class(old(p).current)),
        final(p).current is None,
        final(p).relations == old(p).relations,
{
    match p.current.take() {
        Some(c) => {
            let ghost cv = classes_view(p.classes@);
            p.classes.push(c);
            assert(classes_view(p.classes@) =~= cv.push(class_view(c)));
        },
        None => {},
    }
}

/// Create class `id` for a relation unless it is known.
fn ensure_class_exec(p: &mut ClassParser, id: &String)
    ensures
        classes_view(final(p).classes@) == ensure_class(classes_view(old(p).classes@), opt_class(old(p).current), id@),
        final(p).current == old(p).current,
        final(p).relations == old(p).relations,
{
    let ghost cv = classes_view(p.classes@);
    let mut found = false;
    let mut i: usize = 0;
    while i < p.classes.len()
        invariant
            i <= p.classes@.len(),
            cv == classes_view(p.classes@),
            found <==> exists|k: int| 0 <= k < i && #[trigger] cv[k].id == id@,
        decreases p.classes@.len() - i,
    {
        if p.classes[i].id == *id {
            assert(cv[i as int].id == id@);
            found = true;
        }
        i = i + 1;
    }
    let in_current = match &p.current {
        Some(c) => c.id == *id,
        None => false,
    };
    if !found && !in_current {
        let idc = crate::text::chars_of(id.as_str());
        let c = new_class(idc.as_slice(), None);
        p.classes.push(c);
        assert(classes_view(p.classes@) =~= cv.push(class_view(c)));
    }
}

/// Whether a line makes the parser panic: a `class` line whose `>>` comes
/// before its `<<`. Nothing else a line does depends on it.
pub open spec fn class_line_panics(raw: Seq<char>) -> bool {
    let line = trim_spec(raw);
    !(line.len() == 0 || starts_with_spec(line, percent2())) && starts_with_spec(line, "class "@) && class_head(
        trim_spec(line.skip(6)),
    ).2
}

/// A line sets the panic flag exactly when it panics, whatever came before.
proof fn lemma_class_step_panics(st: ClassState, raw: Seq<char>)
    ensures
        class_step(st, raw).panics == (st.panics || class_line_panics(raw)),
{
}

/// The panic flag after some lines.
proof fn lemma_class_fold_panics(ls: Seq<Seq<char>>, i: int)
    requires
        0 <= i < ls.len(),
    ensures
        class_fold(ls.take(i + 1)).panics == (class_fold(ls.take(i)).panics || class_line_panics(ls[i])),
{
    assert(ls.take(i + 1).drop_last() =~= ls.take(i));
    lemma_class_step_panics(class_fold(ls.take(i)), ls[i]);
}

/// Whether the `>>` of a class head comes before its `<<`.
fn class_head_panics(rest: &[char]) -> (b: bool)
    ensures
        b == class_head(rest@).2,
{
    let lt: Vec<char> = vec!['<', '<'];
    let gt: Vec<char> = vec!['>', '>'];
    proof {
        reveal_strlit("<<");
        reveal_strlit(">>");
        assert(lt@ =~= "<<"@);
        assert(gt@ =~= ">>"@);
    }
    if contains_char(rest, '~') {
        return false;
    }
    if contains(rest, lt.as_slice()) && contains(rest, gt.as_slice()) {
        let start = find(rest, lt.as_slice()).unwrap();
        let end = find(rest, gt.as_slice()).unwrap();
        proof {
            lemma_find_from_bounds(rest@, lt@, 0);
        }
        return end < start || end - start < 2;
    }
    false
}

/// Whether the source holds a `class` line whose `>>` comes before its
/// `<<`, a stereotype that cannot be cut out (the parsing would panic).
/// [`parse_class_diagram`] may be called exactly when this is false.
pub fn class_diagram_would_panic(source: &str) -> (b: bool)
    ensures
        b == class_diagram_panics(source@),
{
    let src = chars_of(source);
    let ls = lines(src.as_slice());
    let ghost all = after_first(lines_spec(source@));
    let pct: Vec<char> = vec!['%', '%'];
    let cw = chars_of("class ");
    proof {
        assert(pct@ =~= percent2());
        reveal_strlit("class ");
        assert(views_of(ls@).len() == ls@.len());
        assert(all.take(0) =~= seq![]);
    }
    let mut found = false;
    let mut i: usize = 1;
    while i < ls.len()
        invariant
            1 <= i,
            views_of(ls@) == lines_spec(source@),
            views_of(ls@).len() == ls@.len(),
            all == after_first(lines_spec(source@)),
            i <= ls@.len() || i == 1,
            pct@ == percent2(),
            cw@ == "class "@,
            cw@.len() == 6,
            found == class_fold(all.take(i - 1)).panics,
        decreases ls@.len() - i,
    {
        proof {
            assert(all[i - 1] == ls@[i as int]@);
            lemma_class_fold_panics(all, i - 1);
        }
        let line = trim(ls[i].as_slice());
        if line.len() > 0 && !starts_with(line.as_slice(), pct.as_slice()) && starts_with(line.as_slice(), cw.as_slice()) {
            assert(line@.len() >= 6);
            let rest = trim(&line.as_slice()[6..line.len()]);
            assert(line@.subrange(6, line@.len() as int) =~= line@.skip(6));
            if class_head_panics(rest.as_slice()) {
                found = true;
            }
        }
        i = i + 1;
    }
    proof {
        if ls@.len() > 0 {
            assert(all.take(i - 1) =~= all);
        } else {
            assert(all =~= seq![]);
        }
    }
    found
}

/// Apply one line.
fn class_line(p: &mut ClassParser, raw: &[char])
    requires
        !class_step(parser_view(*old(p)), raw@).panics,
    ensures
        parser_view(*final(p)) == class_step(parser_view(*old(p)), raw@),
{
    let line = trim(raw);
    let pct: Vec<char> = vec!['%', '%'];
    assert(pct@ =~= percent2());
    if line.len() == 0 || starts_with(line.as_slice(), pct.as_slice()) {
        return;
    }
    let cw = chars_of("class ");
    let dd = chars_of("--");
    let dots = chars_of("..");
    proof {
        reveal_strlit("class ");
        reveal_strlit("--");
        reveal_strlit("..");
    }
    if starts_with(line.as_slice(), cw.as_slice()) {
        finish_current(p);
        let rest = trim(&line.as_slice()[6..line.len()]);
        assert(line@.subrange(6, line@.len() as int) =~= line@.skip(6));
        let (name, stereotype) = class_head_exec(rest.as_slice());
        p.current = Some(new_class(name.as_slice(), stereotype));
        return;
    }
    if line.len() == 1 && line[0] == '}' {
        assert(line@ =~= seq!['}']);
        finish_current(p);
        return;
    }
    assert(line@ != seq!['}']);
    if p.current.is_some() && !contains(line.as_slice(), dd.as_slice()) && !contains(line.as_slice(), dots.as_slice()) {
        let m = parse_class_member(line.as_slice());
        match &mut p.current {
            Some(c) => {
                if m.is_method {
                    let ghost mv = members_view(c.methods@);
                    c.methods.push(m);
                    assert(members_view(c.methods@) =~= mv.push(member_view(m)));
                } else {
                    let ghost av = members_view(c.attributes@);
                    c.attributes.push(m);
                    assert(members_view(c.attributes@) =~= av.push(member_view(m)));
                }
            },
            None => {},
        }
        return;
    }
    match parse_class_relation(line.as_slice()) {
        Some(r) => {
            ensure_class_exec(p, &r.from);
            ensure_class_exec(p, &r.to);
            let ghost rv = relations_view(p.relations@);
            p.relations.push(r);
            assert(relations_view(p.relations@) =~= rv.push(relation_view(r)));
        },
        None => {},
    }
}

/// A line never clears the panic flag.
proof fn lemma_class_prefix(all: Seq<Seq<char>>, k: int)
    requires
        0 <= k <= all.len(),
    ensures
        class_fold(all.take(k)).panics ==> class_fold(all).panics,
    decreases all.len() - k,
{
    if k < all.len() {
        lemma_class_prefix(all, k + 1);
        assert(all.take(k + 1).drop_last() =~= all.take(k));
    } else {
        assert(all.take(k) =~= all);
    }
}

/// Parse a class diagram from source; an error when it has no class.
pub fn parse_class_diagram(source: &str) -> (r: Result<ClassDiagram, String>)
    requires
        !class_diagram_panics(source@),
    ensures
        match r {
            Ok(d) => class_diagram_spec(source@) == Ok::<(Seq<ClassV>, Seq<RelationV>), Seq<char>>(
                (classes_view(d.classes@), relations_view(d.relations@)),
            ),
            Err(e) => class_diagram_spec(source@) == Err::<(Seq<ClassV>, Seq<RelationV>), Seq<char>>(e@),
        },
{
    let src = chars_of(source);
    let ls = lines(src.as_slice());
    let ghost all = after_first(lines_spec(source@));
    let mut p = ClassParser { classes: Vec::new(), relations: Vec::new(), current: None };
    proof {
        assert(parser_view(p) =~= class_fold(all.take(0))) by {
            assert(all.take(0) =~= seq![]);
            assert(classes_view(p.classes@) =~= seq![]);
            assert(relations_view(p.relations@) =~= seq![]);
        }
    }
    let mut i: usize = 1;
    while i < ls.len()
        invariant
            1 <= i,
            views_of(ls@) == lines_spec(source@),
            all == after_first(lines_spec(source@)),
            i <= ls@.len() || i == 1,
            !class_fold(all).panics,
            parser_view(p) == class_fold(all.take(i - 1)),
        decreases ls@.len() - i,
    {
        proof {
            assert(all.take(i as int).drop_last() =~= all.take(i - 1));
            assert(all.take(i as int).last() == ls@[i as int]@);
            lemma_class_prefix(all, i as int);
        }
        class_line(&mut p, ls[i].as_slice());
        i = i + 1;
    }
    proof {
        assert(views_of(ls@).len() == ls@.len());
        assert(all.take(i - 1) =~= all);
        reveal_strlit("No classes found in diagram");
    }
    finish_current(&mut p);
    if p.classes.len() == 0 {
        return Err(String::from_str("No classes found in diagram"));
    }
    Ok(ClassDiagram { classes: p.classes, relations: p.relations })
}

} // verus!
