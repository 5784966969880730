//! Entity-relationship diagram parsing.
//!
//! After the header line: `NAME {` opens an entity, `}` closes it; inside
//! an entity a line `type name [PK|FK]` is an attribute; elsewhere a line
//! with a relationship marker such as `||--o{` relates two entities, which
//! are declared by that mention if they are not yet.
use vstd::prelude::*;
use crate::markdown::mermaid::timeline::percent2;
use crate::text::{
    after_first, chars_of, contains, contains_char, contains_spec, ends_with_spec, eq_ci,
    eq_ci_spec, find, find_after, find_char, find_from, find_spec, lemma_find_from_bounds, lines,
    lines_spec, slice_copy, split_whitespace, split_whitespace_spec, string_of, trim, trim_end_matches,
    trim_end_matches_spec, trim_matches, trim_matches_spec, trim_spec, views_of,
};

verus! {

/// An entity in an ER diagram.
#[derive(Debug, Clone)]
pub struct Entity {
    pub name: String,
    pub attributes: Vec<EntityAttribute>,
}

/// An attribute of an entity.
#[derive(Debug, Clone)]
pub struct EntityAttribute {
    pub name: String,
    pub attr_type: String,
    /// Primary key
    pub is_pk: bool,
    /// Foreign key
    pub is_fk: bool,
}

/// Cardinality in a relationship.
#[derive(Debug, Clone, Copy, PartialEq, Eq, Structural)]
pub enum Cardinality {
    /// `|o` or `o|`
    ZeroOrOne,
    /// `||`
    ExactlyOne,
    /// `}o` or `o{`
    ZeroOrMore,
    /// `}|` or `|{`
    OneOrMore,
}

/// A relationship between entities.
#[derive(Debug, Clone)]
pub struct ERRelation {
    pub from: String,
    pub to: String,
    pub from_cardinality: Cardinality,
    pub to_cardinality: Cardinality,
    pub label: Option<String>,
    /// Solid (identifying) rather than dashed line
    pub identifying: bool,
}

/// An ER diagram.
#[derive(Debug, Clone)]
pub struct ERDiagram {
    pub entities: Vec<Entity>,
    pub relations: Vec<ERRelation>,
}

// ─────────────────────────────── plain values ────────────────────────────────

/// An attribute as plain values: name, type, primary key, foreign key.
pub open spec fn attr_view(a: EntityAttribute) -> (Seq<char>, Seq<char>, bool, bool) {
    (a.name@, a.attr_type@, a.is_pk, a.is_fk)
}

/// An entity as plain values: name and attributes.
pub open spec fn entity_view(e: Entity) -> (Seq<char>, Seq<(Seq<char>, Seq<char>, bool, bool)>) {
    (e.name@, e.attributes@.map_values(|a: EntityAttribute| attr_view(a)))
}

/// Entities as plain values.
pub open spec fn entities_view(v: Seq<Entity>) -> Seq<(Seq<char>, Seq<(Seq<char>, Seq<char>, bool, bool)>)> {
    v.map_values(|e: Entity| entity_view(e))
}

/// The optional entity as plain values.
pub open spec fn opt_entity(e: Option<Entity>) -> Option<(Seq<char>, Seq<(Seq<char>, Seq<char>, bool, bool)>)> {
    match e {
        Some(x) => Some(entity_view(x)),
        None => None,
    }
}

/// A relationship as plain values.
pub struct RelationV {
    pub from: Seq<char>,
    pub to: Seq<char>,
    pub from_cardinality: Cardinality,
    pub to_cardinality: Cardinality,
    pub label: Option<Seq<char>>,
    pub identifying: bool,
}

pub open spec fn relation_view(r: ERRelation) -> RelationV {
    RelationV {
        from: r.from@,
        to: r.to@,
        from_cardinality: r.from_cardinality,
        to_cardinality: r.to_cardinality,
        label: match r.label {
            Some(l) => Some(l@),
            None => None,
        },
        identifying: r.identifying,
    }
}

/// Relationships as plain values.
pub open spec fn relations_view(v: Seq<ERRelation>) -> Seq<RelationV> {
    v.map_values(|r: ERRelation| relation_view(r))
}

// ──────────────────────────────── attributes ─────────────────────────────────

/// The attribute of a line `type name [key]`: at least two words; the third
/// word marks a primary key when it is `PK` and a foreign key when it is
/// `FK`, letters compared without regard to ASCII case.
pub open spec fn attribute_spec(line: Seq<char>) -> Option<(Seq<char>, Seq<char>, bool, bool)> {
    let t = trim_spec(line);
    let parts = split_whitespace_spec(t);
    if t.len() == 0 || parts.len() < 2 {
        None
    } else {
        let pk = parts.len() > 2 && eq_ci_spec(parts[2], seq!['P', 'K']);
        let fk = parts.len() > 2 && eq_ci_spec(parts[2], seq!['F', 'K']);
        Some((parts[1], parts[0], pk, fk))
    }
}

/// The optional attribute as plain values.
pub open spec fn opt_attr(a: Option<EntityAttribute>) -> Option<(Seq<char>, Seq<char>, bool, bool)> {
    match a {
        Some(x) => Some(attr_view(x)),
        None => None,
    }
}

/// The attribute of a line, if it is one.
pub fn parse_er_attribute(line: &[char]) -> (r: Option<EntityAttribute>)
    ensures
        opt_attr(r) == attribute_spec(line@),
{
    let t = trim(line);
    if t.len() == 0 {
        return None;
    }
    let parts = split_whitespace(t.as_slice());
    assert(views_of(parts@).len() == parts@.len());
    if parts.len() < 2 {
        return None;
    }
    assert(views_of(parts@)[0] == parts@[0]@);
    assert(views_of(parts@)[1] == parts@[1]@);
    let pkw: Vec<char> = vec!['P', 'K'];
    let fkw: Vec<char> = vec!['F', 'K'];
    assert(pkw@ =~= seq!['P', 'K']);
    assert(fkw@ =~= seq!['F', 'K']);
    let (is_pk, is_fk) = if parts.len() > 2 {
        assert(views_of(parts@)[2] == parts@[2]@);
        (eq_ci(parts[2].as_slice(), pkw.as_slice()), eq_ci(parts[2].as_slice(), fkw.as_slice()))
    } else {
        (false, false)
    };
    Some(
        EntityAttribute {
            name: string_of(parts[1].as_slice()),
            attr_type: string_of(parts[0].as_slice()),
            is_pk,
            is_fk,
        },
    )
}

// ─────────────────────────────── relationships ───────────────────────────────

/// The relationship markers tried in order, with the cardinalities they
/// give and whether the line is solid (identifying).
pub open spec fn marker(i: int) -> (Seq<char>, Cardinality, Cardinality, bool) {
    let one = Cardinality::ExactlyOne;
    let zo = Cardinality::ZeroOrOne;
    let om = Cardinality::OneOrMore;
    let zm = Cardinality::ZeroOrMore;
    if i == 0 {
        (seq!['|', '|', '-', '-', '|', '|'], one, one, true)
    } else if i == 1 {
        (seq!['|', '|', '-', '-', '|', '{'], one, om, true)
    } else if i == 2 {
        (seq!['|', '|', '-', '-', 'o', '{'], one, zm, true)
    } else if i == 3 {
        (seq!['|', '|', '-', '-', 'o', '|'], one, zo, true)
    } else if i == 4 {
        (seq!['|', 'o', '-', '-', '|', '|'], zo, one, true)
    } else if i == 5 {
        (seq!['|', 'o', '-', '-', '|', '{'], zo, om, true)
    } else if i == 6 {
        (seq!['|', 'o', '-', '-', 'o', '{'], zo, zm, true)
    } else if i == 7 {
        (seq!['|', 'o', '-', '-', 'o', '|'], zo, zo, true)
    } else if i == 8 {
        (seq!['}', '|', '-', '-', '|', '|'], om, one, true)
    } else if i == 9 {
        (seq!['}', '|', '-', '-', '|', '{'], om, om, true)
    } else if i == 10 {
        (seq!['}', '|', '-', '-', 'o', '{'], om, zm, true)
    } else if i == 11 {
        (seq!['}', '|', '-', '-', 'o', '|'], om, zo, true)
    } else if i == 12 {
        (seq!['}', 'o', '-', '-', '|', '|'], zm, one, true)
    } else if i == 13 {
        (seq!['}', 'o', '-', '-', '|', '{'], zm, om, true)
    } else if i == 14 {
        (seq!['}', 'o', '-', '-', 'o', '{'], zm, zm, true)
    } else if i == 15 {
        (seq!['}', 'o', '-', '-', 'o', '|'], zm, zo, true)
    } else if i == 16 {
        (seq!['|', '|', '.', '.', '|', '|'], one, one, false)
    } else if i == 17 {
        (seq!['|', '|', '.', '.', '|', '{'], one, om, false)
    } else if i == 18 {
        (seq!['|', '|', '.', '.', 'o', '{'], one, zm, false)
    } else {
        (seq!['|', '|', '.', '.', 'o', '|'], one, zo, false)
    }
}

fn marker_exec(i: usize) -> (r: (Vec<char>, Cardinality, Cardinality, bool))
    requires
        i < 20,
    ensures
        (r.0@, r.1, r.2, r.3) == marker(i as int),
{
    let one = Cardinality::ExactlyOne;
    let zo = Cardinality::ZeroOrOne;
    let om = Cardinality::OneOrMore;
    let zm = Cardinality::ZeroOrMore;
    let r = if i == 0 {
        (vec!['|', '|', '-', '-', '|', '|'], one, one, true)
    } else if i == 1 {
        (vec!['|', '|', '-', '-', '|', '{'], one, om, true)
    } else if i == 2 {
        (vec!['|', '|', '-', '-', 'o', '{'], one, zm, true)
    } else if i == 3 {
        (vec!['|', '|', '-', '-', 'o', '|'], one, zo, true)
    } else if i == 4 {
        (vec!['|', 'o', '-', '-', '|', '|'], zo, one, true)
    } else if i == 5 {
        (vec!['|', 'o', '-', '-', '|', '{'], zo, om, true)
    } else if i == 6 {
        (vec!['|', 'o', '-', '-', 'o', '{'], zo, zm, true)
    } else if i == 7 {
        (vec!['|', 'o', '-', '-', 'o', '|'], zo, zo, true)
    } else if i == 8 {
        (vec!['}', '|', '-', '-', '|', '|'], om, one, true)
    } else if i == 9 {
        (vec!['}', '|', '-', '-', '|', '{'], om, om, true)
    } else if i == 10 {
        (vec!['}', '|', '-', '-', 'o', '{'], om, zm, true)
    } else if i == 11 {
        (vec!['}', '|', '-', '-', 'o', '|'], om, zo, true)
    } else if i == 12 {
        (vec!['}', 'o', '-', '-', '|', '|'], zm, one, true)
    } else if i == 13 {
        (vec!['}', 'o', '-', '-', '|', '{'], zm, om, true)
    } else if i == 14 {
        (vec!['}', 'o', '-', '-', 'o', '{'], zm, zm, true)
    } else if i == 15 {
        (vec!['}', 'o', '-', '-', 'o', '|'], zm, zo, true)
    } else if i == 16 {
        (vec!['|', '|', '.', '.', '|', '|'], one, one, false)
    } else if i == 17 {
        (vec!['|', '|', '.', '.', '|', '{'], one, om, false)
    } else if i == 18 {
        (vec!['|', '|', '.', '.', 'o', '{'], one, zm, false)
    } else {
        (vec!['|', '|', '.', '.', 'o', '|'], one, zo, false)
    };
    assert(r.0@ =~= marker(i as int).0);
    r
}

/// The relationship of a line with the marker `m` at its first occurrence
/// `p`: the sender before it, the receiver after it (up to the next
/// occurrence), and a label after a `:`, trimmed and stripped of quotes.
pub open spec fn relation_at(line: Seq<char>, p: int, m: (Seq<char>, Cardinality, Cardinality, bool)) -> RelationV {
    let start = p + m.0.len();
    let stop = match find_from(line, m.0, start) {
        Some(q) => q,
        None => line.len() as int,
    };
    let rest = trim_spec(line.subrange(start, stop));
    let from = trim_spec(line.take(p));
    match find_spec(rest, seq![':']) {
        Some(c) => RelationV {
            from,
            to: trim_spec(rest.take(c)),
            from_cardinality: m.1,
            to_cardinality: m.2,
            label: Some(trim_matches_spec(trim_spec(rest.skip(c + 1)), '"')),
            identifying: m.3,
        },
        None => RelationV {
            from,
            to: rest,
            from_cardinality: m.1,
            to_cardinality: m.2,
            label: None,
            identifying: m.3,
        },
    }
}

/// The relationship of a line: the first marker, in order, that occurs in
/// it decides.
pub open spec fn try_markers(line: Seq<char>, i: int) -> Option<RelationV>
    decreases 20 - i,
{
    if i < 0 || i >= 20 {
        None
    } else {
        match find_spec(line, marker(i).0) {
            Some(p) => Some(relation_at(line, p, marker(i))),
            None => try_markers(line, i + 1),
        }
    }
}

/// The cardinality the left end of a marker writes: `|` (exactly) or `}`
/// (many) on the outside, then `|` (at least one) or `o` (possibly none):
/// `||` ExactlyOne, `|o` ZeroOrOne, `}|` OneOrMore, `}o` ZeroOrMore.
pub open spec fn left_cardinality(outer: char, inner: char) -> Cardinality {
    if outer == '}' {
        if inner == 'o' {
            Cardinality::ZeroOrMore
        } else {
            Cardinality::OneOrMore
        }
    } else {
        if inner == 'o' {
            Cardinality::ZeroOrOne
        } else {
            Cardinality::ExactlyOne
        }
    }
}

/// The cardinality the right end of a marker writes, mirrored: `||`
/// ExactlyOne, `o|` ZeroOrOne, `|{` OneOrMore, `o{` ZeroOrMore.
pub open spec fn right_cardinality(inner: char, outer: char) -> Cardinality {
    if outer == '{' {
        if inner == 'o' {
            Cardinality::ZeroOrMore
        } else {
            Cardinality::OneOrMore
        }
    } else {
        if inner == 'o' {
            Cardinality::ZeroOrOne
        } else {
            Cardinality::ExactlyOne
        }
    }
}

/// The six characters at `p` form a relationship marker: a left end
/// (`|` or `}`, then `|` or `o`), a line (`--` or `..`) and a right end
/// (`|` or `o`, then `|` or `{`).
pub open spec fn marker_at(line: Seq<char>, p: int) -> bool {
    &&& 0 <= p && p + 6 <= line.len()
    &&& (line[p] == '|' || line[p] == '}')
    &&& (line[p + 1] == '|' || line[p + 1] == 'o')
    &&& ((line[p + 2] == '-' && line[p + 3] == '-') || (line[p + 2] == '.' && line[p + 3] == '.'))
    &&& (line[p + 4] == '|' || line[p + 4] == 'o')
    &&& (line[p + 5] == '|' || line[p + 5] == '{')
}

/// Each marker tried gives the cardinalities its ends write, and is
/// identifying exactly when its line is solid.
proof fn lemma_marker_draws(i: int)
    requires
        0 <= i < 20,
    ensures
        ({
            let (m, l, r, ident) = marker(i);
            &&& m.len() == 6
            &&& marker_at(m, 0)
            &&& l == left_cardinality(m[0], m[1])
            &&& r == right_cardinality(m[4], m[5])
            &&& ident == (m[2] == '-')
        }),
{
}

/// The relationships from the `i`-th marker on are read as their markers
/// say.
proof fn lemma_try_markers_drawn(line: Seq<char>, i: int)
    requires
        0 <= i,
    ensures
        try_markers(line, i) matches Some(r) ==> exists|p: int|
            #![trigger marker_at(line, p)]
            marker_at(line, p) && r.from == trim_spec(line.take(p)) && r.from_cardinality
                == left_cardinality(line[p], line[p + 1]) && r.to_cardinality == right_cardinality(
                line[p + 4],
                line[p + 5],
            ) && r.identifying == (line[p + 2] == '-'),
    decreases 20 - i,
{
    if i < 20 {
        lemma_try_markers_drawn(line, i + 1);
        let m = marker(i).0;
        if let Some(p) = find_spec(line, m) {
            crate::text::lemma_find_from_bounds(line, m, 0);
            lemma_marker_draws(i);
            let w = line.subrange(p, p + 6);
            assert(w == m);
            assert(line[p] == w[0] && line[p + 1] == w[1] && line[p + 2] == w[2] && line[p + 3] == w[3]
                && line[p + 4] == w[4] && line[p + 5] == w[5]);
            assert(marker_at(line, p));
        }
    }
}

/// A relationship's cardinalities are those its marker writes, and it is
/// identifying exactly when the marker's line is solid: the marker stands
/// in the line right after the first entity; its left end gives the first
/// entity's cardinality (`||` ExactlyOne, `|o` ZeroOrOne, `}|` OneOrMore,
/// `}o` ZeroOrMore) and its right end the second's (`||` ExactlyOne, `o|`
/// ZeroOrOne, `|{` OneOrMore, `o{` ZeroOrMore), whatever the line style.
pub proof fn law_cardinalities_from_marker(line: Seq<char>)
    ensures
        try_markers(line, 0) matches Some(r) ==> exists|p: int|
            #![trigger marker_at(line, p)]
            marker_at(line, p) && r.from == trim_spec(line.take(p)) && r.from_cardinality
                == left_cardinality(line[p], line[p + 1]) && r.to_cardinality == right_cardinality(
                line[p + 4],
                line[p + 5],
            ) && r.identifying == (line[p + 2] == '-'),
{
    lemma_try_markers_drawn(line, 0);
}

/// The optional relationship as plain values.
pub open spec fn opt_relation(r: Option<ERRelation>) -> Option<RelationV> {
    match r {
        Some(x) => Some(relation_view(x)),
        None => None,
    }
}

/// The relationship of a line, if it is one.
pub fn parse_er_relation(line: &[char]) -> (r: Option<ERRelation>)
    ensures
        opt_relation(r) == try_markers(line@, 0),
{
    let colon: Vec<char> = vec![':'];
    assert(colon@ =~= seq![':']);
    let n = line.len();
    let mut i: usize = 0;
    while i < 20
        invariant
            i <= 20,
            n == line@.len(),
            colon@ == seq![':'],
            try_markers(line@, i as int) == try_markers(line@, 0),
        decreases 20 - i,
    {
        let (m, fc, tc, identifying) = marker_exec(i);
        match find(line, m.as_slice()) {
            Some(p) => {
                proof {
                    lemma_find_from_bounds(line@, m@, 0);
                    assert(p + m@.len() <= n);
                }
                let start = p + m.len();
                let stop = match find_after(line, m.as_slice(), start) {
                    Some(q) => {
                        proof {
                            lemma_find_from_bounds(line@, m@, start as int);
                        }
                        q
                    },
                    None => n,
                };
                let rest = trim(&line[start..stop]);
                let from = trim(&line[0..p]);
                assert(line@.subrange(0, p as int) =~= line@.take(p as int));
                let (to, label) = match find(rest.as_slice(), colon.as_slice()) {
                    Some(c) => {
                        let rl = rest.len();
                        proof {
                            lemma_find_from_bounds(rest@, seq![':'], 0);
                            assert(c + 1 <= rl);
                        }
                        let t = trim(&rest.as_slice()[0..c]);
                        let l = trim(&rest.as_slice()[c + 1..rl]);
                        assert(rest@.subrange(0, c as int) =~= rest@.take(c as int));
                        assert(rest@.subrange(c + 1, rest@.len() as int) =~= rest@.skip(c + 1));
                        let lq = trim_matches(l.as_slice(), '"');
                        (t, Some(string_of(lq.as_slice())))
                    },
                    None => (rest, None),
                };
                return Some(
                    ERRelation {
                        from: string_of(from.as_slice()),
                        to: string_of(to.as_slice()),
                        from_cardinality: fc,
                        to_cardinality: tc,
                        label,
                        identifying,
                    },
                );
            },
            None => {},
        }
        i = i + 1;
    }
    None
}

// ────────────────────────────────── diagram ──────────────────────────────────

/// The parser state: finished entities, relationships, the open entity.
pub struct ErState {
    pub entities: Seq<(Seq<char>, Seq<(Seq<char>, Seq<char>, bool, bool)>)>,
    pub relations: Seq<RelationV>,
    pub current: Option<(Seq<char>, Seq<(Seq<char>, Seq<char>, bool, bool)>)>,
}

/// The entities with the open one, if any, closed.
pub open spec fn close_entity(st: ErState) -> Seq<(Seq<char>, Seq<(Seq<char>, Seq<char>, bool, bool)>)> {
    match st.current {
        Some(e) => st.entities.push(e),
        None => st.entities,
    }
}

/// Declare an entity mentioned by a relationship unless it is declared or
/// is the open entity.
pub open spec fn ensure_entity(st: ErState, name: Seq<char>) -> ErState {
    let known = exists|k: int| 0 <= k < st.entities.len() && #[trigger] st.entities[k].0 == name;
    let is_open = match st.current {
        Some(e) => e.0 == name,
        None => false,
    };
    if !known && !is_open {
        ErState { entities: st.entities.push((name, seq![])), ..st }
    } else {
        st
    }
}

/// What one line does to the parser state.
pub open spec fn er_step(st: ErState, raw: Seq<char>) -> ErState {
    let line = trim_spec(raw);
    if line.len() == 0 || crate::text::starts_with_spec(line, percent2()) {
        st
    } else if ends_with_spec(line, seq!['{']) {
        ErState {
            entities: close_entity(st),
            relations: st.relations,
            current: Some((trim_spec(trim_end_matches_spec(line, seq!['{'])), seq![])),
        }
    } else if line == seq!['}'] {
        ErState { entities: close_entity(st), relations: st.relations, current: None }
    } else if st.current is Some && !contains_spec(line, seq!['|', '|']) && !contains_spec(
        line,
        seq!['}'],
    ) && !contains_spec(line, seq!['{']) {
        match (attribute_spec(line), st.current) {
            (Some(a), Some(e)) => ErState { current: Some((e.0, e.1.push(a))), ..st },
            _ => st,
        }
    } else {
        match try_markers(line, 0) {
            Some(r) => {
                let s1 = ensure_entity(st, r.from);
                let s2 = ensure_entity(s1, r.to);
                ErState { relations: s2.relations.push(r), ..s2 }
            },
            None => st,
        }
    }
}

/// The parser state after the given lines.
pub open spec fn er_fold(ls: Seq<Seq<char>>) -> ErState
    decreases ls.len(),
{
    if ls.len() == 0 {
        ErState { entities: seq![], relations: seq![], current: None }
    } else {
        er_step(er_fold(ls.drop_last()), ls.last())
    }
}

/// The entities and relationships of an ER diagram source, the open entity
/// closed; `None` without entities.
pub open spec fn er_spec(source: Seq<char>) -> Option<
    (Seq<(Seq<char>, Seq<(Seq<char>, Seq<char>, bool, bool)>)>, Seq<RelationV>),
> {
    let st = er_fold(after_first(lines_spec(source)));
    let entities = close_entity(st);
    if entities.len() == 0 {
        None
    } else {
        Some((entities, st.relations))
    }
}

/// Some entity of `es` has the name `name`.
pub open spec fn names_entity(es: Seq<(Seq<char>, Seq<(Seq<char>, Seq<char>, bool, bool)>)>, name: Seq<char>) -> bool {
    exists|k: int| 0 <= k < es.len() && #[trigger] es[k].0 == name
}

/// Every relationship's two ends are entities of the state, the open one
/// included.
pub open spec fn ends_declared(st: ErState) -> bool {
    forall|i: int|
        0 <= i < st.relations.len() ==> names_entity(close_entity(st), #[trigger] st.relations[i].from)
            && names_entity(close_entity(st), st.relations[i].to)
}

/// Declaring an entity keeps every name already there.
proof fn lemma_ensure_keeps(t: ErState, name: Seq<char>, x: Seq<char>)
    requires
        names_entity(close_entity(t), x),
    ensures
        names_entity(close_entity(ensure_entity(t, name)), x),
{
    let c = close_entity(t);
    let c2 = close_entity(ensure_entity(t, name));
    let k = choose|k: int| 0 <= k < c.len() && #[trigger] c[k].0 == x;
    let known = exists|j: int| 0 <= j < t.entities.len() && #[trigger] t.entities[j].0 == name;
    let is_open = match t.current {
        Some(e) => e.0 == name,
        None => false,
    };
    if !known && !is_open {
        if k < t.entities.len() {
            assert(c2[k] == c[k]);
        } else {
            assert(c2[k + 1] == c[k]);
        }
    } else {
        assert(c2[k] == c[k]);
    }
}

/// After declaring an entity, the name is there.
proof fn lemma_ensure_adds(t: ErState, name: Seq<char>)
    ensures
        names_entity(close_entity(ensure_entity(t, name)), name),
{
    let c2 = close_entity(ensure_entity(t, name));
    let known = exists|j: int| 0 <= j < t.entities.len() && #[trigger] t.entities[j].0 == name;
    let is_open = match t.current {
        Some(e) => e.0 == name,
        None => false,
    };
    if !known && !is_open {
        assert(c2[t.entities.len() as int].0 == name);
    } else if known {
        let j = choose|j: int| 0 <= j < t.entities.len() && #[trigger] t.entities[j].0 == name;
        assert(c2[j].0 == name);
    } else {
        assert(c2[c2.len() - 1].0 == name);
    }
}

/// Each line keeps the ends of every relationship declared.
proof fn lemma_step_ends_declared(st: ErState, raw: Seq<char>)
    requires
        ends_declared(st),
    ensures
        ends_declared(er_step(st, raw)),
{
    let line = trim_spec(raw);
    let st2 = er_step(st, raw);
    if line.len() == 0 || crate::text::starts_with_spec(line, percent2()) {
    } else if ends_with_spec(line, seq!['{']) || line == seq!['}'] {
        assert forall|i: int| 0 <= i < st2.relations.len() implies names_entity(close_entity(st2), #[trigger] st2.relations[i].from)
            && names_entity(close_entity(st2), st2.relations[i].to) by {
            let c = close_entity(st);
            let c2 = close_entity(st2);
            assert(st2.relations[i] == st.relations[i]);
            let a = st.relations[i].from;
            let b = st.relations[i].to;
            let ka = choose|k: int| 0 <= k < c.len() && #[trigger] c[k].0 == a;
            let kb = choose|k: int| 0 <= k < c.len() && #[trigger] c[k].0 == b;
            assert(c2[ka] == c[ka] && c2[kb] == c[kb]);
        }
    } else if st.current is Some && !contains_spec(line, seq!['|', '|']) && !contains_spec(line, seq!['}'])
        && !contains_spec(line, seq!['{']) {
        assert forall|i: int| 0 <= i < st2.relations.len() implies names_entity(close_entity(st2), #[trigger] st2.relations[i].from)
            && names_entity(close_entity(st2), st2.relations[i].to) by {
            let c = close_entity(st);
            let c2 = close_entity(st2);
            assert(c.len() == c2.len());
            assert forall|k: int| 0 <= k < c.len() implies #[trigger] c2[k].0 == c[k].0 by {}
            assert(st2.relations[i] == st.relations[i]);
            let a = st.relations[i].from;
            let b = st.relations[i].to;
            let ka = choose|k: int| 0 <= k < c.len() && #[trigger] c[k].0 == a;
            let kb = choose|k: int| 0 <= k < c.len() && #[trigger] c[k].0 == b;
            assert(c2[ka].0 == a && c2[kb].0 == b);
        }
    } else {
        match try_markers(line, 0) {
            Some(r) => {
                let s1 = ensure_entity(st, r.from);
                let s2 = ensure_entity(s1, r.to);
                lemma_ensure_adds(st, r.from);
                lemma_ensure_keeps(s1, r.to, r.from);
                lemma_ensure_adds(s1, r.to);
                assert(names_entity(close_entity(s1), r.from));
                assert(names_entity(close_entity(s2), r.from));
                assert(names_entity(close_entity(s2), r.to));
                assert(close_entity(st2) == close_entity(s2));
                assert forall|i: int| 0 <= i < st2.relations.len() implies names_entity(close_entity(st2), #[trigger] st2.relations[i].from)
                    && names_entity(close_entity(st2), st2.relations[i].to) by {
                    if i < st.relations.len() {
                        assert(st2.relations[i] == st.relations[i]);
                        lemma_ensure_keeps(st, r.from, st.relations[i].from);
                        lemma_ensure_keeps(st, r.from, st.relations[i].to);
                        lemma_ensure_keeps(s1, r.to, st.relations[i].from);
                        lemma_ensure_keeps(s1, r.to, st.relations[i].to);
                    } else {
                        assert(st2.relations[i] == r);
                    }
                }
            },
            None => {},
        }
    }
}

/// The ends of every relationship are declared after any lines.
proof fn lemma_fold_ends_declared(ls: Seq<Seq<char>>)
    ensures
        ends_declared(er_fold(ls)),
    decreases ls.len(),
{
    if ls.len() > 0 {
        lemma_fold_ends_declared(ls.drop_last());
        lemma_step_ends_declared(er_fold(ls.drop_last()), ls.last());
    }
}

/// Every relationship of a parsed ER diagram joins two entities of the
/// diagram: an entity that a relationship names without declaring it is
/// declared by the relationship.
pub proof fn law_relation_ends_are_entities(source: Seq<char>)
    requires
        er_spec(source) is Some,
    ensures
        ({
            let (entities, relations) = er_spec(source).unwrap();
            forall|i: int|
                0 <= i < relations.len() ==> names_entity(entities, #[trigger] relations[i].from) && names_entity(
                    entities,
                    relations[i].to,
                )
        }),
{
    let st = er_fold(after_first(lines_spec(source)));
    lemma_fold_ends_declared(after_first(lines_spec(source)));
    assert(er_spec(source) == Some((close_entity(st), st.relations)));
    assert(ends_declared(st));
}

/// Whether a line brings an entity in: after trimming it is not empty and
/// not a `%%` comment, and it opens an entity (ends with `{`) or is a
/// relationship.
pub open spec fn brings_entity(raw: Seq<char>) -> bool {
    let line = trim_spec(raw);
    !(line.len() == 0 || crate::text::starts_with_spec(line, percent2())) && (ends_with_spec(line, seq!['{'])
        || try_markers(line, 0) is Some)
}

/// A line of one character is no relationship: every marker is longer.
proof fn lemma_try_markers_short(line: Seq<char>, i: int)
    requires
        line.len() < 2,
    ensures
        try_markers(line, i) is None,
    decreases 20 - i,
{
    if 0 <= i < 20 {
        assert(marker(i).0.len() >= 2);
        crate::text::lemma_find_from_bounds(line, marker(i).0, 0);
        lemma_try_markers_short(line, i + 1);
    }
}

/// Each line keeps the entities empty exactly when it brings none in, and
/// never empties them.
proof fn lemma_step_entities(st: ErState, raw: Seq<char>)
    ensures
        close_entity(st).len() > 0 ==> close_entity(er_step(st, raw)).len() > 0,
        brings_entity(raw) ==> close_entity(er_step(st, raw)).len() > 0,
        close_entity(st).len() == 0 && !brings_entity(raw) ==> close_entity(er_step(st, raw)).len() == 0,
{
    let line = trim_spec(raw);
    if line.len() == 0 || crate::text::starts_with_spec(line, percent2()) {
    } else if ends_with_spec(line, seq!['{']) {
    } else if line == seq!['}'] {
        lemma_try_markers_short(line, 0);
    } else if st.current is Some && !contains_spec(line, seq!['|', '|']) && !contains_spec(line, seq!['}'])
        && !contains_spec(line, seq!['{']) {
    } else {
        match try_markers(line, 0) {
            Some(r) => {
                lemma_ensure_adds(st, r.from);
                lemma_ensure_keeps(ensure_entity(st, r.from), r.to, r.from);
                let s2 = ensure_entity(ensure_entity(st, r.from), r.to);
                assert(close_entity(er_step(st, raw)) == close_entity(s2));
            },
            None => {},
        }
    }
}

/// No line brings an entity in.
pub open spec fn none_brings_entity(ls: Seq<Seq<char>>) -> bool {
    forall|i: int| 0 <= i < ls.len() ==> !brings_entity(#[trigger] ls[i])
}

/// The entities after any lines are empty exactly when no line brings one
/// in.
proof fn lemma_fold_entities(ls: Seq<Seq<char>>)
    ensures
        close_entity(er_fold(ls)).len() == 0 <==> none_brings_entity(ls),
    decreases ls.len(),
{
    if ls.len() > 0 {
        let d = ls.drop_last();
        lemma_fold_entities(d);
        lemma_step_entities(er_fold(d), ls.last());
        if none_brings_entity(ls) {
            assert forall|i: int| 0 <= i < d.len() implies !brings_entity(#[trigger] d[i]) by {
                assert(d[i] == ls[i]);
            }
            assert(!brings_entity(ls[ls.len() - 1]));
        } else {
            let i = choose|i: int| 0 <= i < ls.len() && brings_entity(#[trigger] ls[i]);
            if i < d.len() {
                assert(d[i] == ls[i]);
            }
        }
    }
}

/// An ER diagram source fails to parse, with "No entities found in
/// diagram", exactly when no line after the first opens an entity or is a
/// relationship (blank and `%%` lines aside).
pub proof fn law_er_error_condition(source: Seq<char>)
    ensures
        er_spec(source) is None <==> none_brings_entity(after_first(lines_spec(source))),
{
    lemma_fold_entities(after_first(lines_spec(source)));
}

/// Declare an entity mentioned by a relationship unless it is declared or
/// is the open entity.
fn ensure_entity_exec(entities: &mut Vec<Entity>, current: &Option<Entity>, name: &String)
    ensures
        entities_view(final(entities)@) == ensure_entity(
            ErState {
                entities: entities_view(old(entities)@),
                relations: seq![],
                current: opt_entity(*current),
            },
            name@,
        ).entities,
{
    let ghost ev = entities_view(entities@);
    let mut k: usize = 0;
    let mut known = false;
    while k < entities.len()
        invariant
            k <= entities@.len(),
            ev == entities_view(entities@),
            entities@ == old(entities)@,
            known == exists|j: int| 0 <= j < k && #[trigger] ev[j].0 == name@,
        decreases entities@.len() - k,
    {
        if entities[k].name == *name {
            known = true;
        }
        assert(ev[k as int].0 == entities@[k as int].name@);
        k = k + 1;
    }
    let is_open = match current {
        Some(e) => e.name == *name,
        None => false,
    };
    if !known && !is_open {
        let e = Entity { name: name.clone(), attributes: Vec::new() };
        entities.push(e);
        assert(e.attributes@.map_values(|a: EntityAttribute| attr_view(a)) =~= seq![]);
        assert(entities_view(entities@) =~= ev.push(entity_view(e)));
    }
}

/// Apply one line to the parser state.
fn step(
    entities: &mut Vec<Entity>,
    relations: &mut Vec<ERRelation>,
    current: &mut Option<Entity>,
    raw: &[char],
)
    ensures
        ({
            let st = er_step(
                ErState {
                    entities: entities_view(old(entities)@),
                    relations: relations_view(old(relations)@),
                    current: opt_entity(*old(current)),
                },
                raw@,
            );
            &&& entities_view(final(entities)@) == st.entities
            &&& relations_view(final(relations)@) == st.relations
            &&& opt_entity(*final(current)) == st.current
        }),
{
    let line = trim(raw);
    let pct: Vec<char> = vec!['%', '%'];
    assert(pct@ =~= percent2());
    if line.len() == 0 || crate::text::starts_with(line.as_slice(), pct.as_slice()) {
        return;
    }
    let ghost before = entities_view(entities@);
    let open_brace: Vec<char> = vec!['{'];
    assert(open_brace@ =~= seq!['{']);
    if crate::text::ends_with(line.as_slice(), open_brace.as_slice()) {
        match current.take() {
            Some(e) => {
                entities.push(e);
                assert(entities_view(entities@) =~= before.push(entity_view(e)));
            },
            None => {},
        }
        let name = trim(trim_end_matches(line.as_slice(), open_brace.as_slice()).as_slice());
        let attrs: Vec<EntityAttribute> = Vec::new();
        assert(attrs@.map_values(|a: EntityAttribute| attr_view(a)) =~= seq![]);
        *current = Some(Entity { name: string_of(name.as_slice()), attributes: attrs });
        return;
    }
    let close_brace: Vec<char> = vec!['}'];
    assert(close_brace@ =~= seq!['}']);
    if crate::text::eq_chars(line.as_slice(), close_brace.as_slice()) {
        match current.take() {
            Some(e) => {
                entities.push(e);
                assert(entities_view(entities@) =~= before.push(entity_view(e)));
            },
            None => {},
        }
        return;
    }
    let bars: Vec<char> = vec!['|', '|'];
    assert(bars@ =~= seq!['|', '|']);
    if current.is_some() && !contains(line.as_slice(), bars.as_slice()) && !contains(
        line.as_slice(),
        close_brace.as_slice(),
    ) && !contains(line.as_slice(), open_brace.as_slice()) {
        match parse_er_attribute(line.as_slice()) {
            Some(a) => {
                match current {
                    Some(e) => {
                        let ghost av = entity_view(*e).1;
                        e.attributes.push(a);
                        assert(entity_view(*e).1 =~= av.push(attr_view(a)));
                    },
                    None => {},
                }
            },
            None => {},
        }
        return;
    }
    match parse_er_relation(line.as_slice()) {
        Some(r) => {
            let ghost st0 = ErState {
                entities: entities_view(entities@),
                relations: relations_view(relations@),
                current: opt_entity(*current),
            };
            ensure_entity_exec(entities, current, &r.from);
            ensure_entity_exec(entities, current, &r.to);
            let ghost rb = relations_view(relations@);
            relations.push(r);
            assert(relations_view(relations@) =~= rb.push(relation_view(r)));
        },
        None => {},
    }
}

/// Parse an ER diagram from source; an error when it has no entity.
pub fn parse_er_diagram(source: &str) -> (r: Result<ERDiagram, String>)
    ensures
        match r {
            Ok(d) => er_spec(source@) == Some((entities_view(d.entities@), relations_view(d.relations@))),
            Err(e) => er_spec(source@) is None && e@ == "No entities found in diagram"@,
        },
{
    let src = chars_of(source);
    let ls = lines(src.as_slice());
    let ghost all = after_first(lines_spec(source@));
    let mut entities: Vec<Entity> = Vec::new();
    let mut relations: Vec<ERRelation> = Vec::new();
    let mut current: Option<Entity> = None;
    let mut i: usize = 1;
    proof {
        assert(entities_view(entities@) =~= seq![]);
        assert(relations_view(relations@) =~= seq![]);
        assert(all.take(0) =~= seq![]);
        assert(views_of(ls@).len() == ls@.len());
    }
    while i < ls.len()
        invariant
            1 <= i,
            views_of(ls@) == lines_spec(source@),
            all == after_first(lines_spec(source@)),
            ls@.len() == lines_spec(source@).len(),
            i <= ls@.len() || i == 1,
            ({
                let st = er_fold(all.take(i - 1));
                &&& entities_view(entities@) == st.entities
                &&& relations_view(relations@) == st.relations
                &&& opt_entity(current) == st.current
            }),
        decreases ls@.len() - i,
    {
        proof {
            assert(all.take(i as int).drop_last() =~= all.take(i - 1));
            assert(all.take(i as int).last() == ls@[i as int]@);
        }
        step(&mut entities, &mut relations, &mut current, ls[i].as_slice());
        i = i + 1;
    }
    proof {
        assert(all.take(i - 1) =~= all);
    }
    match current {
        Some(e) => {
            let ghost before = entities_view(entities@);
            entities.push(e);
            assert(entities_view(entities@) =~= before.push(entity_view(e)));
        },
        None => {},
    }
    if entities.len() == 0 {
        return Err(String::from_str("No entities found in diagram"));
    }
    Ok(ERDiagram { entities, relations })
}

} // verus!
