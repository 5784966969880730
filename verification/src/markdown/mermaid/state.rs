//! State diagram parsing.
//!
//! The lines after the header are read as one block: `state "label" as id {`
//! opens a composite state whose block runs to its `}` line, `a --> b : label`
//! is a transition (declaring its ends where they are new to the block, with
//! `[*]` for the start and end pseudo-states), and `state id` or
//! `state "label" as id` declares a simple state. A `}` at the top level ends
//! the diagram. Each transition then learns the scopes of its ends and their
//! lowest common ancestor, and what kind of move it is.
use vstd::prelude::*;
use crate::markdown::mermaid::flowchart::{key_index, lemma_key_index, map_put, opt_chars_of};
use crate::markdown::mermaid::timeline::{percent2, strings_view};
use crate::text::{
    after_first, chars_of, contains, contains_spec, ends_with, ends_with_spec, find, find_char,
    find_spec, lemma_find_from_bounds, matches_at, lines, lines_spec, starts_with, starts_with_spec, string_of,
    trim, trim_end_matches, trim_end_matches_spec, trim_matches, trim_matches_spec, trim_spec, views_of,
};

verus! {

/// The kind of transition based on hierarchy relationship.
#[derive(Debug, Clone, Copy, PartialEq, Eq, Structural)]
pub enum TransitionKind {
    /// Both source and target are in the same scope
    Internal,
    /// Transition enters a composite state from outside
    Enter,
    /// Transition exits a composite state to outside
    Exit,
    /// Transition crosses between different branches of the hierarchy
    CrossHierarchy,
}

impl Default for TransitionKind {
    fn default() -> (r: Self)
        ensures
            r == TransitionKind::Internal,
    {
        TransitionKind::Internal
    }
}

/// A transition between states.
#[derive(Debug, Clone)]
pub struct Transition {
    pub from: String,
    pub to: String,
    pub label: Option<String>,
    /// The kind of transition (computed during normalization)
    pub kind: TransitionKind,
    /// Source state's enclosing composite (None if top-level)
    pub source_scope: Option<String>,
    /// Target state's enclosing composite (None if top-level)
    pub target_scope: Option<String>,
    /// Lowest common ancestor composite for source and target
    pub lca_scope: Option<String>,
}

/// A state in a state diagram, supporting composite/nested states.
#[derive(Debug)]
pub struct State {
    pub id: String,
    pub label: String,
    pub is_start: bool,
    pub is_end: bool,
    /// Child states for composite states (empty for simple states)
    pub children: Vec<State>,
    /// Internal transitions within this composite state
    pub internal_transitions: Vec<Transition>,
    /// Parent state ID if this is a nested state
    pub parent: Option<String>,
}

impl Default for State {
    fn default() -> (r: Self)
        ensures
            state_view(r) == leaf(seq![], seq![], false, false, None),
    {
        let r = State {
            id: String::new(),
            label: String::new(),
            is_start: false,
            is_end: false,
            children: Vec::new(),
            internal_transitions: Vec::new(),
            parent: None,
        };
        assert(states_view(r.children@) =~= seq![]);
        assert(transs_view(r.internal_transitions@) =~= seq![]);
        r
    }
}

impl State {
    /// Create a new simple state
    pub fn new(id: String, label: String) -> (r: Self)
        ensures
            state_view(r) == leaf(id@, label@, false, false, None),
    {
        let r = State {
            id,
            label,
            is_start: false,
            is_end: false,
            children: Vec::new(),
            internal_transitions: Vec::new(),
            parent: None,
        };
        assert(states_view(r.children@) =~= seq![]);
        assert(transs_view(r.internal_transitions@) =~= seq![]);
        r
    }

    /// Check if this is a composite (has children)
    pub fn is_composite(&self) -> (b: bool)
        ensures
            b == (self.children@.len() > 0),
    {
        self.children.len() > 0
    }
}

impl Transition {
    /// Create a new transition with default kind
    pub fn new(from: String, to: String, label: Option<String>) -> (r: Self)
        ensures
            trans_view(r) == new_trans(from@, to@, opt_chars_of(label)),
    {
        Transition {
            from,
            to,
            label,
            kind: TransitionKind::Internal,
            source_scope: None,
            target_scope: None,
            lca_scope: None,
        }
    }
}

/// A parsed state diagram; the layout settings live with the renderer.
#[derive(Debug)]
pub struct StateDiagram {
    pub states: Vec<State>,
    pub transitions: Vec<Transition>,
}

// ─────────────────────────────── plain values ────────────────────────────────

/// A transition as plain values.
pub struct TransV {
    pub from: Seq<char>,
    pub to: Seq<char>,
    pub label: Option<Seq<char>>,
    pub kind: TransitionKind,
    pub source_scope: Option<Seq<char>>,
    pub target_scope: Option<Seq<char>>,
    pub lca_scope: Option<Seq<char>>,
}

/// A state as plain values.
pub struct StateV {
    pub id: Seq<char>,
    pub label: Seq<char>,
    pub is_start: bool,
    pub is_end: bool,
    pub children: Seq<StateV>,
    pub internal: Seq<TransV>,
    pub parent: Option<Seq<char>>,
}

pub open spec fn trans_view(t: Transition) -> TransV {
    TransV {
        from: t.from@,
        to: t.to@,
        label: opt_chars_of(t.label),
        kind: t.kind,
        source_scope: opt_chars_of(t.source_scope),
        target_scope: opt_chars_of(t.target_scope),
        lca_scope: opt_chars_of(t.lca_scope),
    }
}

/// Transitions as plain values.
pub open spec fn transs_view(v: Seq<Transition>) -> Seq<TransV> {
    v.map_values(|t: Transition| trans_view(t))
}

pub open spec fn state_view(s: State) -> StateV
    decreases s,
{
    StateV {
        id: s.id@,
        label: s.label@,
        is_start: s.is_start,
        is_end: s.is_end,
        children: states_view(s.children@),
        internal: transs_view(s.internal_transitions@),
        parent: opt_chars_of(s.parent),
    }
}

/// States as plain values.
pub open spec fn states_view(v: Seq<State>) -> Seq<StateV>
    decreases v,
{
    if v.len() == 0 {
        seq![]
    } else {
        states_view(v.drop_last()).push(state_view(v.last()))
    }
}

proof fn lemma_states_view_push(v: Seq<State>, s: State)
    ensures
        states_view(v.push(s)) == states_view(v).push(state_view(s)),
{
    assert(v.push(s).drop_last() =~= v);
}

pub proof fn lemma_states_view_len(v: Seq<State>)
    ensures
        states_view(v).len() == v.len(),
    decreases v.len(),
{
    if v.len() > 0 {
        lemma_states_view_len(v.drop_last());
    }
}

// ──────────────────────────────── parsing ────────────────────────────────────

/// A transition fresh from the source: no scopes yet, kind `Internal`.
pub open spec fn new_trans(from: Seq<char>, to: Seq<char>, label: Option<Seq<char>>) -> TransV {
    TransV {
        from,
        to,
        label,
        kind: TransitionKind::Internal,
        source_scope: None,
        target_scope: None,
        lca_scope: None,
    }
}

/// A state with no children or transitions.
pub open spec fn leaf(
    id: Seq<char>,
    label: Seq<char>,
    is_start: bool,
    is_end: bool,
    parent: Option<Seq<char>>,
) -> StateV {
    StateV { id, label, is_start, is_end, children: seq![], internal: seq![], parent }
}

/// Whether a state of `ss` has id `id`.
pub open spec fn has_state(ss: Seq<StateV>, id: Seq<char>) -> bool {
    exists|k: int| 0 <= k < ss.len() && #[trigger] ss[k].id == id
}

/// Declare a state unless the block already has one with its id.
pub open spec fn add_state(ss: Seq<StateV>, s: StateV) -> Seq<StateV> {
    if has_state(ss, s.id) {
        ss
    } else {
        ss.push(s)
    }
}

/// The marker `[*]` of the start and end pseudo-states.
pub open spec fn star() -> Seq<char> {
    seq!['[', '*', ']']
}

/// The id and label named after the `state` keyword: `"label" as id`, or
/// one name (quotes removed) for both.
pub open spec fn state_names(rest: Seq<char>) -> (Seq<char>, Seq<char>) {
    match find_spec(rest, " as "@) {
        Some(p) => (trim_spec(rest.skip(p + 4)), trim_matches_spec(trim_spec(rest.take(p)), '"')),
        None => (trim_matches_spec(rest, '"'), trim_matches_spec(rest, '"')),
    }
}

/// The source, target and label of a line with `-->`.
pub open spec fn arrow_parts(line: Seq<char>) -> (Seq<char>, Seq<char>, Option<Seq<char>>) {
    let a = find_spec(line, "-->"@).unwrap();
    let from = trim_spec(line.take(a));
    let rest = line.skip(a + 3);
    match find_spec(rest, seq![':']) {
        Some(c) => (from, trim_spec(rest.take(c)), Some(trim_spec(rest.skip(c + 1)))),
        None => (from, trim_spec(rest), None),
    }
}

/// What a transition line adds: its two ends where new to the block, and
/// the transition.
pub open spec fn transition_line(
    line: Seq<char>,
    parent: Option<Seq<char>>,
    ss: Seq<StateV>,
    ts: Seq<TransV>,
) -> (Seq<StateV>, Seq<TransV>) {
    let (fp, tp, label) = arrow_parts(line);
    let from_id = if fp == star() {
        "__start__"@
    } else {
        fp
    };
    let to_id = if tp == star() {
        "__end__"@
    } else {
        tp
    };
    let s1 = add_state(ss, leaf(from_id, if fp == star() { "●"@ } else { from_id }, fp == star(), false, parent));
    let s2 = add_state(s1, leaf(to_id, if tp == star() { "◉"@ } else { to_id }, false, tp == star(), parent));
    (s2, ts.push(new_trans(from_id, to_id, label)))
}

/// The states and transitions of the block that starts at line `i`, added
/// to `ss` and `ts`, and the index of the line after the block (after its
/// `}`, or the number of lines).
pub open spec fn block_spec(
    ls: Seq<Seq<char>>,
    i: int,
    parent: Option<Seq<char>>,
    ss: Seq<StateV>,
    ts: Seq<TransV>,
) -> (Seq<StateV>, Seq<TransV>, int)
    decreases ls.len() - i,
{
    if i < 0 || i >= ls.len() {
        (ss, ts, i)
    } else {
        let line = trim_spec(ls[i]);
        if line.len() == 0 || starts_with_spec(line, percent2()) {
            block_spec(ls, i + 1, parent, ss, ts)
        } else if line == seq!['}'] {
            (ss, ts, i + 1)
        } else if starts_with_spec(line, "state "@) && ends_with_spec(line, seq!['{']) {
            let (id, label) = state_names(trim_spec(trim_end_matches_spec(line.skip(6), seq!['{'])));
            let inner = block_spec(ls, i + 1, Some(id), seq![], seq![]);
            // the inner block ends after line `i` and within the source
            let next = if inner.2 <= i {
                i + 1
            } else if inner.2 > ls.len() {
                ls.len() as int
            } else {
                inner.2
            };
            let comp = StateV {
                id,
                label,
                is_start: false,
                is_end: false,
                children: inner.0,
                internal: inner.1,
                parent,
            };
            block_spec(ls, next, parent, ss.push(comp), ts)
        } else if contains_spec(line, "-->"@) {
            let (s2, t2) = transition_line(line, parent, ss, ts);
            block_spec(ls, i + 1, parent, s2, t2)
        } else if starts_with_spec(line, "state "@) {
            let (id, label) = state_names(trim_spec(line.skip(6)));
            block_spec(ls, i + 1, parent, add_state(ss, leaf(id, label, false, false, parent)), ts)
        } else {
            block_spec(ls, i + 1, parent, ss, ts)
        }
    }
}

/// A block that starts within the source ends after its first line and
/// within the source.
pub proof fn lemma_block_next(
    ls: Seq<Seq<char>>,
    i: int,
    parent: Option<Seq<char>>,
    ss: Seq<StateV>,
    ts: Seq<TransV>,
)
    requires
        0 <= i < ls.len(),
    ensures
        i < block_spec(ls, i, parent, ss, ts).2 <= ls.len(),
    decreases ls.len() - i,
{
    reveal_with_fuel(block_spec, 2);
    let line = trim_spec(ls[i]);
    if i + 1 < ls.len() {
        if line.len() == 0 || starts_with_spec(line, percent2()) {
            lemma_block_next(ls, i + 1, parent, ss, ts);
        } else if line == seq!['}'] {
        } else if starts_with_spec(line, "state "@) && ends_with_spec(line, seq!['{']) {
            let (id, label) = state_names(trim_spec(trim_end_matches_spec(line.skip(6), seq!['{'])));
            let inner = block_spec(ls, i + 1, Some(id), seq![], seq![]);
            lemma_block_next(ls, i + 1, Some(id), seq![], seq![]);
            let comp = StateV {
                id,
                label,
                is_start: false,
                is_end: false,
                children: inner.0,
                internal: inner.1,
                parent,
            };
            if inner.2 < ls.len() {
                lemma_block_next(ls, inner.2, parent, ss.push(comp), ts);
            }
        } else if contains_spec(line, "-->"@) {
            let (s2, t2) = transition_line(line, parent, ss, ts);
            lemma_block_next(ls, i + 1, parent, s2, t2);
        } else if starts_with_spec(line, "state "@) {
            let (id, label) = state_names(trim_spec(line.skip(6)));
            lemma_block_next(ls, i + 1, parent, add_state(ss, leaf(id, label, false, false, parent)), ts);
        } else {
            lemma_block_next(ls, i + 1, parent, ss, ts);
        }
    }
}

pub proof fn lemma_states_view_index(v: Seq<State>, k: int)
    requires
        0 <= k < v.len(),
    ensures
        states_view(v).len() == v.len(),
        states_view(v)[k] == state_view(v[k]),
    decreases v.len(),
{
    lemma_states_view_len(v);
    if k < v.len() - 1 {
        lemma_states_view_index(v.drop_last(), k);
    }
}

/// A copy of an optional string.
fn copy_opt(s: &Option<String>) -> (r: Option<String>)
    ensures
        opt_chars_of(r) == opt_chars_of(*s),
{
    match s {
        Some(t) => Some(t.clone()),
        None => None,
    }
}

/// Whether a state of `states` has id `id`.
fn has_state_exec(states: &Vec<State>, id: &String) -> (b: bool)
    ensures
        b == has_state(states_view(states@), id@),
{
    let ghost sv = states_view(states@);
    proof {
        lemma_states_view_len(states@);
    }
    let mut i: usize = 0;
    while i < states.len()
        invariant
            i <= states@.len(),
            sv == states_view(states@),
            sv.len() == states@.len(),
            forall|k: int| 0 <= k < i ==> #[trigger] sv[k].id != id@,
        decreases states@.len() - i,
    {
        proof {
            lemma_states_view_index(states@, i as int);
        }
        if states[i].id == *id {
            assert(sv[i as int].id == id@);
            return true;
        }
        i = i + 1;
    }
    false
}

/// Declare `s` unless a state of the block has its id.
fn add_state_exec(states: &mut Vec<State>, s: State)
    ensures
        states_view(final(states)@) == add_state(states_view(old(states)@), state_view(s)),
{
    if !has_state_exec(states, &s.id) {
        proof {
            lemma_states_view_push(states@, s);
        }
        states.push(s);
    }
}

/// A state with no children or transitions.
fn new_leaf(id: String, label: String, is_start: bool, is_end: bool, parent: &Option<String>) -> (s: State)
    ensures
        state_view(s) == leaf(id@, label@, is_start, is_end, opt_chars_of(*parent)),
{
    let s = State {
        id,
        label,
        is_start,
        is_end,
        children: Vec::new(),
        internal_transitions: Vec::new(),
        parent: copy_opt(parent),
    };
    assert(states_view(s.children@) =~= seq![]);
    assert(transs_view(s.internal_transitions@) =~= seq![]);
    s
}

/// [`state_names`].
fn state_names_exec(rest: &[char]) -> (r: (Vec<char>, Vec<char>))
    ensures
        (r.0@, r.1@) == state_names(rest@),
{
    let asw = chars_of(" as ");
    proof {
        reveal_strlit(" as ");
    }
    match find(rest, asw.as_slice()) {
        Some(p) => {
            proof {
                lemma_find_from_bounds(rest@, asw@, 0);
                assert(asw@.len() == 4);
                assert(matches_at(rest@, asw@, p as int));
            }
            let rl = rest.len();
            assert(p + 4 <= rl);
            let id = trim(&rest[p + 4..rest.len()]);
            assert(rest@.subrange(p + 4, rest@.len() as int) =~= rest@.skip(p + 4));
            let lab = trim(&rest[0..p]);
            assert(rest@.subrange(0, p as int) =~= rest@.take(p as int));
            (id, trim_matches(lab.as_slice(), '"'))
        },
        None => (trim_matches(rest, '"'), trim_matches(rest, '"')),
    }
}

/// [`transition_line`].
fn transition_line_exec(
    line: &[char],
    parent: &Option<String>,
    states: &mut Vec<State>,
    trans: &mut Vec<Transition>,
)
    requires
        contains_spec(line@, "-->"@),
    ensures
        (states_view(final(states)@), transs_view(final(trans)@)) == transition_line(
            line@,
            opt_chars_of(*parent),
            states_view(old(states)@),
            transs_view(old(trans)@),
        ),
{
    let arrow = chars_of("-->");
    proof {
        reveal_strlit("-->");
    }
    let a = find(line, arrow.as_slice()).unwrap();
    proof {
        lemma_find_from_bounds(line@, arrow@, 0);
        assert(arrow@.len() == 3);
        assert(matches_at(line@, arrow@, a as int));
    }
    let ll = line.len();
    assert(a + 3 <= ll);
    let from_part = trim(&line[0..a]);
    assert(line@.subrange(0, a as int) =~= line@.take(a as int));
    let rest = &line[a + 3..line.len()];
    assert(rest@ =~= line@.skip(a + 3));
    let (to_part, label) = match find_char(rest, ':') {
        Some(c) => {
            proof {
                lemma_find_from_bounds(rest@, seq![':'], 0);
            }
            let t = trim(&rest[0..c]);
            assert(rest@.subrange(0, c as int) =~= rest@.take(c as int));
            let l = trim(&rest[c + 1..rest.len()]);
            assert(rest@.subrange(c + 1, rest@.len() as int) =~= rest@.skip(c + 1));
            (t, Some(string_of(l.as_slice())))
        },
        None => (trim(rest), None),
    };
    let st: Vec<char> = vec!['[', '*', ']'];
    assert(st@ =~= star());
    let from_star = from_part.len() == 3 && starts_with(from_part.as_slice(), st.as_slice());
    let to_star = to_part.len() == 3 && starts_with(to_part.as_slice(), st.as_slice());
    proof {
        if from_star {
            assert(from_part@ =~= star());
        }
        if to_star {
            assert(to_part@ =~= star());
        }
        if from_part@ == star() {
            assert(from_part@.subrange(0, 3) =~= from_part@);
        }
        if to_part@ == star() {
            assert(to_part@.subrange(0, 3) =~= to_part@);
        }
        assert((from_part@, to_part@, opt_chars_of(label)) == arrow_parts(line@));
        reveal_strlit("__start__");
        reveal_strlit("__end__");
    }
    let from_id = if from_star {
        String::from_str("__start__")
    } else {
        string_of(from_part.as_slice())
    };
    let to_id = if to_star {
        String::from_str("__end__")
    } else {
        string_of(to_part.as_slice())
    };
    let from_label = if from_star {
        String::from_str("●")
    } else {
        from_id.clone()
    };
    let to_label = if to_star {
        String::from_str("◉")
    } else {
        to_id.clone()
    };
    add_state_exec(states, new_leaf(from_id.clone(), from_label, from_star, false, parent));
    add_state_exec(states, new_leaf(to_id.clone(), to_label, false, to_star, parent));
    let t = Transition::new(from_id, to_id, label);
    let ghost tv = transs_view(trans@);
    trans.push(t);
    assert(transs_view(trans@) =~= tv.push(trans_view(t)));
}

/// Parse the block that starts at line `start`: its states and
/// transitions, and the index of the line after it.
fn parse_state_diagram_block(ls: &Vec<Vec<char>>, start: usize, parent: &Option<String>) -> (r: (
    Vec<State>,
    Vec<Transition>,
    usize,
))
    requires
        start <= ls@.len(),
    ensures
        ({
            let b = block_spec(views_of(ls@), start as int, opt_chars_of(*parent), seq![], seq![]);
            &&& states_view(r.0@) == b.0
            &&& transs_view(r.1@) == b.1
            &&& r.2 == b.2
        }),
    decreases ls@.len() - start,
{
    let ghost lv = views_of(ls@);
    let ghost p = opt_chars_of(*parent);
    let mut states: Vec<State> = Vec::new();
    let mut trans: Vec<Transition> = Vec::new();
    let pct: Vec<char> = vec!['%', '%'];
    assert(pct@ =~= percent2());
    let sw = chars_of("state ");
    let arrow = chars_of("-->");
    let brace: Vec<char> = vec!['{'];
    assert(brace@ =~= seq!['{']);
    proof {
        reveal_strlit("state ");
        reveal_strlit("-->");
        assert(states_view(states@) =~= seq![]);
        assert(transs_view(trans@) =~= seq![]);
    }
    let mut i = start;
    while i < ls.len()
        invariant
            start <= i <= ls@.len(),
            lv == views_of(ls@),
            p == opt_chars_of(*parent),
            pct@ == percent2(),
            sw@ == "state "@,
            arrow@ == "-->"@,
            brace@ == seq!['{'],
            block_spec(lv, i as int, p, states_view(states@), transs_view(trans@)) == block_spec(
                lv,
                start as int,
                p,
                seq![],
                seq![],
            ),
        decreases ls@.len() - i,
    {
        assert(lv[i as int] == ls@[i as int]@);
        proof {
            reveal_strlit("state ");
        }
        let line = trim(ls[i].as_slice());
        if line.len() == 0 || starts_with(line.as_slice(), pct.as_slice()) {
            i = i + 1;
            continue;
        }
        if line.len() == 1 && line[0] == '}' {
            assert(line@ =~= seq!['}']);
            return (states, trans, i + 1);
        }
        assert(line@ != seq!['}']);
        if starts_with(line.as_slice(), sw.as_slice()) && ends_with(line.as_slice(), brace.as_slice()) {
            let body = trim_end_matches(&line.as_slice()[6..line.len()], brace.as_slice());
            assert(line@.subrange(6, line@.len() as int) =~= line@.skip(6));
            let rest = trim(body.as_slice());
            let (id, label) = state_names_exec(rest.as_slice());
            let inner_parent = Some(string_of(id.as_slice()));
            let (children, internal, j) = parse_state_diagram_block(ls, i + 1, &inner_parent);
            proof {
                if i + 1 < ls@.len() {
                    lemma_block_next(lv, i + 1, Some(id@), seq![], seq![]);
                }
            }
            let comp = State {
                id: string_of(id.as_slice()),
                label: string_of(label.as_slice()),
                is_start: false,
                is_end: false,
                children,
                internal_transitions: internal,
                parent: copy_opt(parent),
            };
            proof {
                lemma_states_view_push(states@, comp);
            }
            states.push(comp);
            i = j;
            continue;
        }
        if contains(line.as_slice(), arrow.as_slice()) {
            transition_line_exec(line.as_slice(), parent, &mut states, &mut trans);
            i = i + 1;
            continue;
        }
        if starts_with(line.as_slice(), sw.as_slice()) {
            let rest = trim(&line.as_slice()[6..line.len()]);
            assert(line@.subrange(6, line@.len() as int) =~= line@.skip(6));
            let (id, label) = state_names_exec(rest.as_slice());
            add_state_exec(
                &mut states,
                new_leaf(string_of(id.as_slice()), string_of(label.as_slice()), false, false, parent),
            );
        }
        i = i + 1;
    }
    (states, trans, i)
}

// ─────────────────────────────── normalization ───────────────────────────────

/// Ancestry entries as plain values.
pub open spec fn anc_view(m: Seq<(String, Vec<String>)>) -> Seq<(Seq<char>, Seq<Seq<char>>)> {
    m.map_values(|p: (String, Vec<String>)| (p.0@, strings_view(p.1@)))
}

/// The ancestry of every state after `m`: in document order, each state's
/// id with `cur` and the ids of the composites around it below `cur`,
/// outermost first; a later entry for an id replaces an earlier one.
pub open spec fn ancestry_spec(
    ss: Seq<StateV>,
    cur: Seq<Seq<char>>,
    m: Seq<(Seq<char>, Seq<Seq<char>>)>,
) -> Seq<(Seq<char>, Seq<Seq<char>>)>
    decreases ss,
{
    if ss.len() == 0 {
        m
    } else {
        let m1 = ancestry_spec(ss.drop_last(), cur, m);
        let s = ss.last();
        let m2 = map_put(m1, s.id, cur);
        if s.children.len() > 0 {
            ancestry_spec(s.children, cur.push(s.id), m2)
        } else {
            m2
        }
    }
}

/// The ancestry recorded for `id`; empty when there is none.
pub open spec fn lookup(m: Seq<(Seq<char>, Seq<Seq<char>>)>, id: Seq<char>) -> Seq<Seq<char>> {
    let k = key_index(m, id);
    if k >= 0 {
        m[k].1
    } else {
        seq![]
    }
}

/// The length of the common prefix of `a` and `b` from index `i` on.
pub open spec fn common_from(a: Seq<Seq<char>>, b: Seq<Seq<char>>, i: int) -> int
    decreases a.len() - i,
{
    if i < 0 || i >= a.len() || i >= b.len() || a[i] != b[i] {
        i
    } else {
        common_from(a, b, i + 1)
    }
}

/// The last id of the common prefix of two ancestries.
pub open spec fn lca_spec(a: Seq<Seq<char>>, b: Seq<Seq<char>>) -> Option<Seq<char>> {
    let k = common_from(a, b, 0);
    if k > 0 {
        Some(a[k - 1])
    } else {
        None
    }
}

/// The last id of an ancestry: the innermost enclosing composite.
pub open spec fn last_opt(a: Seq<Seq<char>>) -> Option<Seq<char>> {
    if a.len() > 0 {
        Some(a.last())
    } else {
        None
    }
}

/// A transition with its scopes, their lowest common ancestor and its kind.
pub open spec fn norm_trans(t: TransV, m: Seq<(Seq<char>, Seq<Seq<char>>)>) -> TransV {
    let sa = lookup(m, t.from);
    let ta = lookup(m, t.to);
    let ss = last_opt(sa);
    let ts = last_opt(ta);
    let kind = if ss == ts {
        TransitionKind::Internal
    } else if sa.len() == 0 && ta.len() > 0 {
        TransitionKind::Enter
    } else if sa.len() > 0 && ta.len() == 0 {
        TransitionKind::Exit
    } else if sa.contains(t.to) {
        TransitionKind::Enter
    } else if ta.contains(t.from) {
        TransitionKind::Exit
    } else {
        TransitionKind::CrossHierarchy
    };
    TransV { kind, source_scope: ss, target_scope: ts, lca_scope: lca_spec(sa, ta), ..t }
}

/// Transitions normalized.
pub open spec fn norm_all(ts: Seq<TransV>, m: Seq<(Seq<char>, Seq<Seq<char>>)>) -> Seq<TransV> {
    ts.map_values(|t: TransV| norm_trans(t, m))
}

/// States with their internal transitions normalized, at every depth.
pub open spec fn norm_states(ss: Seq<StateV>, m: Seq<(Seq<char>, Seq<Seq<char>>)>) -> Seq<StateV>
    decreases ss,
{
    if ss.len() == 0 {
        seq![]
    } else {
        let s = ss.last();
        norm_states(ss.drop_last(), m).push(
            StateV { children: norm_states(s.children, m), internal: norm_all(s.internal, m), ..s },
        )
    }
}

/// The states and transitions of a state diagram source, or the error: the
/// lines after the header as one block, then normalized.
pub open spec fn state_diagram_spec(source: Seq<char>) -> Result<(Seq<StateV>, Seq<TransV>), Seq<char>> {
    let b = block_spec(lines_spec(source), 1, None, seq![], seq![]);
    if b.0.len() == 0 {
        Err("No states found in state diagram"@)
    } else {
        let m = ancestry_spec(b.0, seq![], seq![]);
        Ok((norm_states(b.0, m), norm_all(b.1, m)))
    }
}

/// A copy of a list of strings.
fn copy_strings(v: &Vec<String>) -> (r: Vec<String>)
    ensures
        strings_view(r@) == strings_view(v@),
{
    let mut r: Vec<String> = Vec::new();
    let mut i: usize = 0;
    while i < v.len()
        invariant
            i <= v@.len(),
            strings_view(r@) =~= strings_view(v@).take(i as int),
        decreases v@.len() - i,
    {
        let ghost before = r@;
        r.push(v[i].clone());
        assert(strings_view(r@) =~= strings_view(before).push(v@[i as int]@));
        i = i + 1;
    }
    r
}

/// Record the ancestry `v` of `k`.
fn put_anc(m: &mut Vec<(String, Vec<String>)>, k: String, v: Vec<String>)
    ensures
        anc_view(final(m)@) == map_put(anc_view(old(m)@), k@, strings_view(v@)),
{
    let ghost mv = anc_view(m@);
    proof {
        lemma_key_index(mv, k@);
    }
    let mut i: usize = 0;
    while i < m.len()
        invariant
            i <= m@.len(),
            m@ == old(m)@,
            mv == anc_view(m@),
            forall|j: int| 0 <= j < i ==> #[trigger] mv[j].0 != k@,
        decreases m@.len() - i,
    {
        if m[i].0 == k {
            proof {
                lemma_key_index(mv, k@);
                assert(mv[i as int].0 == k@);
            }
            let ghost vv = strings_view(v@);
            m.set(i, (k, v));
            assert(anc_view(m@) =~= mv.update(i as int, (k@, vv)));
            return;
        }
        i = i + 1;
    }
    proof {
        lemma_key_index(mv, k@);
    }
    let ghost kv = (k@, strings_view(v@));
    m.push((k, v));
    assert(anc_view(m@) =~= mv.push(kv));
}

/// Record the ancestry of every state of `states`, whose enclosing
/// composites are `cur`.
fn build_ancestry_map(states: &Vec<State>, cur: &Vec<String>, m: &mut Vec<(String, Vec<String>)>)
    ensures
        anc_view(final(m)@) == ancestry_spec(states_view(states@), strings_view(cur@), anc_view(old(m)@)),
    decreases states@,
{
    let ghost sv = states_view(states@);
    let ghost c = strings_view(cur@);
    let ghost m0 = anc_view(m@);
    proof {
        lemma_states_view_len(states@);
        assert(sv.take(0) =~= seq![]);
    }
    let mut i: usize = 0;
    while i < states.len()
        invariant
            i <= states@.len(),
            sv == states_view(states@),
            sv.len() == states@.len(),
            c == strings_view(cur@),
            anc_view(m@) == ancestry_spec(sv.take(i as int), c, m0),
        decreases states@.len() - i,
    {
        proof {
            lemma_states_view_index(states@, i as int);
            assert(sv.take(i + 1).drop_last() =~= sv.take(i as int));
        }
        let s = &states[i];
        put_anc(m, s.id.clone(), copy_strings(cur));
        if s.is_composite() {
            let mut child = copy_strings(cur);
            let ghost before = child@;
            child.push(s.id.clone());
            assert(strings_view(child@) =~= strings_view(before).push(s.id@));
            proof {
                lemma_states_view_len(s.children@);
                assert(decreases_to!(states@ => states@[i as int]));
            }
            build_ancestry_map(&s.children, &child, m);
        } else {
            proof {
                lemma_states_view_len(s.children@);
            }
        }
        i = i + 1;
    }
    assert(sv.take(states@.len() as int) =~= sv);
}

/// Whether `state_id` is among the ids of `ancestry`.
fn is_ancestor_of(ancestry: &Vec<String>, state_id: &String) -> (b: bool)
    ensures
        b == strings_view(ancestry@).contains(state_id@),
{
    let mut k: usize = 0;
    while k < ancestry.len()
        invariant
            k <= ancestry@.len(),
            forall|j: int| 0 <= j < k ==> strings_view(ancestry@)[j] != state_id@,
        decreases ancestry@.len() - k,
    {
        if ancestry[k] == *state_id {
            assert(strings_view(ancestry@)[k as int] == state_id@);
            return true;
        }
        k = k + 1;
    }
    false
}

/// The last id of the common prefix of two ancestries.
fn find_lca(ancestry_a: &Vec<String>, ancestry_b: &Vec<String>) -> (r: Option<String>)
    ensures
        opt_chars_of(r) == lca_spec(strings_view(ancestry_a@), strings_view(ancestry_b@)),
{
    let ghost a = strings_view(ancestry_a@);
    let ghost b = strings_view(ancestry_b@);
    let mut lca: Option<String> = None;
    let mut i: usize = 0;
    while i < ancestry_a.len() && i < ancestry_b.len() && ancestry_a[i] == ancestry_b[i]
        invariant
            i <= ancestry_a@.len(),
            i <= ancestry_b@.len(),
            a == strings_view(ancestry_a@),
            b == strings_view(ancestry_b@),
            common_from(a, b, i as int) == common_from(a, b, 0),
            i == 0 ==> lca is None,
            i > 0 ==> opt_chars_of(lca) == Some(a[i - 1]),
        decreases ancestry_a@.len() - i,
    {
        assert(a[i as int] == b[i as int]);
        lca = Some(ancestry_a[i].clone());
        i = i + 1;
    }
    proof {
        if i < ancestry_a@.len() && i < ancestry_b@.len() {
            assert(a[i as int] != b[i as int]);
        }
    }
    lca
}

/// The ancestry recorded for `id`; empty when there is none.
fn lookup_anc(m: &Vec<(String, Vec<String>)>, id: &String) -> (r: Vec<String>)
    ensures
        strings_view(r@) == lookup(anc_view(m@), id@),
{
    let ghost mv = anc_view(m@);
    proof {
        lemma_key_index(mv, id@);
    }
    let mut i: usize = 0;
    while i < m.len()
        invariant
            i <= m@.len(),
            mv == anc_view(m@),
            forall|j: int| 0 <= j < i ==> #[trigger] mv[j].0 != id@,
        decreases m@.len() - i,
    {
        if m[i].0 == *id {
            proof {
                lemma_key_index(mv, id@);
                assert(mv[i as int].0 == id@);
            }
            return copy_strings(&m[i].1);
        }
        i = i + 1;
    }
    proof {
        lemma_key_index(mv, id@);
    }
    let r: Vec<String> = Vec::new();
    assert(strings_view(r@) =~= seq![]);
    r
}

/// The innermost enclosing composite of an ancestry.
fn last_of(a: &Vec<String>) -> (r: Option<String>)
    ensures
        opt_chars_of(r) == last_opt(strings_view(a@)),
{
    if a.len() > 0 {
        Some(a[a.len() - 1].clone())
    } else {
        None
    }
}

/// Whether two optional strings are equal.
fn opt_eq(a: &Option<String>, b: &Option<String>) -> (r: bool)
    ensures
        r == (opt_chars_of(*a) == opt_chars_of(*b)),
{
    match (a, b) {
        (Some(x), Some(y)) => *x == *y,
        (None, None) => true,
        _ => false,
    }
}

/// `t` with its scopes, their lowest common ancestor and its kind.
fn normalize_transition(t: &Transition, m: &Vec<(String, Vec<String>)>) -> (r: Transition)
    ensures
        trans_view(r) == norm_trans(trans_view(*t), anc_view(m@)),
{
    let source_ancestry = lookup_anc(m, &t.from);
    let target_ancestry = lookup_anc(m, &t.to);
    let source_scope = last_of(&source_ancestry);
    let target_scope = last_of(&target_ancestry);
    let lca_scope = find_lca(&source_ancestry, &target_ancestry);
    let kind = if opt_eq(&source_scope, &target_scope) {
        TransitionKind::Internal
    } else if source_ancestry.len() == 0 && target_ancestry.len() > 0 {
        TransitionKind::Enter
    } else if source_ancestry.len() > 0 && target_ancestry.len() == 0 {
        TransitionKind::Exit
    } else if is_ancestor_of(&source_ancestry, &t.to) {
        TransitionKind::Enter
    } else if is_ancestor_of(&target_ancestry, &t.from) {
        TransitionKind::Exit
    } else {
        TransitionKind::CrossHierarchy
    };
    Transition {
        from: t.from.clone(),
        to: t.to.clone(),
        label: copy_opt(&t.label),
        kind,
        source_scope,
        target_scope,
        lca_scope,
    }
}

/// Normalize each transition of `ts`.
fn normalize_transition_list(ts: &mut Vec<Transition>, m: &Vec<(String, Vec<String>)>)
    ensures
        transs_view(final(ts)@) == norm_all(transs_view(old(ts)@), anc_view(m@)),
{
    let ghost orig = transs_view(ts@);
    let mut i: usize = 0;
    while i < ts.len()
        invariant
            i <= ts@.len(),
            ts@.len() == old(ts)@.len(),
            orig == transs_view(old(ts)@),
            forall|j: int| 0 <= j < i ==> trans_view(#[trigger] ts@[j]) == norm_trans(orig[j], anc_view(m@)),
            forall|j: int| i <= j < ts@.len() ==> #[trigger] trans_view(ts@[j]) == orig[j],
        decreases ts@.len() - i,
    {
        let t = normalize_transition(&ts[i], m);
        ts.set(i, t);
        i = i + 1;
    }
    assert(transs_view(ts@) =~= norm_all(orig, anc_view(m@)));
}

/// Normalize the internal transitions of every state, at every depth.
fn normalize_internal_transitions(states: Vec<State>, m: &Vec<(String, Vec<String>)>) -> (r: Vec<State>)
    ensures
        states_view(r@) == norm_states(states_view(states@), anc_view(m@)),
    decreases states@,
{
    let ghost orig = states@;
    let ghost mv = anc_view(m@);
    let n = states.len();
    assert(orig.len() == n);
    let mut src = states;
    let mut out: Vec<State> = Vec::new();
    let mut k: usize = 0;
    proof {
        assert(orig.take(0) =~= seq![]);
        assert(states_view(out@) =~= seq![]);
        assert(orig.skip(0) =~= orig);
    }
    while src.len() > 0
        invariant
            k <= orig.len(),
            orig.len() <= usize::MAX,
            orig == states@,
            src@ == orig.skip(k as int),
            mv == anc_view(m@),
            states_view(out@) == norm_states(states_view(orig.take(k as int)), mv),
        decreases src@.len(),
    {
        let s = src.remove(0);
        assert(s == orig[k as int]);
        proof {
            assert(src@ =~= orig.skip(k + 1));
            assert(decreases_to!(orig => orig[k as int]));
            assert(decreases_to!(orig[k as int] => orig[k as int].children));
            assert(decreases_to!(orig[k as int].children => orig[k as int].children@));
            assert(decreases_to!(states@ => s.children@));
        }
        let State { id, label, is_start, is_end, children, internal_transitions, parent } = s;
        let mut internal = internal_transitions;
        normalize_transition_list(&mut internal, m);
        let kids = normalize_internal_transitions(children, m);
        let ns = State { id, label, is_start, is_end, children: kids, internal_transitions: internal, parent };
        proof {
            lemma_states_view_push(out@, ns);
            lemma_states_view_push(orig.take(k as int), s);
            assert(orig.take(k + 1) =~= orig.take(k as int).push(s));
            let sv = states_view(orig.take(k as int));
            assert(sv.push(state_view(s)).drop_last() =~= sv);
        }
        out.push(ns);
        k = k + 1;
    }
    assert(orig.take(k as int) =~= orig);
    out
}

/// Parse mermaid state diagram source: the lines after the header, then
/// the scopes and kinds of the transitions.
pub fn parse_state_diagram(source: &str) -> (r: Result<StateDiagram, String>)
    ensures
        match r {
            Ok(d) => state_diagram_spec(source@) == Ok::<(Seq<StateV>, Seq<TransV>), Seq<char>>(
                (states_view(d.states@), transs_view(d.transitions@)),
            ),
            Err(e) => state_diagram_spec(source@) == Err::<(Seq<StateV>, Seq<TransV>), Seq<char>>(e@),
        },
{
    let src = chars_of(source);
    let ls = lines(src.as_slice());
    proof {
        reveal_strlit("No states found in state diagram");
    }
    if ls.len() == 0 {
        return Err(String::from_str("No states found in state diagram"));
    }
    let (states, transitions, _) = parse_state_diagram_block(&ls, 1, &None);
    if states.len() == 0 {
        proof {
            lemma_states_view_len(states@);
        }
        return Err(String::from_str("No states found in state diagram"));
    }
    proof {
        lemma_states_view_len(states@);
    }
    Ok(normalize_state_diagram(StateDiagram { states, transitions }))
}

/// Give every transition of `diagram`, at every depth, its scopes, their
/// lowest common ancestor and its kind, from the ancestry of the states.
fn normalize_state_diagram(diagram: StateDiagram) -> (r: StateDiagram)
    ensures
        ({
            let m = ancestry_spec(states_view(diagram.states@), seq![], seq![]);
            &&& states_view(r.states@) == norm_states(states_view(diagram.states@), m)
            &&& transs_view(r.transitions@) == norm_all(transs_view(diagram.transitions@), m)
        }),
{
    let StateDiagram { states, transitions } = diagram;
    let mut m: Vec<(String, Vec<String>)> = Vec::new();
    let cur: Vec<String> = Vec::new();
    assert(anc_view(m@) =~= seq![]);
    assert(strings_view(cur@) =~= seq![]);
    build_ancestry_map(&states, &cur, &mut m);
    let mut transitions = transitions;
    normalize_transition_list(&mut transitions, &m);
    let states = normalize_internal_transitions(states, &m);
    StateDiagram { states, transitions }
}

// ──────────────────────────────── the laws ───────────────────────────────────

/// Every state of `ss` names `p` as its parent.
pub open spec fn all_parent(ss: Seq<StateV>, p: Option<Seq<char>>) -> bool {
    forall|k: int| 0 <= k < ss.len() ==> (#[trigger] ss[k]).parent == p
}

/// At every depth, the children of a state name it as their parent.
pub open spec fn parents_named(ss: Seq<StateV>) -> bool
    decreases ss,
{
    if ss.len() == 0 {
        true
    } else {
        let s = ss.last();
        parents_named(ss.drop_last()) && all_parent(s.children, Some(s.id)) && parents_named(s.children)
    }
}

proof fn lemma_named_push(ss: Seq<StateV>, x: StateV)
    ensures
        parents_named(ss.push(x)) == (parents_named(ss) && all_parent(x.children, Some(x.id))
            && parents_named(x.children)),
{
    assert(ss.push(x).drop_last() =~= ss);
}

proof fn lemma_add_state_keeps(ss: Seq<StateV>, x: StateV, p: Option<Seq<char>>)
    requires
        parents_named(ss),
        all_parent(ss, p),
        x.parent == p,
        x.children.len() == 0,
    ensures
        parents_named(add_state(ss, x)),
        all_parent(add_state(ss, x), p),
{
    lemma_named_push(ss, x);
    assert(parents_named(x.children));
}

/// A block's states name the block's composite as their parent, and so on
/// at every depth.
proof fn lemma_block_parents(
    ls: Seq<Seq<char>>,
    i: int,
    parent: Option<Seq<char>>,
    ss: Seq<StateV>,
    ts: Seq<TransV>,
)
    requires
        parents_named(ss),
        all_parent(ss, parent),
    ensures
        parents_named(block_spec(ls, i, parent, ss, ts).0),
        all_parent(block_spec(ls, i, parent, ss, ts).0, parent),
    decreases ls.len() - i,
{
    if 0 <= i < ls.len() {
        let line = trim_spec(ls[i]);
        if line.len() == 0 || starts_with_spec(line, percent2()) {
            lemma_block_parents(ls, i + 1, parent, ss, ts);
        } else if line == seq!['}'] {
        } else if starts_with_spec(line, "state "@) && ends_with_spec(line, seq!['{']) {
            let (id, label) = state_names(trim_spec(trim_end_matches_spec(line.skip(6), seq!['{'])));
            let inner = block_spec(ls, i + 1, Some(id), seq![], seq![]);
            lemma_block_parents(ls, i + 1, Some(id), seq![], seq![]);
            let next = if inner.2 <= i {
                i + 1
            } else if inner.2 > ls.len() {
                ls.len() as int
            } else {
                inner.2
            };
            let comp = StateV {
                id,
                label,
                is_start: false,
                is_end: false,
                children: inner.0,
                internal: inner.1,
                parent,
            };
            lemma_named_push(ss, comp);
            lemma_block_parents(ls, next, parent, ss.push(comp), ts);
        } else if contains_spec(line, "-->"@) {
            let (fp, tp, label) = arrow_parts(line);
            let from_id = if fp == star() { "__start__"@ } else { fp };
            let to_id = if tp == star() { "__end__"@ } else { tp };
            let a = leaf(from_id, if fp == star() { "●"@ } else { from_id }, fp == star(), false, parent);
            let b = leaf(to_id, if tp == star() { "◉"@ } else { to_id }, false, tp == star(), parent);
            lemma_add_state_keeps(ss, a, parent);
            lemma_add_state_keeps(add_state(ss, a), b, parent);
            let (s2, t2) = transition_line(line, parent, ss, ts);
            lemma_block_parents(ls, i + 1, parent, s2, t2);
        } else if starts_with_spec(line, "state "@) {
            let (id, label) = state_names(trim_spec(line.skip(6)));
            let x = leaf(id, label, false, false, parent);
            lemma_add_state_keeps(ss, x, parent);
            lemma_block_parents(ls, i + 1, parent, add_state(ss, x), ts);
        } else {
            lemma_block_parents(ls, i + 1, parent, ss, ts);
        }
    }
}

/// Normalizing keeps the ids, parents and nesting of the states.
proof fn lemma_norm_parents(ss: Seq<StateV>, m: Seq<(Seq<char>, Seq<Seq<char>>)>, p: Option<Seq<char>>)
    ensures
        norm_states(ss, m).len() == ss.len(),
        forall|k: int| 0 <= k < ss.len() ==> (#[trigger] norm_states(ss, m)[k]).id == ss[k].id && norm_states(ss, m)[k].parent == ss[k].parent,
        parents_named(ss) ==> parents_named(norm_states(ss, m)),
        all_parent(ss, p) ==> all_parent(norm_states(ss, m), p),
    decreases ss,
{
    if ss.len() > 0 {
        let s = ss.last();
        lemma_norm_parents(ss.drop_last(), m, p);
        lemma_norm_parents(s.children, m, Some(s.id));
        let ns = StateV { children: norm_states(s.children, m), internal: norm_all(s.internal, m), ..s };
        lemma_named_push(norm_states(ss.drop_last(), m), ns);
        assert forall|k: int| 0 <= k < ss.len() implies (#[trigger] norm_states(ss, m)[k]).id == ss[k].id
            && norm_states(ss, m)[k].parent == ss[k].parent by {
            if k < ss.len() - 1 {
                assert(norm_states(ss, m)[k] == norm_states(ss.drop_last(), m)[k]);
                assert(ss.drop_last()[k] == ss[k]);
            }
        }
        if all_parent(ss, p) {
            assert forall|k: int| 0 <= k < ss.drop_last().len() implies (#[trigger] ss.drop_last()[k]).parent == p by {
                assert(ss.drop_last()[k] == ss[k]);
            }
        }
        if parents_named(ss) {
            assert(parents_named(ss.drop_last()));
        }
    }
}

/// Both ends of every transition of `ts` are states of `ss`.
pub open spec fn ends_in(ss: Seq<StateV>, ts: Seq<TransV>) -> bool {
    forall|k: int| 0 <= k < ts.len() ==> has_state(ss, (#[trigger] ts[k]).from) && has_state(ss, ts[k].to)
}

/// At every depth, the internal transitions of a state join children of it.
pub open spec fn ends_named(ss: Seq<StateV>) -> bool
    decreases ss,
{
    if ss.len() == 0 {
        true
    } else {
        let s = ss.last();
        ends_named(ss.drop_last()) && ends_in(s.children, s.internal) && ends_named(s.children)
    }
}

proof fn lemma_ends_named_push(ss: Seq<StateV>, x: StateV)
    ensures
        ends_named(ss.push(x)) == (ends_named(ss) && ends_in(x.children, x.internal) && ends_named(x.children)),
{
    assert(ss.push(x).drop_last() =~= ss);
}

/// Adding a state keeps every state of the block, and the new one is there.
proof fn lemma_add_state_has(ss: Seq<StateV>, x: StateV, id: Seq<char>)
    ensures
        has_state(ss, id) ==> has_state(add_state(ss, x), id),
        has_state(add_state(ss, x), x.id),
{
    let s2 = add_state(ss, x);
    if has_state(ss, id) {
        let k = choose|k: int| 0 <= k < ss.len() && #[trigger] ss[k].id == id;
        assert(s2[k] == ss[k]);
    }
    if !has_state(ss, x.id) {
        assert(s2[ss.len() as int].id == x.id);
    }
}

/// Pushing a state keeps the transitions' ends among the states.
proof fn lemma_ends_in_push(ss: Seq<StateV>, ts: Seq<TransV>, x: StateV)
    requires
        ends_in(ss, ts),
    ensures
        ends_in(ss.push(x), ts),
{
    assert forall|k: int| 0 <= k < ts.len() implies has_state(ss.push(x), (#[trigger] ts[k]).from) && has_state(
        ss.push(x),
        ts[k].to,
    ) by {
        let a = choose|a: int| 0 <= a < ss.len() && #[trigger] ss[a].id == ts[k].from;
        let b = choose|b: int| 0 <= b < ss.len() && #[trigger] ss[b].id == ts[k].to;
        assert(ss.push(x)[a] == ss[a] && ss.push(x)[b] == ss[b]);
    }
}

/// A leaf added to a block keeps the invariant.
proof fn lemma_ends_add_leaf(ss: Seq<StateV>, ts: Seq<TransV>, x: StateV)
    requires
        ends_in(ss, ts),
        ends_named(ss),
        x.children.len() == 0,
        x.internal.len() == 0,
    ensures
        ends_in(add_state(ss, x), ts),
        ends_named(add_state(ss, x)),
{
    if !has_state(ss, x.id) {
        lemma_ends_in_push(ss, ts, x);
        lemma_ends_named_push(ss, x);
        assert(ends_named(x.children));
    }
}

/// The transitions of a block join states of the block, at every depth.
proof fn lemma_block_ends(
    ls: Seq<Seq<char>>,
    i: int,
    parent: Option<Seq<char>>,
    ss: Seq<StateV>,
    ts: Seq<TransV>,
)
    requires
        ends_in(ss, ts),
        ends_named(ss),
    ensures
        ends_in(block_spec(ls, i, parent, ss, ts).0, block_spec(ls, i, parent, ss, ts).1),
        ends_named(block_spec(ls, i, parent, ss, ts).0),
    decreases ls.len() - i,
{
    if 0 <= i < ls.len() {
        let line = trim_spec(ls[i]);
        if line.len() == 0 || starts_with_spec(line, percent2()) {
            lemma_block_ends(ls, i + 1, parent, ss, ts);
        } else if line == seq!['}'] {
        } else if starts_with_spec(line, "state "@) && ends_with_spec(line, seq!['{']) {
            let (id, label) = state_names(trim_spec(trim_end_matches_spec(line.skip(6), seq!['{'])));
            let inner = block_spec(ls, i + 1, Some(id), seq![], seq![]);
            lemma_block_ends(ls, i + 1, Some(id), seq![], seq![]);
            let next = if inner.2 <= i {
                i + 1
            } else if inner.2 > ls.len() {
                ls.len() as int
            } else {
                inner.2
            };
            let comp = StateV {
                id,
                label,
                is_start: false,
                is_end: false,
                children: inner.0,
                internal: inner.1,
                parent,
            };
            lemma_ends_named_push(ss, comp);
            lemma_ends_in_push(ss, ts, comp);
            lemma_block_ends(ls, next, parent, ss.push(comp), ts);
        } else if contains_spec(line, "-->"@) {
            let (fp, tp, label) = arrow_parts(line);
            let from_id = if fp == star() { "__start__"@ } else { fp };
            let to_id = if tp == star() { "__end__"@ } else { tp };
            let a = leaf(from_id, if fp == star() { "●"@ } else { from_id }, fp == star(), false, parent);
            let b = leaf(to_id, if tp == star() { "◉"@ } else { to_id }, false, tp == star(), parent);
            let s1 = add_state(ss, a);
            let s2 = add_state(s1, b);
            lemma_ends_add_leaf(ss, ts, a);
            lemma_ends_add_leaf(s1, ts, b);
            lemma_add_state_has(ss, a, from_id);
            lemma_add_state_has(s1, b, from_id);
            lemma_add_state_has(s1, b, to_id);
            let t2 = ts.push(new_trans(from_id, to_id, label));
            assert(ends_in(s2, t2)) by {
                assert forall|k: int| 0 <= k < t2.len() implies has_state(s2, (#[trigger] t2[k]).from) && has_state(
                    s2,
                    t2[k].to,
                ) by {
                    if k < ts.len() {
                        assert(t2[k] == ts[k]);
                    }
                }
            }
            assert(transition_line(line, parent, ss, ts) == (s2, t2));
            lemma_block_ends(ls, i + 1, parent, s2, t2);
        } else if starts_with_spec(line, "state "@) {
            let (id, label) = state_names(trim_spec(line.skip(6)));
            let x = leaf(id, label, false, false, parent);
            lemma_ends_add_leaf(ss, ts, x);
            lemma_block_ends(ls, i + 1, parent, add_state(ss, x), ts);
        } else {
            lemma_block_ends(ls, i + 1, parent, ss, ts);
        }
    }
}

/// Normalizing keeps the ends of transitions.
proof fn lemma_norm_all_ends(ts: Seq<TransV>, m: Seq<(Seq<char>, Seq<Seq<char>>)>)
    ensures
        norm_all(ts, m).len() == ts.len(),
        forall|k: int| 0 <= k < ts.len() ==> (#[trigger] norm_all(ts, m)[k]).from == ts[k].from && norm_all(ts, m)[k].to == ts[k].to,
{
}

/// The ids of a list of states are kept by normalizing, so its transitions'
/// ends stay among them.
proof fn lemma_norm_ends_in(ss: Seq<StateV>, ts: Seq<TransV>, m: Seq<(Seq<char>, Seq<Seq<char>>)>)
    requires
        ends_in(ss, ts),
    ensures
        ends_in(norm_states(ss, m), norm_all(ts, m)),
{
    lemma_norm_parents(ss, m, None);
    lemma_norm_all_ends(ts, m);
    let ns = norm_states(ss, m);
    let nt = norm_all(ts, m);
    assert forall|k: int| 0 <= k < nt.len() implies has_state(ns, (#[trigger] nt[k]).from) && has_state(ns, nt[k].to) by {
        assert(has_state(ss, ts[k].from) && has_state(ss, ts[k].to));
        let a = choose|a: int| 0 <= a < ss.len() && #[trigger] ss[a].id == ts[k].from;
        let b = choose|b: int| 0 <= b < ss.len() && #[trigger] ss[b].id == ts[k].to;
        assert(ns[a].id == ss[a].id && ns[b].id == ss[b].id);
    }
}

/// Normalizing keeps the internal transitions' ends among the children.
proof fn lemma_norm_ends_named(ss: Seq<StateV>, m: Seq<(Seq<char>, Seq<Seq<char>>)>)
    requires
        ends_named(ss),
    ensures
        ends_named(norm_states(ss, m)),
    decreases ss,
{
    if ss.len() > 0 {
        let s = ss.last();
        lemma_norm_ends_named(ss.drop_last(), m);
        lemma_norm_ends_named(s.children, m);
        lemma_norm_ends_in(s.children, s.internal, m);
        let ns = StateV { children: norm_states(s.children, m), internal: norm_all(s.internal, m), ..s };
        lemma_ends_named_push(norm_states(ss.drop_last(), m), ns);
    }
}

/// Every transition of a parsed state diagram joins two states of the
/// level it is written at: top-level transitions join top-level states, and
/// the internal transitions of a composite state join its children (a
/// state a transition names without declaring it is declared there).
pub proof fn law_transition_ends_are_states(source: Seq<char>)
    ensures
        state_diagram_spec(source) matches Ok((ss, ts)) ==> ends_in(ss, ts) && ends_named(ss),
{
    let b = block_spec(lines_spec(source), 1, None, seq![], seq![]);
    lemma_block_ends(lines_spec(source), 1, None, seq![], seq![]);
    let m = ancestry_spec(b.0, seq![], seq![]);
    lemma_norm_ends_in(b.0, b.1, m);
    lemma_norm_ends_named(b.0, m);
}

/// The parent of each state of a parsed diagram is the composite state it
/// is nested in: at the top level none, below it the enclosing state's id.
pub proof fn law_parents_are_enclosing(source: Seq<char>)
    ensures
        state_diagram_spec(source) matches Ok((ss, ts)) ==> all_parent(ss, None) && parents_named(ss),
{
    let b = block_spec(lines_spec(source), 1, None, seq![], seq![]);
    lemma_block_parents(lines_spec(source), 1, None, seq![], seq![]);
    let m = ancestry_spec(b.0, seq![], seq![]);
    lemma_norm_parents(b.0, m, None);
}


/// The common prefix of two ancestries is as long as it can be: from `i`
/// on (where they already agree) the sequences agree up to the length that
/// `common_from` gives, and there they end or differ.
proof fn lemma_common_from(a: Seq<Seq<char>>, b: Seq<Seq<char>>, i: int)
    requires
        0 <= i <= a.len(),
        i <= b.len(),
        a.take(i) == b.take(i),
    ensures
        ({
            let k = common_from(a, b, i);
            &&& i <= k <= a.len()
            &&& k <= b.len()
            &&& a.take(k) == b.take(k)
            &&& (k == a.len() || k == b.len() || a[k] != b[k])
        }),
    decreases a.len() - i,
{
    if i < a.len() && i < b.len() && a[i] == b[i] {
        assert(a.take(i + 1) =~= a.take(i).push(a[i]));
        assert(b.take(i + 1) =~= b.take(i).push(b[i]));
        lemma_common_from(a, b, i + 1);
    }
}

/// A transition is normalized by the ancestries of its ends (`A` of its
/// source, `B` of its target, outermost first; empty for a top-level
/// state): its source and target scopes are the last ids of `A` and `B`;
/// its lowest common scope is the last id of the longest common prefix of
/// `A` and `B` (none where that prefix is empty); its kind is internal
/// where the two scopes agree, else entering where `A` is empty, exiting
/// where `B` is empty, entering where `A` holds the target, exiting where
/// `B` holds the source, and crossing otherwise; its ends and label stay.
pub proof fn law_normalize_transition(t: TransV, m: Seq<(Seq<char>, Seq<Seq<char>>)>)
    ensures
        ({
            let a = lookup(m, t.from);
            let b = lookup(m, t.to);
            let r = norm_trans(t, m);
            let k = common_from(a, b, 0);
            &&& r.from == t.from && r.to == t.to && r.label == t.label
            &&& r.source_scope == (if a.len() > 0 { Some(a.last()) } else { None::<Seq<char>> })
            &&& r.target_scope == (if b.len() > 0 { Some(b.last()) } else { None::<Seq<char>> })
            &&& 0 <= k <= a.len() && k <= b.len()
            &&& a.take(k) == b.take(k)
            &&& (k == a.len() || k == b.len() || a[k] != b[k])
            &&& r.lca_scope == (if k > 0 { Some(a[k - 1]) } else { None::<Seq<char>> })
            &&& r.kind == (if r.source_scope == r.target_scope {
                TransitionKind::Internal
            } else if a.len() == 0 {
                TransitionKind::Enter
            } else if b.len() == 0 {
                TransitionKind::Exit
            } else if a.contains(t.to) {
                TransitionKind::Enter
            } else if b.contains(t.from) {
                TransitionKind::Exit
            } else {
                TransitionKind::CrossHierarchy
            })
        }),
{
    let a = lookup(m, t.from);
    let b = lookup(m, t.to);
    assert(a.take(0) =~= b.take(0));
    lemma_common_from(a, b, 0);
}

} // verus!
