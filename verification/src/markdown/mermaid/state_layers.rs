//! The columns of one level of a state diagram: each state is placed after
//! every state of the level it is entered from, round by round; states
//! that can never be placed so (on a cycle) get a column each, in order.
use vstd::prelude::*;
use crate::markdown::mermaid::state::{State, Transition};
use crate::markdown::mermaid::timeline::strings_view;

verus! {

/// The ids of a level's states.
pub open spec fn state_ids(ss: Seq<State>) -> Seq<Seq<char>> {
    ss.map_values(|s: State| s.id@)
}

/// The source and target of each transition.
pub open spec fn trans_ends(ts: Seq<Transition>) -> Seq<(Seq<char>, Seq<char>)> {
    ts.map_values(|t: Transition| (t.from@, t.to@))
}

/// Columns as plain values.
pub open spec fn columns_view(v: Seq<Vec<String>>) -> Seq<Seq<Seq<char>>> {
    v.map_values(|c: Vec<String>| strings_view(c@))
}

/// Every transition into `id` between states of the level comes from a
/// state already placed.
pub open spec fn preds_placed(
    ids: Seq<Seq<char>>,
    ts: Seq<(Seq<char>, Seq<char>)>,
    placed: Seq<Seq<char>>,
    id: Seq<char>,
) -> bool {
    forall|j: int|
        0 <= j < ts.len() && (#[trigger] ts[j]).1 == id && ids.contains(ts[j].0) && ids.contains(ts[j].1)
            ==> placed.contains(ts[j].0)
}

/// The states of `rem` whose predecessors are all placed, in order.
pub open spec fn ready(
    ids: Seq<Seq<char>>,
    ts: Seq<(Seq<char>, Seq<char>)>,
    placed: Seq<Seq<char>>,
    rem: Seq<Seq<char>>,
) -> Seq<Seq<char>>
    decreases rem.len(),
{
    if rem.len() == 0 {
        seq![]
    } else {
        let r = ready(ids, ts, placed, rem.drop_last());
        if preds_placed(ids, ts, placed, rem.last()) {
            r.push(rem.last())
        } else {
            r
        }
    }
}

/// `rem` without the ids of `layer`.
pub open spec fn without(rem: Seq<Seq<char>>, layer: Seq<Seq<char>>) -> Seq<Seq<char>>
    decreases rem.len(),
{
    if rem.len() == 0 {
        seq![]
    } else {
        let w = without(rem.drop_last(), layer);
        if layer.contains(rem.last()) {
            w
        } else {
            w.push(rem.last())
        }
    }
}

/// A state that is ready is one of the remaining states.
pub proof fn lemma_ready_in(
    ids: Seq<Seq<char>>,
    ts: Seq<(Seq<char>, Seq<char>)>,
    placed: Seq<Seq<char>>,
    rem: Seq<Seq<char>>,
)
    ensures
        ready(ids, ts, placed, rem).len() > 0 ==> exists|k: int|
            0 <= k < rem.len() && ready(ids, ts, placed, rem).contains(#[trigger] rem[k]),
    decreases rem.len(),
{
    if rem.len() > 0 {
        let r = ready(ids, ts, placed, rem.drop_last());
        lemma_ready_in(ids, ts, placed, rem.drop_last());
        if preds_placed(ids, ts, placed, rem.last()) {
            assert(r.push(rem.last())[r.len() as int] == rem[rem.len() - 1]);
        } else if r.len() > 0 {
            let k = choose|k: int| 0 <= k < rem.drop_last().len() && r.contains(#[trigger] rem.drop_last()[k]);
            assert(rem[k] == rem.drop_last()[k]);
        }
    }
}

/// Taking out states that remain makes fewer remain.
pub proof fn lemma_without_len(rem: Seq<Seq<char>>, layer: Seq<Seq<char>>)
    ensures
        without(rem, layer).len() <= rem.len(),
        (exists|k: int| 0 <= k < rem.len() && layer.contains(#[trigger] rem[k])) ==> without(rem, layer).len()
            < rem.len(),
    decreases rem.len(),
{
    if rem.len() > 0 {
        lemma_without_len(rem.drop_last(), layer);
        if exists|k: int| 0 <= k < rem.len() && layer.contains(#[trigger] rem[k]) {
            let k = choose|k: int| 0 <= k < rem.len() && layer.contains(#[trigger] rem[k]);
            if k < rem.len() - 1 {
                assert(rem.drop_last()[k] == rem[k]);
            }
        }
    }
}

/// The columns from the remaining states on, with `placed` already placed:
/// each round places the remaining states whose predecessors are placed;
/// when none is, each remaining state gets a column of its own.
pub open spec fn columns_from(
    ids: Seq<Seq<char>>,
    ts: Seq<(Seq<char>, Seq<char>)>,
    rem: Seq<Seq<char>>,
    placed: Seq<Seq<char>>,
) -> Seq<Seq<Seq<char>>>
    decreases rem.len(),
{
    if rem.len() == 0 {
        seq![]
    } else {
        let layer = ready(ids, ts, placed, rem);
        if layer.len() == 0 {
            rem.map_values(|r: Seq<char>| seq![r])
        } else {
            proof {
                lemma_ready_in(ids, ts, placed, rem);
                lemma_without_len(rem, layer);
            }
            seq![layer] + columns_from(ids, ts, without(rem, layer), placed + layer)
        }
    }
}

/// The columns of a level whose states have the ids `ids`, under the
/// transitions `ts`.
pub open spec fn state_columns_spec(ids: Seq<Seq<char>>, ts: Seq<(Seq<char>, Seq<char>)>) -> Seq<
    Seq<Seq<char>>,
> {
    columns_from(ids, ts, ids, seq![])
}

/// The states of a list of columns, column after column.
pub open spec fn flatten(cols: Seq<Seq<Seq<char>>>) -> Seq<Seq<char>>
    decreases cols.len(),
{
    if cols.len() == 0 {
        seq![]
    } else {
        cols[0] + flatten(cols.skip(1))
    }
}

/// A state is ready exactly where it remains and its predecessors are
/// placed.
proof fn lemma_ready_contains(
    ids: Seq<Seq<char>>,
    ts: Seq<(Seq<char>, Seq<char>)>,
    placed: Seq<Seq<char>>,
    rem: Seq<Seq<char>>,
    x: Seq<char>,
)
    ensures
        ready(ids, ts, placed, rem).contains(x) <==> (rem.contains(x) && preds_placed(ids, ts, placed, x)),
    decreases rem.len(),
{
    if rem.len() > 0 {
        let d = rem.drop_last();
        let r = ready(ids, ts, placed, d);
        lemma_ready_contains(ids, ts, placed, d, x);
        if rem.contains(x) {
            let k = choose|k: int| 0 <= k < rem.len() && rem[k] == x;
            if k < rem.len() - 1 {
                assert(d[k] == x);
            }
        }
        if d.contains(x) {
            let k = choose|k: int| 0 <= k < d.len() && d[k] == x;
            assert(rem[k] == x);
        }
        if preds_placed(ids, ts, placed, rem.last()) {
            let r2 = r.push(rem.last());
            if r2.contains(x) {
                let k = choose|k: int| 0 <= k < r2.len() && r2[k] == x;
                if k < r.len() {
                    assert(r[k] == x);
                }
            }
            if r.contains(x) {
                let k = choose|k: int| 0 <= k < r.len() && r[k] == x;
                assert(r2[k] == x);
            }
            if x == rem.last() {
                assert(r2[r.len() as int] == x);
            }
        }
    }
}

/// Where `layer` holds exactly the remaining states that are ready, the
/// ready states and the states left without the layer are, together, the
/// remaining states.
proof fn lemma_ready_split(
    ids: Seq<Seq<char>>,
    ts: Seq<(Seq<char>, Seq<char>)>,
    placed: Seq<Seq<char>>,
    rem: Seq<Seq<char>>,
    layer: Seq<Seq<char>>,
)
    requires
        forall|x: Seq<char>| #[trigger] rem.contains(x) ==> (layer.contains(x) <==> preds_placed(ids, ts, placed, x)),
    ensures
        ready(ids, ts, placed, rem).to_multiset().add(without(rem, layer).to_multiset()) =~= rem.to_multiset(),
    decreases rem.len(),
{
    broadcast use vstd::seq_lib::group_to_multiset_ensures;
    if rem.len() == 0 {
        assert(ready(ids, ts, placed, rem) =~= seq![]);
        assert(without(rem, layer) =~= seq![]);
    } else {
        let d = rem.drop_last();
        let a = rem.last();
        assert forall|x: Seq<char>| #[trigger] d.contains(x) implies (layer.contains(x) <==> preds_placed(
            ids,
            ts,
            placed,
            x,
        )) by {
            let k = choose|k: int| 0 <= k < d.len() && d[k] == x;
            assert(rem[k] == x);
            assert(rem.contains(x));
        }
        lemma_ready_split(ids, ts, placed, d, layer);
        assert(rem[rem.len() - 1] == a);
        assert(rem.contains(a));
        assert(rem =~= d.push(a));
    }
}

/// A list of one-state columns holds the states in order.
proof fn lemma_flatten_singletons(rem: Seq<Seq<char>>)
    ensures
        flatten(rem.map_values(|r: Seq<char>| seq![r])) =~= rem,
    decreases rem.len(),
{
    if rem.len() > 0 {
        let m = rem.map_values(|r: Seq<char>| seq![r]);
        assert(m.skip(1) =~= rem.skip(1).map_values(|r: Seq<char>| seq![r]));
        lemma_flatten_singletons(rem.skip(1));
        assert(rem =~= seq![rem[0]] + rem.skip(1));
    }
}

/// The columns from the remaining states on hold exactly the remaining
/// states.
proof fn lemma_columns_hold(
    ids: Seq<Seq<char>>,
    ts: Seq<(Seq<char>, Seq<char>)>,
    rem: Seq<Seq<char>>,
    placed: Seq<Seq<char>>,
)
    ensures
        flatten(columns_from(ids, ts, rem, placed)).to_multiset() =~= rem.to_multiset(),
    decreases rem.len(),
{
    broadcast use vstd::seq_lib::group_to_multiset_ensures;
    if rem.len() == 0 {
        assert(flatten(columns_from(ids, ts, rem, placed)) =~= seq![]);
        assert(rem =~= seq![]);
    } else {
        let layer = ready(ids, ts, placed, rem);
        if layer.len() == 0 {
            lemma_flatten_singletons(rem);
        } else {
            lemma_ready_in(ids, ts, placed, rem);
            lemma_without_len(rem, layer);
            let rest = columns_from(ids, ts, without(rem, layer), placed + layer);
            lemma_columns_hold(ids, ts, without(rem, layer), placed + layer);
            let cols = seq![layer] + rest;
            assert(cols[0] == layer);
            assert(cols.skip(1) =~= rest);
            assert(flatten(cols) == layer + flatten(rest));
            vstd::seq_lib::lemma_multiset_commutative(layer, flatten(rest));
            assert forall|x: Seq<char>| #[trigger] rem.contains(x) implies (layer.contains(x)
                <==> preds_placed(ids, ts, placed, x)) by {
                lemma_ready_contains(ids, ts, placed, rem, x);
            }
            lemma_ready_split(ids, ts, placed, rem, layer);
        }
    }
}

/// Every state of the level is placed, in exactly one column: taken
/// together, the columns hold the level's states, each as often as it is
/// listed.
pub proof fn law_columns_place_every_state(ids: Seq<Seq<char>>, ts: Seq<(Seq<char>, Seq<char>)>)
    ensures
        flatten(state_columns_spec(ids, ts)).to_multiset() =~= ids.to_multiset(),
{
    lemma_columns_hold(ids, ts, ids, seq![]);
}

/// The number of leading columns placed by rounds that found ready
/// states; any columns after them hold one state each.
pub open spec fn ready_rounds(
    ids: Seq<Seq<char>>,
    ts: Seq<(Seq<char>, Seq<char>)>,
    rem: Seq<Seq<char>>,
    placed: Seq<Seq<char>>,
) -> nat
    decreases rem.len(),
{
    if rem.len() == 0 {
        0
    } else {
        let layer = ready(ids, ts, placed, rem);
        if layer.len() == 0 {
            0
        } else {
            proof {
                lemma_ready_in(ids, ts, placed, rem);
                lemma_without_len(rem, layer);
            }
            1 + ready_rounds(ids, ts, without(rem, layer), placed + layer)
        }
    }
}

/// A state in a column placed by a ready round has all its predecessors
/// among the states placed before that column.
proof fn lemma_rounds_ready(
    ids: Seq<Seq<char>>,
    ts: Seq<(Seq<char>, Seq<char>)>,
    rem: Seq<Seq<char>>,
    placed: Seq<Seq<char>>,
    c: int,
    v: Seq<char>,
)
    requires
        0 <= c < ready_rounds(ids, ts, rem, placed),
    ensures
        c < columns_from(ids, ts, rem, placed).len(),
        columns_from(ids, ts, rem, placed)[c].contains(v) ==> preds_placed(
            ids,
            ts,
            placed + flatten(columns_from(ids, ts, rem, placed).take(c)),
            v,
        ),
    decreases rem.len(),
{
    let layer = ready(ids, ts, placed, rem);
    lemma_ready_in(ids, ts, placed, rem);
    lemma_without_len(rem, layer);
    let rest = columns_from(ids, ts, without(rem, layer), placed + layer);
    let out = seq![layer] + rest;
    assert(columns_from(ids, ts, rem, placed) == out);
    if c == 0 {
        assert(out[0] == layer);
        assert(out.take(0) =~= seq![]);
        assert(placed + flatten(out.take(0)) =~= placed);
        lemma_ready_contains(ids, ts, placed, rem, v);
    } else {
        lemma_rounds_ready(ids, ts, without(rem, layer), placed + layer, c - 1, v);
        assert(out[c] == rest[c - 1]);
        let t = out.take(c);
        assert(t[0] == layer);
        assert(t.skip(1) =~= rest.take(c - 1));
        assert(flatten(t) == layer + flatten(rest.take(c - 1)));
        assert(placed + flatten(t) =~= (placed + layer) + flatten(rest.take(c - 1)));
    }
}

/// A state of a flattened list of columns lies in one of the columns.
proof fn lemma_flatten_contains(cols: Seq<Seq<Seq<char>>>, u: Seq<char>)
    requires
        flatten(cols).contains(u),
    ensures
        exists|d: int| 0 <= d < cols.len() && (#[trigger] cols[d]).contains(u),
    decreases cols.len(),
{
    let a = cols[0];
    let b = flatten(cols.skip(1));
    let k = choose|k: int| 0 <= k < (a + b).len() && (a + b)[k] == u;
    if k < a.len() {
        assert(a[k] == u);
        assert(cols[0].contains(u));
    } else {
        assert(b[k - a.len()] == u);
        lemma_flatten_contains(cols.skip(1), u);
        let d = choose|d: int| 0 <= d < cols.skip(1).len() && (#[trigger] cols.skip(1)[d]).contains(u);
        assert(cols[d + 1] == cols.skip(1)[d]);
    }
}

/// A state placed in a column by a round that found it ready comes after
/// every state of the level it is entered from: each such transition
/// starts in an earlier column.
pub proof fn law_columns_follow_transitions(
    ids: Seq<Seq<char>>,
    ts: Seq<(Seq<char>, Seq<char>)>,
    c: int,
    v: Seq<char>,
    j: int,
)
    requires
        0 <= c < ready_rounds(ids, ts, ids, seq![]),
        state_columns_spec(ids, ts)[c].contains(v),
        0 <= j < ts.len(),
        ts[j].1 == v,
        ids.contains(ts[j].0),
        ids.contains(ts[j].1),
    ensures
        exists|d: int| 0 <= d < c && (#[trigger] state_columns_spec(ids, ts)[d]).contains(ts[j].0),
{
    let out = state_columns_spec(ids, ts);
    lemma_rounds_ready(ids, ts, ids, seq![], c, v);
    let placed = seq![] + flatten(out.take(c));
    assert(placed =~= flatten(out.take(c)));
    assert(ts[j] == ts[j]);
    assert(placed.contains(ts[j].0));
    lemma_flatten_contains(out.take(c), ts[j].0);
    let d = choose|d: int| 0 <= d < out.take(c).len() && (#[trigger] out.take(c)[d]).contains(ts[j].0);
    assert(out[d] == out.take(c)[d]);
}

/// Whether the id is among the strings.
fn contains_id(v: &Vec<String>, id: &String) -> (b: bool)
    ensures
        b == strings_view(v@).contains(id@),
{
    let mut k: usize = 0;
    while k < v.len()
        invariant
            k <= v@.len(),
            forall|j: int| 0 <= j < k ==> strings_view(v@)[j] != id@,
        decreases v@.len() - k,
    {
        if v[k] == *id {
            assert(strings_view(v@)[k as int] == id@);
            return true;
        }
        k = k + 1;
    }
    false
}

/// Whether every transition into `id` between states of the level comes
/// from a placed state.
fn all_preds_placed(ids: &Vec<String>, ts: &Vec<Transition>, placed: &Vec<String>, id: &String) -> (b: bool)
    ensures
        b == preds_placed(strings_view(ids@), trans_ends(ts@), strings_view(placed@), id@),
{
    let ghost tv = trans_ends(ts@);
    let ghost iv = strings_view(ids@);
    let ghost pv = strings_view(placed@);
    let mut j: usize = 0;
    while j < ts.len()
        invariant
            j <= ts@.len(),
            tv == trans_ends(ts@),
            iv == strings_view(ids@),
            pv == strings_view(placed@),
            forall|i: int|
                0 <= i < j && (#[trigger] tv[i]).1 == id@ && iv.contains(tv[i].0) && iv.contains(tv[i].1)
                    ==> pv.contains(tv[i].0),
        decreases ts@.len() - j,
    {
        assert(tv[j as int] == (ts@[j as int].from@, ts@[j as int].to@));
        if ts[j].to == *id && contains_id(ids, &ts[j].from) && contains_id(ids, &ts[j].to) && !contains_id(
            placed,
            &ts[j].from,
        ) {
            return false;
        }
        j = j + 1;
    }
    true
}

/// The remaining states whose predecessors are all placed.
fn ready_exec(ids: &Vec<String>, ts: &Vec<Transition>, placed: &Vec<String>, rem: &Vec<String>) -> (r: Vec<
    String,
>)
    ensures
        strings_view(r@) == ready(strings_view(ids@), trans_ends(ts@), strings_view(placed@), strings_view(rem@)),
{
    let ghost rv = strings_view(rem@);
    let mut r: Vec<String> = Vec::new();
    let mut i: usize = 0;
    assert(rv.take(0) =~= seq![]);
    while i < rem.len()
        invariant
            i <= rem@.len(),
            rv == strings_view(rem@),
            strings_view(r@) == ready(strings_view(ids@), trans_ends(ts@), strings_view(placed@), rv.take(i as int)),
        decreases rem@.len() - i,
    {
        assert(rv.take(i + 1 as int).drop_last() =~= rv.take(i as int));
        assert(rv.take(i + 1 as int).last() == rem@[i as int]@);
        if all_preds_placed(ids, ts, placed, &rem[i]) {
            let ghost before = strings_view(r@);
            r.push(rem[i].clone());
            assert(strings_view(r@) =~= before.push(rem@[i as int]@));
        }
        i = i + 1;
    }
    assert(rv.take(rem@.len() as int) =~= rv);
    r
}

/// The remaining states without those of the layer.
fn without_exec(rem: &Vec<String>, layer: &Vec<String>) -> (r: Vec<String>)
    ensures
        strings_view(r@) == without(strings_view(rem@), strings_view(layer@)),
{
    let ghost rv = strings_view(rem@);
    let mut r: Vec<String> = Vec::new();
    let mut i: usize = 0;
    assert(rv.take(0) =~= seq![]);
    while i < rem.len()
        invariant
            i <= rem@.len(),
            rv == strings_view(rem@),
            strings_view(r@) == without(rv.take(i as int), strings_view(layer@)),
        decreases rem@.len() - i,
    {
        assert(rv.take(i + 1 as int).drop_last() =~= rv.take(i as int));
        assert(rv.take(i + 1 as int).last() == rem@[i as int]@);
        if !contains_id(layer, &rem[i]) {
            let ghost before = strings_view(r@);
            r.push(rem[i].clone());
            assert(strings_view(r@) =~= before.push(rem@[i as int]@));
        }
        i = i + 1;
    }
    assert(rv.take(rem@.len() as int) =~= rv);
    r
}

/// The columns of a level of a state diagram, left to right: round by
/// round, the states (in order) all of whose incoming transitions from
/// states of the level start at states already placed form the next
/// column; when a round finds none, each remaining state gets a column of
/// its own.
pub fn state_columns(states: &Vec<State>, transitions: &Vec<Transition>) -> (r: Vec<Vec<String>>)
    ensures
        columns_view(r@) == state_columns_spec(state_ids(states@), trans_ends(transitions@)),
{
    let ghost tv = trans_ends(transitions@);
    let mut ids: Vec<String> = Vec::new();
    let mut rem: Vec<String> = Vec::new();
    let mut i: usize = 0;
    while i < states.len()
        invariant
            i <= states@.len(),
            strings_view(ids@) == state_ids(states@).take(i as int),
            strings_view(rem@) == strings_view(ids@),
        decreases states@.len() - i,
    {
        let ghost before = strings_view(ids@);
        ids.push(states[i].id.clone());
        rem.push(states[i].id.clone());
        assert(strings_view(ids@) =~= before.push(states@[i as int].id@));
        assert(strings_view(rem@) =~= before.push(states@[i as int].id@));
        assert(state_ids(states@).take(i + 1 as int) =~= state_ids(states@).take(i as int).push(
            states@[i as int].id@,
        ));
        i = i + 1;
    }
    assert(state_ids(states@).take(states@.len() as int) =~= state_ids(states@));
    let ghost iv = strings_view(ids@);
    let mut placed: Vec<String> = Vec::new();
    let mut columns: Vec<Vec<String>> = Vec::new();
    assert(strings_view(placed@) =~= seq![]);
    assert(columns_view(columns@) =~= seq![]);
    loop
        invariant_except_break
            columns_view(columns@) + columns_from(iv, tv, strings_view(rem@), strings_view(placed@))
                == state_columns_spec(iv, tv),
        invariant
            iv == strings_view(ids@),
            iv == state_ids(states@),
            tv == trans_ends(transitions@),
        ensures
            columns_view(columns@) == state_columns_spec(iv, tv),
        decreases rem@.len(),
    {
        let ghost rv = strings_view(rem@);
        let ghost pv = strings_view(placed@);
        let ghost base = columns_view(columns@);
        if rem.len() == 0 {
            assert(base + columns_from(iv, tv, rv, pv) =~= base);
            break;
        }
        let layer = ready_exec(&ids, transitions, &placed, &rem);
        if layer.len() == 0 {
            let mut k: usize = 0;
            assert(rv.take(0).map_values(|x: Seq<char>| seq![x]) =~= seq![]);
            assert(columns_view(columns@) =~= base + rv.take(0).map_values(|x: Seq<char>| seq![x]));
            while k < rem.len()
                invariant
                    k <= rem@.len(),
                    rv == strings_view(rem@),
                    columns_view(columns@) == base + rv.take(k as int).map_values(|x: Seq<char>| seq![x]),
                decreases rem@.len() - k,
            {
                let mut one: Vec<String> = Vec::new();
                one.push(rem[k].clone());
                assert(strings_view(one@) =~= seq![rem@[k as int]@]);
                let ghost cb = columns_view(columns@);
                columns.push(one);
                assert(columns_view(columns@) =~= cb.push(strings_view(one@)));
                assert(rv.take(k + 1 as int).map_values(|x: Seq<char>| seq![x]) =~= rv.take(
                    k as int,
                ).map_values(|x: Seq<char>| seq![x]).push(seq![rv[k as int]]));
                k = k + 1;
            }
            assert(rv.take(rem@.len() as int) =~= rv);
            break;
        }
        let ghost lv = strings_view(layer@);
        proof {
            lemma_ready_in(iv, tv, pv, rv);
            lemma_without_len(rv, lv);
        }
        let next = without_exec(&rem, &layer);
        let mut k: usize = 0;
        assert(lv.take(0) =~= seq![]);
        assert(strings_view(placed@) =~= pv + lv.take(0));
        while k < layer.len()
            invariant
                k <= layer@.len(),
                lv == strings_view(layer@),
                strings_view(placed@) == pv + lv.take(k as int),
            decreases layer@.len() - k,
        {
            let ghost before = strings_view(placed@);
            placed.push(layer[k].clone());
            assert(strings_view(placed@) =~= before.push(layer@[k as int]@));
            assert(lv.take(k + 1 as int) =~= lv.take(k as int).push(lv[k as int]));
            assert(pv + lv.take(k + 1 as int) =~= (pv + lv.take(k as int)).push(lv[k as int]));
            k = k + 1;
        }
        assert(lv.take(layer@.len() as int) =~= lv);
        let ghost cb = columns_view(columns@);
        columns.push(layer);
        assert(columns_view(columns@) =~= cb.push(lv));
        assert(base + columns_from(iv, tv, rv, pv) =~= base.push(lv) + columns_from(
            iv,
            tv,
            without(rv, lv),
            pv + lv,
        ));
        rem = next;
    }
    columns
}

} // verus!
