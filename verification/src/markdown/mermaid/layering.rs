//! Layer assignment for the layered layout of a flowchart.
//!
//! The nodes are numbered by their position in the flowchart and the edges
//! kept as lists of node numbers. A depth-first search marks the edges that
//! close a cycle (back edges); without them the graph has no cycle. Each
//! node then gets a layer such that every other edge goes from a lower
//! layer to a higher one, and the layers list their nodes.
use vstd::prelude::*;
use std::collections::VecDeque;
use crate::markdown::mermaid::flowchart::{
    flow_view, flowchart_spec, has_node, key_index, law_subgraphs_list_nodes_once, lemma_key_index,
    lists_nodes_once, map_put, FlowEdge, FlowNode, FlowSubgraph, FlowV, Flowchart,
};
use crate::markdown::mermaid::timeline::strings_view;

verus! {

/// The edges of a flowchart by node number, and what layer assignment adds.
pub struct LayerGraph {
    /// Targets of each node's edges, in declaration order.
    pub outgoing: Vec<Vec<usize>>,
    /// Sources of each node's edges, in declaration order.
    pub incoming: Vec<Vec<usize>>,
    /// Edges that close a cycle, as (source, target).
    pub back_edges: Vec<(usize, usize)>,
    /// Layer of each node.
    pub node_layers: Vec<usize>,
    /// Nodes of each layer, in order.
    pub layers: Vec<Vec<usize>>,
    /// The id of the subgraph that directly holds each node: the first
    /// subgraph, in flowchart order, that names it.
    pub node_subgraph: Vec<Option<String>>,
    /// Each subgraph id with the numbers of the nodes that the last
    /// subgraph of that id names, in order.
    pub subgraph_info: Vec<(String, Vec<usize>)>,
}

/// Adjacency lists as plain values.
pub open spec fn adj(v: Seq<Vec<usize>>) -> Seq<Seq<usize>> {
    v.map_values(|x: Vec<usize>| x@)
}

/// Every target of `g` is a node of `g`.
pub open spec fn targets_in_range(g: Seq<Seq<usize>>) -> bool {
    forall|u: int, k: int| 0 <= u < g.len() && 0 <= k < g[u].len() ==> #[trigger] g[u][k] < g.len()
}

/// Every edge of `back` is an edge of `out`.
pub open spec fn edges_of(out: Seq<Seq<usize>>, back: Seq<(usize, usize)>) -> bool {
    forall|i: int|
        0 <= i < back.len() ==> (#[trigger] back[i]).0 < out.len() && out[back[i].0 as int].contains(back[i].1)
}

/// `fin` numbers the nodes of `out` below their count so that every edge
/// outside `back` goes to a lower number.
pub open spec fn numbered(out: Seq<Seq<usize>>, back: Seq<(usize, usize)>, fin: Seq<int>) -> bool {
    &&& fin.len() == out.len()
    &&& forall|v: int| 0 <= v < fin.len() ==> 0 <= #[trigger] fin[v] < fin.len()
    &&& forall|u: int, k: int|
        0 <= u < out.len() && 0 <= k < out[u].len() && !back.contains((u as usize, #[trigger] out[u][k]))
            ==> fin[out[u][k] as int] < fin[u]
}

/// Without the edges of `back`, the graph `out` has no cycle.
pub open spec fn acyclic_without(out: Seq<Seq<usize>>, back: Seq<(usize, usize)>) -> bool {
    exists|fin: Seq<int>| numbered(out, back, fin)
}

/// `inc` lists, for each node, the sources of the edges of `out` into it.
pub open spec fn transposed(out: Seq<Seq<usize>>, inc: Seq<Seq<usize>>) -> bool {
    &&& inc.len() == out.len()
    &&& forall|w: int, j: int|
        0 <= w < inc.len() && 0 <= j < inc[w].len() ==> #[trigger] inc[w][j] < out.len() && out[inc[w][j] as int].contains(
            w as usize,
        )
    &&& forall|u: int, k: int|
        0 <= u < out.len() && 0 <= k < out[u].len() ==> inc[#[trigger] out[u][k] as int].contains(u as usize)
}

/// The largest layer that the constraints force on `w` from the layers
/// `init`, over the first `j` sources of edges into `w`: `init[w]`, or one
/// more than the forced layer of such a source along an edge outside
/// `back`, whichever is larger. `fin` numbers the nodes as `numbered` says.
pub open spec fn forced_upto(
    inc: Seq<Seq<usize>>,
    back: Seq<(usize, usize)>,
    fin: Seq<int>,
    init: Seq<usize>,
    w: int,
    j: int,
) -> int
    decreases inc.len() - fin[w], j,
{
    if j <= 0 || j > inc[w].len() {
        init[w] as int
    } else {
        let u = inc[w][j - 1] as int;
        let prev = forced_upto(inc, back, fin, init, w, j - 1);
        if 0 <= u < inc.len() && !back.contains((u as usize, w as usize)) && fin[w] < fin[u] < inc.len() {
            let lu = forced(inc, back, fin, init, u) + 1;
            if lu > prev {
                lu
            } else {
                prev
            }
        } else {
            prev
        }
    }
}

/// The least layer of `w` at or above `init[w]` and above the layer of every
/// source of an edge into `w` outside `back`, when every node's layer is
/// so chosen: `init` raised along the longest paths.
pub open spec fn forced(
    inc: Seq<Seq<usize>>,
    back: Seq<(usize, usize)>,
    fin: Seq<int>,
    init: Seq<usize>,
    w: int,
) -> int
    decreases inc.len() - fin[w], inc[w].len() + 1,
{
    forced_upto(inc, back, fin, init, w, inc[w].len() as int)
}

/// Every edge outside `back` goes from a lower layer to a higher one.
pub open spec fn layered(out: Seq<Seq<usize>>, back: Seq<(usize, usize)>, layers: Seq<usize>) -> bool {
    forall|u: int, k: int|
        0 <= u < out.len() && 0 <= k < out[u].len() && !back.contains((u as usize, #[trigger] out[u][k]))
            ==> layers[u] < layers[out[u][k] as int]
}

/// What the layer constraints need of a graph: targets are nodes, the
/// sources lists are those of the targets lists, and without the back
/// edges there is no cycle, as `fin` shows.
pub open spec fn graph_ok(out: Seq<Seq<usize>>, inc: Seq<Seq<usize>>, back: Seq<(usize, usize)>, fin: Seq<int>) -> bool {
    &&& targets_in_range(out)
    &&& transposed(out, inc)
    &&& numbered(out, back, fin)
}

proof fn lemma_effective_source(
    out: Seq<Seq<usize>>,
    inc: Seq<Seq<usize>>,
    back: Seq<(usize, usize)>,
    fin: Seq<int>,
    w: int,
    j: int,
)
    requires
        graph_ok(out, inc, back, fin),
        inc.len() <= usize::MAX,
        0 <= w < inc.len(),
        0 <= j < inc[w].len(),
        !back.contains((inc[w][j], w as usize)),
    ensures
        0 <= inc[w][j] < inc.len(),
        fin[w] < fin[inc[w][j] as int] < inc.len(),
        0 <= fin[w],
{
    let u = inc[w][j] as int;
    assert(inc[w][j] < out.len());
    assert(out[u].contains(w as usize));
    let k = choose|k: int| 0 <= k < out[u].len() && out[u][k] == w as usize;
    assert(out[u][k] == w as usize);
    assert((u as usize, out[u][k]) == (inc[w][j], w as usize));
    assert(!back.contains((u as usize, out[u][k])));
    assert(fin[out[u][k] as int] < fin[u]);
    assert(0 <= fin[w] < fin.len());
    assert(0 <= fin[u] < fin.len());
}

proof fn lemma_forced_bounds(
    out: Seq<Seq<usize>>,
    inc: Seq<Seq<usize>>,
    back: Seq<(usize, usize)>,
    fin: Seq<int>,
    init: Seq<usize>,
    b: int,
    w: int,
    j: int,
)
    requires
        graph_ok(out, inc, back, fin),
        init.len() == inc.len(),
        forall|x: int| 0 <= x < init.len() ==> #[trigger] init[x] <= b,
        0 <= w < inc.len(),
    ensures
        init[w] <= forced_upto(inc, back, fin, init, w, j) <= b + inc.len() - 1 - fin[w],
    decreases inc.len() - fin[w], j,
{
    assert(0 <= fin[w] < fin.len());
    if j > 0 && j <= inc[w].len() {
        lemma_forced_bounds(out, inc, back, fin, init, b, w, j - 1);
        let u = inc[w][j - 1] as int;
        if 0 <= u < inc.len() && !back.contains((u as usize, w as usize)) && fin[w] < fin[u] < inc.len() {
            lemma_forced_bounds(out, inc, back, fin, init, b, u, inc[u].len() as int);
            assert(forced(inc, back, fin, init, u) == forced_upto(inc, back, fin, init, u, inc[u].len() as int));
        }
    }
}

proof fn lemma_forced_at_least_init(
    inc: Seq<Seq<usize>>,
    back: Seq<(usize, usize)>,
    fin: Seq<int>,
    init: Seq<usize>,
    w: int,
    j: int,
)
    ensures
        init[w] <= forced_upto(inc, back, fin, init, w, j),
    decreases j,
{
    if j > 0 && j <= inc[w].len() {
        lemma_forced_at_least_init(inc, back, fin, init, w, j - 1);
    }
}

proof fn lemma_forced_upto_mono(
    inc: Seq<Seq<usize>>,
    back: Seq<(usize, usize)>,
    fin: Seq<int>,
    init: Seq<usize>,
    w: int,
    j1: int,
    j2: int,
)
    requires
        0 <= j1 <= j2 <= inc[w].len(),
    ensures
        forced_upto(inc, back, fin, init, w, j1) <= forced_upto(inc, back, fin, init, w, j2),
    decreases j2 - j1,
{
    if j1 < j2 {
        lemma_forced_upto_mono(inc, back, fin, init, w, j1, j2 - 1);
    }
}

proof fn lemma_forced_above_source(
    out: Seq<Seq<usize>>,
    inc: Seq<Seq<usize>>,
    back: Seq<(usize, usize)>,
    fin: Seq<int>,
    init: Seq<usize>,
    w: int,
    j: int,
)
    requires
        graph_ok(out, inc, back, fin),
        inc.len() <= usize::MAX,
        0 <= w < inc.len(),
        0 <= j < inc[w].len(),
        !back.contains((inc[w][j], w as usize)),
    ensures
        forced(inc, back, fin, init, inc[w][j] as int) + 1 <= forced(inc, back, fin, init, w),
{
    lemma_effective_source(out, inc, back, fin, w, j);
    lemma_forced_upto_mono(inc, back, fin, init, w, j + 1, inc[w].len() as int);
}

proof fn lemma_forced_least(
    out: Seq<Seq<usize>>,
    inc: Seq<Seq<usize>>,
    back: Seq<(usize, usize)>,
    fin: Seq<int>,
    init: Seq<usize>,
    layers: Seq<int>,
    w: int,
    j: int,
)
    requires
        graph_ok(out, inc, back, fin),
        0 <= w < inc.len(),
        0 <= j <= inc[w].len(),
        layers.len() == inc.len(),
        init[w] <= layers[w],
        forall|jj: int|
            0 <= jj < j && !back.contains((#[trigger] inc[w][jj], w as usize)) ==> forced(
                inc,
                back,
                fin,
                init,
                inc[w][jj] as int,
            ) + 1 <= layers[w],
    ensures
        forced_upto(inc, back, fin, init, w, j) <= layers[w],
    decreases j,
{
    if j > 0 {
        lemma_forced_least(out, inc, back, fin, init, layers, w, j - 1);
    }
}

/// Every source of an edge into a node, outside `back`, has a lower layer.
pub open spec fn sources_below(inc: Seq<Seq<usize>>, back: Seq<(usize, usize)>, layers: Seq<int>) -> bool {
    forall|w: int, j: int|
        0 <= w < inc.len() && 0 <= j < inc[w].len() && !back.contains((#[trigger] inc[w][j], w as usize))
            ==> layers[inc[w][j] as int] + 1 <= layers[w]
}

/// The layers as integers.
pub open spec fn ints(s: Seq<usize>) -> Seq<int> {
    s.map_values(|x: usize| x as int)
}

/// Layers at or above `init` with every source below are at or above the
/// forced layers.
proof fn lemma_forced_below_solution(
    out: Seq<Seq<usize>>,
    inc: Seq<Seq<usize>>,
    back: Seq<(usize, usize)>,
    fin: Seq<int>,
    init: Seq<usize>,
    layers: Seq<int>,
    w: int,
)
    requires
        graph_ok(out, inc, back, fin),
        inc.len() <= usize::MAX,
        layers.len() == inc.len(),
        init.len() == inc.len(),
        forall|x: int| 0 <= x < inc.len() ==> init[x] <= #[trigger] layers[x],
        sources_below(inc, back, layers),
        0 <= w < inc.len(),
    ensures
        forced(inc, back, fin, init, w) <= layers[w],
    decreases inc.len() - fin[w],
{
    assert(0 <= fin[w] < fin.len());
    assert forall|jj: int|
        0 <= jj < inc[w].len() && !back.contains((#[trigger] inc[w][jj], w as usize)) implies forced(
            inc,
            back,
            fin,
            init,
            inc[w][jj] as int,
        ) + 1 <= layers[w] by {
        lemma_effective_source(out, inc, back, fin, w, jj);
        lemma_forced_below_solution(out, inc, back, fin, init, layers, inc[w][jj] as int);
    }
    lemma_forced_least(out, inc, back, fin, init, layers, w, inc[w].len() as int);
}

/// The forced layers keep every source below.
proof fn lemma_forced_solution(
    out: Seq<Seq<usize>>,
    inc: Seq<Seq<usize>>,
    back: Seq<(usize, usize)>,
    fin: Seq<int>,
    init: Seq<usize>,
)
    requires
        graph_ok(out, inc, back, fin),
        inc.len() <= usize::MAX,
    ensures
        sources_below(inc, back, Seq::new(inc.len(), |x: int| forced(inc, back, fin, init, x))),
{
    let f = Seq::new(inc.len(), |x: int| forced(inc, back, fin, init, x));
    assert forall|w: int, j: int|
        0 <= w < inc.len() && 0 <= j < inc[w].len() && !back.contains((#[trigger] inc[w][j], w as usize))
        implies f[inc[w][j] as int] + 1 <= f[w] by {
        lemma_effective_source(out, inc, back, fin, w, j);
        lemma_forced_above_source(out, inc, back, fin, init, w, j);
    }
}

/// The forced layers do not depend on the numbering that shows the graph
/// has no cycle.
proof fn lemma_forced_unique(
    out: Seq<Seq<usize>>,
    inc: Seq<Seq<usize>>,
    back: Seq<(usize, usize)>,
    fin1: Seq<int>,
    fin2: Seq<int>,
    init: Seq<usize>,
    w: int,
)
    requires
        graph_ok(out, inc, back, fin1),
        graph_ok(out, inc, back, fin2),
        inc.len() <= usize::MAX,
        init.len() == inc.len(),
        0 <= w < inc.len(),
    ensures
        forced(inc, back, fin1, init, w) == forced(inc, back, fin2, init, w),
{
    let f1 = Seq::new(inc.len(), |x: int| forced(inc, back, fin1, init, x));
    let f2 = Seq::new(inc.len(), |x: int| forced(inc, back, fin2, init, x));
    lemma_forced_solution(out, inc, back, fin1, init);
    lemma_forced_solution(out, inc, back, fin2, init);
    assert forall|x: int| 0 <= x < inc.len() implies init[x] <= #[trigger] f1[x] by {
        lemma_forced_at_least_init(inc, back, fin1, init, x, inc[x].len() as int);
    }
    assert forall|x: int| 0 <= x < inc.len() implies init[x] <= #[trigger] f2[x] by {
        lemma_forced_at_least_init(inc, back, fin2, init, x, inc[x].len() as int);
    }
    lemma_forced_below_solution(out, inc, back, fin1, init, f2, w);
    lemma_forced_below_solution(out, inc, back, fin2, init, f1, w);
}

/// The index of the first `x` in `s`, or -1.
pub open spec fn first_index(s: Seq<usize>, x: usize) -> int
    decreases s.len(),
{
    if s.len() == 0 {
        -1
    } else {
        let k = first_index(s.drop_last(), x);
        if k >= 0 {
            k
        } else if s.last() == x {
            s.len() - 1
        } else {
            -1
        }
    }
}

/// Over the first `j` sources of edges into `node`, the least position of
/// `node` among the targets of such a source, or -1 when there is none.
pub open spec fn min_edge_pos_upto(out: Seq<Seq<usize>>, inc: Seq<Seq<usize>>, node: int, j: int) -> int
    decreases j,
{
    if j <= 0 {
        -1
    } else {
        let prev = min_edge_pos_upto(out, inc, node, j - 1);
        let p = first_index(out[inc[node][j - 1] as int], node as usize);
        if p < 0 {
            prev
        } else if prev < 0 || p < prev {
            p
        } else {
            prev
        }
    }
}

/// Where `node` goes in its layer: the least position of `node` among the
/// targets of a source of an edge into it, which is the order the edges
/// were declared in; `node` itself when it has no such source.
pub open spec fn edge_order_key(out: Seq<Seq<usize>>, inc: Seq<Seq<usize>>, node: int) -> int {
    let m = min_edge_pos_upto(out, inc, node, inc[node].len() as int);
    if m < 0 {
        node
    } else {
        m
    }
}

/// `a` goes before `b` in a layer: by key, then by number.
pub open spec fn goes_before(out: Seq<Seq<usize>>, inc: Seq<Seq<usize>>, a: usize, b: usize) -> bool {
    edge_order_key(out, inc, a as int) < edge_order_key(out, inc, b as int) || (edge_order_key(out, inc, a as int)
        == edge_order_key(out, inc, b as int) && a < b)
}

proof fn lemma_first_index(s: Seq<usize>, x: usize)
    ensures
        -1 <= first_index(s, x) < s.len(),
        first_index(s, x) >= 0 ==> s[first_index(s, x)] == x,
        forall|i: int| 0 <= i < s.len() && s[i] == x ==> first_index(s, x) >= 0 && first_index(s, x) <= i,
    decreases s.len(),
{
    if s.len() > 0 {
        lemma_first_index(s.drop_last(), x);
        assert forall|i: int| 0 <= i < s.len() && s[i] == x implies first_index(s, x) >= 0 && first_index(s, x) <= i by {
            if i < s.len() - 1 {
                assert(s.drop_last()[i] == x);
            }
        }
    }
}

/// `a` before `b` by `keys`, then by number.
pub open spec fn key_before(keys: Seq<usize>, a: usize, b: usize) -> bool {
    keys[a as int] < keys[b as int] || (keys[a as int] == keys[b as int] && a < b)
}

/// `row` in strictly increasing order of `key_before`.
pub open spec fn key_sorted(keys: Seq<usize>, row: Seq<usize>) -> bool {
    forall|i: int, j: int| 0 <= i < j < row.len() ==> key_before(keys, #[trigger] row[i], #[trigger] row[j])
}

/// `lv` lists the nodes by layer: one list for each layer from 0 to the
/// highest, each holding exactly the nodes of that layer, in increasing
/// order of `goes_before`.
pub open spec fn layers_of(out: Seq<Seq<usize>>, inc: Seq<Seq<usize>>, nl: Seq<usize>, lv: Seq<Seq<usize>>) -> bool {
    &&& lv.len() >= 1
    &&& forall|x: int| 0 <= x < nl.len() ==> #[trigger] nl[x] < lv.len()
    &&& (nl.len() == 0 ==> lv.len() == 1)
    &&& (nl.len() > 0 ==> exists|x: int| 0 <= x < nl.len() && #[trigger] nl[x] == lv.len() - 1)
    &&& forall|m: int, i: int|
        0 <= m < lv.len() && 0 <= i < lv[m].len() ==> #[trigger] lv[m][i] < nl.len() && nl[lv[m][i] as int] == m
    &&& forall|x: int| 0 <= x < nl.len() ==> lv[#[trigger] nl[x] as int].contains(x as usize)
    &&& forall|m: int, i: int, j: int|
        0 <= m < lv.len() && 0 <= i < j < lv[m].len() ==> goes_before(out, inc, #[trigger] lv[m][i], #[trigger] lv[m][j])
}

/// The number of `v` in the first `k` entries of `s`.
pub open spec fn occ(s: Seq<usize>, v: usize, k: int) -> nat
    decreases k,
{
    if k <= 0 {
        0
    } else {
        occ(s, v, k - 1) + if s[k - 1] == v {
            1nat
        } else {
            0nat
        }
    }
}

/// The number of edges from `u` to `v` outside `back`.
pub open spec fn eff_occ(out: Seq<Seq<usize>>, back: Seq<(usize, usize)>, u: int, v: usize) -> nat {
    if back.contains((u as usize, v)) {
        0
    } else {
        occ(out[u], v, out[u].len() as int)
    }
}

/// The number of edges into `v` outside `back` from the first `m` nodes
/// that `done` does not mark.
pub open spec fn pending(out: Seq<Seq<usize>>, back: Seq<(usize, usize)>, done: Seq<bool>, v: usize, m: int) -> nat
    decreases m,
{
    if m <= 0 {
        0
    } else {
        pending(out, back, done, v, m - 1) + if done[m - 1] {
            0nat
        } else {
            eff_occ(out, back, m - 1, v)
        }
    }
}

proof fn lemma_pending_mark(out: Seq<Seq<usize>>, back: Seq<(usize, usize)>, done: Seq<bool>, v: usize, u: int, m: int)
    requires
        0 <= u < done.len(),
        !done[u],
        m <= done.len(),
    ensures
        u < m ==> pending(out, back, done.update(u, true), v, m) + eff_occ(out, back, u, v) == pending(out, back, done, v, m),
        u >= m ==> pending(out, back, done.update(u, true), v, m) == pending(out, back, done, v, m),
    decreases m,
{
    if m > 0 {
        lemma_pending_mark(out, back, done, v, u, m - 1);
    }
}

/// Without a numbered source above `v`, no edge outside `back` enters `v`
/// from a node that `done` does not mark.
proof fn lemma_pending_zero(
    out: Seq<Seq<usize>>,
    back: Seq<(usize, usize)>,
    fin: Seq<int>,
    done: Seq<bool>,
    v: usize,
    m: int,
)
    requires
        numbered(out, back, fin),
        done.len() == out.len(),
        m <= out.len(),
        (v as int) < out.len(),
        forall|u: int| 0 <= u < out.len() && !done[u] ==> fin[u] <= fin[v as int],
    ensures
        pending(out, back, done, v, m) == 0,
    decreases m,
{
    if m > 0 {
        lemma_pending_zero(out, back, fin, done, v, m - 1);
        let u = m - 1;
        if !done[u] && !back.contains((u as usize, v)) {
            lemma_occ_zero(out, back, fin, u, v, out[u].len() as int);
        }
    }
}

proof fn lemma_occ_zero(out: Seq<Seq<usize>>, back: Seq<(usize, usize)>, fin: Seq<int>, u: int, v: usize, k: int)
    requires
        numbered(out, back, fin),
        0 <= u < out.len(),
        k <= out[u].len(),
        (v as int) < out.len(),
        fin[u] <= fin[v as int],
        !back.contains((u as usize, v)),
    ensures
        occ(out[u], v, k) == 0,
    decreases k,
{
    if k > 0 {
        lemma_occ_zero(out, back, fin, u, v, k - 1);
        if out[u][k - 1] == v {
            assert(!back.contains((u as usize, out[u][k - 1])));
        }
    }
}

/// Some node has the highest number.
proof fn lemma_top_numbered(fin: Seq<int>, m: int) -> (t: int)
    requires
        0 < m <= fin.len(),
    ensures
        0 <= t < m,
        forall|u: int| 0 <= u < m ==> #[trigger] fin[u] <= fin[t],
    decreases m,
{
    if m == 1 {
        0
    } else {
        let t0 = lemma_top_numbered(fin, m - 1);
        if fin[m - 1] > fin[t0] {
            m - 1
        } else {
            t0
        }
    }
}

proof fn lemma_occ_step(s: Seq<usize>, v: usize, k: int)
    requires
        0 <= k < s.len(),
    ensures
        occ(s, v, k + 1) == occ(s, v, k) + if s[k] == v {
            1nat
        } else {
            0nat
        },
{
}

proof fn lemma_occ_mono(s: Seq<usize>, v: usize, k1: int, k2: int)
    requires
        0 <= k1 <= k2,
    ensures
        occ(s, v, k1) <= occ(s, v, k2),
    decreases k2 - k1,
{
    if k1 < k2 {
        lemma_occ_mono(s, v, k1, k2 - 1);
    }
}

proof fn lemma_pending_step(out: Seq<Seq<usize>>, back: Seq<(usize, usize)>, done: Seq<bool>, v: usize, m: int)
    requires
        0 <= m,
    ensures
        pending(out, back, done, v, m + 1) == pending(out, back, done, v, m) + if done[m] {
            0nat
        } else {
            eff_occ(out, back, m, v)
        },
{
}

/// The ids of the nodes.
pub open spec fn ids_of(nodes: Seq<FlowNode>) -> Seq<Seq<char>> {
    nodes.map_values(|x: FlowNode| x.id@)
}

/// The endpoints of the edges, by id.
pub open spec fn ends_of(edges: Seq<FlowEdge>) -> Seq<(Seq<char>, Seq<char>)> {
    edges.map_values(|e: FlowEdge| (e.from@, e.to@))
}

/// The number of the last node with id `id`, or -1.
pub open spec fn last_pos(ids: Seq<Seq<char>>, id: Seq<char>) -> int
    decreases ids.len(),
{
    if ids.len() == 0 {
        -1
    } else if ids.last() == id {
        ids.len() - 1
    } else {
        last_pos(ids.drop_last(), id)
    }
}

/// The targets, by node number, of the edges of `ends` from node `u`, in
/// order; an edge with an endpoint that names no node is left out.
pub open spec fn out_of(ids: Seq<Seq<char>>, ends: Seq<(Seq<char>, Seq<char>)>, u: int) -> Seq<usize>
    decreases ends.len(),
{
    if ends.len() == 0 {
        seq![]
    } else {
        let prev = out_of(ids, ends.drop_last(), u);
        let f = last_pos(ids, ends.last().0);
        let t = last_pos(ids, ends.last().1);
        if f >= 0 && t >= 0 && f == u {
            prev.push(t as usize)
        } else {
            prev
        }
    }
}

/// The sources, by node number, of the edges of `ends` into node `w`, in
/// order; an edge with an endpoint that names no node is left out.
pub open spec fn inc_of(ids: Seq<Seq<char>>, ends: Seq<(Seq<char>, Seq<char>)>, w: int) -> Seq<usize>
    decreases ends.len(),
{
    if ends.len() == 0 {
        seq![]
    } else {
        let prev = inc_of(ids, ends.drop_last(), w);
        let f = last_pos(ids, ends.last().0);
        let t = last_pos(ids, ends.last().1);
        if f >= 0 && t >= 0 && t == w {
            prev.push(f as usize)
        } else {
            prev
        }
    }
}

proof fn lemma_last_pos(ids: Seq<Seq<char>>, id: Seq<char>)
    ensures
        -1 <= last_pos(ids, id) < ids.len(),
    decreases ids.len(),
{
    if ids.len() > 0 {
        lemma_last_pos(ids.drop_last(), id);
    }
}

/// Subgraphs as their ids and the ids of the nodes they name.
pub open spec fn subs_of(subs: Seq<FlowSubgraph>) -> Seq<(Seq<char>, Seq<Seq<char>>)> {
    subs.map_values(|g: FlowSubgraph| (g.id@, strings_view(g.node_ids@)))
}

/// Whether some id of `names` is, last, the id of node `idx`.
pub open spec fn names_node(ids: Seq<Seq<char>>, names: Seq<Seq<char>>, idx: int) -> bool {
    exists|j: int| 0 <= j < names.len() && last_pos(ids, #[trigger] names[j]) == idx
}

/// The id of the first of the first `m` subgraphs that names node `idx`.
pub open spec fn holder(ids: Seq<Seq<char>>, subs: Seq<(Seq<char>, Seq<Seq<char>>)>, idx: int, m: int) -> Option<Seq<char>>
    decreases m,
{
    if m <= 0 {
        None
    } else {
        let h = holder(ids, subs, idx, m - 1);
        if h is Some {
            h
        } else if names_node(ids, subs[m - 1].1, idx) {
            Some(subs[m - 1].0)
        } else {
            None
        }
    }
}

/// The numbers of the nodes that `names` names, in order; an id that names
/// no node is left out.
pub open spec fn named_nodes(ids: Seq<Seq<char>>, names: Seq<Seq<char>>) -> Seq<usize>
    decreases names.len(),
{
    if names.len() == 0 {
        seq![]
    } else {
        let prev = named_nodes(ids, names.drop_last());
        let k = last_pos(ids, names.last());
        if k >= 0 {
            prev.push(k as usize)
        } else {
            prev
        }
    }
}

/// Each id of the first `m` subgraphs with the nodes that the last of them
/// with that id names.
pub open spec fn info_of(ids: Seq<Seq<char>>, subs: Seq<(Seq<char>, Seq<Seq<char>>)>, m: int) -> Seq<(Seq<char>, Seq<usize>)>
    decreases m,
{
    if m <= 0 {
        seq![]
    } else {
        map_put(info_of(ids, subs, m - 1), subs[m - 1].0, named_nodes(ids, subs[m - 1].1))
    }
}

/// Optional strings as plain values.
pub open spec fn opt_strs(v: Seq<Option<String>>) -> Seq<Option<Seq<char>>> {
    v.map_values(|o: Option<String>| match o {
        Some(x) => Some(x@),
        None => None,
    })
}

/// Subgraph entries as plain values.
pub open spec fn info_view(v: Seq<(String, Vec<usize>)>) -> Seq<(Seq<char>, Seq<usize>)> {
    v.map_values(|p: (String, Vec<usize>)| (p.0@, p.1@))
}

/// `b` to the power `e`.
pub open spec fn weight(b: nat, e: nat) -> nat
    decreases e,
{
    if e == 0 {
        1
    } else {
        b * weight(b, (e - 1) as nat)
    }
}

/// The sum of `b` to the power of the number of each queued node.
pub open spec fn queue_weight(q: Seq<usize>, nodes: Seq<usize>, fin: Seq<int>, b: nat) -> nat
    decreases q.len(),
{
    if q.len() == 0 {
        0
    } else {
        queue_weight(q.drop_last(), nodes, fin, b) + weight(b, fin[nodes[q.last() as int] as int] as nat)
    }
}

/// The most targets any of the first `m` nodes has.
pub open spec fn max_out(out: Seq<Seq<usize>>, m: int) -> nat
    decreases m,
{
    if m <= 0 {
        0
    } else {
        let p = max_out(out, m - 1);
        if out[m - 1].len() > p {
            out[m - 1].len()
        } else {
            p
        }
    }
}

proof fn lemma_max_out(out: Seq<Seq<usize>>, m: int, u: int)
    requires
        0 <= u < m,
    ensures
        out[u].len() <= max_out(out, m),
    decreases m,
{
    if u < m - 1 {
        lemma_max_out(out, m - 1, u);
    }
}

proof fn lemma_weight_pos(b: nat, e: nat)
    requires
        b >= 1,
    ensures
        weight(b, e) >= 1,
    decreases e,
{
    if e > 0 {
        lemma_weight_pos(b, (e - 1) as nat);
        let w = weight(b, (e - 1) as nat);
        assert(b * w >= 1) by (nonlinear_arith)
            requires
                b >= 1,
                w >= 1,
        ;
    }
}

proof fn lemma_weight_mono(b: nat, e1: nat, e2: nat)
    requires
        b >= 1,
        e1 <= e2,
    ensures
        weight(b, e1) <= weight(b, e2),
    decreases e2 - e1,
{
    if e1 < e2 {
        lemma_weight_mono(b, e1, (e2 - 1) as nat);
        lemma_weight_pos(b, (e2 - 1) as nat);
        let w = weight(b, (e2 - 1) as nat);
        assert(w <= b * w) by (nonlinear_arith)
            requires
                b >= 1,
        ;
    }
}

/// `k` weights of a lower power stay below one of power `e`, for `k < b`.
proof fn lemma_weight_room(b: nat, e: nat, k: nat)
    requires
        b >= 1,
        e >= 1,
        k < b,
    ensures
        k * weight(b, (e - 1) as nat) < weight(b, e),
{
    lemma_weight_pos(b, (e - 1) as nat);
    let w = weight(b, (e - 1) as nat);
    assert(k * w < b * w) by (nonlinear_arith)
        requires
            k < b,
            w >= 1,
    ;
}

proof fn lemma_queue_weight_front(q: Seq<usize>, nodes: Seq<usize>, fin: Seq<int>, b: nat)
    requires
        q.len() > 0,
    ensures
        queue_weight(q, nodes, fin, b) == weight(b, fin[nodes[q[0] as int] as int] as nat) + queue_weight(
            q.subrange(1, q.len() as int),
            nodes,
            fin,
            b,
        ),
    decreases q.len(),
{
    if q.len() > 1 {
        lemma_queue_weight_front(q.drop_last(), nodes, fin, b);
        assert(q.drop_last().subrange(1, q.len() - 1) =~= q.subrange(1, q.len() as int).drop_last());
        assert(q.subrange(1, q.len() as int).last() == q.last());
        assert(q.drop_last()[0] == q[0]);
    } else {
        assert(q.subrange(1, q.len() as int) =~= seq![]);
        assert(q.drop_last() =~= seq![]);
        assert(queue_weight(q.drop_last(), nodes, fin, b) == 0);
        assert(queue_weight(q.subrange(1, q.len() as int), nodes, fin, b) == 0);
        assert(q.last() == q[0]);
    }
}

/// Whether `v` lists no entry twice.
pub open spec fn no_repeats(v: Seq<usize>) -> bool {
    forall|i: int, j: int| 0 <= i < j < v.len() ==> #[trigger] v[i] != #[trigger] v[j]
}

/// What clustering needs of the subgraph entries: ids that differ, node
/// numbers below `n`, no node named twice by one entry.
pub open spec fn clusters_ok(info: Seq<(Seq<char>, Seq<usize>)>, n: int) -> bool {
    &&& forall|i: int, j: int| 0 <= i < j < info.len() ==> (#[trigger] info[i]).0 != (#[trigger] info[j]).0
    &&& forall|i: int, k: int| 0 <= i < info.len() && 0 <= k < info[i].1.len() ==> #[trigger] info[i].1[k] < n
    &&& forall|i: int| 0 <= i < info.len() ==> no_repeats(#[trigger] info[i].1)
}

/// No subgraph of `subs` names a node twice.
pub open spec fn names_once(ids: Seq<Seq<char>>, subs: Seq<(Seq<char>, Seq<Seq<char>>)>) -> bool {
    forall|j: int| 0 <= j < subs.len() ==> no_repeats(#[trigger] named_nodes(ids, subs[j].1))
}

proof fn lemma_named_nodes_range(ids: Seq<Seq<char>>, names: Seq<Seq<char>>)
    ensures
        forall|k: int| 0 <= k < named_nodes(ids, names).len() ==> #[trigger] named_nodes(ids, names)[k] < ids.len(),
    decreases names.len(),
{
    if names.len() > 0 {
        lemma_named_nodes_range(ids, names.drop_last());
        lemma_last_pos(ids, names.last());
        let prev = named_nodes(ids, names.drop_last());
        let cur = named_nodes(ids, names);
        assert forall|k: int| 0 <= k < cur.len() implies #[trigger] cur[k] < ids.len() by {
            if k < prev.len() {
                assert(cur[k] == prev[k]);
            }
        }
    }
}

/// The entries of `info_of` have distinct ids, and each holds what some
/// subgraph names.
proof fn lemma_info_of(ids: Seq<Seq<char>>, subs: Seq<(Seq<char>, Seq<Seq<char>>)>, m: int)
    requires
        0 <= m <= subs.len(),
    ensures
        forall|i: int, j: int| 0 <= i < j < info_of(ids, subs, m).len() ==> (#[trigger] info_of(ids, subs, m)[i]).0
            != (#[trigger] info_of(ids, subs, m)[j]).0,
        forall|i: int| 0 <= i < info_of(ids, subs, m).len() ==> exists|j: int| 0 <= j < m && (#[trigger] info_of(ids, subs, m)[i]).1
            == named_nodes(ids, subs[j].1),
    decreases m,
{
    if m > 0 {
        lemma_info_of(ids, subs, m - 1);
        let prev = info_of(ids, subs, m - 1);
        let k = subs[m - 1].0;
        lemma_key_index(prev, k);
        let cur = info_of(ids, subs, m);
        assert forall|i: int, j: int| 0 <= i < j < cur.len() implies (#[trigger] cur[i]).0 != (#[trigger] cur[j]).0 by {
            if key_index(prev, k) >= 0 {
                assert(cur[i].0 == prev[i].0 && cur[j].0 == prev[j].0);
            } else if j < prev.len() {
                assert(cur[i] == prev[i] && cur[j] == prev[j]);
            } else {
                assert(cur[i] == prev[i]);
            }
        }
        assert forall|i: int| 0 <= i < cur.len() implies exists|j: int| 0 <= j < m && (#[trigger] cur[i]).1 == named_nodes(ids, subs[j].1) by {
            if (key_index(prev, k) >= 0 && i == key_index(prev, k)) || (key_index(prev, k) < 0 && i == prev.len()) {
                assert(cur[i].1 == named_nodes(ids, subs[m - 1].1));
            } else {
                assert(cur[i] == prev[i]);
                let j = choose|j: int| 0 <= j < m - 1 && prev[i].1 == named_nodes(ids, subs[j].1);
                assert(cur[i].1 == named_nodes(ids, subs[j].1));
            }
        }
    }
}

proof fn lemma_last_pos_found(ids: Seq<Seq<char>>, id: Seq<char>)
    ensures
        last_pos(ids, id) >= 0 ==> ids[last_pos(ids, id)] == id,
        (exists|i: int| 0 <= i < ids.len() && ids[i] == id) ==> last_pos(ids, id) >= 0,
    decreases ids.len(),
{
    if ids.len() > 0 {
        lemma_last_pos_found(ids.drop_last(), id);
        let p = last_pos(ids, id);
        lemma_last_pos(ids.drop_last(), id);
        if p >= 0 && ids.last() != id {
            assert(ids.drop_last()[p] == ids[p]);
        }
        if exists|i: int| 0 <= i < ids.len() && ids[i] == id {
            let i = choose|i: int| 0 <= i < ids.len() && ids[i] == id;
            if i < ids.len() - 1 && ids.last() != id {
                assert(ids.drop_last()[i] == id);
            }
        }
    }
}

proof fn lemma_named_nodes_all(ids: Seq<Seq<char>>, names: Seq<Seq<char>>)
    requires
        ids.len() <= usize::MAX,
        forall|k: int| 0 <= k < names.len() ==> last_pos(ids, #[trigger] names[k]) >= 0,
    ensures
        named_nodes(ids, names).len() == names.len(),
        forall|k: int| 0 <= k < names.len() ==> #[trigger] named_nodes(ids, names)[k] == last_pos(ids, names[k]),
    decreases names.len(),
{
    if names.len() > 0 {
        let d = names.drop_last();
        assert forall|k: int| 0 <= k < d.len() implies last_pos(ids, #[trigger] d[k]) >= 0 by {
            assert(d[k] == names[k]);
        }
        lemma_named_nodes_all(ids, d);
        assert(last_pos(ids, names[names.len() - 1]) >= 0);
        lemma_last_pos(ids, names.last());
        assert(names.last() == names[names.len() - 1]);
        let cur = named_nodes(ids, names);
        assert(cur == named_nodes(ids, d).push(last_pos(ids, names.last()) as usize));
        assert forall|k: int| 0 <= k < names.len() implies #[trigger] cur[k] == last_pos(ids, names[k]) by {
            if k < names.len() - 1 {
                assert(d[k] == names[k]);
            }
        }
    }
}

/// `p` is a path of `out`: nodes, each a target of the one before.
pub open spec fn is_path(out: Seq<Seq<usize>>, p: Seq<usize>) -> bool {
    &&& p.len() >= 1
    &&& forall|i: int| 0 <= i < p.len() ==> (#[trigger] p[i] as int) < out.len()
    &&& forall|i: int| 0 <= i < p.len() - 1 ==> out[p[i] as int].contains(#[trigger] p[i + 1])
}

/// `b` can be reached from `a` along edges of `out`.
pub open spec fn reaches(out: Seq<Seq<usize>>, a: usize, b: usize) -> bool {
    exists|p: Seq<usize>| is_path(out, p) && p[0] == a && p.last() == b
}

/// Every back edge closes a cycle: its source can be reached from its
/// target.
pub open spec fn back_edges_close_cycles(out: Seq<Seq<usize>>, back: Seq<(usize, usize)>) -> bool {
    forall|i: int| 0 <= i < back.len() ==> reaches(out, (#[trigger] back[i]).1, back[i].0)
}

/// `stk` lists the nodes on the search stack, in order, as a path; the
/// nodes marked in `st` are those it lists.
pub open spec fn stack_path(out: Seq<Seq<usize>>, st: Seq<bool>, stk: Seq<usize>) -> bool {
    &&& stk.len() == 0 || is_path(out, stk)
    &&& forall|v: int| 0 <= v < st.len() ==> #[trigger] st[v] == stk.contains(v as usize)
    &&& forall|i: int| 0 <= i < stk.len() ==> (#[trigger] stk[i] as int) < st.len()
}

/// Every node in layer 0.
pub open spec fn zero_layers(n: nat) -> Seq<usize> {
    Seq::new(n, |i: int| 0usize)
}

/// The length of the longest path into `w` along edges outside `back`.
pub open spec fn longest_path_layer(inc: Seq<Seq<usize>>, back: Seq<(usize, usize)>, fin: Seq<int>, w: int) -> int {
    forced(inc, back, fin, zero_layers(inc.len()), w)
}

/// Each entry of `ein[v]` is the source of an edge into `v` outside `back`.
pub open spec fn sources_ok(out: Seq<Seq<usize>>, back: Seq<(usize, usize)>, ein: Seq<Seq<usize>>) -> bool {
    forall|v: int, j: int|
        0 <= v < ein.len() && 0 <= j < ein[v].len() ==> (#[trigger] ein[v][j] as int) < out.len() && out[ein[v][j] as int].contains(
            v as usize,
        ) && !back.contains((ein[v][j], v as usize))
}

/// The least longest-path layer among `nodes`.
pub open spec fn min_forced(inc: Seq<Seq<usize>>, back: Seq<(usize, usize)>, fin: Seq<int>, nodes: Seq<usize>) -> int
    decreases nodes.len(),
{
    if nodes.len() == 0 {
        0
    } else if nodes.len() == 1 {
        longest_path_layer(inc, back, fin, nodes[0] as int)
    } else {
        let m = min_forced(inc, back, fin, nodes.drop_last());
        let l = longest_path_layer(inc, back, fin, nodes.last() as int);
        if l < m {
            l
        } else {
            m
        }
    }
}

proof fn lemma_min_forced(inc: Seq<Seq<usize>>, back: Seq<(usize, usize)>, fin: Seq<int>, nodes: Seq<usize>)
    requires
        nodes.len() > 0,
    ensures
        forall|k: int| 0 <= k < nodes.len() ==> min_forced(inc, back, fin, nodes) <= longest_path_layer(inc, back, fin, #[trigger] nodes[k] as int),
        exists|k: int| 0 <= k < nodes.len() && min_forced(inc, back, fin, nodes) == longest_path_layer(inc, back, fin, #[trigger] nodes[k] as int),
    decreases nodes.len(),
{
    if nodes.len() > 1 {
        let d = nodes.drop_last();
        lemma_min_forced(inc, back, fin, d);
        assert forall|k: int| 0 <= k < nodes.len() implies min_forced(inc, back, fin, nodes) <= longest_path_layer(inc, back, fin, #[trigger] nodes[k] as int) by {
            if k < nodes.len() - 1 {
                assert(d[k] == nodes[k]);
            }
        }
        let k0 = choose|k: int| 0 <= k < d.len() && min_forced(inc, back, fin, d) == longest_path_layer(inc, back, fin, #[trigger] d[k] as int);
        assert(d[k0] == nodes[k0]);
        assert(nodes.last() == nodes[nodes.len() - 1]);
    } else {
        assert(min_forced(inc, back, fin, nodes) == longest_path_layer(inc, back, fin, nodes[0] as int));
    }
}

/// Layers between 0 and the longest-path layers are raised to exactly the
/// longest-path layers.
proof fn lemma_forced_from_below(
    out: Seq<Seq<usize>>,
    inc: Seq<Seq<usize>>,
    back: Seq<(usize, usize)>,
    fin: Seq<int>,
    c: Seq<usize>,
    w: int,
)
    requires
        graph_ok(out, inc, back, fin),
        inc.len() <= usize::MAX,
        c.len() == inc.len(),
        forall|x: int| 0 <= x < c.len() ==> #[trigger] c[x] <= longest_path_layer(inc, back, fin, x),
        0 <= w < inc.len(),
    ensures
        forced(inc, back, fin, c, w) == longest_path_layer(inc, back, fin, w),
{
    let z = zero_layers(inc.len());
    let k = Seq::new(inc.len(), |x: int| forced(inc, back, fin, z, x));
    let fc = Seq::new(inc.len(), |x: int| forced(inc, back, fin, c, x));
    lemma_forced_solution(out, inc, back, fin, z);
    lemma_forced_solution(out, inc, back, fin, c);
    assert forall|x: int| 0 <= x < inc.len() implies c[x] <= #[trigger] k[x] by {}
    lemma_forced_below_solution(out, inc, back, fin, c, k, w);
    assert forall|x: int| 0 <= x < inc.len() implies z[x] <= #[trigger] fc[x] by {
        lemma_forced_at_least_init(inc, back, fin, c, x, inc[x].len() as int);
    }
    lemma_forced_below_solution(out, inc, back, fin, z, fc, w);
}

/// An edge outside `back` adds one to the longest-path layer.
proof fn lemma_longest_step(
    out: Seq<Seq<usize>>,
    inc: Seq<Seq<usize>>,
    back: Seq<(usize, usize)>,
    fin: Seq<int>,
    u: int,
    k: int,
)
    requires
        graph_ok(out, inc, back, fin),
        inc.len() <= usize::MAX,
        0 <= u < out.len(),
        0 <= k < out[u].len(),
        !back.contains((u as usize, out[u][k])),
    ensures
        longest_path_layer(inc, back, fin, u) + 1 <= longest_path_layer(inc, back, fin, out[u][k] as int),
{
    let w = out[u][k] as int;
    assert(inc[w].contains(u as usize));
    let j = choose|j: int| 0 <= j < inc[w].len() && inc[w][j] == u as usize;
    lemma_forced_above_source(out, inc, back, fin, zero_layers(inc.len()), w, j);
}

/// The number of `false` entries.
pub open spec fn count_false(s: Seq<bool>) -> nat
    decreases s.len(),
{
    if s.len() == 0 {
        0
    } else {
        count_false(s.drop_last()) + if s.last() {
            0nat
        } else {
            1nat
        }
    }
}

pub proof fn lemma_count_false_set(s: Seq<bool>, i: int)
    requires
        0 <= i < s.len(),
        !s[i],
    ensures
        count_false(s.update(i, true)) + 1 == count_false(s),
    decreases s.len(),
{
    if i < s.len() - 1 {
        lemma_count_false_set(s.drop_last(), i);
        assert(s.update(i, true).drop_last() =~= s.drop_last().update(i, true));
    } else {
        assert(s.update(i, true).drop_last() =~= s.drop_last());
    }
}

proof fn lemma_count_false_mono(s1: Seq<bool>, s2: Seq<bool>)
    requires
        s1.len() == s2.len(),
        forall|i: int| 0 <= i < s1.len() && s1[i] ==> #[trigger] s2[i],
    ensures
        count_false(s2) <= count_false(s1),
    decreases s1.len(),
{
    if s1.len() > 0 {
        lemma_count_false_mono(s1.drop_last(), s2.drop_last());
    }
}

proof fn lemma_count_false_bound(s: Seq<bool>)
    ensures
        count_false(s) <= s.len(),
        count_false(s) == 0 ==> forall|i: int| 0 <= i < s.len() ==> #[trigger] s[i],
    decreases s.len(),
{
    if s.len() > 0 {
        lemma_count_false_bound(s.drop_last());
        assert forall|i: int| 0 <= i < s.len() && count_false(s) == 0 implies #[trigger] s[i] by {
            if i < s.len() - 1 {
                assert(s.drop_last()[i] == s[i]);
            }
        }
    }
}

proof fn lemma_count_false_all(n: nat)
    ensures
        count_false(Seq::new(n, |i: int| false)) == n,
    decreases n,
{
    if n > 0 {
        lemma_count_false_all((n - 1) as nat);
        assert(Seq::new(n, |i: int| false).drop_last() =~= Seq::new((n - 1) as nat, |i: int| false));
    }
}

/// A node whose search is over.
pub open spec fn finished(vis: Seq<bool>, st: Seq<bool>, v: int) -> bool {
    vis[v] && !st[v]
}

/// What a depth-first search keeps: nodes on the stack are visited; each
/// finished node has a number below `cnt`; each edge out of a finished node
/// is a back edge or goes to a finished node with a lower number; back
/// edges are edges.
/// What a depth-first search carries: which nodes are visited, which are on
/// its stack, and the back edges found so far, in order.
pub type DfsState = (Seq<bool>, Seq<bool>, Seq<(usize, usize)>);

/// The search from `u`: an unvisited node is marked visited and put on the
/// stack, its edges are followed in order, and it leaves the stack.
pub open spec fn dfs_visit(out: Seq<Seq<usize>>, u: int, s: DfsState) -> DfsState
    decreases count_false(s.0), 0int, 0int,
{
    if 0 <= u < s.0.len() && !s.0[u] {
        let s1 = (s.0.update(u, true), s.1.update(u, true), s.2);
        proof {
            lemma_count_false_set(s.0, u);
        }
        let s2 = dfs_edges(out, u, 0, s1);
        (s2.0, s2.1.update(u, false), s2.2)
    } else {
        s
    }
}

/// The search following the edges of `u` from its `j`-th on: an edge to an
/// unvisited node searches from it; one to a node on the stack is a back
/// edge; one to a node already finished is passed over.
pub open spec fn dfs_edges(out: Seq<Seq<usize>>, u: int, j: int, s: DfsState) -> DfsState
    decreases count_false(s.0), 1int, out[u].len() - j,
{
    if 0 <= j < out[u].len() {
        let v = out[u][j] as int;
        if v < s.0.len() && !s.0[v] {
            let s2 = dfs_visit(out, v, s);
            if count_false(s2.0) <= count_false(s.0) {
                dfs_edges(out, u, j + 1, s2)
            } else {
                s2
            }
        } else if v < s.1.len() && s.1[v] {
            dfs_edges(out, u, j + 1, (s.0, s.1, s.2.push((u as usize, v as usize))))
        } else {
            dfs_edges(out, u, j + 1, s)
        }
    } else {
        s
    }
}

/// The search started from each node from `start` on in turn, where it is
/// not yet visited.
pub open spec fn dfs_from(out: Seq<Seq<usize>>, start: int, s: DfsState) -> DfsState
    decreases out.len() - start,
{
    if 0 <= start < out.len() {
        dfs_from(out, start + 1, dfs_visit(out, start, s))
    } else {
        s
    }
}

/// The back edges that a depth-first search finds, started from nodes
/// `0, 1, ...` in turn and following each node's edges in order: the edges
/// to a node on the search's stack, in the order they are met.
pub open spec fn dfs_back_edges_spec(out: Seq<Seq<usize>>) -> Seq<(usize, usize)> {
    let n = out.len();
    dfs_from(out, 0, (Seq::new(n, |i: int| false), Seq::new(n, |i: int| false), seq![])).2
}

pub open spec fn dfs_inv(
    out: Seq<Seq<usize>>,
    vis: Seq<bool>,
    st: Seq<bool>,
    back: Seq<(usize, usize)>,
    fin: Seq<int>,
    cnt: int,
) -> bool {
    &&& 0 <= cnt
    &&& out.len() <= usize::MAX
    &&& vis.len() == out.len()
    &&& st.len() == out.len()
    &&& fin.len() == out.len()
    &&& targets_in_range(out)
    &&& forall|v: int| 0 <= v < out.len() && #[trigger] st[v] ==> vis[v]
    &&& forall|v: int| 0 <= v < out.len() && #[trigger] finished(vis, st, v) ==> 0 <= fin[v] < cnt
    &&& forall|u: int, k: int|
        0 <= u < out.len() && finished(vis, st, u) && 0 <= k < out[u].len() ==> back.contains(
            (u as usize, #[trigger] out[u][k]),
        ) || (finished(vis, st, out[u][k] as int) && fin[out[u][k] as int] < fin[u])
    &&& edges_of(out, back)
    &&& back_edges_close_cycles(out, back)
}

/// Put `node`, numbered above every entry of `row`, into `row` after the
/// entries whose key is at most its own.
fn insert_by_key(row: &mut Vec<usize>, node: usize, keys: &Vec<usize>)
    requires
        key_sorted(keys@, old(row)@),
        node < keys@.len(),
        forall|i: int| 0 <= i < old(row)@.len() ==> #[trigger] old(row)@[i] < node,
    ensures
        key_sorted(keys@, final(row)@),
        final(row)@.len() == old(row)@.len() + 1,
        forall|x: usize| #[trigger] final(row)@.contains(x) <==> old(row)@.contains(x) || x == node,
{
    let ghost r0 = row@;
    let mut p: usize = 0;
    while p < row.len() && keys[row[p]] <= keys[node]
        invariant
            row@ == r0,
            key_sorted(keys@, r0),
            node < keys@.len(),
            forall|i: int| 0 <= i < r0.len() ==> #[trigger] r0[i] < node,
            forall|i: int| 0 <= i < r0.len() ==> #[trigger] r0[i] < keys@.len(),
            p <= r0.len(),
            forall|i: int| 0 <= i < p ==> keys@[#[trigger] r0[i] as int] <= keys@[node as int],
        decreases r0.len() - p,
    {
        p = p + 1;
    }
    row.insert(p, node);
    proof {
        let r1 = row@;
        assert(r1 == r0.insert(p as int, node));
        assert forall|i: int, j: int| 0 <= i < j < r1.len() implies key_before(keys@, #[trigger] r1[i], #[trigger] r1[j]) by {
            if j < p {
                assert(r1[i] == r0[i] && r1[j] == r0[j]);
            } else if j == p {
                assert(r1[i] == r0[i]);
            } else if i < p {
                assert(r1[i] == r0[i] && r1[j] == r0[j - 1]);
                assert(key_before(keys@, r0[i], r0[p as int]));
                if i == p - 1 {
                } else {
                    assert(key_before(keys@, r0[i], r0[p as int]));
                }
            } else if i == p {
                assert(r1[j] == r0[j - 1]);
                assert(key_before(keys@, r0[p as int], r0[j - 1]) || p == j - 1);
            } else {
                assert(r1[i] == r0[i - 1] && r1[j] == r0[j - 1]);
            }
        }
        assert forall|x: usize| #[trigger] r1.contains(x) <==> r0.contains(x) || x == node by {
            if r1.contains(x) {
                let k = choose|k: int| 0 <= k < r1.len() && r1[k] == x;
                if k < p {
                    assert(r0[k] == x);
                } else if k > p {
                    assert(r0[k - 1] == x);
                }
            }
            if r0.contains(x) {
                let k = choose|k: int| 0 <= k < r0.len() && r0[k] == x;
                if k < p {
                    assert(r1[k] == x);
                } else {
                    assert(r1[k + 1] == x);
                }
            }
            if x == node {
                assert(r1[p as int] == x);
            }
        }
    }
}

/// The number of the last node with id `id`, if any.
fn last_index_of(nodes: &Vec<FlowNode>, id: &String) -> (r: Option<usize>)
    ensures
        r matches Some(k) ==> last_pos(ids_of(nodes@), id@) == k,
        r is None ==> last_pos(ids_of(nodes@), id@) == -1,
{
    let ghost ids = ids_of(nodes@);
    let mut found: Option<usize> = None;
    let mut i: usize = 0;
    while i < nodes.len()
        invariant
            ids == ids_of(nodes@),
            i <= nodes@.len(),
            found matches Some(k) ==> last_pos(ids.take(i as int), id@) == k,
            found is None ==> last_pos(ids.take(i as int), id@) == -1,
        decreases nodes@.len() - i,
    {
        assert(ids.take(i + 1).drop_last() =~= ids.take(i as int));
        if nodes[i].id == *id {
            found = Some(i);
        }
        i = i + 1;
    }
    assert(ids.take(i as int) =~= ids);
    found
}

/// Set `id` with `nodes` in `info`, in place of an entry with the same id.
fn put_info(info: &mut Vec<(String, Vec<usize>)>, id: String, nodes: Vec<usize>)
    ensures
        info_view(final(info)@) == map_put(info_view(old(info)@), id@, nodes@),
{
    let ghost mv = info_view(info@);
    proof {
        lemma_key_index(mv, id@);
    }
    let mut i: usize = 0;
    while i < info.len()
        invariant
            i <= info@.len(),
            info@ == old(info)@,
            mv == info_view(info@),
            forall|j: int| 0 <= j < i ==> #[trigger] mv[j].0 != id@,
        decreases info@.len() - i,
    {
        if info[i].0 == id {
            proof {
                lemma_key_index(mv, id@);
                assert(mv[i as int].0 == id@);
            }
            info.set(i, (id, nodes));
            assert(info_view(info@) =~= mv.update(i as int, (id@, nodes@)));
            return;
        }
        i = i + 1;
    }
    proof {
        lemma_key_index(mv, id@);
    }
    info.push((id, nodes));
    assert(info_view(info@) =~= mv.push((id@, nodes@)));
}

/// The index of the last entry `x` of `nodes`, if any.
fn local_index(nodes: &Vec<usize>, x: usize) -> (r: Option<usize>)
    ensures
        r matches Some(k) ==> k < nodes@.len() && nodes@[k as int] == x && forall|j: int| k < j < nodes@.len() ==> nodes@[j] != x,
        r is None ==> forall|j: int| 0 <= j < nodes@.len() ==> nodes@[j] != x,
{
    let mut found: Option<usize> = None;
    let mut i: usize = 0;
    while i < nodes.len()
        invariant
            i <= nodes@.len(),
            found matches Some(k) ==> k < i && nodes@[k as int] == x && forall|j: int| k < j < i ==> nodes@[j] != x,
            found is None ==> forall|j: int| 0 <= j < i ==> nodes@[j] != x,
        decreases nodes@.len() - i,
    {
        if nodes[i] == x {
            found = Some(i);
        }
        i = i + 1;
    }
    found
}

/// Whether `back` holds the edge from `u` to `w`.
fn edge_in(back: &Vec<(usize, usize)>, u: usize, w: usize) -> (b: bool)
    ensures
        b == back@.contains((u, w)),
{
    let mut i: usize = 0;
    while i < back.len()
        invariant
            i <= back@.len(),
            forall|k: int| 0 <= k < i ==> back@[k] != (u, w),
        decreases back@.len() - i,
    {
        let (a, b) = back[i];
        if a == u && b == w {
            assert(back@[i as int] == (u, w));
            return true;
        }
        i = i + 1;
    }
    false
}

impl LayerGraph {
    /// The targets of each node's edges.
    pub open spec fn out(&self) -> Seq<Seq<usize>> {
        adj(self.outgoing@)
    }

    /// The sources of each node's edges.
    pub open spec fn inc(&self) -> Seq<Seq<usize>> {
        adj(self.incoming@)
    }

    /// Search from `node` depth first, marking each edge to a node still on
    /// the stack as a back edge.
    fn dfs_find_back_edges(
        &self,
        node: usize,
        visited: &mut Vec<bool>,
        in_stack: &mut Vec<bool>,
        back_edges: &mut Vec<(usize, usize)>,
        Ghost(fin): Ghost<Seq<int>>,
        Ghost(cnt): Ghost<int>,
        Ghost(stk): Ghost<Seq<usize>>,
    ) -> (res: Ghost<(Seq<int>, int)>)
        requires
            dfs_inv(self.out(), old(visited)@, old(in_stack)@, old(back_edges)@, fin, cnt),
            0 <= node < self.out().len(),
            !old(visited)@[node as int],
            stack_path(self.out(), old(in_stack)@, stk),
            stk.len() == 0 || self.out()[stk.last() as int].contains(node),
        ensures
            dfs_inv(self.out(), final(visited)@, final(in_stack)@, final(back_edges)@, res@.0, res@.1),
            final(visited)@[node as int],
            final(in_stack)@ == old(in_stack)@,
            forall|v: int| 0 <= v < self.out().len() && old(visited)@[v] ==> #[trigger] final(visited)@[v],
            forall|v: int|
                0 <= v < self.out().len() && #[trigger] finished(old(visited)@, old(in_stack)@, v) ==> res@.0[v]
                    == fin[v],
            forall|e: (usize, usize)| old(back_edges)@.contains(e) ==> #[trigger] final(back_edges)@.contains(e),
            res@.1 - cnt == count_false(old(visited)@) - count_false(final(visited)@),
            (final(visited)@, final(in_stack)@, final(back_edges)@) == dfs_visit(
                self.out(),
                node as int,
                (old(visited)@, old(in_stack)@, old(back_edges)@),
            ),
        decreases count_false(old(visited)@),
    {
        let ghost out = self.out();
        let ghost vis0 = visited@;
        let ghost st0 = in_stack@;
        proof {
            lemma_count_false_set(visited@, node as int);
        }
        visited.set(node, true);
        in_stack.set(node, true);
        let ghost stk1 = stk.push(node);
        proof {
            assert(!st0[node as int]);
            assert(!stk.contains(node));
            assert forall|i: int| 0 <= i < stk1.len() implies (#[trigger] stk1[i] as int) < in_stack@.len() by {
                if i < stk.len() {
                    assert(stk1[i] == stk[i]);
                }
            }
            assert forall|v: int| 0 <= v < in_stack@.len() implies #[trigger] in_stack@[v] == stk1.contains(v as usize) by {
                if v == node {
                    assert(stk1[stk.len() as int] == node);
                } else {
                    assert(in_stack@[v] == st0[v]);
                    if stk.contains(v as usize) {
                        let i = choose|i: int| 0 <= i < stk.len() && stk[i] == v as usize;
                        assert(stk1[i] == v as usize);
                    }
                    if stk1.contains(v as usize) {
                        let i = choose|i: int| 0 <= i < stk1.len() && stk1[i] == v as usize;
                        if i < stk.len() {
                            assert(stk[i] == v as usize);
                        } else {
                            assert(stk1[i] == node);
                        }
                    }
                }
            }
            assert forall|i: int| 0 <= i < stk1.len() - 1 implies out[stk1[i] as int].contains(#[trigger] stk1[i + 1]) by {
                if i < stk.len() - 1 {
                    assert(stk1[i] == stk[i] && stk1[i + 1] == stk[i + 1]);
                } else {
                    assert(stk1[i] == stk.last());
                }
            }
            assert(stack_path(out, in_stack@, stk1));
        }
        let ghost mut f = fin;
        let ghost mut c = cnt;
        let ghost vis1 = visited@;
        let ghost s1: DfsState = (visited@, in_stack@, back_edges@);
        assert(dfs_inv(out, visited@, in_stack@, back_edges@, f, c)) by {
            assert forall|v: int| 0 <= v < out.len() && #[trigger] finished(visited@, in_stack@, v) implies finished(vis0, st0, v) by {}
        }
        let targets = &self.outgoing[node];
        assert(targets@ == out[node as int]);
        let mut k: usize = 0;
        while k < targets.len()
            invariant
                out == self.out(),
                targets@ == out[node as int],
                0 <= node < out.len(),
                k <= targets@.len(),
                dfs_inv(out, visited@, in_stack@, back_edges@, f, c),
                visited@[node as int],
                in_stack@[node as int],
                vis0 == old(visited)@,
                vis0.len() == out.len(),
                !vis0[node as int],
                stk1 == stk.push(node),
                stack_path(out, in_stack@, stk1),
                forall|v: int| 0 <= v < out.len() && v != node ==> in_stack@[v] == st0[v],
                forall|v: int| 0 <= v < out.len() && vis0[v] ==> #[trigger] visited@[v],
                forall|v: int| 0 <= v < out.len() && #[trigger] finished(vis0, st0, v) ==> f[v] == fin[v],
                forall|e: (usize, usize)| old(back_edges)@.contains(e) ==> #[trigger] back_edges@.contains(e),
                c - cnt == count_false(vis1) - count_false(visited@),
                count_false(vis1) + 1 == count_false(vis0),
                c >= cnt,
                s1 == (vis1, st0.update(node as int, true), old(back_edges)@),
                dfs_edges(out, node as int, k as int, (visited@, in_stack@, back_edges@)) == dfs_edges(
                    out,
                    node as int,
                    0,
                    s1,
                ),
                forall|j: int|
                    0 <= j < k ==> back_edges@.contains((node, #[trigger] out[node as int][j])) || (finished(
                        visited@,
                        in_stack@,
                        out[node as int][j] as int,
                    ) && f[out[node as int][j] as int] < c),
            decreases targets@.len() - k,
        {
            let w = targets[k];
            assert(w == out[node as int][k as int]);
            assert(w < out.len());
            let ghost cur: DfsState = (visited@, in_stack@, back_edges@);
            if !visited[w] {
                let ghost visb = visited@;
                let ghost stb = in_stack@;
                let ghost fb = f;
                let ghost cb = c;
                assert(count_false(visited@) < count_false(vis0));
                assert(stk1.last() == node);
                assert(out[node as int][k as int] == w);
                let r = self.dfs_find_back_edges(w, visited, in_stack, back_edges, Ghost(f), Ghost(c), Ghost(stk1));
                proof {
                    f = r@.0;
                    c = r@.1;
                    lemma_count_false_mono(visb, visited@);
                    assert(dfs_edges(out, node as int, k as int, cur) == dfs_edges(
                        out,
                        node as int,
                        k + 1,
                        (visited@, in_stack@, back_edges@),
                    ));
                    assert forall|v: int| 0 <= v < out.len() && #[trigger] finished(vis0, st0, v) implies f[v] == fin[v] by {
                        assert(v != node);
                        assert(finished(visb, stb, v));
                    }
                    assert forall|j: int| 0 <= j < k + 1 implies back_edges@.contains((node, #[trigger] out[node as int][j])) || (finished(
                        visited@,
                        in_stack@,
                        out[node as int][j] as int,
                    ) && f[out[node as int][j] as int] < c) by {
                        let x = out[node as int][j] as int;
                        if j < k {
                            if !back_edges@.contains((node, out[node as int][j])) {
                                assert(finished(visb, stb, x) && fb[x] < cb);
                                assert(finished(visited@, in_stack@, x));
                            }
                        } else {
                            assert(finished(visited@, in_stack@, w as int));
                        }
                    }
                }
            } else if in_stack[w] {
                let ghost be = back_edges@;
                back_edges.push((node, w));
                proof {
                    assert(dfs_edges(out, node as int, k as int, cur) == dfs_edges(
                        out,
                        node as int,
                        k + 1,
                        (visited@, in_stack@, back_edges@),
                    ));
                    assert(back_edges@[be.len() as int] == (node, w));
                    assert forall|e: (usize, usize)| be.contains(e) implies #[trigger] back_edges@.contains(e) by {
                        let i = choose|i: int| 0 <= i < be.len() && be[i] == e;
                        assert(back_edges@[i] == e);
                    }
                    assert(back_edges@.contains((node, w)));
                    assert(reaches(out, w, node)) by {
                        assert(stk1.contains(w));
                        let i = choose|i: int| 0 <= i < stk1.len() && stk1[i] == w;
                        let p = stk1.subrange(i, stk1.len() as int);
                        assert forall|a: int| 0 <= a < p.len() implies (#[trigger] p[a] as int) < out.len() by {
                            assert(p[a] == stk1[a + i]);
                        }
                        assert(is_path(out, stk1));
                        assert forall|a: int| 0 <= a < p.len() - 1 implies out[p[a] as int].contains(#[trigger] p[a + 1]) by {
                            let j = a + i;
                            assert(p[a] == stk1[j] && p[a + 1] == stk1[j + 1]);
                            assert(out[stk1[j] as int].contains(stk1[j + 1]));
                        }
                        assert(p[0] == w && p.last() == node);
                        assert(is_path(out, p));
                    }
                    assert(back_edges_close_cycles(out, back_edges@)) by {
                        assert forall|q: int| 0 <= q < back_edges@.len() implies reaches(out, (#[trigger] back_edges@[q]).1, back_edges@[q].0) by {
                            if q < be.len() {
                                assert(back_edges@[q] == be[q]);
                            }
                        }
                    }
                    assert forall|j: int| 0 <= j < k + 1 implies back_edges@.contains((node, #[trigger] out[node as int][j])) || (finished(
                        visited@,
                        in_stack@,
                        out[node as int][j] as int,
                    ) && f[out[node as int][j] as int] < c) by {
                        if j < k && !back_edges@.contains((node, out[node as int][j])) {
                            assert(!be.contains((node, out[node as int][j])));
                        }
                    }
                    assert(edges_of(out, back_edges@)) by {
                        assert forall|i: int| 0 <= i < back_edges@.len() implies (#[trigger] back_edges@[i]).0 < out.len() && out[back_edges@[i].0 as int].contains(back_edges@[i].1) by {
                            if i < be.len() {
                                assert(back_edges@[i] == be[i]);
                            } else {
                                assert(out[node as int][k as int] == w);
                            }
                        }
                    }
                }
            } else {
                assert(finished(visited@, in_stack@, w as int));
                assert(dfs_edges(out, node as int, k as int, cur) == dfs_edges(
                    out,
                    node as int,
                    k + 1,
                    (visited@, in_stack@, back_edges@),
                ));
            }
            k = k + 1;
        }
        assert(dfs_edges(out, node as int, k as int, (visited@, in_stack@, back_edges@)) == (
            visited@,
            in_stack@,
            back_edges@,
        ));
        let ghost vis2 = visited@;
        let ghost st2 = in_stack@;
        let ghost f2 = f;
        let ghost c2 = c;
        in_stack.set(node, false);
        proof {
            assert forall|v: int| 0 <= v < in_stack@.len() implies #[trigger] in_stack@[v] == stk.contains(v as usize) by {
                if v != node {
                    assert(in_stack@[v] == st2[v]);
                    assert(st2[v] == stk1.contains(v as usize));
                    if stk1.contains(v as usize) {
                        let i = choose|i: int| 0 <= i < stk1.len() && stk1[i] == v as usize;
                        assert(stk1[stk.len() as int] == node);
                        assert(i < stk.len());
                        assert(stk[i] == v as usize);
                    }
                    if stk.contains(v as usize) {
                        let i = choose|i: int| 0 <= i < stk.len() && stk[i] == v as usize;
                        assert(stk1[i] == v as usize);
                    }
                }
            }
            f = f.update(node as int, c);
            c = c + 1;
            assert forall|v: int| 0 <= v < out.len() && v != node implies finished(visited@, in_stack@, v) == finished(vis2, st2, v) by {}
            assert forall|u: int, j: int|
                0 <= u < out.len() && finished(visited@, in_stack@, u) && 0 <= j < out[u].len() implies back_edges@.contains(
                    (u as usize, #[trigger] out[u][j]),
                ) || (finished(visited@, in_stack@, out[u][j] as int) && f[out[u][j] as int] < f[u]) by {
                let x = out[u][j] as int;
                if u == node {
                    if !back_edges@.contains((node, out[node as int][j])) {
                        assert(finished(vis2, st2, x) && f2[x] < c2);
                        assert(x != node);
                    }
                } else {
                    assert(finished(vis2, st2, u));
                    if !back_edges@.contains((u as usize, out[u][j])) {
                        assert(finished(vis2, st2, x) && f2[x] < f2[u]);
                        assert(x != node);
                    }
                }
            }
            assert forall|v: int| 0 <= v < out.len() && #[trigger] finished(vis0, st0, v) implies f[v] == fin[v] by {
                assert(v != node);
            }
            assert forall|v: int| 0 <= v < out.len() && #[trigger] in_stack@[v] implies visited@[v] by {
                assert(v != node);
                assert(st2[v]);
            }
            assert forall|v: int| 0 <= v < out.len() && #[trigger] finished(visited@, in_stack@, v) implies 0 <= f[v] < c by {
                if v != node {
                    assert(finished(vis2, st2, v));
                }
            }
        }
        assert(dfs_inv(out, visited@, in_stack@, back_edges@, f, c));
        assert(in_stack@ == st2.update(node as int, false));
        assert((visited@, in_stack@, back_edges@) == dfs_visit(out, node as int, (vis0, st0, old(back_edges)@)));
        Ghost((f, c))
    }

    /// Mark as back edges the edges that a depth-first search, started from
    /// each unvisited node in turn, finds going to a node on its stack.
    /// Without them the graph has no cycle.
    pub fn detect_cycles_and_mark_back_edges(&mut self)
        requires
            targets_in_range(old(self).out()),
        ensures
            final(self).outgoing@ == old(self).outgoing@,
            final(self).incoming@ == old(self).incoming@,
            final(self).node_layers@ == old(self).node_layers@,
            final(self).layers@ == old(self).layers@,
            final(self).node_subgraph@ == old(self).node_subgraph@,
            final(self).subgraph_info@ == old(self).subgraph_info@,
            edges_of(final(self).out(), final(self).back_edges@),
            back_edges_close_cycles(final(self).out(), final(self).back_edges@),
            acyclic_without(final(self).out(), final(self).back_edges@),
            final(self).back_edges@ == dfs_back_edges_spec(final(self).out()),
    {
        let ghost out = self.out();
        let n = self.outgoing.len();
        let mut visited: Vec<bool> = Vec::new();
        let mut in_stack: Vec<bool> = Vec::new();
        let mut i: usize = 0;
        while i < n
            invariant
                i <= n,
                visited@ == Seq::new(i as nat, |j: int| false),
                in_stack@ == Seq::new(i as nat, |j: int| false),
            decreases n - i,
        {
            visited.push(false);
            in_stack.push(false);
            i = i + 1;
            assert(visited@ =~= Seq::new(i as nat, |j: int| false));
            assert(in_stack@ =~= Seq::new(i as nat, |j: int| false));
        }
        let mut back_edges: Vec<(usize, usize)> = Vec::new();
        let ghost init: DfsState = (visited@, in_stack@, back_edges@);
        assert(init == (Seq::new(n as nat, |i: int| false), Seq::new(n as nat, |i: int| false), Seq::<(usize, usize)>::empty()));
        let ghost mut f: Seq<int> = Seq::new(n as nat, |j: int| 0);
        let ghost mut c: int = 0;
        proof {
            lemma_count_false_all(n as nat);
        }
        assert(dfs_inv(out, visited@, in_stack@, back_edges@, f, c));
        let mut start: usize = 0;
        while start < n
            invariant
                out == self.out(),
                n == out.len(),
                start <= n,
                dfs_inv(out, visited@, in_stack@, back_edges@, f, c),
                forall|v: int| 0 <= v < n ==> !#[trigger] in_stack@[v],
                forall|v: int| 0 <= v < start ==> #[trigger] visited@[v],
                c == n - count_false(visited@),
                dfs_from(out, start as int, (visited@, in_stack@, back_edges@)) == dfs_from(out, 0, init),
            decreases n - start,
        {
            let ghost cur: DfsState = (visited@, in_stack@, back_edges@);
            if !visited[start] {
                let ghost visb = visited@;
                let ghost empty: Seq<usize> = seq![];
                proof {
                    assert(stack_path(out, in_stack@, empty));
                }
                let r = self.dfs_find_back_edges(start, &mut visited, &mut in_stack, &mut back_edges, Ghost(f), Ghost(c), Ghost(empty));
                proof {
                    f = r@.0;
                    c = r@.1;
                }
            }
            assert(dfs_from(out, start as int, cur) == dfs_from(out, start + 1, (visited@, in_stack@, back_edges@)));
            start = start + 1;
        }
        assert(dfs_from(out, start as int, (visited@, in_stack@, back_edges@)) == (visited@, in_stack@, back_edges@));
        proof {
            lemma_count_false_bound(visited@);
            assert forall|v: int| 0 <= v < n implies #[trigger] finished(visited@, in_stack@, v) by {}
            assert(numbered(out, back_edges@, f)) by {
                assert forall|v: int| 0 <= v < f.len() implies 0 <= #[trigger] f[v] < f.len() by {
                    assert(finished(visited@, in_stack@, v));
                }
                assert forall|u: int, k: int|
                    0 <= u < out.len() && 0 <= k < out[u].len() && !back_edges@.contains((u as usize, #[trigger] out[u][k]))
                    implies f[out[u][k] as int] < f[u] by {
                    assert(finished(visited@, in_stack@, u));
                }
            }
        }
        self.back_edges = back_edges;
    }

    /// Raise layers until every edge outside the back edges goes from a
    /// lower layer to a higher one: at most one pass per node over every
    /// node's incoming edges, stopping after a pass that changed nothing.
    /// The result is the least such layering at or above the given one.
    pub fn ensure_layer_constraints(&mut self)
        requires
            exists|fin: Seq<int>| graph_ok(old(self).out(), old(self).inc(), old(self).back_edges@, fin),
            old(self).node_layers@.len() == old(self).outgoing@.len(),
            forall|x: int|
                0 <= x < old(self).node_layers@.len() ==> #[trigger] old(self).node_layers@[x] + old(
                    self,
                ).outgoing@.len() <= usize::MAX,
        ensures
            final(self).outgoing@ == old(self).outgoing@,
            final(self).incoming@ == old(self).incoming@,
            final(self).back_edges@ == old(self).back_edges@,
            final(self).layers@ == old(self).layers@,
            final(self).node_subgraph@ == old(self).node_subgraph@,
            final(self).subgraph_info@ == old(self).subgraph_info@,
            final(self).node_layers@.len() == old(self).node_layers@.len(),
            layered(final(self).out(), final(self).back_edges@, final(self).node_layers@),
            forall|fin: Seq<int>, w: int|
                graph_ok(old(self).out(), old(self).inc(), old(self).back_edges@, fin) && 0 <= w
                    < old(self).node_layers@.len() ==> #[trigger] forced(
                    old(self).inc(),
                    old(self).back_edges@,
                    fin,
                    old(self).node_layers@,
                    w,
                ) == final(self).node_layers@[w],
    {
        let ghost out = self.out();
        let ghost inc = self.inc();
        let ghost back = self.back_edges@;
        let ghost init = self.node_layers@;
        let ghost fin = choose|fin: Seq<int>| graph_ok(out, inc, back, fin);
        let n = self.node_layers.len();
        let ghost zeros = Seq::new(n as nat, |i: int| 0usize);
        let mut pass: usize = 0;
        let mut done = false;
        proof {
            assert forall|x: int| 0 <= x < n implies #[trigger] self.node_layers@[x] <= forced(inc, back, fin, init, x) by {
                lemma_forced_at_least_init(inc, back, fin, init, x, inc[x].len() as int);
            }
            assert forall|x: int| 0 <= x < n implies #[trigger] forced(inc, back, fin, zeros, x) >= 0 by {
                lemma_forced_at_least_init(inc, back, fin, zeros, x, inc[x].len() as int);
            }
        }
        while pass < n && !done
            invariant
                out == self.out(),
                inc == self.inc(),
                back == self.back_edges@,
                self.outgoing@ == old(self).outgoing@,
                self.incoming@ == old(self).incoming@,
                self.back_edges@ == old(self).back_edges@,
                self.layers@ == old(self).layers@,
                self.node_subgraph@ == old(self).node_subgraph@,
                self.subgraph_info@ == old(self).subgraph_info@,
                graph_ok(out, inc, back, fin),
                n == inc.len(),
                n == self.node_layers@.len(),
                init.len() == n,
                zeros.len() == n,
                forall|x: int| 0 <= x < n ==> zeros[x] == 0,
                forall|x: int| 0 <= x < n ==> #[trigger] init[x] + n <= usize::MAX,
                forall|x: int|
                    0 <= x < n ==> init[x] <= #[trigger] self.node_layers@[x] <= forced(inc, back, fin, init, x),
                forall|x: int|
                    0 <= x < n && #[trigger] forced(inc, back, fin, zeros, x) < pass ==> self.node_layers@[x]
                        == forced(inc, back, fin, init, x),
                done ==> sources_below(inc, back, ints(self.node_layers@)),
                pass <= n,
            decreases n - pass, if done { 0int } else { 1int },
        {
            let ghost start = self.node_layers@;
            let mut changed = false;
            let mut node: usize = 0;
            while node < n
                invariant
                    out == self.out(),
                    inc == self.inc(),
                    back == self.back_edges@,
                    self.outgoing@ == old(self).outgoing@,
                    self.incoming@ == old(self).incoming@,
                    self.back_edges@ == old(self).back_edges@,
                    self.layers@ == old(self).layers@,
                    self.node_subgraph@ == old(self).node_subgraph@,
                    self.subgraph_info@ == old(self).subgraph_info@,
                self.outgoing@ == old(self).outgoing@,
                self.incoming@ == old(self).incoming@,
                self.back_edges@ == old(self).back_edges@,
                self.layers@ == old(self).layers@,
                self.node_subgraph@ == old(self).node_subgraph@,
                self.subgraph_info@ == old(self).subgraph_info@,
                    graph_ok(out, inc, back, fin),
                    n == inc.len(),
                    n == self.node_layers@.len(),
                    init.len() == n,
                    zeros.len() == n,
                    forall|x: int| 0 <= x < n ==> zeros[x] == 0,
                    forall|x: int| 0 <= x < n ==> #[trigger] init[x] + n <= usize::MAX,
                    forall|x: int|
                        0 <= x < n ==> init[x] <= #[trigger] self.node_layers@[x] <= forced(inc, back, fin, init, x),
                    forall|x: int|
                        0 <= x < n && #[trigger] forced(inc, back, fin, zeros, x) < pass ==> self.node_layers@[x]
                            == forced(inc, back, fin, init, x),
                    forall|x: int|
                        0 <= x < node && #[trigger] forced(inc, back, fin, zeros, x) <= pass ==> self.node_layers@[x]
                            == forced(inc, back, fin, init, x),
                    !changed ==> self.node_layers@ == start,
                    !changed ==> forall|x: int, j: int|
                        0 <= x < node && 0 <= j < inc[x].len() && !back.contains((#[trigger] inc[x][j], x as usize))
                            ==> self.node_layers@[inc[x][j] as int] + 1 <= self.node_layers@[x],
                    node <= n,
                decreases n - node,
            {
                let ghost before = self.node_layers@;
                let ghost ch0 = changed;
                let preds = &self.incoming[node];
                assert(preds@ == inc[node as int]);
                let mut j: usize = 0;
                while j < preds.len()
                    invariant
                        out == self.out(),
                        inc == self.inc(),
                        back == self.back_edges@,
                        self.outgoing@ == old(self).outgoing@,
                        self.incoming@ == old(self).incoming@,
                        self.back_edges@ == old(self).back_edges@,
                        self.layers@ == old(self).layers@,
                        self.node_subgraph@ == old(self).node_subgraph@,
                        self.subgraph_info@ == old(self).subgraph_info@,
                    self.outgoing@ == old(self).outgoing@,
                    self.incoming@ == old(self).incoming@,
                    self.back_edges@ == old(self).back_edges@,
                    self.layers@ == old(self).layers@,
                    self.node_subgraph@ == old(self).node_subgraph@,
                    self.subgraph_info@ == old(self).subgraph_info@,
                self.outgoing@ == old(self).outgoing@,
                self.incoming@ == old(self).incoming@,
                self.back_edges@ == old(self).back_edges@,
                self.layers@ == old(self).layers@,
                self.node_subgraph@ == old(self).node_subgraph@,
                self.subgraph_info@ == old(self).subgraph_info@,
                        preds@ == inc[node as int],
                        graph_ok(out, inc, back, fin),
                        n == inc.len(),
                        n == self.node_layers@.len(),
                        init.len() == n,
                        node < n,
                        forall|x: int| 0 <= x < n ==> #[trigger] init[x] + n <= usize::MAX,
                        forall|x: int| 0 <= x < n && x != node ==> #[trigger] self.node_layers@[x] == before[x],
                        forall|x: int|
                            0 <= x < n ==> init[x] <= #[trigger] before[x] <= forced(inc, back, fin, init, x),
                        before[node as int] <= self.node_layers@[node as int],
                        init[node as int] <= self.node_layers@[node as int] <= forced(inc, back, fin, init, node as int),
                        !changed ==> self.node_layers@ == before,
                        ch0 ==> changed,
                        forall|jj: int|
                            0 <= jj < j && !back.contains((#[trigger] inc[node as int][jj], node as usize)) ==> self.node_layers@[inc[node as int][jj] as int]
                                + 1 <= self.node_layers@[node as int],
                        j <= preds@.len(),
                    decreases preds@.len() - j,
                {
                    let pred = preds[j];
                    if !edge_in(&self.back_edges, pred, node) {
                        proof {
                            lemma_effective_source(out, inc, back, fin, node as int, j as int);
                            lemma_forced_above_source(out, inc, back, fin, init, node as int, j as int);
                            lemma_forced_bounds(out, inc, back, fin, init, usize::MAX - n, pred as int, inc[pred as int].len() as int);
                        }
                        assert(pred != node);
                        let min_layer = self.node_layers[pred] + 1;
                        if self.node_layers[node] < min_layer {
                            self.node_layers.set(node, min_layer);
                            changed = true;
                        }
                    }
                    j = j + 1;
                }
                proof {
                    if forced(inc, back, fin, zeros, node as int) <= pass {
                        assert forall|jj: int|
                            0 <= jj < inc[node as int].len() && !back.contains((#[trigger] inc[node as int][jj], node as usize))
                            implies forced(inc, back, fin, init, inc[node as int][jj] as int) + 1 <= ints(self.node_layers@)[node as int] by {
                            lemma_effective_source(out, inc, back, fin, node as int, jj);
                            lemma_forced_above_source(out, inc, back, fin, zeros, node as int, jj);
                        }
                        lemma_forced_least(out, inc, back, fin, init, ints(self.node_layers@), node as int, inc[node as int].len() as int);
                    }
                }
                node = node + 1;
            }
            if !changed {
                done = true;
            }
            pass = pass + 1;
        }
        proof {
            if !done {
                assert forall|x: int| 0 <= x < n implies self.node_layers@[x] == #[trigger] forced(inc, back, fin, init, x) by {
                    lemma_forced_bounds(out, inc, back, fin, zeros, 0, x, inc[x].len() as int);
                    assert(forced(inc, back, fin, zeros, x) < pass);
                }
                assert(sources_below(inc, back, ints(self.node_layers@))) by {
                    assert forall|w: int, j: int|
                        0 <= w < inc.len() && 0 <= j < inc[w].len() && !back.contains((#[trigger] inc[w][j], w as usize))
                        implies ints(self.node_layers@)[inc[w][j] as int] + 1 <= ints(self.node_layers@)[w] by {
                        lemma_effective_source(out, inc, back, fin, w, j);
                        lemma_forced_above_source(out, inc, back, fin, init, w, j);
                    }
                }
            }
            assert forall|x: int| 0 <= x < n implies #[trigger] init[x] <= ints(self.node_layers@)[x] by {}
            assert forall|fin2: Seq<int>, w: int|
                graph_ok(out, inc, back, fin2) && 0 <= w < n implies #[trigger] forced(inc, back, fin2, init, w)
                == self.node_layers@[w] by {
                lemma_forced_unique(out, inc, back, fin, fin2, init, w);
                lemma_forced_below_solution(out, inc, back, fin, init, ints(self.node_layers@), w);
            }
            assert(layered(out, back, self.node_layers@)) by {
                assert forall|u: int, k: int|
                    0 <= u < out.len() && 0 <= k < out[u].len() && !back.contains((u as usize, #[trigger] out[u][k]))
                    implies self.node_layers@[u] < self.node_layers@[out[u][k] as int] by {
                    let w = out[u][k] as int;
                    assert(inc[w].contains(u as usize));
                    let j = choose|j: int| 0 <= j < inc[w].len() && inc[w][j] == u as usize;
                    assert(inc[w][j] == u as usize);
                    assert(ints(self.node_layers@)[inc[w][j] as int] + 1 <= ints(self.node_layers@)[w]);
                }
            }
        }
    }

    /// The first position of `node` among the targets of `pred`, if any.
    fn position_in(&self, pred: usize, node: usize) -> (r: Option<usize>)
        requires
            pred < self.out().len(),
        ensures
            r matches Some(k) ==> k == first_index(self.out()[pred as int], node),
            r is None ==> first_index(self.out()[pred as int], node) == -1,
    {
        let targets = &self.outgoing[pred];
        proof {
            lemma_first_index(targets@, node);
        }
        let mut i: usize = 0;
        while i < targets.len()
            invariant
                targets@ == self.out()[pred as int],
                i <= targets@.len(),
                forall|k: int| 0 <= k < i ==> targets@[k] != node,
            decreases targets@.len() - i,
        {
            if targets[i] == node {
                proof {
                    lemma_first_index(targets@, node);
                }
                return Some(i);
            }
            i = i + 1;
        }
        proof {
            lemma_first_index(targets@, node);
        }
        None
    }

    /// The least position of `node` in the targets of any source of an edge
    /// into it, which reflects the order edges were declared in; `node`
    /// when no source lists it.
    pub fn get_min_incoming_edge_position(&self, node: usize) -> (r: usize)
        requires
            node < self.inc().len(),
            transposed(self.out(), self.inc()),
        ensures
            r == edge_order_key(self.out(), self.inc(), node as int),
    {
        let ghost out = self.out();
        let ghost inc = self.inc();
        let preds = &self.incoming[node];
        let mut min_pos: usize = usize::MAX;
        let mut found = false;
        let mut j: usize = 0;
        while j < preds.len()
            invariant
                out == self.out(),
                inc == self.inc(),
                transposed(out, inc),
                node < inc.len(),
                preds@ == inc[node as int],
                j <= preds@.len(),
                found ==> min_pos == min_edge_pos_upto(out, inc, node as int, j as int),
                !found ==> min_edge_pos_upto(out, inc, node as int, j as int) == -1,
                !found ==> min_pos == usize::MAX,
            decreases preds@.len() - j,
        {
            let pred = preds[j];
            assert(pred < out.len());
            match self.position_in(pred, node) {
                Some(pos) => {
                    if !found || pos < min_pos {
                        min_pos = pos;
                    }
                    found = true;
                },
                None => {},
            }
            j = j + 1;
        }
        if !found {
            node
        } else {
            min_pos
        }
    }

    /// Group the nodes by layer: one list per layer from 0 to the highest
    /// layer, each holding the nodes of that layer ordered by
    /// `get_min_incoming_edge_position`, then by number.
    pub fn build_layers(&mut self)
        requires
            transposed(old(self).out(), old(self).inc()),
            old(self).node_layers@.len() == old(self).inc().len(),
            forall|x: int| 0 <= x < old(self).node_layers@.len() ==> #[trigger] old(self).node_layers@[x] < usize::MAX,
        ensures
            final(self).outgoing@ == old(self).outgoing@,
            final(self).incoming@ == old(self).incoming@,
            final(self).back_edges@ == old(self).back_edges@,
            final(self).node_layers@ == old(self).node_layers@,
            final(self).node_subgraph@ == old(self).node_subgraph@,
            final(self).subgraph_info@ == old(self).subgraph_info@,
            layers_of(final(self).out(), final(self).inc(), final(self).node_layers@, adj(final(self).layers@)),
    {
        let ghost out = self.out();
        let ghost inc = self.inc();
        let n = self.node_layers.len();
        let ghost nl = self.node_layers@;
        let mut max_layer: usize = 0;
        let mut v: usize = 0;
        while v < n
            invariant
                nl == self.node_layers@,
                n == nl.len(),
                v <= n,
                forall|x: int| 0 <= x < n ==> #[trigger] nl[x] < usize::MAX,
                forall|x: int| 0 <= x < v ==> #[trigger] nl[x] <= max_layer,
                max_layer < usize::MAX,
                v == 0 ==> max_layer == 0,
                v > 0 ==> exists|x: int| 0 <= x < v && #[trigger] nl[x] == max_layer,
            decreases n - v,
        {
            if self.node_layers[v] > max_layer || v == 0 {
                max_layer = self.node_layers[v];
            }
            v = v + 1;
        }
        let mut keys: Vec<usize> = Vec::new();
        let mut v: usize = 0;
        while v < n
            invariant
                out == self.out(),
                inc == self.inc(),
                transposed(out, inc),
                n == inc.len(),
                v <= n,
                keys@.len() == v,
                forall|x: int| 0 <= x < v ==> #[trigger] keys@[x] == edge_order_key(out, inc, x),
            decreases n - v,
        {
            let k = self.get_min_incoming_edge_position(v);
            keys.push(k);
            v = v + 1;
        }
        let mut layers: Vec<Vec<usize>> = Vec::new();
        let mut l: usize = 0;
        while l <= max_layer
            invariant
                nl == self.node_layers@,
                n == nl.len(),
                keys@.len() == n,
                forall|x: int| 0 <= x < n ==> #[trigger] keys@[x] == edge_order_key(out, inc, x),
                max_layer < usize::MAX,
                l <= max_layer + 1,
                layers@.len() == l,
                forall|m: int, i: int|
                    0 <= m < l && 0 <= i < layers@[m]@.len() ==> #[trigger] layers@[m]@[i] < n && nl[layers@[m]@[i] as int] == m,
                forall|x: int| 0 <= x < n && #[trigger] nl[x] < l ==> layers@[nl[x] as int]@.contains(x as usize),
                forall|m: int| 0 <= m < l ==> key_sorted(keys@, #[trigger] layers@[m]@),
            decreases max_layer + 1 - l,
        {
            let mut row: Vec<usize> = Vec::new();
            let mut v: usize = 0;
            while v < n
                invariant
                    nl == self.node_layers@,
                    n == nl.len(),
                    keys@.len() == n,
                    v <= n,
                    forall|i: int| 0 <= i < row@.len() ==> #[trigger] row@[i] < v && nl[row@[i] as int] == l,
                    forall|x: int| 0 <= x < v && #[trigger] nl[x] == l ==> row@.contains(x as usize),
                    key_sorted(keys@, row@),
                decreases n - v,
            {
                if self.node_layers[v] == l {
                    let ghost r0 = row@;
                    insert_by_key(&mut row, v, &keys);
                    proof {
                        assert forall|i: int| 0 <= i < row@.len() implies #[trigger] row@[i] < v + 1 && nl[row@[i] as int] == l by {
                            assert(row@.contains(row@[i]));
                            if row@[i] != v {
                                assert(r0.contains(row@[i]));
                                let k = choose|k: int| 0 <= k < r0.len() && r0[k] == row@[i];
                                assert(r0[k] < v);
                            }
                        }
                    }
                }
                v = v + 1;
            }
            layers.push(row);
            proof {
                assert forall|m: int| 0 <= m < l + 1 implies key_sorted(keys@, #[trigger] layers@[m]@) by {}
            }
            l = l + 1;
        }
        proof {
            let lv = adj(layers@);
            assert forall|x: int| 0 <= x < n implies #[trigger] nl[x] < lv.len() by {}
            assert forall|m: int, i: int, j: int|
                0 <= m < lv.len() && 0 <= i < j < lv[m].len() implies goes_before(out, inc, #[trigger] lv[m][i], #[trigger] lv[m][j]) by {
                assert(key_sorted(keys@, layers@[m]@));
                assert(key_before(keys@, layers@[m]@[i], layers@[m]@[j]));
            }
        }
        self.layers = layers;
    }

    /// Give each node a layer such that every edge outside the back edges
    /// goes from a lower layer to a higher one; each node ends in the layer
    /// given by the longest path into it along such edges. First the longest
    /// path from a node without incoming edges (taking nodes whose incoming
    /// edges are all accounted for, in queue order), then one more than the
    /// highest placed source for any node the queue never reached, then the
    /// nodes of each subgraph moved to consecutive layers, then layers
    /// raised until every such edge goes down.
    pub fn assign_layers(&mut self)
        requires
            exists|fin: Seq<int>| graph_ok(old(self).out(), old(self).inc(), old(self).back_edges@, fin),
            old(self).outgoing@.len() <= usize::MAX / 4,
            old(self).node_subgraph@.len() == old(self).outgoing@.len(),
            clusters_ok(info_view(old(self).subgraph_info@), old(self).outgoing@.len() as int),
        ensures
            final(self).outgoing@ == old(self).outgoing@,
            final(self).incoming@ == old(self).incoming@,
            final(self).back_edges@ == old(self).back_edges@,
            final(self).layers@ == old(self).layers@,
            final(self).node_subgraph@ == old(self).node_subgraph@,
            final(self).subgraph_info@ == old(self).subgraph_info@,
            final(self).node_layers@.len() == final(self).outgoing@.len(),
            layered(final(self).out(), final(self).back_edges@, final(self).node_layers@),
            forall|x: int|
                0 <= x < final(self).node_layers@.len() ==> #[trigger] final(self).node_layers@[x] < old(self).outgoing@.len(),
            forall|fin: Seq<int>, w: int|
                graph_ok(old(self).out(), old(self).inc(), old(self).back_edges@, fin) && 0 <= w
                    < old(self).outgoing@.len() ==> #[trigger] longest_path_layer(
                    old(self).inc(),
                    old(self).back_edges@,
                    fin,
                    w,
                ) == final(self).node_layers@[w],
    {
        let ghost out = self.out();
        let ghost inc = self.inc();
        let ghost back = self.back_edges@;
        let ghost fin = choose|fin: Seq<int>| graph_ok(out, inc, back, fin);
        let n = self.outgoing.len();
        let ghost none = Seq::new(n as nat, |i: int| false);
        // every node starts at layer 0
        let mut start_layers: Vec<usize> = Vec::new();
        let mut effective_incoming: Vec<Vec<usize>> = Vec::new();
        let mut i: usize = 0;
        while i < n
            invariant
                i <= n,
                start_layers@.len() == i,
                effective_incoming@.len() == i,
                forall|x: int| 0 <= x < i ==> #[trigger] start_layers@[x] == 0,
                forall|x: int| 0 <= x < i ==> (#[trigger] effective_incoming@[x])@.len() == 0,
            decreases n - i,
        {
            start_layers.push(0);
            effective_incoming.push(Vec::new());
            i = i + 1;
        }
        self.node_layers = start_layers;
        // the sources of the edges into each node, back edges left out
        let mut from: usize = 0;
        while from < n
            invariant
                out == self.out(),
                back == self.back_edges@,
                self.outgoing@ == old(self).outgoing@,
                self.incoming@ == old(self).incoming@,
                self.back_edges@ == old(self).back_edges@,
                self.layers@ == old(self).layers@,
                self.node_subgraph@ == old(self).node_subgraph@,
                self.subgraph_info@ == old(self).subgraph_info@,
                inc == self.inc(),
                targets_in_range(out),
                n == out.len(),
                none == Seq::new(n as nat, |i: int| false),
                from <= n,
                effective_incoming@.len() == n,
                forall|v: int, j: int|
                    0 <= v < n && 0 <= j < effective_incoming@[v]@.len() ==> #[trigger] effective_incoming@[v]@[j] < n,
                sources_ok(out, back, adj(effective_incoming@)),
                forall|v: int|
                    0 <= v < n ==> (#[trigger] effective_incoming@[v])@.len() == pending(out, back, none, v as usize, from as int),
            decreases n - from,
        {
            let targets = &self.outgoing[from];
            assert(targets@ == out[from as int]);
            let mut k: usize = 0;
            while k < targets.len()
                invariant
                    out == self.out(),
                    back == self.back_edges@,
                    self.outgoing@ == old(self).outgoing@,
                    self.incoming@ == old(self).incoming@,
                    self.back_edges@ == old(self).back_edges@,
                    self.layers@ == old(self).layers@,
                    self.node_subgraph@ == old(self).node_subgraph@,
                    self.subgraph_info@ == old(self).subgraph_info@,
                    inc == self.inc(),
                    targets@ == out[from as int],
                    targets_in_range(out),
                    n == out.len(),
                    none == Seq::new(n as nat, |i: int| false),
                    from < n,
                    k <= targets@.len(),
                    effective_incoming@.len() == n,
                    forall|v: int, j: int|
                        0 <= v < n && 0 <= j < effective_incoming@[v]@.len() ==> #[trigger] effective_incoming@[v]@[j] < n,
                    sources_ok(out, back, adj(effective_incoming@)),
                    forall|v: int|
                        0 <= v < n ==> (#[trigger] effective_incoming@[v])@.len() == pending(out, back, none, v as usize, from as int)
                            + if back.contains((from, v as usize)) {
                            0nat
                        } else {
                            occ(out[from as int], v as usize, k as int)
                        },
                decreases targets@.len() - k,
            {
                let to = targets[k];
                assert(to < n);
                proof {
                    assert forall|v: int| 0 <= v < n implies #[trigger] occ(out[from as int], v as usize, k + 1) == occ(out[from as int], v as usize, k as int)
                        + if out[from as int][k as int] == v as usize { 1nat } else { 0nat } by {
                        lemma_occ_step(out[from as int], v as usize, k as int);
                    }
                }
                if !edge_in(&self.back_edges, from, to) {
                    let ghost e0 = adj(effective_incoming@);
                    effective_incoming[to].push(from);
                    proof {
                        let e1 = adj(effective_incoming@);
                        assert(e1 == e0.update(to as int, e0[to as int].push(from)));
                        assert forall|v: int, j: int| 0 <= v < e1.len() && 0 <= j < e1[v].len() implies (#[trigger] e1[v][j] as int) < out.len()
                            && out[e1[v][j] as int].contains(v as usize) && !back.contains((e1[v][j], v as usize)) by {
                            if v == to && j == e0[v].len() {
                                assert(out[from as int][k as int] == to);
                            } else {
                                assert(e1[v][j] == e0[v][j]);
                            }
                        }
                    }
                }
                k = k + 1;
            }
            proof {
                assert forall|v: int| 0 <= v < n implies (#[trigger] effective_incoming@[v])@.len() == pending(out, back, none, v as usize, from + 1) by {
                    lemma_pending_step(out, back, none, v as usize, from as int);
                }
            }
            from = from + 1;
        }
        // longest paths from the nodes without incoming edges
        let mut in_degree: Vec<usize> = Vec::new();
        let mut v: usize = 0;
        while v < n
            invariant
                out == self.out(),
                back == self.back_edges@,
                self.outgoing@ == old(self).outgoing@,
                self.incoming@ == old(self).incoming@,
                self.back_edges@ == old(self).back_edges@,
                self.layers@ == old(self).layers@,
                self.node_subgraph@ == old(self).node_subgraph@,
                self.subgraph_info@ == old(self).subgraph_info@,
                inc == self.inc(),
                v <= n,
                effective_incoming@.len() == n,
                forall|v: int, j: int|
                    0 <= v < n && 0 <= j < effective_incoming@[v]@.len() ==> #[trigger] effective_incoming@[v]@[j] < n,
                sources_ok(out, back, adj(effective_incoming@)),
                forall|x: int|
                    0 <= x < n ==> (#[trigger] effective_incoming@[x])@.len() == pending(out, back, none, x as usize, n as int),
                in_degree@.len() == v,
                forall|x: int| 0 <= x < v ==> #[trigger] in_degree@[x] == effective_incoming@[x]@.len(),
            decreases n - v,
        {
            in_degree.push(effective_incoming[v].len());
            v = v + 1;
        }
        let mut queue: VecDeque<usize> = VecDeque::new();
        let mut idx: usize = 0;
        while idx < n
            invariant
                out == self.out(),
                back == self.back_edges@,
                self.outgoing@ == old(self).outgoing@,
                self.incoming@ == old(self).incoming@,
                self.back_edges@ == old(self).back_edges@,
                self.layers@ == old(self).layers@,
                self.node_subgraph@ == old(self).node_subgraph@,
                self.subgraph_info@ == old(self).subgraph_info@,
                inc == self.inc(),
                n == self.node_layers@.len(),
                idx <= n,
                in_degree@.len() == n,
                effective_incoming@.len() == n,
                forall|v: int, j: int|
                    0 <= v < n && 0 <= j < effective_incoming@[v]@.len() ==> #[trigger] effective_incoming@[v]@[j] < n,
                sources_ok(out, back, adj(effective_incoming@)),
                forall|x: int| 0 <= x < n ==> #[trigger] in_degree@[x] == pending(out, back, none, x as usize, n as int),
                forall|x: int| 0 <= x < n ==> #[trigger] in_degree@[x] == effective_incoming@[x]@.len(),
                forall|x: int| 0 <= x < n ==> #[trigger] self.node_layers@[x] == 0,
                forall|i: int| 0 <= i < queue@.len() ==> #[trigger] queue@[i] < idx && in_degree@[queue@[i] as int] == 0,
                forall|i: int, j: int| 0 <= i < j < queue@.len() ==> #[trigger] queue@[i] < #[trigger] queue@[j],
                forall|x: int| 0 <= x < idx && #[trigger] in_degree@[x] == 0 ==> queue@.contains(x as usize),
            decreases n - idx,
        {
            if in_degree[idx] == 0 {
                let ghost q0 = queue@;
                queue.push_back(idx);
                self.node_layers.set(idx, 0);
                proof {
                    assert forall|x: int| 0 <= x < idx + 1 && #[trigger] in_degree@[x] == 0 implies queue@.contains(x as usize) by {
                        if x < idx {
                            let i = choose|i: int| 0 <= i < q0.len() && q0[i] == x as usize;
                            assert(queue@[i] == x as usize);
                        } else {
                            assert(queue@[q0.len() as int] == x as usize);
                        }
                    }
                }
            }
            idx = idx + 1;
        }
        proof {
            if n > 0 {
                let t = lemma_top_numbered(fin, n as int);
                lemma_pending_zero(out, back, fin, none, t as usize, n as int);
                assert(in_degree@[t] == 0);
                assert(queue@.contains(t as usize));
            }
        }
        if queue.len() == 0 && n > 0 {
            queue.push_back(0);
            self.node_layers.set(0, 0);
            in_degree.set(0, 0);
        }
        let ghost mut done: Seq<bool> = none;
        proof {
            assert forall|x: int| 0 <= x < n implies #[trigger] self.node_layers@[x] <= longest_path_layer(inc, back, fin, x) by {
                lemma_forced_at_least_init(inc, back, fin, zero_layers(inc.len()), x, inc[x].len() as int);
            }
            lemma_count_false_all(n as nat);
            assert forall|x: int| 0 <= x < n implies #[trigger] in_degree@[x] == pending(out, back, done, x as usize, n as int) by {}
        }
        while queue.len() > 0
            invariant
                out == self.out(),
                inc == self.inc(),
                back == self.back_edges@,
                graph_ok(out, inc, back, fin),
                self.outgoing@ == old(self).outgoing@,
                self.incoming@ == old(self).incoming@,
                self.back_edges@ == old(self).back_edges@,
                self.layers@ == old(self).layers@,
                self.node_subgraph@ == old(self).node_subgraph@,
                self.subgraph_info@ == old(self).subgraph_info@,
                n == out.len(),
                n <= usize::MAX / 4,
                done.len() == n,
                in_degree@.len() == n,
                self.node_layers@.len() == n,
                effective_incoming@.len() == n,
                forall|v: int, j: int|
                    0 <= v < n && 0 <= j < effective_incoming@[v]@.len() ==> #[trigger] effective_incoming@[v]@[j] < n,
                sources_ok(out, back, adj(effective_incoming@)),
                forall|x: int| 0 <= x < n ==> #[trigger] in_degree@[x] == pending(out, back, done, x as usize, n as int),
                forall|i: int| 0 <= i < queue@.len() ==> #[trigger] queue@[i] < n && in_degree@[queue@[i] as int] == 0 && !done[queue@[i] as int],
                forall|i: int, j: int| 0 <= i < j < queue@.len() ==> #[trigger] queue@[i] != #[trigger] queue@[j],
                forall|x: int| 0 <= x < n && #[trigger] done[x] ==> in_degree@[x] == 0,
                forall|x: int| 0 <= x < n ==> #[trigger] self.node_layers@[x] + count_false(done) <= n,
                forall|x: int| 0 <= x < n ==> #[trigger] in_degree@[x] <= effective_incoming@[x]@.len(),
                forall|x: int| 0 <= x < n ==> #[trigger] self.node_layers@[x] <= longest_path_layer(inc, back, fin, x),
                count_false(done) <= n,
            decreases count_false(done),
        {
            let ghost q0 = queue@;
            assert(queue@[0] < n && in_degree@[queue@[0] as int] == 0 && !done[queue@[0] as int]);
            match queue.pop_front() {
                Some(node) => {
                    assert(q0[0] == node);
                    let ghost done0 = done;
                    proof {
                        lemma_count_false_set(done, node as int);
                        assert forall|x: int| 0 <= x < n implies #[trigger] pending(out, back, done0.update(node as int, true), x as usize, n as int)
                            + eff_occ(out, back, node as int, x as usize) == pending(out, back, done0, x as usize, n as int) by {
                            lemma_pending_mark(out, back, done0, x as usize, node as int, n as int);
                        }
                        lemma_pending_mark(out, back, done0, node, node as int, n as int);
                        done = done.update(node as int, true);
                        assert(eff_occ(out, back, node as int, node) == 0);
                        assert forall|i: int| 0 <= i < queue@.len() implies #[trigger] queue@[i] < n && in_degree@[queue@[i] as int] == 0 && !done[queue@[i] as int] by {
                            assert(queue@[i] == q0[i + 1]);
                            assert(q0[0] != q0[i + 1]);
                        }
                        assert forall|i: int, j: int| 0 <= i < j < queue@.len() implies #[trigger] queue@[i] != #[trigger] queue@[j] by {
                            assert(queue@[i] == q0[i + 1] && queue@[j] == q0[j + 1]);
                        }
                    }
                    let current_layer = self.node_layers[node];
                    let targets = &self.outgoing[node];
                    assert(targets@ == out[node as int]);
                    let mut k: usize = 0;
                    while k < targets.len()
                        invariant
                            out == self.out(),
                            back == self.back_edges@,
                            targets@ == out[node as int],
                            graph_ok(out, inc, back, fin),
                            self.outgoing@ == old(self).outgoing@,
                            self.incoming@ == old(self).incoming@,
                            self.back_edges@ == old(self).back_edges@,
                            self.layers@ == old(self).layers@,
                            self.node_subgraph@ == old(self).node_subgraph@,
                            self.subgraph_info@ == old(self).subgraph_info@,
                            n == out.len(),
                            node < n,
                            k <= targets@.len(),
                            done.len() == n,
                            done[node as int],
                            in_degree@.len() == n,
                            self.node_layers@.len() == n,
                            eff_occ(out, back, node as int, node) == 0,
                            current_layer == self.node_layers@[node as int],
                            current_layer + count_false(done) + 1 <= n,
                            forall|x: int|
                                0 <= x < n ==> #[trigger] in_degree@[x] == pending(out, back, done, x as usize, n as int) + if back.contains((node, x as usize)) {
                                    0nat
                                } else {
                                    (occ(out[node as int], x as usize, out[node as int].len() as int) - occ(out[node as int], x as usize, k as int)) as nat
                                },
                            forall|x: int| 0 <= x < n ==> occ(out[node as int], x as usize, k as int) <= #[trigger] occ(out[node as int], x as usize, out[node as int].len() as int),
                            forall|i: int| 0 <= i < queue@.len() ==> #[trigger] queue@[i] < n && in_degree@[queue@[i] as int] == 0 && !done[queue@[i] as int],
                            forall|i: int, j: int| 0 <= i < j < queue@.len() ==> #[trigger] queue@[i] != #[trigger] queue@[j],
                            forall|x: int| 0 <= x < n && #[trigger] done[x] ==> in_degree@[x] == 0,
                            forall|x: int| 0 <= x < n ==> #[trigger] self.node_layers@[x] + count_false(done) <= n,
                            forall|x: int| 0 <= x < n ==> #[trigger] in_degree@[x] <= effective_incoming@[x]@.len(),
                            forall|x: int| 0 <= x < n ==> #[trigger] self.node_layers@[x] <= longest_path_layer(inc, back, fin, x),
                            effective_incoming@.len() == n,
                            n <= usize::MAX,
                            inc == self.inc(),
                forall|x: int| 0 <= x < n ==> #[trigger] in_degree@[x] <= effective_incoming@[x]@.len(),
                forall|x: int| 0 <= x < n ==> #[trigger] self.node_layers@[x] <= longest_path_layer(inc, back, fin, x),
                        decreases targets@.len() - k,
                    {
                        let neighbor = targets[k];
                        proof {
                            assert(neighbor < n);
                            assert forall|x: int| 0 <= x < n implies #[trigger] occ(out[node as int], x as usize, k + 1) == occ(out[node as int], x as usize, k as int)
                                + if out[node as int][k as int] == x as usize { 1nat } else { 0nat } by {
                                lemma_occ_step(out[node as int], x as usize, k as int);
                            }
                            lemma_occ_mono(out[node as int], neighbor, k + 1, out[node as int].len() as int);
                        }
                        if !edge_in(&self.back_edges, node, neighbor) {
                            proof {
                                lemma_longest_step(out, inc, back, fin, node as int, k as int);
                            }
                            assert(neighbor != node);
                            assert(in_degree@[neighbor as int] >= 1);
                            if self.node_layers[neighbor] < current_layer + 1 {
                                self.node_layers.set(neighbor, current_layer + 1);
                            }
                            let d = in_degree[neighbor] - 1;
                            in_degree.set(neighbor, d);
                            if d == 0 {
                                let ghost qb = queue@;
                                queue.push_back(neighbor);
                                proof {
                                    assert forall|i: int| 0 <= i < queue@.len() implies #[trigger] queue@[i] < n && in_degree@[queue@[i] as int] == 0 && !done[queue@[i] as int] by {
                                        if i < qb.len() {
                                            assert(queue@[i] == qb[i]);
                                        }
                                    }
                                    assert forall|i: int, j: int| 0 <= i < j < queue@.len() implies #[trigger] queue@[i] != #[trigger] queue@[j] by {
                                        if j < qb.len() {
                                            assert(queue@[i] == qb[i] && queue@[j] == qb[j]);
                                        } else {
                                            assert(queue@[i] == qb[i]);
                                        }
                                    }
                                }
                            }
                        }
                        proof {
                            assert forall|x: int| 0 <= x < n implies occ(out[node as int], x as usize, k + 1) <= #[trigger] occ(out[node as int], x as usize, out[node as int].len() as int) by {
                                lemma_occ_mono(out[node as int], x as usize, k + 1, out[node as int].len() as int);
                            }
                        }
                        k = k + 1;
                    }
                },
                None => {},
            }
        }
        // nodes the queue never reached
        let mut idx: usize = 0;
        while idx < n
            invariant
                self.outgoing@ == old(self).outgoing@,
                self.incoming@ == old(self).incoming@,
                self.back_edges@ == old(self).back_edges@,
                self.layers@ == old(self).layers@,
                self.node_subgraph@ == old(self).node_subgraph@,
                self.subgraph_info@ == old(self).subgraph_info@,
                n == out.len(),
                n <= usize::MAX / 4,
                idx <= n,
                in_degree@.len() == n,
                self.node_layers@.len() == n,
                effective_incoming@.len() == n,
                forall|v: int, j: int|
                    0 <= v < n && 0 <= j < effective_incoming@[v]@.len() ==> #[trigger] effective_incoming@[v]@[j] < n,
                sources_ok(out, back, adj(effective_incoming@)),
                forall|x: int| 0 <= x < n ==> #[trigger] self.node_layers@[x] <= n + idx,
                forall|x: int| 0 <= x < n ==> #[trigger] in_degree@[x] <= effective_incoming@[x]@.len(),
                forall|x: int| 0 <= x < n ==> #[trigger] self.node_layers@[x] <= longest_path_layer(inc, back, fin, x),
                out == self.out(),
                inc == self.inc(),
                back == self.back_edges@,
                graph_ok(out, inc, back, fin),
                sources_ok(out, back, adj(effective_incoming@)),
            decreases n - idx,
        {
            if in_degree[idx] > 0 {
                let preds = &effective_incoming[idx];
                proof {
                    let e = adj(effective_incoming@);
                    assert(e[idx as int].len() > 0);
                    let u = e[idx as int][0];
                    assert(out[u as int].contains(idx as usize) && !back.contains((u, idx as usize)));
                    let k = choose|k: int| 0 <= k < out[u as int].len() && out[u as int][k] == idx as usize;
                    lemma_longest_step(out, inc, back, fin, u as int, k);
                    lemma_forced_at_least_init(inc, back, fin, zero_layers(inc.len()), u as int, inc[u as int].len() as int);
                }
                let mut max_pred_layer: usize = 0;
                let mut j: usize = 0;
                while j < preds.len()
                    invariant
                        preds@ == effective_incoming@[idx as int]@,
                        idx < n,
                        j <= preds@.len(),
                        in_degree@.len() == n,
                        self.node_layers@.len() == n,
                        forall|jj: int| 0 <= jj < preds@.len() ==> #[trigger] preds@[jj] < n,
                        forall|x: int| 0 <= x < n ==> #[trigger] self.node_layers@[x] <= n + idx,
                        max_pred_layer <= n + idx,
                        forall|x: int| 0 <= x < n ==> #[trigger] self.node_layers@[x] <= longest_path_layer(inc, back, fin, x),
                        max_pred_layer + 1 <= longest_path_layer(inc, back, fin, idx as int),
                        out == self.out(),
                        inc == self.inc(),
                        back == self.back_edges@,
                        graph_ok(out, inc, back, fin),
                        sources_ok(out, back, adj(effective_incoming@)),
                        n == out.len(),
                        n <= usize::MAX,
                        effective_incoming@.len() == n,
                    decreases preds@.len() - j,
                {
                    let pred = preds[j];
                    proof {
                        let e = adj(effective_incoming@);
                        assert(e[idx as int][j as int] == pred);
                        assert(out[pred as int].contains(idx as usize) && !back.contains((pred, idx as usize)));
                        let k = choose|k: int| 0 <= k < out[pred as int].len() && out[pred as int][k] == idx as usize;
                        lemma_longest_step(out, inc, back, fin, pred as int, k);
                    }
                    if in_degree[pred] == 0 || self.node_layers[pred] > 0 {
                        if self.node_layers[pred] > max_pred_layer {
                            max_pred_layer = self.node_layers[pred];
                        }
                    }
                    j = j + 1;
                }
                self.node_layers.set(idx, max_pred_layer + 1);
            }
            idx = idx + 1;
        }
        proof {
            assert forall|x: int| 0 <= x < n implies #[trigger] self.node_layers@[x] <= 2 * n by {}
            assert(graph_ok(self.out(), self.inc(), self.back_edges@, fin));
        }
        self.cluster_subgraph_layers(Ghost(fin));
        proof {
            assert forall|x: int| 0 <= x < n implies #[trigger] self.node_layers@[x] < n by {
                lemma_forced_bounds(out, inc, back, fin, zero_layers(inc.len()), 0, x, inc[x].len() as int);
            }
            assert forall|fin2: Seq<int>, w: int| graph_ok(out, inc, back, fin2) && 0 <= w < n implies #[trigger] longest_path_layer(
                inc,
                back,
                fin2,
                w,
            ) == self.node_layers@[w] by {
                lemma_forced_unique(out, inc, back, fin, fin2, zero_layers(inc.len()), w);
            }
        }
    }

    /// The edges of a flowchart by node number: each edge whose endpoints
    /// both name a node (the last node with that id) is a target of its
    /// source and a source of its target, in edge order. No back edges yet,
    /// every node in layer 0, no layers.
    pub fn from_flowchart(flowchart: &Flowchart) -> (g: LayerGraph)
        ensures
            g.outgoing@.len() == flowchart.nodes@.len(),
            forall|u: int|
                0 <= u < g.outgoing@.len() ==> #[trigger] g.out()[u] == out_of(
                    ids_of(flowchart.nodes@),
                    ends_of(flowchart.edges@),
                    u,
                ),
            forall|w: int|
                0 <= w < g.outgoing@.len() ==> #[trigger] g.inc()[w] == inc_of(
                    ids_of(flowchart.nodes@),
                    ends_of(flowchart.edges@),
                    w,
                ),
            targets_in_range(g.out()),
            transposed(g.out(), g.inc()),
            g.back_edges@.len() == 0,
            g.node_layers@.len() == g.outgoing@.len(),
            forall|x: int| 0 <= x < g.node_layers@.len() ==> #[trigger] g.node_layers@[x] == 0,
            g.layers@.len() == 0,
            g.node_subgraph@.len() == g.outgoing@.len(),
            forall|x: int|
                0 <= x < g.node_subgraph@.len() ==> #[trigger] opt_strs(g.node_subgraph@)[x] == holder(
                    ids_of(flowchart.nodes@),
                    subs_of(flowchart.subgraphs@),
                    x,
                    flowchart.subgraphs@.len() as int,
                ),
            info_view(g.subgraph_info@) == info_of(
                ids_of(flowchart.nodes@),
                subs_of(flowchart.subgraphs@),
                flowchart.subgraphs@.len() as int,
            ),
            names_once(ids_of(flowchart.nodes@), subs_of(flowchart.subgraphs@)) ==> clusters_ok(
                info_view(g.subgraph_info@),
                g.outgoing@.len() as int,
            ),
    {
        let ghost ids = ids_of(flowchart.nodes@);
        let ghost ends = ends_of(flowchart.edges@);
        let n = flowchart.nodes.len();
        let mut outgoing: Vec<Vec<usize>> = Vec::new();
        let mut incoming: Vec<Vec<usize>> = Vec::new();
        let mut node_layers: Vec<usize> = Vec::new();
        let mut i: usize = 0;
        while i < n
            invariant
                i <= n,
                outgoing@.len() == i,
                incoming@.len() == i,
                node_layers@.len() == i,
                forall|x: int| 0 <= x < i ==> (#[trigger] outgoing@[x])@ == Seq::<usize>::empty(),
                forall|x: int| 0 <= x < i ==> (#[trigger] incoming@[x])@ == Seq::<usize>::empty(),
                forall|x: int| 0 <= x < i ==> #[trigger] node_layers@[x] == 0,
            decreases n - i,
        {
            outgoing.push(Vec::new());
            incoming.push(Vec::new());
            node_layers.push(0);
            i = i + 1;
        }
        proof {
            assert forall|u: int| 0 <= u < n implies #[trigger] adj(outgoing@)[u] == out_of(ids, ends.take(0), u) by {}
            assert forall|w: int| 0 <= w < n implies #[trigger] adj(incoming@)[w] == inc_of(ids, ends.take(0), w) by {}
        }
        let mut e: usize = 0;
        while e < flowchart.edges.len()
            invariant
                ids == ids_of(flowchart.nodes@),
                ends == ends_of(flowchart.edges@),
                n == ids.len(),
                e <= ends.len(),
                outgoing@.len() == n,
                incoming@.len() == n,
                node_layers@.len() == n,
                forall|x: int| 0 <= x < n ==> #[trigger] node_layers@[x] == 0,
                forall|u: int| 0 <= u < n ==> #[trigger] adj(outgoing@)[u] == out_of(ids, ends.take(e as int), u),
                forall|w: int| 0 <= w < n ==> #[trigger] adj(incoming@)[w] == inc_of(ids, ends.take(e as int), w),
                targets_in_range(adj(outgoing@)),
                transposed(adj(outgoing@), adj(incoming@)),
            decreases ends.len() - e,
        {
            let ghost o0 = adj(outgoing@);
            let ghost i0 = adj(incoming@);
            proof {
                assert(ends.take(e + 1).drop_last() =~= ends.take(e as int));
                assert(ends.take(e + 1).last() == ends[e as int]);
            }
            let edge = &flowchart.edges[e];
            let f = last_index_of(&flowchart.nodes, &edge.from);
            let t = last_index_of(&flowchart.nodes, &edge.to);
            proof {
                lemma_last_pos(ids, edge.from@);
                lemma_last_pos(ids, edge.to@);
            }
            match (f, t) {
                (Some(fi), Some(ti)) => {
                    outgoing[fi].push(ti);
                    incoming[ti].push(fi);
                    proof {
                        let o1 = adj(outgoing@);
                        let i1 = adj(incoming@);
                        assert(o1 == o0.update(fi as int, o0[fi as int].push(ti)));
                        assert(i1 == i0.update(ti as int, i0[ti as int].push(fi)));
                        assert forall|u: int, k: int| 0 <= u < o1.len() && 0 <= k < o1[u].len() implies #[trigger] o1[u][k] < o1.len() by {
                            if u == fi && k == o0[u].len() {
                            } else {
                                assert(o1[u][k] == o0[u][k]);
                            }
                        }
                        assert forall|w: int, j: int|
                            0 <= w < i1.len() && 0 <= j < i1[w].len() implies #[trigger] i1[w][j] < o1.len() && o1[i1[w][j] as int].contains(
                            w as usize) by {
                            if w == ti && j == i0[w].len() {
                                assert(o1[fi as int][o0[fi as int].len() as int] == ti);
                            } else {
                                assert(i1[w][j] == i0[w][j]);
                                let u = i0[w][j] as int;
                                let k = choose|k: int| 0 <= k < o0[u].len() && o0[u][k] == w as usize;
                                assert(o1[u][k] == w as usize);
                            }
                        }
                        assert forall|u: int, k: int| 0 <= u < o1.len() && 0 <= k < o1[u].len() implies i1[#[trigger] o1[u][k] as int].contains(
                            u as usize) by {
                            if u == fi && k == o0[u].len() {
                                assert(i1[ti as int][i0[ti as int].len() as int] == fi);
                            } else {
                                assert(o1[u][k] == o0[u][k]);
                                let w = o0[u][k] as int;
                                let j = choose|j: int| 0 <= j < i0[w].len() && i0[w][j] == u as usize;
                                assert(i1[w][j] == u as usize);
                            }
                        }
                    }
                },
                _ => {},
            }
            e = e + 1;
        }
        proof {
            assert(ends.take(e as int) =~= ends);
        }
        let ghost subs = subs_of(flowchart.subgraphs@);
        let mut node_subgraph: Vec<Option<String>> = Vec::new();
        let mut i: usize = 0;
        while i < n
            invariant
                i <= n,
                node_subgraph@.len() == i,
                forall|x: int| 0 <= x < i ==> #[trigger] node_subgraph@[x] is None,
            decreases n - i,
        {
            node_subgraph.push(None);
            i = i + 1;
        }
        let mut subgraph_info: Vec<(String, Vec<usize>)> = Vec::new();
        let mut s: usize = 0;
        while s < flowchart.subgraphs.len()
            invariant
                ids == ids_of(flowchart.nodes@),
                subs == subs_of(flowchart.subgraphs@),
                n == ids.len(),
                s <= subs.len(),
                node_subgraph@.len() == n,
                forall|x: int| 0 <= x < n ==> #[trigger] opt_strs(node_subgraph@)[x] == holder(ids, subs, x, s as int),
                info_view(subgraph_info@) == info_of(ids, subs, s as int),
            decreases subs.len() - s,
        {
            let subgraph = &flowchart.subgraphs[s];
            let ghost names = strings_view(subgraph.node_ids@);
            assert(names == subs[s as int].1);
            let mut node_indices: Vec<usize> = Vec::new();
            let mut j: usize = 0;
            while j < subgraph.node_ids.len()
                invariant
                    ids == ids_of(flowchart.nodes@),
                    subs == subs_of(flowchart.subgraphs@),
                    names == strings_view(subgraph.node_ids@),
                    names == subs[s as int].1,
                    subgraph.id@ == subs[s as int].0,
                    n == ids.len(),
                    s < subs.len(),
                    j <= names.len(),
                    node_subgraph@.len() == n,
                    node_indices@ == named_nodes(ids, names.take(j as int)),
                    forall|x: int|
                        0 <= x < n ==> #[trigger] opt_strs(node_subgraph@)[x] == if holder(ids, subs, x, s as int) is Some {
                            holder(ids, subs, x, s as int)
                        } else if names_node(ids, names.take(j as int), x) {
                            Some(subs[s as int].0)
                        } else {
                            None
                        },
                decreases names.len() - j,
            {
                proof {
                    assert(names.take(j + 1).drop_last() =~= names.take(j as int));
                    assert(names.take(j + 1).last() == names[j as int]);
                    lemma_last_pos(ids, names[j as int]);
                }
                let ghost ns0 = opt_strs(node_subgraph@);
                assert forall|x: int| 0 <= x < n implies #[trigger] ns0[x] == if holder(ids, subs, x, s as int) is Some {
                    holder(ids, subs, x, s as int)
                } else if names_node(ids, names.take(j as int), x) {
                    Some(subs[s as int].0)
                } else {
                    None
                } by {
                    assert(ns0[x] == opt_strs(node_subgraph@)[x]);
                }
                let r = last_index_of(&flowchart.nodes, &subgraph.node_ids[j]);
                assert(names[j as int] == subgraph.node_ids@[j as int]@);
                match r {
                    Some(idx) => {
                        node_indices.push(idx);
                        if node_subgraph[idx].is_none() {
                            let c = subgraph.id.clone();
                            node_subgraph.set(idx, Some(c));
                            assert(opt_strs(node_subgraph@)[idx as int] == Some(subs[s as int].0));
                        } else {
                            assert(opt_strs(node_subgraph@)[idx as int] == ns0[idx as int]);
                        }
                    },
                    None => {},
                }
                proof {
                    let t0 = names.take(j as int);
                    let t1 = names.take(j + 1);
                    assert forall|x: int| 0 <= x < n implies #[trigger] opt_strs(node_subgraph@)[x] == if holder(ids, subs, x, s as int) is Some {
                        holder(ids, subs, x, s as int)
                    } else if names_node(ids, t1, x) {
                        Some(subs[s as int].0)
                    } else {
                        None
                    } by {
                        assert(ns0[x] == ns0[x]);
                        if names_node(ids, t0, x) {
                            let w = choose|w: int| 0 <= w < t0.len() && last_pos(ids, #[trigger] t0[w]) == x;
                            assert(t1[w] == t0[w]);
                            assert(names_node(ids, t1, x));
                        }
                        if names_node(ids, t1, x) && !names_node(ids, t0, x) {
                            let w = choose|w: int| 0 <= w < t1.len() && last_pos(ids, #[trigger] t1[w]) == x;
                            if w < j {
                                assert(t0[w] == t1[w]);
                            }
                            assert(w == j);
                            assert(last_pos(ids, names[j as int]) == x);
                        }
                        if last_pos(ids, names[j as int]) == x {
                            assert(t1[j as int] == names[j as int]);
                            assert(names_node(ids, t1, x));
                        }
                        match r {
                            Some(idx) => {
                                if x != idx {
                                    assert(opt_strs(node_subgraph@)[x] == ns0[x]);
                                } else {
                                    assert(last_pos(ids, names[j as int]) == x);
                                    assert(names_node(ids, t1, x));
                                }
                            },
                            None => {
                                assert(opt_strs(node_subgraph@)[x] == ns0[x]);
                                assert(last_pos(ids, names[j as int]) == -1);
                            },
                        }
                    }
                }
                j = j + 1;
            }
            proof {
                assert(names.take(j as int) =~= names);
                assert forall|x: int| 0 <= x < n implies #[trigger] opt_strs(node_subgraph@)[x] == holder(ids, subs, x, s + 1) by {}
            }
            put_info(&mut subgraph_info, subgraph.id.clone(), node_indices);
            s = s + 1;
        }
        proof {
            let info = info_of(ids, subs, subs.len() as int);
            lemma_info_of(ids, subs, subs.len() as int);
            assert forall|i: int, k: int| 0 <= i < info.len() && 0 <= k < info[i].1.len() implies #[trigger] info[i].1[k] < n by {
                let j = choose|j: int| 0 <= j < subs.len() && info[i].1 == named_nodes(ids, subs[j].1);
                lemma_named_nodes_range(ids, subs[j].1);
            }
            if names_once(ids, subs) {
                assert forall|i: int| 0 <= i < info.len() implies no_repeats(#[trigger] info[i].1) by {
                    let j = choose|j: int| 0 <= j < subs.len() && info[i].1 == named_nodes(ids, subs[j].1);
                    assert(no_repeats(named_nodes(ids, subs[j].1)));
                }
            }
        }
        LayerGraph {
            outgoing,
            incoming,
            back_edges: Vec::new(),
            node_layers,
            layers: Vec::new(),
            node_subgraph,
            subgraph_info,
        }
    }

    /// Layers of the nodes of a subgraph relative to one another, from the
    /// edges between them only: the longest such path from a node with no
    /// such incoming edge, taking nodes in queue order.
    fn compute_subgraph_relative_layers(&self, nodes: &Vec<usize>, Ghost(fin): Ghost<Seq<int>>) -> (r: Vec<usize>)
        requires
            graph_ok(self.out(), self.inc(), self.back_edges@, fin),
            forall|i: int| 0 <= i < nodes@.len() ==> #[trigger] nodes@[i] < self.out().len(),
            no_repeats(nodes@),
        ensures
            r@.len() == nodes@.len(),
            forall|i: int| 0 <= i < r@.len() ==> #[trigger] r@[i] < self.out().len(),
            forall|i: int|
                0 <= i < r@.len() ==> #[trigger] r@[i] + min_forced(self.inc(), self.back_edges@, fin, nodes@)
                    <= longest_path_layer(self.inc(), self.back_edges@, fin, nodes@[i] as int),
    {
        let ghost out = self.out();
        let ghost inc = self.inc();
        let ghost back = self.back_edges@;
        let m = nodes.len();
        if m == 0 {
            return Vec::new();
        }
        let ghost n = out.len();
        let total = self.outgoing.len();
        assert(n == total);
        // edges between the subgraph's nodes, per node
        let mut in_degree: Vec<usize> = Vec::new();
        let mut a: usize = 0;
        while a < m
            invariant
                out == self.out(),
                inc == self.inc(),
                back == self.back_edges@,
                graph_ok(out, inc, back, fin),
                m == nodes@.len(),
                forall|i: int| 0 <= i < m ==> #[trigger] nodes@[i] < out.len(),
                no_repeats(nodes@),
                a <= m,
                in_degree@.len() == a,
            decreases m - a,
        {
            let node = nodes[a];
            let preds = &self.incoming[node];
            let mut count: usize = 0;
            let mut j: usize = 0;
            while j < preds.len()
                invariant
                    preds@ == inc[node as int],
                    j <= preds@.len(),
                    count <= j,
                decreases preds@.len() - j,
            {
                let pred = preds[j];
                if local_index(nodes, pred).is_some() && !edge_in(&self.back_edges, pred, node) {
                    count = count + 1;
                }
                j = j + 1;
            }
            in_degree.push(count);
            a = a + 1;
        }
        let mut relative_layers: Vec<usize> = Vec::new();
        let mut queue: VecDeque<usize> = VecDeque::new();
        let mut i: usize = 0;
        while i < m
            invariant
                i <= m,
                m == nodes@.len(),
                in_degree@.len() == m,
                relative_layers@.len() == i,
                forall|k: int| 0 <= k < i ==> #[trigger] relative_layers@[k] == 0,
                forall|k: int| 0 <= k < queue@.len() ==> #[trigger] queue@[k] < m,
            decreases m - i,
        {
            relative_layers.push(0);
            if in_degree[i] == 0 {
                queue.push_back(i);
            }
            i = i + 1;
        }
        if queue.len() == 0 && m > 0 {
            queue.push_back(0);
        }
        let ghost b: nat = max_out(out, n as int) + 1;
        let ghost m0 = min_forced(inc, back, fin, nodes@);
        proof {
            lemma_min_forced(inc, back, fin, nodes@);
            assert forall|k: int| 0 <= k < m implies #[trigger] relative_layers@[k] + m0 <= longest_path_layer(inc, back, fin, nodes@[k] as int) by {
                assert(min_forced(inc, back, fin, nodes@) <= longest_path_layer(inc, back, fin, nodes@[k] as int));
            }
            assert forall|k: int| 0 <= k < m implies #[trigger] relative_layers@[k] + fin[nodes@[k] as int] < n by {
                assert(0 <= fin[nodes@[k] as int] < fin.len());
            }
        }
        while queue.len() > 0
            invariant
                out == self.out(),
                inc == self.inc(),
                back == self.back_edges@,
                graph_ok(out, inc, back, fin),
                n == out.len(),
                n <= usize::MAX,
                b == max_out(out, n as int) + 1,
                m == nodes@.len(),
                forall|k: int| 0 <= k < m ==> #[trigger] nodes@[k] < n,
                in_degree@.len() == m,
                relative_layers@.len() == m,
                forall|k: int| 0 <= k < queue@.len() ==> #[trigger] queue@[k] < m,
                forall|k: int| 0 <= k < m ==> #[trigger] relative_layers@[k] + fin[nodes@[k] as int] < n,
                m0 == min_forced(inc, back, fin, nodes@),
                forall|k: int| 0 <= k < m ==> #[trigger] relative_layers@[k] + m0 <= longest_path_layer(inc, back, fin, nodes@[k] as int),
            decreases queue_weight(queue@, nodes@, fin, b),
        {
            let ghost q0 = queue@;
            proof {
                lemma_queue_weight_front(q0, nodes@, fin, b);
            }
            match queue.pop_front() {
                Some(local_i) => {
                    let node = nodes[local_i];
                    let current_layer = relative_layers[local_i];
                    assert(current_layer + m0 <= longest_path_layer(inc, back, fin, node as int));
                    let ghost v = fin[node as int];
                    assert(0 <= v < n);
                    let ghost w0 = queue_weight(queue@, nodes@, fin, b);
                    let targets = &self.outgoing[node];
                    assert(targets@ == out[node as int]);
                    proof {
                        lemma_max_out(out, n as int, node as int);
                    }
                    let mut k: usize = 0;
                    while k < targets.len()
                        invariant
                            out == self.out(),
                            inc == self.inc(),
                            back == self.back_edges@,
                            graph_ok(out, inc, back, fin),
                            n == out.len(),
                            b == max_out(out, n as int) + 1,
                            targets@ == out[node as int],
                            targets@.len() < b,
                            node < n,
                            v == fin[node as int],
                            0 <= v < n,
                            n <= usize::MAX,
                            m == nodes@.len(),
                            forall|kk: int| 0 <= kk < m ==> #[trigger] nodes@[kk] < n,
                            in_degree@.len() == m,
                            relative_layers@.len() == m,
                            current_layer + v < n,
                            forall|kk: int| 0 <= kk < queue@.len() ==> #[trigger] queue@[kk] < m,
                            forall|kk: int| 0 <= kk < m ==> #[trigger] relative_layers@[kk] + fin[nodes@[kk] as int] < n,
                            m0 == min_forced(inc, back, fin, nodes@),
                            forall|kk: int| 0 <= kk < m ==> #[trigger] relative_layers@[kk] + m0 <= longest_path_layer(inc, back, fin, nodes@[kk] as int),
                            current_layer + m0 <= longest_path_layer(inc, back, fin, node as int),
                            k <= targets@.len(),
                            v == 0 ==> queue_weight(queue@, nodes@, fin, b) == w0,
                            v > 0 ==> queue_weight(queue@, nodes@, fin, b) <= w0 + k * weight(b, (v - 1) as nat),
                        decreases targets@.len() - k,
                    {
                        let succ = targets[k];
                        match local_index(nodes, succ) {
                            Some(succ_local) => {
                                if !edge_in(&self.back_edges, node, succ) {
                                    proof {
                                        assert(!back.contains((node, out[node as int][k as int])));
                                        assert(fin[succ as int] < fin[node as int]);
                                        assert(0 <= fin[succ as int]);
                                        lemma_longest_step(out, inc, back, fin, node as int, k as int);
                                    }
                                    if relative_layers[succ_local] < current_layer + 1 {
                                        relative_layers.set(succ_local, current_layer + 1);
                                    }
                                    let d = in_degree[succ_local].saturating_sub(1);
                                    in_degree.set(succ_local, d);
                                    if d == 0 {
                                        let ghost qb = queue@;
                                        queue.push_back(succ_local);
                                        proof {
                                            assert(queue@.drop_last() =~= qb);
                                            lemma_weight_mono(b, fin[succ as int] as nat, (v - 1) as nat);
                                            assert(k * weight(b, (v - 1) as nat) + weight(b, (v - 1) as nat) == (k + 1) * weight(b, (v - 1) as nat)) by (nonlinear_arith);
                                        }
                                    }
                                }
                            },
                            None => {},
                        }
                        proof {
                            if v > 0 {
                                assert(k * weight(b, (v - 1) as nat) <= (k + 1) * weight(b, (v - 1) as nat)) by (nonlinear_arith);
                            }
                        }
                        k = k + 1;
                    }
                    proof {
                        if v > 0 {
                            lemma_weight_room(b, v as nat, targets@.len() as nat);
                        }
                    }
                },
                None => {},
            }
        }
        relative_layers
    }

    /// Whether node `idx` is held directly by the subgraph `id`.
    fn held_by(&self, idx: usize, id: &String) -> (b: bool)
        requires
            idx < self.node_subgraph@.len(),
        ensures
            b == (opt_strs(self.node_subgraph@)[idx as int] == Some(id@)),
    {
        match &self.node_subgraph[idx] {
            Some(sid) => *sid == *id,
            None => false,
        }
    }

    /// Keep the nodes held directly by each subgraph in consecutive layers:
    /// from the lowest layer among them, each gets that layer plus its layer
    /// relative to the others; then layers are raised until every edge
    /// outside the back edges goes down. Subgraphs hold no node in common,
    /// so the order they are taken in does not matter.
    fn cluster_subgraph_layers(&mut self, Ghost(fin): Ghost<Seq<int>>)
        requires
            graph_ok(old(self).out(), old(self).inc(), old(self).back_edges@, fin),
            old(self).outgoing@.len() <= usize::MAX / 4,
            old(self).node_layers@.len() == old(self).outgoing@.len(),
            old(self).node_subgraph@.len() == old(self).outgoing@.len(),
            clusters_ok(info_view(old(self).subgraph_info@), old(self).outgoing@.len() as int),
            forall|x: int|
                0 <= x < old(self).node_layers@.len() ==> #[trigger] old(self).node_layers@[x] <= 2 * old(
                    self,
                ).outgoing@.len(),
            forall|x: int|
                0 <= x < old(self).node_layers@.len() ==> #[trigger] old(self).node_layers@[x] <= longest_path_layer(
                    old(self).inc(),
                    old(self).back_edges@,
                    fin,
                    x,
                ),
        ensures
            final(self).outgoing@ == old(self).outgoing@,
            final(self).incoming@ == old(self).incoming@,
            final(self).back_edges@ == old(self).back_edges@,
            final(self).layers@ == old(self).layers@,
            final(self).node_subgraph@ == old(self).node_subgraph@,
            final(self).subgraph_info@ == old(self).subgraph_info@,
            final(self).node_layers@.len() == old(self).outgoing@.len(),
            layered(final(self).out(), final(self).back_edges@, final(self).node_layers@),
            forall|x: int|
                0 <= x < final(self).node_layers@.len() ==> #[trigger] final(self).node_layers@[x] <= 4 * old(
                    self,
                ).outgoing@.len(),
            forall|x: int|
                0 <= x < final(self).node_layers@.len() ==> #[trigger] final(self).node_layers@[x] == longest_path_layer(
                    old(self).inc(),
                    old(self).back_edges@,
                    fin,
                    x,
                ),
    {
        let ghost out = self.out();
        let ghost inc = self.inc();
        let ghost back = self.back_edges@;
        let ghost info = info_view(self.subgraph_info@);
        let ghost subs_of_node = opt_strs(self.node_subgraph@);
        let n = self.outgoing.len();
        let mut s: usize = 0;
        while s < self.subgraph_info.len()
            invariant
                out == self.out(),
                inc == self.inc(),
                back == self.back_edges@,
                info == info_view(self.subgraph_info@),
                subs_of_node == opt_strs(self.node_subgraph@),
                graph_ok(out, inc, back, fin),
                self.outgoing@ == old(self).outgoing@,
                self.incoming@ == old(self).incoming@,
                self.back_edges@ == old(self).back_edges@,
                self.layers@ == old(self).layers@,
                self.node_subgraph@ == old(self).node_subgraph@,
                self.subgraph_info@ == old(self).subgraph_info@,
                n == out.len(),
                n <= usize::MAX / 4,
                self.node_layers@.len() == n,
                subs_of_node.len() == n,
                clusters_ok(info, n as int),
                s <= info.len(),
                forall|x: int| 0 <= x < n ==> #[trigger] self.node_layers@[x] <= 3 * n,
                forall|x: int|
                    0 <= x < n && (subs_of_node[x] is None || key_index(info, subs_of_node[x]->0) < 0 || key_index(
                        info,
                        subs_of_node[x]->0,
                    ) >= s) ==> #[trigger] self.node_layers@[x] <= 2 * n,
                forall|x: int| 0 <= x < n ==> #[trigger] self.node_layers@[x] <= longest_path_layer(inc, back, fin, x),
            decreases info.len() - s,
        {
            let ghost id = info[s as int].0;
            let ghost list = info[s as int].1;
            proof {
                lemma_key_index(info, id);
                assert forall|j: int| 0 <= j < info.len() && info[j].0 == id implies j == s by {
                    if j != s {
                        if j < s {
                            assert(info[j].0 != info[s as int].0);
                        } else {
                            assert(info[s as int].0 != info[j].0);
                        }
                    }
                }
                assert(key_index(info, id) == s);
            }
            let node_indices = &self.subgraph_info[s].1;
            assert(node_indices@ == list);
            let mut subgraph_nodes: Vec<usize> = Vec::new();
            let mut i: usize = 0;
            while i < node_indices.len()
                invariant
                    node_indices@ == list,
                    list == info[s as int].1,
                    id == info[s as int].0,
                    s < info.len(),
                    clusters_ok(info, n as int),
                    subs_of_node == opt_strs(self.node_subgraph@),
                    subs_of_node.len() == n,
                    self.subgraph_info@ == old(self).subgraph_info@,
                    info == info_view(self.subgraph_info@),
                    i <= list.len(),
                    forall|k: int| 0 <= k < subgraph_nodes@.len() ==> #[trigger] subgraph_nodes@[k] < n && subs_of_node[subgraph_nodes@[k] as int]
                        == Some(id) && list.take(i as int).contains(subgraph_nodes@[k]),
                    no_repeats(subgraph_nodes@),
                decreases list.len() - i,
            {
                let idx = node_indices[i];
                assert(idx < n);
                if self.held_by(idx, &self.subgraph_info[s].0) {
                    let ghost sn = subgraph_nodes@;
                    subgraph_nodes.push(idx);
                    proof {
                        assert forall|k: int| 0 <= k < sn.len() implies #[trigger] sn[k] != idx by {
                            let p = choose|p: int| 0 <= p < i && list.take(i as int)[p] == sn[k];
                            assert(list[p] == sn[k]);
                            assert(no_repeats(list));
                            assert(list[p] != list[i as int]);
                        }
                    }
                }
                proof {
                    assert forall|k: int| 0 <= k < subgraph_nodes@.len() implies list.take(i + 1).contains(#[trigger] subgraph_nodes@[k]) by {
                        if list.take(i as int).contains(subgraph_nodes@[k]) {
                            let p = choose|p: int| 0 <= p < i && list.take(i as int)[p] == subgraph_nodes@[k];
                            assert(list.take(i + 1)[p] == subgraph_nodes@[k]);
                        } else {
                            assert(subgraph_nodes@[k] == list[i as int]);
                            assert(list.take(i + 1)[i as int] == list[i as int]);
                        }
                    }
                }
                i = i + 1;
            }
            if subgraph_nodes.len() > 0 {
                let mut min_layer: usize = self.node_layers[subgraph_nodes[0]];
                let mut k: usize = 1;
                while k < subgraph_nodes.len()
                    invariant
                        k <= subgraph_nodes@.len(),
                        self.node_layers@.len() == n,
                        forall|kk: int| 0 <= kk < subgraph_nodes@.len() ==> #[trigger] subgraph_nodes@[kk] < n,
                        exists|kk: int| 0 <= kk < subgraph_nodes@.len() && #[trigger] subgraph_nodes@[kk] < n && self.node_layers@[subgraph_nodes@[kk] as int] == min_layer,
                        forall|kk: int| 0 <= kk < k ==> min_layer <= self.node_layers@[#[trigger] subgraph_nodes@[kk] as int],
                    decreases subgraph_nodes@.len() - k,
                {
                    if self.node_layers[subgraph_nodes[k]] < min_layer {
                        min_layer = self.node_layers[subgraph_nodes[k]];
                    }
                    k = k + 1;
                }
                proof {
                    let kk = choose|kk: int| 0 <= kk < subgraph_nodes@.len() && #[trigger] subgraph_nodes@[kk] < n && self.node_layers@[subgraph_nodes@[kk] as int] == min_layer;
                    let x = subgraph_nodes@[kk] as int;
                    assert(subs_of_node[x] == Some(id));
                    assert(min_layer <= 2 * n);
                    lemma_min_forced(inc, back, fin, subgraph_nodes@);
                    let kk2 = choose|kk2: int| 0 <= kk2 < subgraph_nodes@.len() && min_forced(inc, back, fin, subgraph_nodes@)
                        == longest_path_layer(inc, back, fin, #[trigger] subgraph_nodes@[kk2] as int);
                    assert(min_layer <= self.node_layers@[subgraph_nodes@[kk2] as int]);
                    assert(min_layer <= min_forced(inc, back, fin, subgraph_nodes@));
                }
                let relative_layers = self.compute_subgraph_relative_layers(&subgraph_nodes, Ghost(fin));
                let mut k: usize = 0;
                while k < subgraph_nodes.len()
                    invariant
                        k <= subgraph_nodes@.len(),
                        relative_layers@.len() == subgraph_nodes@.len(),
                        forall|kk: int| 0 <= kk < relative_layers@.len() ==> #[trigger] relative_layers@[kk] < n,
                        min_layer <= 2 * n,
                        n <= usize::MAX / 4,
                        self.node_layers@.len() == n,
                        self.outgoing@ == old(self).outgoing@,
                        self.incoming@ == old(self).incoming@,
                        self.back_edges@ == old(self).back_edges@,
                        self.layers@ == old(self).layers@,
                        self.node_subgraph@ == old(self).node_subgraph@,
                        self.subgraph_info@ == old(self).subgraph_info@,
                        forall|kk: int| 0 <= kk < subgraph_nodes@.len() ==> #[trigger] subgraph_nodes@[kk] < n && subs_of_node[subgraph_nodes@[kk] as int] == Some(id),
                        key_index(info, id) == s,
                        subs_of_node.len() == n,
                        forall|x: int| 0 <= x < n ==> #[trigger] self.node_layers@[x] <= 3 * n,
                        forall|x: int|
                            0 <= x < n && (subs_of_node[x] is None || key_index(info, subs_of_node[x]->0) < 0 || key_index(
                                info,
                                subs_of_node[x]->0,
                            ) >= s + 1) ==> #[trigger] self.node_layers@[x] <= 2 * n,
                        inc == self.inc(),
                        back == self.back_edges@,
                        min_layer <= min_forced(inc, back, fin, subgraph_nodes@),
                        forall|kk: int|
                            0 <= kk < relative_layers@.len() ==> #[trigger] relative_layers@[kk] + min_forced(inc, back, fin, subgraph_nodes@)
                                <= longest_path_layer(inc, back, fin, subgraph_nodes@[kk] as int),
                        forall|x: int| 0 <= x < n ==> #[trigger] self.node_layers@[x] <= longest_path_layer(inc, back, fin, x),
                    decreases subgraph_nodes@.len() - k,
                {
                    let x = subgraph_nodes[k];
                    self.node_layers.set(x, min_layer + relative_layers[k]);
                    k = k + 1;
                }
            }
            s = s + 1;
        }
        let ghost before = self.node_layers@;
        assert(graph_ok(self.out(), self.inc(), self.back_edges@, fin));
        self.ensure_layer_constraints();
        proof {
            assert forall|x: int| 0 <= x < n implies #[trigger] self.node_layers@[x] <= 4 * n by {
                lemma_forced_bounds(out, inc, back, fin, before, 3 * n, x, inc[x].len() as int);
                assert(forced(inc, back, fin, before, x) == self.node_layers@[x]);
            }
            assert forall|x: int| 0 <= x < n implies #[trigger] self.node_layers@[x] == longest_path_layer(inc, back, fin, x) by {
                lemma_forced_from_below(out, inc, back, fin, before, x);
                assert(forced(inc, back, fin, before, x) == self.node_layers@[x]);
            }
        }
    }
}


/// The subgraphs of a parsed flowchart name each node at most once, so its
/// graph meets what layer assignment needs of subgraphs.
pub proof fn law_parsed_subgraphs_name_nodes_once(source: Seq<char>, f: Flowchart)
    requires
        flowchart_spec(source) == Ok::<FlowV, Seq<char>>(flow_view(f)),
        f.nodes@.len() <= usize::MAX,
    ensures
        names_once(ids_of(f.nodes@), subs_of(f.subgraphs@)),
{
    law_subgraphs_list_nodes_once(source);
    let c = flow_view(f);
    let ids = ids_of(f.nodes@);
    let subs = subs_of(f.subgraphs@);
    assert forall|j: int| 0 <= j < subs.len() implies no_repeats(#[trigger] named_nodes(ids, subs[j].1)) by {
        let g = c.subgraphs[j];
        assert(lists_nodes_once(g, c.nodes));
        let names = subs[j].1;
        assert(names == g.node_ids);
        assert forall|k: int| 0 <= k < names.len() implies last_pos(ids, #[trigger] names[k]) >= 0 by {
            assert(has_node(c.nodes, g.node_ids[k]));
            let q = choose|q: int| 0 <= q < c.nodes.len() && (#[trigger] c.nodes[q]).0 == g.node_ids[k];
            assert(ids[q] == c.nodes[q].0);
            lemma_last_pos_found(ids, names[k]);
        }
        lemma_named_nodes_all(ids, names);
        let nn = named_nodes(ids, names);
        assert forall|a: int, b: int| 0 <= a < b < nn.len() implies #[trigger] nn[a] != #[trigger] nn[b] by {
            lemma_last_pos_found(ids, names[a]);
            lemma_last_pos_found(ids, names[b]);
            lemma_last_pos(ids, names[a]);
            lemma_last_pos(ids, names[b]);
            assert(names[a] != names[b]);
        }
    }
}

} // verus!
