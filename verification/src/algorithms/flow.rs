//! A flow network of unit capacities and the search for cheapest
//! augmenting paths in it.
use crate::field::{column_sum, lemma_column_count_bounds, lemma_column_sum_update};
use crate::simulator::Act;
use vstd::prelude::*;

verus! {

/// One directed edge of the network. `rev` is the index of the opposite
/// edge in the list of `to`.
#[derive(Clone, Copy, Debug)]
pub struct Edge {
    pub to: usize,
    pub cap: usize,
    pub cost: i128,
    pub rev: usize,
    pub act: Option<Act>,
}

impl Edge {
    pub fn new(to: usize, cap: usize, cost: i128, rev: usize, act: Option<Act>) -> (e: Edge)
        ensures
            e == (Edge { to, cap, cost, rev, act }),
    {
        Edge { to, cap, cost, rev, act }
    }
}

/// A directed graph in which every edge has an opposite edge of negated
/// cost; the two share one unit of capacity.
pub struct FlowGraph {
    pub n: usize,
    pub edges: Vec<Vec<Edge>>,
}

/// The largest number of nodes a network may have.
pub const MAX_NODES: usize = 0x20_0000;

/// The largest magnitude of an edge's cost.
pub const MAX_COST: i128 = 0x2_0000_0000_0000_0000;

/// The adjacency lists of a graph as sequences.
pub open spec fn lists(edges: Vec<Vec<Edge>>) -> Seq<Seq<Edge>> {
    edges@.map_values(|l: Vec<Edge>| l@)
}

/// Edge `e` of node `u` and its opposite point at each other, negate each
/// other's cost and share one unit of capacity.
pub open spec fn paired(g: Seq<Seq<Edge>>, u: int, e: int) -> bool {
    let ed = g[u][e];
    &&& ed.to < g.len()
    &&& ed.to != u
    &&& ed.rev < g[ed.to as int].len()
    &&& g[ed.to as int][ed.rev as int].to == u
    &&& g[ed.to as int][ed.rev as int].rev == e
    &&& g[ed.to as int][ed.rev as int].cost == -ed.cost
    &&& ed.cap + g[ed.to as int][ed.rev as int].cap == 1
    &&& -MAX_COST <= ed.cost <= MAX_COST
}

/// Every edge is paired with its opposite.
pub open spec fn graph_wf(g: Seq<Seq<Edge>>) -> bool {
    &&& g.len() <= MAX_NODES
    &&& forall|u: int, e: int| 0 <= u < g.len() && 0 <= e < g[u].len() ==> #[trigger] paired(g, u, e)
}

/// Two graphs differ at most in the capacities of their edges.
pub open spec fn same_shape(a: Seq<Seq<Edge>>, b: Seq<Seq<Edge>>) -> bool {
    &&& a.len() == b.len()
    &&& forall|u: int| 0 <= u < a.len() ==> (#[trigger] a[u]).len() == b[u].len()
    &&& forall|u: int, e: int|
        0 <= u < a.len() && 0 <= e < a[u].len() ==> (#[trigger] a[u][e]) == (Edge {
            cap: a[u][e].cap,
            ..b[u][e]
        })
}

/// The distance of a node that the search has not reached.
pub const INF: i128 = 0x7fff_ffff_ffff_ffff_ffff_ffff_ffff_ffff;

/// The largest magnitude of the cost of a path without repeated nodes.
pub const LIMIT_PLAIN: i128 = 0x40_0000_0000_0000_0000_0000;

/// The largest potential of a node.
pub const LIMIT_POTENTIAL: i128 = 0x400_0000_0000_0000_0000_0000_0000;

/// The cost of edge `e` of node `u` as the potentials `h` reduce it.
pub open spec fn reduced(g: Seq<Seq<Edge>>, h: Seq<i128>, u: int, e: int) -> int {
    g[u][e].cost + h[u] - h[g[u][e].to as int]
}

/// No edge with capacity left has a negative reduced cost.
pub open spec fn feasible(g: Seq<Seq<Edge>>, h: Seq<i128>) -> bool {
    &&& h.len() == g.len()
    &&& forall|v: int| 0 <= v < h.len() ==> 0 <= #[trigger] h[v] <= LIMIT_POTENTIAL
    &&& forall|u: int, e: int|
        0 <= u < g.len() && 0 <= e < g[u].len() && (#[trigger] g[u][e]).cap > 0 ==> reduced(
            g,
            h,
            u,
            e,
        ) >= 0
}

/// What a search from `s` has found.
pub struct Search {
    pub dist: Vec<i128>,
    pub prev_v: Vec<usize>,
    pub prev_e: Vec<usize>,
}

/// Node `v` was reached over edge `prev_e[v]` of node `prev_v[v]`, which
/// has capacity left, comes earlier in `ord`, and accounts exactly for the
/// distance of `v`.
pub open spec fn reached_over(
    g: Seq<Seq<Edge>>,
    h: Seq<i128>,
    dist: Seq<i128>,
    prev_v: Seq<usize>,
    prev_e: Seq<usize>,
    ord: Seq<int>,
    v: int,
) -> bool {
    let pu = prev_v[v] as int;
    let e = prev_e[v] as int;
    &&& pu < g.len()
    &&& e < g[pu].len()
    &&& g[pu][e].to == v
    &&& g[pu][e].cap > 0
    &&& dist[pu] < INF
    &&& dist[v] == dist[pu] + reduced(g, h, pu, e)
    &&& 0 <= ord[pu] < ord[v]
}

/// The distance of `v` is `INF`, or it is not negative and differs from
/// the cost of a path without repeated nodes by the potential of `v`.
pub open spec fn bounded(h: Seq<i128>, dist: Seq<i128>, v: int) -> bool {
    dist[v] == INF || (0 <= dist[v] && -LIMIT_PLAIN <= dist[v] + h[v] <= LIMIT_PLAIN)
}

/// Edge `e` of `u` does not lead to a node that is farther than the edge
/// is long, if `u` is reached and the edge has capacity left.
pub open spec fn short(g: Seq<Seq<Edge>>, h: Seq<i128>, dist: Seq<i128>, u: int, e: int) -> bool {
    dist[u] < INF && g[u][e].cap > 0 ==> dist[g[u][e].to as int] < INF && dist[g[u][e].to as int]
        <= dist[u] + reduced(g, h, u, e)
}

/// The distances are shortest distances from `s` under the reduced costs:
/// every reached node but `s` hangs on a reached node by a tight edge, and
/// no edge with capacity left leads from a reached node to a farther one.
pub open spec fn searched(
    g: Seq<Seq<Edge>>,
    h: Seq<i128>,
    s: int,
    dist: Seq<i128>,
    prev_v: Seq<usize>,
    prev_e: Seq<usize>,
    ord: Seq<int>,
) -> bool {
    &&& dist.len() == g.len()
    &&& prev_v.len() == g.len()
    &&& prev_e.len() == g.len()
    &&& ord.len() == g.len()
    &&& dist[s] == 0
    &&& forall|v: int| 0 <= v < g.len() ==> #[trigger] bounded(h, dist, v)
    &&& forall|v: int|
        0 <= v < g.len() && v != s && dist[v] < INF ==> #[trigger] reached_over(
            g,
            h,
            dist,
            prev_v,
            prev_e,
            ord,
            v,
        )
    &&& forall|u: int, e: int|
        0 <= u < g.len() && 0 <= e < g[u].len() ==> #[trigger] short(g, h, dist, u, e)
}

/// Two sequences that agree on their first `n` entries have the same sum
/// there.
pub proof fn lemma_column_sum_prefix<T>(a: Seq<T>, b: Seq<T>, f: spec_fn(T) -> int, n: int)
    requires
        0 <= n <= a.len(),
        n <= b.len(),
        forall|k: int| 0 <= k < n ==> a[k] == b[k],
    ensures
        column_sum(a, f, n) == column_sum(b, f, n),
    decreases n,
{
    if n > 0 {
        lemma_column_sum_prefix(a, b, f, n - 1);
    }
}

/// One for a node that is not settled yet.
pub open spec fn unsettled() -> spec_fn(bool) -> int {
    |b: bool|
        if b {
            0int
        } else {
            1int
        }
}

/// Takes the entry with the smallest key out of the queue; of several, the
/// one that came first.
fn pop_min(heap: &mut Vec<(i128, usize)>) -> (r: (i128, usize))
    requires
        old(heap).len() > 0,
    ensures
        exists|idx: int|
            0 <= idx < old(heap).len() && r == #[trigger] old(heap)[idx] && final(heap)@ == old(
                heap,
            )@.remove(idx),
        forall|j: int| 0 <= j < old(heap).len() ==> r.0 <= (#[trigger] old(heap)[j]).0,
{
    let mut best: usize = 0;
    let mut j: usize = 1;
    while j < heap.len()
        invariant
            heap@ == old(heap)@,
            best < heap.len(),
            1 <= j <= heap.len(),
            forall|k: int| 0 <= k < j ==> heap[best as int].0 <= (#[trigger] heap[k]).0,
        decreases heap.len() - j,
    {
        if heap[j].0 < heap[best].0 {
            best = j;
        }
        j += 1;
    }
    let r = heap.remove(best);
    assert(r == old(heap)[best as int]);
    r
}

/// The queue holds the entry `(k, v)`.
pub open spec fn queued(heap: Seq<(i128, usize)>, k: i128, v: usize) -> bool {
    exists|j: int| 0 <= j < heap.len() && #[trigger] heap[j] == (k, v)
}

proof fn lemma_queued_push(heap: Seq<(i128, usize)>, entry: (i128, usize), k: i128, v: usize)
    ensures
        queued(heap, k, v) ==> queued(heap.push(entry), k, v),
        queued(heap.push(entry), entry.0, entry.1),
{
    if queued(heap, k, v) {
        let j = choose|j: int| 0 <= j < heap.len() && #[trigger] heap[j] == (k, v);
        assert(heap.push(entry)[j] == (k, v));
    }
    assert(heap.push(entry)[heap.len() as int] == entry);
}

proof fn lemma_queued_remove(heap: Seq<(i128, usize)>, idx: int, k: i128, v: usize)
    requires
        0 <= idx < heap.len(),
        queued(heap, k, v),
        heap[idx] != (k, v),
    ensures
        queued(heap.remove(idx), k, v),
{
    let j = choose|j: int| 0 <= j < heap.len() && #[trigger] heap[j] == (k, v);
    if j < idx {
        assert(heap.remove(idx)[j] == (k, v));
    } else {
        assert(heap.remove(idx)[j - 1] == (k, v));
    }
}

/// The label of `v` while a search runs: unreached, or a distance that is
/// not negative and accounted for by a way of at most `hops[v]` edges.
pub open spec fn label_ok(
    h: Seq<i128>,
    dist: Seq<i128>,
    done: Seq<bool>,
    ord: Seq<int>,
    hops: Seq<int>,
    count: int,
    v: int,
) -> bool {
    dist[v] == INF || {
        &&& 0 <= dist[v]
        &&& 0 <= hops[v]
        &&& -hops[v] * MAX_COST <= dist[v] + h[v] <= hops[v] * MAX_COST
        &&& hops[v] <= (if done[v] {
            ord[v]
        } else {
            count
        })
    }
}

/// A settled node is reached, no farther than `key`, and has a rank.
pub open spec fn settled_ok(
    dist: Seq<i128>,
    done: Seq<bool>,
    ord: Seq<int>,
    count: int,
    key: int,
    u: int,
) -> bool {
    done[u] ==> dist[u] < INF && dist[u] <= key && 0 <= ord[u] < count
}

/// A reached node hangs on a settled node by a tight edge with capacity
/// left.
pub open spec fn hangs(
    g: Seq<Seq<Edge>>,
    h: Seq<i128>,
    dist: Seq<i128>,
    prev_v: Seq<usize>,
    prev_e: Seq<usize>,
    done: Seq<bool>,
    ord: Seq<int>,
    count: int,
    v: int,
) -> bool {
    let pu = prev_v[v] as int;
    let e = prev_e[v] as int;
    &&& pu < g.len()
    &&& e < g[pu].len()
    &&& g[pu][e].to == v
    &&& g[pu][e].cap > 0
    &&& done[pu]
    &&& dist[v] == dist[pu] + reduced(g, h, pu, e)
    &&& ord[pu] < (if done[v] {
        ord[v]
    } else {
        count
    })
}

/// The facts about labels that hold while a search runs.
pub open spec fn labels_ok(
    g: Seq<Seq<Edge>>,
    h: Seq<i128>,
    dist: Seq<i128>,
    done: Seq<bool>,
    ord: Seq<int>,
    hops: Seq<int>,
    count: int,
    key: int,
) -> bool {
    &&& forall|v: int| 0 <= v < g.len() ==> #[trigger] label_ok(h, dist, done, ord, hops, count, v)
    &&& forall|u: int| 0 <= u < g.len() ==> #[trigger] settled_ok(dist, done, ord, count, key, u)
}

/// Every reached node but `s` hangs on a settled node.
pub open spec fn tree_ok(
    g: Seq<Seq<Edge>>,
    h: Seq<i128>,
    s: int,
    dist: Seq<i128>,
    prev_v: Seq<usize>,
    prev_e: Seq<usize>,
    done: Seq<bool>,
    ord: Seq<int>,
    count: int,
) -> bool {
    forall|v: int|
        0 <= v < g.len() && v != s && dist[v] < INF ==> #[trigger] hangs(
            g,
            h,
            dist,
            prev_v,
            prev_e,
            done,
            ord,
            count,
            v,
        )
}

/// No edge with capacity left leads from a settled node to a farther one;
/// of node `u` only the first `upto` edges count.
pub open spec fn relaxed(
    g: Seq<Seq<Edge>>,
    h: Seq<i128>,
    dist: Seq<i128>,
    done: Seq<bool>,
    u: int,
    upto: int,
) -> bool {
    forall|x: int, e: int|
        0 <= x < g.len() && 0 <= e < g[x].len() && done[x] && (x != u || e < upto)
            ==> #[trigger] short(g, h, dist, x, e)
}

/// An entry of the queue names a node, with a key that is no less than the
/// node's distance and than `key`.
pub open spec fn entry_ok(
    g: Seq<Seq<Edge>>,
    dist: Seq<i128>,
    key: int,
    entry: (i128, usize),
) -> bool {
    entry.1 < g.len() && key <= entry.0 < INF && dist[entry.1 as int] <= entry.0
}

/// Every entry of the queue is in order; every reached node that is not
/// settled has an entry under its distance.
pub open spec fn heap_ok(
    g: Seq<Seq<Edge>>,
    dist: Seq<i128>,
    done: Seq<bool>,
    heap: Seq<(i128, usize)>,
    key: int,
) -> bool {
    &&& forall|j: int| 0 <= j < heap.len() ==> entry_ok(g, dist, key, #[trigger] heap[j])
    &&& forall|v: int|
        0 <= v < g.len() && dist[v] < INF && !done[v] ==> #[trigger] queued(
            heap,
            dist[v],
            v as usize,
        )
}

/// The state of a running search, as mathematical values. `hops[v]` bounds
/// the number of edges on the way to `v`, `ord[v]` is the rank at which `v`
/// was settled, `count` the number of settled nodes and `key` the distance
/// of the node settled last.
pub struct SearchState {
    pub dist: Seq<i128>,
    pub prev_v: Seq<usize>,
    pub prev_e: Seq<usize>,
    pub done: Seq<bool>,
    pub ord: Seq<int>,
    pub hops: Seq<int>,
    pub count: int,
    pub key: int,
    pub heap: Seq<(i128, usize)>,
}

/// All that holds while a search from `s` runs and the first `upto` edges
/// of the settled node `u` have been looked at.
#[verifier::opaque]
pub open spec fn search_inv(
    g: Seq<Seq<Edge>>,
    h: Seq<i128>,
    s: int,
    st: SearchState,
    u: int,
    upto: int,
) -> bool {
    &&& st.dist.len() == g.len()
    &&& st.prev_v.len() == g.len()
    &&& st.prev_e.len() == g.len()
    &&& st.done.len() == g.len()
    &&& st.ord.len() == g.len()
    &&& st.hops.len() == g.len()
    &&& st.dist[s] == 0
    &&& 0 <= st.count
    &&& 0 <= st.key
    &&& st.count + column_sum(st.done, unsettled(), g.len() as int) == g.len()
    &&& 0 <= column_sum(st.done, unsettled(), g.len() as int)
    &&& labels_ok(g, h, st.dist, st.done, st.ord, st.hops, st.count, st.key)
    &&& tree_ok(g, h, s, st.dist, st.prev_v, st.prev_e, st.done, st.ord, st.count)
    &&& relaxed(g, h, st.dist, st.done, u, upto)
    &&& heap_ok(g, st.dist, st.done, st.heap, st.key)
}

/// Dropping an entry of a settled node from the queue keeps the search
/// state in order.
proof fn lemma_search_stale(
    g: Seq<Seq<Edge>>,
    h: Seq<i128>,
    s: int,
    st: SearchState,
    idx: int,
)
    requires
        graph_wf(g),
        search_inv(g, h, s, st, g.len() as int, 0),
        0 <= idx < st.heap.len(),
        st.heap[idx].1 < st.done.len() ==> st.done[st.heap[idx].1 as int],
    ensures
        search_inv(g, h, s, SearchState { heap: st.heap.remove(idx), ..st }, g.len() as int, 0),
{
    reveal(search_inv);
    let heap = st.heap.remove(idx);
    assert(entry_ok(g, st.dist, st.key, st.heap[idx]));
    assert forall|v: int| 0 <= v < g.len() && st.dist[v] < INF && !st.done[v] implies #[trigger] queued(
        heap,
        st.dist[v],
        v as usize,
    ) by {
        assert(queued(st.heap, st.dist[v], v as usize));
        lemma_queued_remove(st.heap, idx, st.dist[v], v as usize);
    }
    assert forall|j: int| 0 <= j < heap.len() implies entry_ok(g, st.dist, st.key, #[trigger] heap[j]) by {
        if j < idx {
            assert(heap[j] == st.heap[j]);
        } else {
            assert(heap[j] == st.heap[j + 1]);
        }
    }
}

/// The search state after the node with the smallest key, not settled
/// before, is taken from the queue and settled.
pub open spec fn settled_state(st: SearchState, idx: int) -> SearchState {
    let u = st.heap[idx].1 as int;
    SearchState {
        done: st.done.update(u, true),
        ord: st.ord.update(u, st.count),
        count: st.count + 1,
        key: st.heap[idx].0 as int,
        heap: st.heap.remove(idx),
        ..st
    }
}

/// Settling the node with the smallest key keeps the search state in
/// order; its key is its distance.
proof fn lemma_search_settle(
    g: Seq<Seq<Edge>>,
    h: Seq<i128>,
    s: int,
    st: SearchState,
    idx: int,
)
    requires
        graph_wf(g),
        search_inv(g, h, s, st, g.len() as int, 0),
        0 <= idx < st.heap.len(),
        forall|j: int| 0 <= j < st.heap.len() ==> st.heap[idx].0 <= (#[trigger] st.heap[j]).0,
        st.heap[idx].1 < st.done.len() && !st.done[st.heap[idx].1 as int],
    ensures
        st.heap[idx].0 == st.dist[st.heap[idx].1 as int],
        search_inv(g, h, s, settled_state(st, idx), st.heap[idx].1 as int, 0),
        column_sum(settled_state(st, idx).done, unsettled(), g.len() as int) == column_sum(
            st.done,
            unsettled(),
            g.len() as int,
        ) - 1,
        0 <= column_sum(settled_state(st, idx).done, unsettled(), g.len() as int),
{
    reveal(search_inv);
    let u = st.heap[idx].1 as int;
    let k = st.heap[idx].0;
    let n = g.len() as int;
    let st2 = settled_state(st, idx);
    assert(entry_ok(g, st.dist, st.key, st.heap[idx]));
    assert(queued(st.heap, st.dist[u], u as usize));
    let j = choose|j: int| 0 <= j < st.heap.len() && #[trigger] st.heap[j] == (st.dist[u], u as usize);
    assert(k <= st.heap[j].0);
    assert(k == st.dist[u]);
    lemma_column_sum_update(st.done, unsettled(), u, true, n);
    lemma_column_count_bounds(st.done.update(u, true), unsettled(), n);
    assert forall|v: int|
        0 <= v < g.len() && st2.dist[v] < INF && !st2.done[v] implies #[trigger] queued(
        st2.heap,
        st2.dist[v],
        v as usize,
    ) by {
        assert(queued(st.heap, st.dist[v], v as usize));
        lemma_queued_remove(st.heap, idx, st.dist[v], v as usize);
    }
    assert forall|j: int| 0 <= j < st2.heap.len() implies entry_ok(
        g,
        st2.dist,
        st2.key,
        #[trigger] st2.heap[j],
    ) by {
        if j < idx {
            assert(st2.heap[j] == st.heap[j]);
            assert(entry_ok(g, st.dist, st.key, st.heap[j]));
        } else {
            assert(st2.heap[j] == st.heap[j + 1]);
            assert(entry_ok(g, st.dist, st.key, st.heap[j + 1]));
        }
    }
    assert(label_ok(h, st.dist, st.done, st.ord, st.hops, st.count, u));
    assert forall|v: int| 0 <= v < g.len() implies #[trigger] label_ok(
        h,
        st2.dist,
        st2.done,
        st2.ord,
        st2.hops,
        st2.count,
        v,
    ) by {
        assert(label_ok(h, st.dist, st.done, st.ord, st.hops, st.count, v));
    }
    assert forall|x: int| 0 <= x < g.len() implies #[trigger] settled_ok(
        st2.dist,
        st2.done,
        st2.ord,
        st2.count,
        st2.key,
        x,
    ) by {
        assert(settled_ok(st.dist, st.done, st.ord, st.count, st.key, x));
    }
    assert forall|v: int| 0 <= v < g.len() && v != s && st2.dist[v] < INF implies #[trigger] hangs(
        g,
        h,
        st2.dist,
        st2.prev_v,
        st2.prev_e,
        st2.done,
        st2.ord,
        st2.count,
        v,
    ) by {
        assert(hangs(g, h, st.dist, st.prev_v, st.prev_e, st.done, st.ord, st.count, v));
        let pu = st.prev_v[v] as int;
        assert(settled_ok(st.dist, st.done, st.ord, st.count, st.key, pu));
    }
    assert forall|x: int, e: int|
        0 <= x < g.len() && 0 <= e < g[x].len() && st2.done[x] && (x != u || e < 0) implies #[trigger] short(
        g,
        h,
        st2.dist,
        x,
        e,
    ) by {
        assert(short(g, h, st.dist, x, e));
    }
}

/// What the search may rely on when it looks at edge `e` of the settled
/// node `u`.
proof fn lemma_search_edge(
    g: Seq<Seq<Edge>>,
    h: Seq<i128>,
    s: int,
    st: SearchState,
    u: int,
    e: int,
)
    requires
        graph_wf(g),
        feasible(g, h),
        search_inv(g, h, s, st, u, e),
        0 <= u < g.len(),
        0 <= e < g[u].len(),
        st.done[u],
    ensures
        g[u][e].to < g.len(),
        -MAX_COST <= g[u][e].cost <= MAX_COST,
        0 <= st.dist[u] <= LIMIT_PLAIN,
        st.dist[g[u][e].to as int] <= INF,
{
    reveal(search_inv);
    assert(paired(g, u, e));
    assert(settled_ok(st.dist, st.done, st.ord, st.count, st.key, u));
    assert(label_ok(h, st.dist, st.done, st.ord, st.hops, st.count, u));
    lemma_count_bound(g, st);
    assert(st.hops[u] * MAX_COST <= MAX_NODES * MAX_COST) by (nonlinear_arith)
        requires
            0 <= st.hops[u] <= MAX_NODES,
            MAX_COST >= 0,
    ;
}

/// The number of settled nodes is at most the number of nodes.
proof fn lemma_count_bound(g: Seq<Seq<Edge>>, st: SearchState)
    requires
        graph_wf(g),
        0 <= st.count,
        st.count + column_sum(st.done, unsettled(), g.len() as int) == g.len(),
        0 <= column_sum(st.done, unsettled(), g.len() as int),
    ensures
        st.count <= MAX_NODES,
{
}

/// Looking at an edge that does not shorten anything keeps the search
/// state in order.
proof fn lemma_search_skip(
    g: Seq<Seq<Edge>>,
    h: Seq<i128>,
    s: int,
    st: SearchState,
    u: int,
    e: int,
)
    requires
        graph_wf(g),
        feasible(g, h),
        search_inv(g, h, s, st, u, e),
        0 <= u < g.len(),
        0 <= e < g[u].len(),
        st.done[u],
        st.dist[u] == st.key,
        g[u][e].cap == 0 || st.done[g[u][e].to as int] || st.dist[g[u][e].to as int] <= st.dist[u]
            + reduced(g, h, u, e),
    ensures
        search_inv(g, h, s, st, u, e + 1),
{
    reveal(search_inv);
    assert(paired(g, u, e));
    let v = g[u][e].to as int;
    assert(settled_ok(st.dist, st.done, st.ord, st.count, st.key, u));
    assert(settled_ok(st.dist, st.done, st.ord, st.count, st.key, v));
    assert(label_ok(h, st.dist, st.done, st.ord, st.hops, st.count, u));
    lemma_count_bound(g, st);
    assert(st.hops[u] * MAX_COST <= MAX_NODES * MAX_COST) by (nonlinear_arith)
        requires
            0 <= st.hops[u] <= MAX_NODES,
            MAX_COST >= 0,
    ;
    assert(short(g, h, st.dist, u, e));
    assert forall|x: int, e2: int|
        0 <= x < g.len() && 0 <= e2 < g[x].len() && st.done[x] && (x != u || e2 < e + 1) implies #[trigger] short(
        g,
        h,
        st.dist,
        x,
        e2,
    ) by {
        if x == u && e2 == e {
        } else {
            assert(short(g, h, st.dist, x, e2));
        }
    }
}

/// The search state after edge `e` of node `u` has given its end a
/// shorter distance `nd`.
pub open spec fn relaxed_state(g: Seq<Seq<Edge>>, st: SearchState, u: int, e: int, nd: i128) -> SearchState {
    let v = g[u][e].to as int;
    SearchState {
        dist: st.dist.update(v, nd),
        prev_v: st.prev_v.update(v, u as usize),
        prev_e: st.prev_e.update(v, e as usize),
        hops: st.hops.update(v, st.hops[u] + 1),
        heap: st.heap.push((nd, v as usize)),
        ..st
    }
}

/// Giving the end of an edge a shorter distance keeps the search state in
/// order.
proof fn lemma_search_relax(
    g: Seq<Seq<Edge>>,
    h: Seq<i128>,
    s: int,
    st: SearchState,
    u: int,
    e: int,
    nd: i128,
)
    requires
        graph_wf(g),
        feasible(g, h),
        0 <= s < g.len(),
        h[s] == 0,
        search_inv(g, h, s, st, u, e),
        0 <= u < g.len(),
        0 <= e < g[u].len(),
        st.done.len() == g.len(),
        st.dist.len() == g.len(),
        st.done[u],
        st.dist[u] == st.key,
        g[u][e].cap > 0,
        g[u][e].to < g.len(),
        !st.done[g[u][e].to as int],
        nd == st.dist[u] + reduced(g, h, u, e),
        nd < st.dist[g[u][e].to as int],
    ensures
        search_inv(g, h, s, relaxed_state(g, st, u, e, nd), u, e + 1),
{
    reveal(search_inv);
    assert(paired(g, u, e));
    let v = g[u][e].to as int;
    let st2 = relaxed_state(g, st, u, e, nd);
    assert(reduced(g, h, u, e) >= 0);
    assert(settled_ok(st.dist, st.done, st.ord, st.count, st.key, u));
    assert(label_ok(h, st.dist, st.done, st.ord, st.hops, st.count, u));
    assert(v != s);
    assert((st.hops[u] + 1) * MAX_COST == st.hops[u] * MAX_COST + MAX_COST) by (nonlinear_arith);
    assert(-(st.hops[u] + 1) * MAX_COST == -st.hops[u] * MAX_COST - MAX_COST) by (nonlinear_arith);
    assert forall|w: int|
        0 <= w < g.len() && st2.dist[w] < INF && !st2.done[w] implies #[trigger] queued(
        st2.heap,
        st2.dist[w],
        w as usize,
    ) by {
        if w != v {
            assert(st2.dist[w] == st.dist[w]);
            assert(queued(st.heap, st.dist[w], w as usize));
        }
        lemma_queued_push(st.heap, (nd, v as usize), st2.dist[w], w as usize);
    }
    assert forall|j: int| 0 <= j < st2.heap.len() implies entry_ok(
        g,
        st2.dist,
        st2.key,
        #[trigger] st2.heap[j],
    ) by {
        if j < st.heap.len() {
            assert(st2.heap[j] == st.heap[j]);
            assert(entry_ok(g, st.dist, st.key, st.heap[j]));
        }
    }
    assert forall|w: int| 0 <= w < g.len() implies #[trigger] label_ok(
        h,
        st2.dist,
        st2.done,
        st2.ord,
        st2.hops,
        st2.count,
        w,
    ) by {
        assert(label_ok(h, st.dist, st.done, st.ord, st.hops, st.count, w));
    }
    assert forall|x: int| 0 <= x < g.len() implies #[trigger] settled_ok(
        st2.dist,
        st2.done,
        st2.ord,
        st2.count,
        st2.key,
        x,
    ) by {
        assert(settled_ok(st.dist, st.done, st.ord, st.count, st.key, x));
    }
    assert forall|w: int| 0 <= w < g.len() && w != s && st2.dist[w] < INF implies #[trigger] hangs(
        g,
        h,
        st2.dist,
        st2.prev_v,
        st2.prev_e,
        st2.done,
        st2.ord,
        st2.count,
        w,
    ) by {
        if w != v {
            assert(hangs(g, h, st.dist, st.prev_v, st.prev_e, st.done, st.ord, st.count, w));
        }
    }
    assert forall|x: int, e2: int|
        0 <= x < g.len() && 0 <= e2 < g[x].len() && st2.done[x] && (x != u || e2 < e + 1) implies #[trigger] short(
        g,
        h,
        st2.dist,
        x,
        e2,
    ) by {
        assert(u != v);
        assert(st2.dist[u] == st.dist[u]);
        assert(st2.dist[v] == nd);
        if x == u && e2 == e {
            assert(g[x][e2].to as int == v);
        } else {
            assert(short(g, h, st.dist, x, e2));
            assert(settled_ok(st.dist, st.done, st.ord, st.count, st.key, x));
            assert(paired(g, x, e2));
            assert(x != v);
            assert(st2.dist[x] == st.dist[x]);
            let w = g[x][e2].to as int;
            if w != v {
                assert(st2.dist[w] == st.dist[w]);
            }
        }
    }
}

/// When the queue is empty the search is complete.
proof fn lemma_search_finish(g: Seq<Seq<Edge>>, h: Seq<i128>, s: int, st: SearchState)
    requires
        graph_wf(g),
        0 <= s < g.len(),
        search_inv(g, h, s, st, g.len() as int, 0),
        st.heap.len() == 0,
    ensures
        searched(g, h, s, st.dist, st.prev_v, st.prev_e, st.ord),
{
    reveal(search_inv);
    lemma_count_bound(g, st);
    assert forall|v: int| 0 <= v < g.len() && st.dist[v] < INF implies #[trigger] st.done[v] by {
        if !st.done[v] {
            assert(queued(st.heap, st.dist[v], v as usize));
        }
    }
    assert forall|v: int| 0 <= v < g.len() implies #[trigger] bounded(h, st.dist, v) by {
        assert(label_ok(h, st.dist, st.done, st.ord, st.hops, st.count, v));
        assert(settled_ok(st.dist, st.done, st.ord, st.count, st.key, v));
        if st.dist[v] != INF {
            assert(st.done[v]);
            assert(st.hops[v] * MAX_COST <= MAX_NODES * MAX_COST) by (nonlinear_arith)
                requires
                    0 <= st.hops[v] <= MAX_NODES,
                    MAX_COST >= 0,
            ;
        }
    }
    assert forall|v: int| 0 <= v < g.len() && v != s && st.dist[v] < INF implies #[trigger] reached_over(
        g,
        h,
        st.dist,
        st.prev_v,
        st.prev_e,
        st.ord,
        v,
    ) by {
        assert(hangs(g, h, st.dist, st.prev_v, st.prev_e, st.done, st.ord, st.count, v));
        let pu = st.prev_v[v] as int;
        assert(settled_ok(st.dist, st.done, st.ord, st.count, st.key, pu));
        assert(st.done[v]);
    }
    assert forall|u: int, e: int| 0 <= u < g.len() && 0 <= e < g[u].len() implies #[trigger] short(
        g,
        h,
        st.dist,
        u,
        e,
    ) by {
        if st.dist[u] < INF {
            assert(st.done[u]);
        }
    }
}

/// The largest number of units that can be sent in one call.
pub const MAX_FLOW: usize = 0x10_0000;

/// What sending flow has achieved: the units sent, the potentials at the
/// end, and the last search.
pub struct Routing {
    pub routed: usize,
    pub potential: Vec<i128>,
    pub last: Search,
}

/// After `k` units went from `s` to `t`, the edges of `s` have `k` less
/// left than in `g0`, those of `t` have `k` more, and those of any other
/// node as much as before.
pub open spec fn routed_through(
    g0: Seq<Seq<Edge>>,
    g: Seq<Seq<Edge>>,
    s: int,
    t: int,
    k: int,
    u: int,
) -> bool {
    cap_sum(g[u]) == cap_sum(g0[u]) + (if u == t {
        k
    } else {
        0int
    }) - (if u == s {
        k
    } else {
        0int
    })
}

/// The capacity of an edge, as a number to sum.
pub open spec fn cap_of() -> spec_fn(Edge) -> int {
    |ed: Edge| ed.cap as int
}

/// The capacity left on all edges of one node.
pub open spec fn cap_sum(l: Seq<Edge>) -> int {
    column_sum(l, cap_of(), l.len() as int)
}

/// The smaller of two integers.
pub open spec fn least(a: int, b: int) -> int {
    if a < b {
        a
    } else {
        b
    }
}

/// The potentials after a search: each grows by the distance of its node,
/// but by no more than `d`.
pub open spec fn raised(h: Seq<i128>, dist: Seq<i128>, d: int) -> Seq<i128> {
    Seq::new(h.len(), |v: int| (h[v] + least(dist[v] as int, d)) as i128)
}

/// Raising the potentials by the distances of a search keeps every edge
/// with capacity left at a reduced cost that is not negative, and brings
/// every edge of the search tree that ends no farther than `d` to zero.
proof fn lemma_raised_feasible(
    g: Seq<Seq<Edge>>,
    h: Seq<i128>,
    s: int,
    dist: Seq<i128>,
    prev_v: Seq<usize>,
    prev_e: Seq<usize>,
    ord: Seq<int>,
    d: int,
    bound: int,
)
    requires
        graph_wf(g),
        feasible(g, h),
        0 <= s < g.len(),
        searched(g, h, s, dist, prev_v, prev_e, ord),
        0 <= d <= LIMIT_PLAIN,
        0 <= bound,
        bound + LIMIT_PLAIN <= LIMIT_POTENTIAL,
        forall|v: int| 0 <= v < h.len() ==> #[trigger] h[v] <= bound,
    ensures
        feasible(g, raised(h, dist, d)),
        forall|v: int| 0 <= v < h.len() ==> 0 <= #[trigger] raised(h, dist, d)[v] <= bound + LIMIT_PLAIN,
        raised(h, dist, d)[s] == h[s],
        forall|v: int|
            0 <= v < g.len() && v != s && dist[v] <= d ==> reduced(
                g,
                raised(h, dist, d),
                prev_v[v] as int,
                prev_e[v] as int,
            ) == 0 && dist[prev_v[v] as int] <= d,
{
    let h2 = raised(h, dist, d);
    assert forall|v: int| 0 <= v < h.len() implies 0 <= #[trigger] h2[v] <= bound + LIMIT_PLAIN by {
        assert(bounded(h, dist, v));
        assert(h[v] >= 0);
    }
    assert forall|u: int, e: int|
        0 <= u < g.len() && 0 <= e < g[u].len() && (#[trigger] g[u][e]).cap > 0 implies reduced(
        g,
        h2,
        u,
        e,
    ) >= 0 by {
        assert(paired(g, u, e));
        assert(short(g, h, dist, u, e));
        let v = g[u][e].to as int;
        assert(bounded(h, dist, u));
        assert(bounded(h, dist, v));
        assert(reduced(g, h, u, e) >= 0);
    }
    assert forall|v: int| 0 <= v < g.len() && v != s && dist[v] <= d implies reduced(
        g,
        h2,
        prev_v[v] as int,
        prev_e[v] as int,
    ) == 0 && dist[prev_v[v] as int] <= d by {
        assert(reached_over(g, h, dist, prev_v, prev_e, ord, v));
        let pu = prev_v[v] as int;
        let e = prev_e[v] as int;
        assert(reduced(g, h, pu, e) >= 0);
        assert(bounded(h, dist, pu));
        assert(bounded(h, dist, v));
    }
    assert(bounded(h, dist, s));
}

/// The graph after one unit has gone over edge `e` of node `p`: that edge
/// loses its unit and the opposite edge gains it.
pub open spec fn pushed(g: Seq<Seq<Edge>>, p: int, e: int) -> Seq<Seq<Edge>> {
    let ed = g[p][e];
    let x = ed.to as int;
    let back = g[x][ed.rev as int];
    g.update(p, g[p].update(e, Edge { cap: (ed.cap - 1) as usize, ..ed })).update(
        x,
        g[x].update(ed.rev as int, Edge { cap: (back.cap + 1) as usize, ..back }),
    )
}

/// The capacity left at node `u` is what it was in `g0`, one more at `t`
/// and one less at `x`.
pub open spec fn balanced(g0: Seq<Seq<Edge>>, g: Seq<Seq<Edge>>, t: int, x: int, u: int) -> bool {
    cap_sum(g[u]) == cap_sum(g0[u]) + (if u == t {
        1int
    } else {
        0int
    }) - (if u == x {
        1int
    } else {
        0int
    })
}

/// The edges of node `u` are as they were in `g0` if `u` comes before `x`
/// in the order of the search.
pub open spec fn untouched(g0: Seq<Seq<Edge>>, g: Seq<Seq<Edge>>, ord: Seq<int>, x: int, u: int) -> bool {
    ord[u] < ord[x] ==> g[u] == g0[u]
}

/// All that holds while a unit of flow is pushed back along the path of a
/// search from `t`, and the walk stands at `x`.
pub open spec fn walk_inv(
    g0: Seq<Seq<Edge>>,
    g: Seq<Seq<Edge>>,
    h: Seq<i128>,
    dist: Seq<i128>,
    ord: Seq<int>,
    d: int,
    t: int,
    x: int,
) -> bool {
    &&& graph_wf(g)
    &&& same_shape(g, g0)
    &&& feasible(g, h)
    &&& 0 <= x < g.len()
    &&& dist[x] <= d
    &&& forall|u: int| 0 <= u < g.len() ==> #[trigger] untouched(g0, g, ord, x, u)
    &&& forall|u: int| 0 <= u < g.len() ==> #[trigger] balanced(g0, g, t, x, u)
}

/// One step of the walk: pushing a unit over the edge by which `x` was
/// reached keeps everything in order, with the walk now at the node
/// before `x`.
proof fn lemma_walk_step(
    g0: Seq<Seq<Edge>>,
    g: Seq<Seq<Edge>>,
    h1: Seq<i128>,
    h2: Seq<i128>,
    s: int,
    dist: Seq<i128>,
    prev_v: Seq<usize>,
    prev_e: Seq<usize>,
    ord: Seq<int>,
    d: int,
    t: int,
    x: int,
)
    requires
        graph_wf(g0),
        0 <= s < g0.len(),
        0 <= t < g0.len(),
        searched(g0, h1, s, dist, prev_v, prev_e, ord),
        d < INF,
        forall|v: int|
            0 <= v < g0.len() && v != s && dist[v] <= d ==> reduced(
                g0,
                h2,
                #[trigger] prev_v[v] as int,
                prev_e[v] as int,
            ) == 0 && dist[prev_v[v] as int] <= d,
        walk_inv(g0, g, h2, dist, ord, d, t, x),
        x != s,
    ensures
        prev_v[x] < g.len(),
        prev_e[x] < g[prev_v[x] as int].len(),
        g[prev_v[x] as int][prev_e[x] as int].cap == 1,
        g[prev_v[x] as int][prev_e[x] as int].to == x,
        g[prev_v[x] as int][prev_e[x] as int].rev < g[x].len(),
        g[x][g[prev_v[x] as int][prev_e[x] as int].rev as int].cap == 0,
        prev_v[x] != x,
        0 <= ord[prev_v[x] as int] < ord[x],
        walk_inv(
            g0,
            pushed(g, prev_v[x] as int, prev_e[x] as int),
            h2,
            dist,
            ord,
            d,
            t,
            prev_v[x] as int,
        ),
{
    let p = prev_v[x] as int;
    let e = prev_e[x] as int;
    assert(reached_over(g0, h1, dist, prev_v, prev_e, ord, x));
    assert(untouched(g0, g, ord, x, p));
    assert(g[p] == g0[p]);
    assert(paired(g0, p, e));
    assert(paired(g, p, e));
    let ed = g[p][e];
    let r = ed.rev as int;
    let back = g[x][r];
    let g2 = pushed(g, p, e);
    assert(ed.cap == 1);
    assert(back.cap == 0);
    assert(g2[p] == g[p].update(e, Edge { cap: 0, ..ed }));
    assert(g2[x] == g[x].update(r, Edge { cap: 1, ..back }));
    assert(same_shape(g2, g0)) by {
        assert forall|u: int, e2: int| 0 <= u < g2.len() && 0 <= e2 < g2[u].len() implies (
        #[trigger] g2[u][e2]) == (Edge { cap: g2[u][e2].cap, ..g0[u][e2] }) by {
            assert(g[u][e2] == (Edge { cap: g[u][e2].cap, ..g0[u][e2] }));
        }
    }
    assert(graph_wf(g2)) by {
        assert forall|u: int, e2: int| 0 <= u < g2.len() && 0 <= e2 < g2[u].len() implies #[trigger] paired(
            g2,
            u,
            e2,
        ) by {
            assert(paired(g, u, e2));
            let w = g[u][e2].to as int;
            let r2 = g[u][e2].rev as int;
            assert(paired(g, w, r2));
            if u == p && e2 == e {
            } else if u == x && e2 == r {
            } else {
                assert(g2[u][e2] == g[u][e2]);
                assert(g2[w][r2] == g[w][r2]);
            }
        }
    }
    assert(feasible(g2, h2)) by {
        assert forall|u: int, e2: int|
            0 <= u < g2.len() && 0 <= e2 < g2[u].len() && (#[trigger] g2[u][e2]).cap
                > 0 implies reduced(g2, h2, u, e2) >= 0 by {
            assert(g2[u][e2] == (Edge { cap: g2[u][e2].cap, ..g[u][e2] }));
            if u == x && e2 == r {
                assert(reduced(g0, h2, p, e) == 0);
                assert(g[p][e] == g0[p][e]);
            } else if u == p && e2 == e {
            } else {
                assert(g2[u][e2] == g[u][e2]);
                assert(g[u][e2].cap > 0);
            }
        }
    }
    assert forall|u: int| 0 <= u < g2.len() implies #[trigger] untouched(g0, g2, ord, p, u) by {
        assert(untouched(g0, g, ord, x, u));
        if ord[u] < ord[p] {
            assert(u != p && u != x);
            assert(g2[u] == g[u]);
        }
    }
    assert forall|u: int| 0 <= u < g2.len() implies #[trigger] balanced(g0, g2, t, p, u) by {
        assert(balanced(g0, g, t, x, u));
        if u == p {
            lemma_column_sum_update(g[p], cap_of(), e, Edge { cap: 0, ..ed }, g[p].len() as int);
        } else if u == x {
            lemma_column_sum_update(g[x], cap_of(), r, Edge { cap: 1, ..back }, g[x].len() as int);
        } else {
            assert(g2[u] == g[u]);
        }
    }
}

impl FlowGraph {
    /// Shortest distances from `s` over the edges that have capacity left,
    /// under costs reduced by the potentials `h`, and for each reached node
    /// the edge over which it was reached. A queue ordered by distance
    /// gives the next node to settle; of equal distances the one found
    /// first.
    pub fn shortest_paths(&self, s: usize, h: &Vec<i128>) -> (r: (Search, Ghost<Seq<int>>))
        requires
            self.wf(),
            s < self.n,
            feasible(self@, h@),
            h[s as int] == 0,
        ensures
            searched(self@, h@, s as int, r.0.dist@, r.0.prev_v@, r.0.prev_e@, r.1@),
    {
        let ghost g = self@;
        let ghost hs = h@;
        let n = self.n;
        let mut dist: Vec<i128> = Vec::new();
        let mut prev_v: Vec<usize> = Vec::new();
        let mut prev_e: Vec<usize> = Vec::new();
        let mut done: Vec<bool> = Vec::new();
        let mut i: usize = 0;
        while i < n
            invariant
                i <= n,
                dist.len() == i,
                prev_v.len() == i,
                prev_e.len() == i,
                done.len() == i,
                forall|v: int| 0 <= v < i ==> (#[trigger] dist[v]) == INF,
                forall|v: int| 0 <= v < i ==> !(#[trigger] done[v]),
                column_sum(done@, unsettled(), i as int) == i,
            decreases n - i,
        {
            dist.push(INF);
            prev_v.push(0);
            prev_e.push(0);
            let ghost before = done@;
            done.push(false);
            proof {
                lemma_column_sum_prefix(before, done@, unsettled(), i as int);
            }
            i += 1;
        }
        dist[s] = 0;
        let mut heap: Vec<(i128, usize)> = Vec::new();
        heap.push((0, s));
        let ghost mut st = SearchState {
            dist: dist@,
            prev_v: prev_v@,
            prev_e: prev_e@,
            done: done@,
            ord: Seq::new(n as nat, |v: int| 0int),
            hops: Seq::new(n as nat, |v: int| 0int),
            count: 0,
            key: 0,
            heap: heap@,
        };
        proof {
            reveal(search_inv);
            assert(heap@[0] == (0i128, s));
            assert(queued(heap@, 0, s));
            lemma_column_count_bounds(done@, unsettled(), n as int);
            assert(0 <= column_sum(done@, unsettled(), n as int));
            assert forall|v: int| 0 <= v < g.len() implies #[trigger] label_ok(
                hs,
                st.dist,
                st.done,
                st.ord,
                st.hops,
                st.count,
                v,
            ) by {
                if v == s {
                    assert(st.hops[v] == 0);
                    assert(st.hops[v] * MAX_COST == 0);
                }
            }
            assert(search_inv(g, hs, s as int, st, n as int, 0));
        }
        while heap.len() > 0
            invariant
                self.wf(),
                g == self@,
                hs == h@,
                n == self.n,
                s < n,
                feasible(g, hs),
                hs[s as int] == 0,
                dist.len() == n,
                prev_v.len() == n,
                prev_e.len() == n,
                done.len() == n,
                st.dist == dist@,
                st.prev_v == prev_v@,
                st.prev_e == prev_e@,
                st.done == done@,
                st.heap == heap@,
                search_inv(g, hs, s as int, st, n as int, 0),
                0 <= column_sum(done@, unsettled(), n as int),
            decreases column_sum(done@, unsettled(), n as int), heap.len(),
        {
            let ghost heap0 = heap@;
            let (k, u) = pop_min(&mut heap);
            let ghost idx = choose|idx: int|
                0 <= idx < heap0.len() && (k, u) == #[trigger] heap0[idx] && heap@ == heap0.remove(
                    idx,
                );
            proof {
                assert(u < n) by {
                    reveal(search_inv);
                    assert(entry_ok(g, st.dist, st.key, heap0[idx]));
                }
            }
            if done[u] {
                proof {
                    lemma_search_stale(g, hs, s as int, st, idx);
                    st = SearchState { heap: heap@, ..st };
                }
                continue ;
            }
            proof {
                lemma_search_settle(g, hs, s as int, st, idx);
                st = settled_state(st, idx);
                assert(g[u as int] == self.edges[u as int]@);
            }
            done[u] = true;
            let du = dist[u];
            let hu = h[u];
            let mut e: usize = 0;
            while e < self.edges[u].len()
                invariant
                    self.wf(),
                    g == self@,
                    hs == h@,
                    n == self.n,
                    s < n,
                    u < n,
                    feasible(g, hs),
                    hs[s as int] == 0,
                    dist.len() == n,
                    prev_v.len() == n,
                    prev_e.len() == n,
                    done.len() == n,
                    g[u as int] == self.edges[u as int]@,
                    e <= g[u as int].len(),
                    done[u as int],
                    du == dist[u as int],
                    du == st.key,
                    hu == hs[u as int],
                    st.dist == dist@,
                    st.prev_v == prev_v@,
                    st.prev_e == prev_e@,
                    st.done == done@,
                    st.heap == heap@,
                    search_inv(g, hs, s as int, st, u as int, e as int),
                    0 <= column_sum(done@, unsettled(), n as int),
                decreases g[u as int].len() - e,
            {
                let ed = self.edges[u][e];
                proof {
                    lemma_search_edge(g, hs, s as int, st, u as int, e as int);
                }
                if ed.cap > 0 && !done[ed.to] {
                    let nd: i128 = du + (ed.cost + hu - h[ed.to]);
                    if dist[ed.to] > nd {
                        proof {
                            lemma_search_relax(g, hs, s as int, st, u as int, e as int, nd);
                            st = relaxed_state(g, st, u as int, e as int, nd);
                        }
                        dist[ed.to] = nd;
                        prev_v[ed.to] = u;
                        prev_e[ed.to] = e;
                        heap.push((nd, ed.to));
                    } else {
                        proof {
                            lemma_search_skip(g, hs, s as int, st, u as int, e as int);
                        }
                    }
                } else {
                    proof {
                        lemma_search_skip(g, hs, s as int, st, u as int, e as int);
                    }
                }
                e += 1;
            }
            proof {
                assert(search_inv(g, hs, s as int, st, n as int, 0)) by {
                    reveal(search_inv);
                    assert forall|x: int, e2: int|
                        0 <= x < g.len() && 0 <= e2 < g[x].len() && st.done[x] && (x != n
                            || e2 < 0) implies #[trigger] short(g, hs, st.dist, x, e2) by {
                        assert(x != u || e2 < e);
                    }
                }
            }
        }
        proof {
            lemma_search_finish(g, hs, s as int, st);
        }
        (Search { dist, prev_v, prev_e }, Ghost(st.ord))
    }

    /// Sends up to `flow_` units from `s` to `t`, each along a cheapest
    /// path that has capacity left, and stops early when no path is left.
    ///
    /// Capacity moves between opposite edges and nothing else changes. What
    /// the edges of a node other than `s` and `t` have left in sum stays
    /// the same; those of `s` lose the units sent and those of `t` gain
    /// them. The potentials returned keep every edge with capacity left at
    /// a reduced cost that is not negative. If fewer units were sent than
    /// asked for, the last search shows that `t` is out of reach.
    pub fn solve(&mut self, s: usize, t: usize, flow_: usize) -> (r: (Routing, Ghost<Seq<int>>))
        requires
            old(self).wf(),
            s < old(self).n,
            t < old(self).n,
            s != t,
            flow_ <= MAX_FLOW,
            forall|u: int, e: int|
                0 <= u < old(self)@.len() && 0 <= e < old(self)@[u].len() && (
                #[trigger] old(self)@[u][e]).cap > 0 ==> old(self)@[u][e].cost >= 0,
        ensures
            final(self).wf(),
            final(self).n == old(self).n,
            same_shape(final(self)@, old(self)@),
            r.0.routed <= flow_,
            forall|u: int|
                0 <= u < old(self)@.len() ==> #[trigger] routed_through(
                    old(self)@,
                    final(self)@,
                    s as int,
                    t as int,
                    r.0.routed as int,
                    u,
                ),
            feasible(final(self)@, r.0.potential@),
            r.0.routed < flow_ ==> searched(
                final(self)@,
                r.0.potential@,
                s as int,
                r.0.last.dist@,
                r.0.last.prev_v@,
                r.0.last.prev_e@,
                r.1@,
            ) && r.0.last.dist[t as int] == INF,
    {
        let n = self.n;
        let ghost start = self@;
        let mut flow = flow_;
        let mut h: Vec<i128> = Vec::new();
        let mut i: usize = 0;
        while i < n
            invariant
                i <= n,
                h.len() == i,
                forall|v: int| 0 <= v < i ==> (#[trigger] h[v]) == 0,
            decreases n - i,
        {
            h.push(0);
            i += 1;
        }
        let mut last = Search { dist: Vec::new(), prev_v: Vec::new(), prev_e: Vec::new() };
        let ghost mut last_ord: Seq<int> = Seq::empty();
        proof {
            assert forall|u: int| 0 <= u < start.len() implies #[trigger] routed_through(
                start,
                self@,
                s as int,
                t as int,
                0,
                u,
            ) by {}
            assert forall|u: int, e: int|
                0 <= u < start.len() && 0 <= e < start[u].len() && (#[trigger] start[u][e]).cap
                    > 0 implies reduced(start, h@, u, e) >= 0 by {
                assert(paired(start, u, e));
            }
        }
        while flow > 0
            invariant
                self.wf(),
                n == self.n,
                n == old(self).n,
                start == old(self)@,
                n == start.len(),
                s < n,
                t < n,
                s != t,
                flow <= flow_ <= MAX_FLOW,
                same_shape(self@, start),
                h.len() == n,
                feasible(self@, h@),
                h[s as int] == 0,
                forall|v: int| 0 <= v < n ==> (#[trigger] h[v]) <= (flow_ - flow) * LIMIT_PLAIN,
                forall|u: int|
                    0 <= u < n ==> #[trigger] routed_through(
                        start,
                        self@,
                        s as int,
                        t as int,
                        flow_ - flow,
                        u,
                    ),
            decreases flow,
        {
            let ghost g0 = self@;
            let ghost h1 = h@;
            let (search, Ghost(ord)) = self.shortest_paths(s, &h);
            if search.dist[t] == INF {
                return (Routing { routed: flow_ - flow, potential: h, last: search }, Ghost(ord));
            }
            let d = search.dist[t];
            let ghost dist = search.dist@;
            proof {
                assert(bounded(h1, dist, t as int));
                assert((flow_ - flow) * LIMIT_PLAIN + LIMIT_PLAIN <= MAX_FLOW * LIMIT_PLAIN) by (nonlinear_arith)
                    requires
                        0 <= flow_ - flow < MAX_FLOW,
                        LIMIT_PLAIN >= 0,
                ;
                lemma_raised_feasible(
                    g0,
                    h1,
                    s as int,
                    dist,
                    search.prev_v@,
                    search.prev_e@,
                    ord,
                    d as int,
                    (flow_ - flow) * LIMIT_PLAIN,
                );
            }
            let mut h2: Vec<i128> = Vec::new();
            let mut v: usize = 0;
            while v < n
                invariant
                    v <= n,
                    n == h.len(),
                    n == search.dist.len(),
                    h1 == h@,
                    dist == search.dist@,
                    0 <= d <= LIMIT_PLAIN,
                    h2.len() == v,
                    forall|w: int| 0 <= w < n ==> 0 <= #[trigger] h1[w] <= LIMIT_POTENTIAL,
                    forall|w: int|
                        0 <= w < n ==> 0 <= #[trigger] raised(h1, dist, d as int)[w]
                            <= LIMIT_POTENTIAL,
                    forall|w: int| 0 <= w < v ==> (#[trigger] h2[w]) == raised(h1, dist, d as int)[w],
                decreases n - v,
            {
                let dv = search.dist[v];
                let step = if dv < d {
                    dv
                } else {
                    d
                };
                assert(0 <= raised(h1, dist, d as int)[v as int] <= LIMIT_POTENTIAL);
                assert(0 <= h1[v as int] <= LIMIT_POTENTIAL);
                h2.push(h[v] + step);
                v += 1;
            }
            assert(h2@ =~= raised(h1, dist, d as int));
            h = h2;
            let mut add_flow: usize = usize::MAX;
            let mut x: usize = t;
            let ghost mut started = false;
            while x != s
                invariant
                    self.wf(),
                    g0 == self@,
                    n == self.n,
                    s < n,
                    t < n,
                    x < n,
                    searched(g0, h1, s as int, dist, search.prev_v@, search.prev_e@, ord),
                    dist == search.dist@,
                    dist[x as int] <= d,
                    d < INF,
                    forall|w: int|
                        0 <= w < g0.len() && w != s && dist[w] <= d ==> reduced(
                            g0,
                            h@,
                            #[trigger] search.prev_v@[w] as int,
                            search.prev_e@[w] as int,
                        ) == 0 && dist[search.prev_v@[w] as int] <= d,
                    !started ==> x == t && add_flow == usize::MAX,
                    started ==> add_flow == 1,
                decreases ord[x as int],
            {
                proof {
                    assert(reached_over(
                        g0,
                        h1,
                        dist,
                        search.prev_v@,
                        search.prev_e@,
                        ord,
                        x as int,
                    ));
                    assert(paired(g0, search.prev_v@[x as int] as int, search.prev_e@[x as int] as int));
                    assert(g0[search.prev_v@[x as int] as int] == self.edges[search.prev_v@[x as int] as int]@);
                }
                let p = search.prev_v[x];
                let e = search.prev_e[x];
                let c = self.edges[p][e].cap;
                if c < add_flow {
                    add_flow = c;
                }
                x = p;
                proof {
                    started = true;
                }
            }
            assert(add_flow == 1);
            x = t;
            while x != s
                invariant
                    self.n == n,
                    n == self.edges.len(),
                    graph_wf(g0),
                    s < n,
                    t < n,
                    x < n,
                    n == g0.len(),
                    add_flow == 1,
                    searched(g0, h1, s as int, dist, search.prev_v@, search.prev_e@, ord),
                    dist == search.dist@,
                    d < INF,
                    forall|w: int|
                        0 <= w < g0.len() && w != s && dist[w] <= d ==> reduced(
                            g0,
                            h@,
                            #[trigger] search.prev_v@[w] as int,
                            search.prev_e@[w] as int,
                        ) == 0 && dist[search.prev_v@[w] as int] <= d,
                    walk_inv(g0, self@, h@, dist, ord, d as int, t as int, x as int),
                decreases ord[x as int],
            {
                let ghost g = self@;
                proof {
                    lemma_walk_step(
                        g0,
                        g,
                        h1,
                        h@,
                        s as int,
                        dist,
                        search.prev_v@,
                        search.prev_e@,
                        ord,
                        d as int,
                        t as int,
                        x as int,
                    );
                }
                let p = search.prev_v[x];
                let e = search.prev_e[x];
                assert(g[p as int] == self.edges[p as int]@);
                assert(g[x as int] == self.edges[x as int]@);
                let ed_rev = self.edges[p][e].rev;
                let cap_fore = self.edges[p][e].cap;
                self.edges[p][e].cap = cap_fore - add_flow;
                assert(self@[x as int] == self.edges[x as int]@);
                let cap_back = self.edges[x][ed_rev].cap;
                self.edges[x][ed_rev].cap = cap_back + add_flow;
                proof {
                    let g2 = pushed(g, p as int, e as int);
                    assert(self@.len() == g2.len());
                    assert forall|u: int| 0 <= u < g2.len() implies #[trigger] self@[u] == g2[u] by {
                        assert(self@[u] == self.edges[u]@);
                        if u == p {
                            assert(self.edges[u]@ =~= g2[u]);
                        } else if u == x {
                            assert(self.edges[u]@ =~= g2[u]);
                        }
                    }
                    assert(self@ =~= g2);
                }
                x = p;
            }
            proof {
                assert forall|u: int| 0 <= u < n implies #[trigger] routed_through(
                    start,
                    self@,
                    s as int,
                    t as int,
                    flow_ - flow + 1,
                    u,
                ) by {
                    assert(routed_through(start, g0, s as int, t as int, flow_ - flow, u));
                    assert(balanced(g0, self@, t as int, s as int, u));
                }
                assert((flow_ - flow + 1) * LIMIT_PLAIN == (flow_ - flow) * LIMIT_PLAIN + LIMIT_PLAIN) by (nonlinear_arith);
                assert(same_shape(self@, start)) by {
                    assert forall|u: int, e2: int|
                        0 <= u < self@.len() && 0 <= e2 < self@[u].len() implies (
                    #[trigger] self@[u][e2]) == (Edge { cap: self@[u][e2].cap, ..start[u][e2] }) by {
                        assert(g0[u][e2] == (Edge { cap: g0[u][e2].cap, ..start[u][e2] }));
                    }
                }
            }
            flow -= add_flow;
        }
        (Routing { routed: flow_, potential: h, last }, Ghost(last_ord))
    }

    pub open spec fn view(&self) -> Seq<Seq<Edge>> {
        lists(self.edges)
    }

    pub open spec fn wf(&self) -> bool {
        self.n == self.edges.len() && graph_wf(self@)
    }

    /// A graph of `n` nodes without edges.
    pub fn new(n: usize) -> (g: FlowGraph)
        requires
            n <= MAX_NODES,
        ensures
            g.wf(),
            g@.len() == n,
            forall|u: int| 0 <= u < n ==> (#[trigger] g@[u]).len() == 0,
    {
        let mut edges: Vec<Vec<Edge>> = Vec::new();
        let mut i: usize = 0;
        while i < n
            invariant
                i <= n,
                edges.len() == i,
                forall|u: int| 0 <= u < i ==> (#[trigger] edges[u]).len() == 0,
            decreases n - i,
        {
            edges.push(Vec::new());
            i += 1;
        }
        let g = FlowGraph { n, edges };
        assert forall|u: int| 0 <= u < n implies (#[trigger] g@[u]).len() == 0 by {
            assert(g@[u] == g.edges[u]@);
        }
        g
    }

    /// Adds an edge of one unit from `from` to `to`, and its opposite edge,
    /// which has no capacity at first. Each goes to the end of its list.
    pub fn add(&mut self, from: usize, to: usize, cap: usize, cost: i128, act: Option<Act>)
        requires
            old(self).wf(),
            from < old(self).n,
            to < old(self).n,
            from != to,
            cap == 1,
            -MAX_COST <= cost <= MAX_COST,
        ensures
            final(self).wf(),
            final(self).n == old(self).n,
            final(self)@.len() == old(self)@.len(),
            final(self)@[from as int] == old(self)@[from as int].push(
                Edge { to, cap, cost, rev: old(self)@[to as int].len() as usize, act },
            ),
            final(self)@[to as int] == old(self)@[to as int].push(
                Edge {
                    to: from,
                    cap: 0,
                    cost: (-cost) as i128,
                    rev: old(self)@[from as int].len() as usize,
                    act: None,
                },
            ),
            forall|u: int|
                0 <= u < old(self)@.len() && u != from && u != to ==> (#[trigger] final(self)@[u])
                    == old(self)@[u],
            final(self)@[from as int][old(self)@[from as int].len() as int].rev == old(
                self,
            )@[to as int].len(),
            final(self)@[to as int][old(self)@[to as int].len() as int].rev == old(
                self,
            )@[from as int].len(),
    {
        let ghost g0 = self@;
        assert(g0[from as int] == self.edges[from as int]@);
        assert(g0[to as int] == self.edges[to as int]@);
        let from_idx = self.edges[from].len();
        let to_idx = self.edges[to].len();
        self.edges[from].push(Edge::new(to, cap, cost, to_idx, act));
        let ghost g1 = self@;
        assert(g1[to as int] == self.edges[to as int]@);
        self.edges[to].push(Edge::new(from, 0, -cost, from_idx, None));
        proof {
            let g = self@;
            assert(g[from as int] == self.edges[from as int]@);
            assert(g[to as int] == self.edges[to as int]@);
            assert(g[from as int] =~= g0[from as int].push(
                Edge { to, cap, cost, rev: to_idx, act },
            ));
            assert(g[to as int] =~= g0[to as int].push(
                Edge { to: from, cap: 0, cost: (-cost) as i128, rev: from_idx, act: None },
            ));
            assert forall|u: int| 0 <= u < g0.len() && u != from && u != to implies (#[trigger] g[u])
                == g0[u] by {
                assert(g[u] == self.edges[u]@);
                assert(g0[u] == old(self).edges[u]@);
            }
            assert forall|u: int, e: int| 0 <= u < g.len() && 0 <= e < g[u].len() implies #[trigger] paired(
                g,
                u,
                e,
            ) by {
                if u == from && e == from_idx {
                } else if u == to && e == to_idx {
                } else {
                    assert(paired(g0, u, e));
                    let ed = g0[u][e];
                    assert(g[u][e] == ed);
                    assert(g[ed.to as int][ed.rev as int] == g0[ed.to as int][ed.rev as int]);
                }
            }
        }
    }
}

} // verus!
