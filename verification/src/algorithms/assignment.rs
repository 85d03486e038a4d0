//! The assignment of agents to tiles: each agent gets one of its candidate
//! actions, no two agents claim the same tile, and the values of the
//! actions chosen sum to the most that any such choice can reach.
use crate::algorithms::base::{spec_tile_pos, tile_pos};
use crate::algorithms::flow::{
    cap_of, cap_sum, feasible, graph_wf, paired, reached_over, reduced, routed_through,
    same_shape, searched, short, Edge, FlowGraph, INF, MAX_COST, MAX_NODES,
};
use crate::algorithms::matching::{
    along, hit, lemma_along_is_masked, lemma_sum_at_most_one, lemma_sum_bits, lemma_sum_le,
    lemma_sum_minus, lemma_sum_one_missing, lemma_sum_positive, lemma_sum_same, lemma_sum_update,
    lemma_weights_favour, masked, one_to_one, sum_to,
};
use crate::field::{column_sum, table_of, Field, FieldView, Point};
use crate::simulator::Act;
use vstd::prelude::*;

verus! {

/// The tile that candidate `c` of agent `i` claims.
pub open spec fn claim(
    fv: FieldView,
    side: bool,
    cands: Seq<Seq<(Act, i64)>>,
    i: int,
    c: int,
) -> Point {
    spec_tile_pos(fv, side, i, cands[i][c].0)
}

/// `choice` picks one candidate for every agent, and no two agents claim
/// the same tile.
pub open spec fn is_assignment(
    fv: FieldView,
    side: bool,
    cands: Seq<Seq<(Act, i64)>>,
    choice: Seq<int>,
) -> bool {
    &&& choice.len() == cands.len()
    &&& forall|i: int| 0 <= i < cands.len() ==> 0 <= #[trigger] choice[i] < cands[i].len()
    &&& forall|i: int, k: int|
        0 <= i < k < cands.len() ==> claim(fv, side, cands, i, #[trigger] choice[i]) != claim(
            fv,
            side,
            cands,
            k,
            #[trigger] choice[k],
        )
}

/// The values of the candidates chosen.
pub open spec fn values_of(cands: Seq<Seq<(Act, i64)>>, choice: Seq<int>) -> Seq<int> {
    Seq::new(cands.len(), |i: int| cands[i][choice[i]].1 as int)
}

/// The sum of the values of the candidates chosen.
pub open spec fn total_value(cands: Seq<Seq<(Act, i64)>>, choice: Seq<int>) -> int {
    sum_to(values_of(cands, choice), cands.len() as int)
}

/// The actions of the candidates chosen.
pub open spec fn acts_of(cands: Seq<Seq<(Act, i64)>>, choice: Seq<int>) -> Seq<Act> {
    Seq::new(cands.len(), |i: int| cands[i][choice[i]].0)
}

/// `choice` is an assignment, and no assignment has a larger total value.
pub open spec fn is_best(
    fv: FieldView,
    side: bool,
    cands: Seq<Seq<(Act, i64)>>,
    choice: Seq<int>,
) -> bool {
    &&& is_assignment(fv, side, cands, choice)
    &&& forall|other: Seq<int>| #[trigger]
        is_assignment(fv, side, cands, other) ==> total_value(cands, other) <= total_value(
            cands,
            choice,
        )
}

/// The candidates can be assigned: there are no more agents than the board
/// has, and staying is a candidate only of agents that stand on the board.
pub open spec fn assignable(fv: FieldView, side: bool, cands: Seq<Seq<(Act, i64)>>) -> bool {
    &&& cands.len() <= fv.agent_count()
    &&& forall|i: int, c: int|
        0 <= i < cands.len() && 0 <= c < cands[i].len() && (#[trigger] cands[i][c]).0 is StayAct
            ==> fv.agent(side, i) is Some
}

/// The number of candidates of the first `n` agents.
pub open spec fn candidate_count(cands: Seq<Seq<(Act, i64)>>, n: int) -> int
    decreases n,
{
    if n <= 0 {
        0
    } else {
        candidate_count(cands, n - 1) + cands[n - 1].len()
    }
}

/// The most agents, and the most candidates in all, that can be assigned.
pub const MAX_ASSIGN: usize = 0x8_0000;

/// The network of an assignment problem, as numbers: `n` agents, `m`
/// tiles, and for every candidate the index of its tile, its cost and its
/// action.
pub struct Plan {
    pub n: int,
    pub m: int,
    pub tix: Seq<Seq<int>>,
    pub cost: Seq<Seq<int>>,
    pub acts: Seq<Seq<Act>>,
}

impl Plan {
    pub open spec fn src(self) -> int {
        self.n + self.m
    }

    pub open spec fn snk(self) -> int {
        self.n + self.m + 1
    }

    pub open spec fn wf(self) -> bool {
        &&& 0 <= self.n
        &&& 0 <= self.m
        &&& self.n + self.m + 2 <= MAX_NODES
        &&& self.tix.len() == self.n
        &&& self.cost.len() == self.n
        &&& self.acts.len() == self.n
        &&& forall|i: int| 0 <= i < self.n ==> (#[trigger] self.cost[i]).len() == self.tix[i].len()
        &&& forall|i: int| 0 <= i < self.n ==> (#[trigger] self.acts[i]).len() == self.tix[i].len()
        &&& forall|i: int, c: int|
            0 <= i < self.n && 0 <= c < self.tix[i].len() ==> 0 <= (#[trigger] self.tix[i][c])
                < self.m
        &&& forall|i: int, c: int|
            0 <= i < self.n && 0 <= c < self.tix[i].len() ==> 0 <= (#[trigger] self.cost[i][c])
                <= MAX_COST
    }
}

/// The list of agent `i` holds its first `upto` candidate edges, and after
/// them, if `closed`, the edge back to the source.
pub open spec fn agent_ok(g: Seq<Seq<Edge>>, p: Plan, i: int, upto: int, closed: bool) -> bool {
    &&& g[i].len() == upto + (if closed {
        1int
    } else {
        0int
    })
    &&& forall|c: int|
        0 <= c < upto ==> (#[trigger] g[i][c]).to == p.n + p.tix[i][c] && g[i][c].cost
            == p.cost[i][c] && g[i][c].act == Some(p.acts[i][c])
    &&& closed ==> g[i][upto].to == p.src()
    &&& cap_sum(g[i]) == upto
}

/// The list of the source holds the edges to the first `upto` agents.
pub open spec fn source_ok(g: Seq<Seq<Edge>>, p: Plan, upto: int) -> bool {
    &&& g[p.src()].len() == upto
    &&& forall|i: int|
        0 <= i < upto ==> (#[trigger] g[p.src()][i]).to == i && g[p.src()][i].rev
            == p.tix[i].len()
    &&& cap_sum(g[p.src()]) == upto
}

/// The list of tile `j` holds edges back to agents, and after them, if
/// `closed`, the edge to the sink.
pub open spec fn tile_ok(g: Seq<Seq<Edge>>, p: Plan, j: int, closed: bool) -> bool {
    let l = g[p.n + j];
    &&& closed ==> l.len() >= 1 && l[l.len() - 1].to == p.snk() && l[l.len() - 1].cost == 0
    &&& forall|r: int|
        0 <= r < l.len() - (if closed {
            1int
        } else {
            0int
        }) ==> (#[trigger] l[r]).to < p.n
    &&& cap_sum(l) == (if closed {
        1int
    } else {
        0int
    })
}

/// The list of the sink holds the edges back to the first `upto` tiles.
pub open spec fn sink_ok(g: Seq<Seq<Edge>>, p: Plan, upto: int) -> bool {
    &&& g[p.snk()].len() == upto
    &&& forall|j: int|
        0 <= j < upto ==> (#[trigger] g[p.snk()][j]).to == p.n + j && g[p.snk()][j].rev == g[p.n
            + j].len() - 1
    &&& cap_sum(g[p.snk()]) == 0
}

/// The graph is the network of the plan, with no flow in it.
pub open spec fn laid_out(g: Seq<Seq<Edge>>, p: Plan) -> bool {
    &&& g.len() == p.n + p.m + 2
    &&& forall|i: int| 0 <= i < p.n ==> #[trigger] agent_ok(g, p, i, p.tix[i].len() as int, true)
    &&& source_ok(g, p, p.n)
    &&& forall|j: int| 0 <= j < p.m ==> #[trigger] tile_ok(g, p, j, true)
    &&& sink_ok(g, p, p.m)
}

/// Appending an edge adds its capacity to the sum.
pub proof fn lemma_cap_sum_push(l: Seq<Edge>, e: Edge)
    ensures
        cap_sum(l.push(e)) == cap_sum(l) + e.cap,
{
    crate::algorithms::flow::lemma_column_sum_prefix(l, l.push(e), cap_of(), l.len() as int);
}

/// Builds the network of a plan: an edge from the source to every agent,
/// from every agent to the tile of each of its candidates, and from every
/// tile to the sink.
fn build_network(
    n: usize,
    m: usize,
    tix: &Vec<Vec<usize>>,
    cost: &Vec<Vec<i128>>,
    acts: &Vec<Vec<(Act, i64)>>,
    Ghost(p): Ghost<Plan>,
) -> (graph: FlowGraph)
    requires
        p.wf(),
        p.n == n,
        p.m == m,
        tix.len() == n,
        cost.len() == n,
        acts.len() == n,
        forall|i: int| 0 <= i < n ==> (#[trigger] tix[i]).len() == p.tix[i].len(),
        forall|i: int| 0 <= i < n ==> (#[trigger] cost[i]).len() == p.tix[i].len(),
        forall|i: int| 0 <= i < n ==> (#[trigger] acts[i]).len() == p.tix[i].len(),
        forall|i: int, c: int|
            0 <= i < n && 0 <= c < p.tix[i].len() ==> (#[trigger] tix[i][c]) == p.tix[i][c],
        forall|i: int, c: int|
            0 <= i < n && 0 <= c < p.tix[i].len() ==> (#[trigger] cost[i][c]) == p.cost[i][c],
        forall|i: int, c: int|
            0 <= i < n && 0 <= c < p.tix[i].len() ==> (#[trigger] acts[i][c]).0 == p.acts[i][c],
    ensures
        graph.wf(),
        laid_out(graph@, p),
        forall|u: int, e: int|
            0 <= u < graph@.len() && 0 <= e < graph@[u].len() && (#[trigger] graph@[u][e]).cap > 0
                ==> graph@[u][e].cost >= 0,
{
    let source_idx = n + m;
    let sink_idx = n + m + 1;
    let mut graph = FlowGraph::new(n + m + 2);
    proof {
        assert forall|j: int| 0 <= j < m implies #[trigger] tile_ok(graph@, p, j, false) by {
            assert(graph@[n + j].len() == 0);
        }
        assert(graph@[source_idx as int].len() == 0);
        assert(graph@[sink_idx as int].len() == 0);
    }
    let mut i: usize = 0;
    while i < n
        invariant
            p.wf(),
            p.n == n,
            p.m == m,
            source_idx == n + m,
            sink_idx == n + m + 1,
            tix.len() == n,
            cost.len() == n,
            acts.len() == n,
            forall|a: int| 0 <= a < n ==> (#[trigger] tix[a]).len() == p.tix[a].len(),
            forall|a: int| 0 <= a < n ==> (#[trigger] cost[a]).len() == p.tix[a].len(),
            forall|a: int| 0 <= a < n ==> (#[trigger] acts[a]).len() == p.tix[a].len(),
            forall|a: int, c: int|
                0 <= a < n && 0 <= c < p.tix[a].len() ==> (#[trigger] tix[a][c]) == p.tix[a][c],
            forall|a: int, c: int|
                0 <= a < n && 0 <= c < p.tix[a].len() ==> (#[trigger] cost[a][c]) == p.cost[a][c],
            forall|a: int, c: int|
                0 <= a < n && 0 <= c < p.tix[a].len() ==> (#[trigger] acts[a][c]).0
                    == p.acts[a][c],
            i <= n,
            graph.wf(),
            graph.n == n + m + 2,
            graph@.len() == n + m + 2,
            forall|a: int| 0 <= a < i ==> #[trigger] agent_ok(graph@, p, a, p.tix[a].len() as int, true),
            forall|a: int| i <= a < n ==> #[trigger] agent_ok(graph@, p, a, 0, false),
            source_ok(graph@, p, i as int),
            forall|j: int| 0 <= j < m ==> #[trigger] tile_ok(graph@, p, j, false),
            graph@[sink_idx as int].len() == 0,
            forall|u: int, e: int|
                0 <= u < graph@.len() && 0 <= e < graph@[u].len() && (#[trigger] graph@[u][e]).cap
                    > 0 ==> graph@[u][e].cost >= 0,
        decreases n - i,
    {
        let k = tix[i].len();
        let mut c: usize = 0;
        assert(agent_ok(graph@, p, i as int, 0, false));
        while c < k
            invariant
                p.wf(),
                p.n == n,
                p.m == m,
                source_idx == n + m,
                sink_idx == n + m + 1,
                tix.len() == n,
                cost.len() == n,
                acts.len() == n,
                k == p.tix[i as int].len(),
                tix[i as int].len() == k,
                cost[i as int].len() == k,
                acts[i as int].len() == k,
                forall|d: int| 0 <= d < k ==> (#[trigger] tix[i as int][d]) == p.tix[i as int][d],
                forall|d: int| 0 <= d < k ==> (#[trigger] cost[i as int][d]) == p.cost[i as int][d],
                forall|d: int| 0 <= d < k ==> (#[trigger] acts[i as int][d]).0 == p.acts[i as int][d],
                i < n,
                c <= k,
                graph.wf(),
                graph.n == n + m + 2,
                graph@.len() == n + m + 2,
                forall|a: int|
                    0 <= a < i ==> #[trigger] agent_ok(graph@, p, a, p.tix[a].len() as int, true),
                agent_ok(graph@, p, i as int, c as int, false),
                forall|a: int| i < a < n ==> #[trigger] agent_ok(graph@, p, a, 0, false),
                source_ok(graph@, p, i as int),
                forall|j: int| 0 <= j < m ==> #[trigger] tile_ok(graph@, p, j, false),
                graph@[sink_idx as int].len() == 0,
                forall|u: int, e: int|
                    0 <= u < graph@.len() && 0 <= e < graph@[u].len() && (
                    #[trigger] graph@[u][e]).cap > 0 ==> graph@[u][e].cost >= 0,
            decreases k - c,
        {
            let ghost g1 = graph@;
            let tile = tix[i][c];
            assert(tile == p.tix[i as int][c as int]);
            assert(cost[i as int][c as int] == p.cost[i as int][c as int]);
            graph.add(i, n + tile, 1, cost[i][c], Some(acts[i][c].0));
            proof {
                let g2 = graph@;
                lemma_cap_sum_push(g1[i as int], g2[i as int][c as int]);
                lemma_cap_sum_push(g1[n + tile], g2[n + tile][g1[n + tile].len() as int]);
                assert(agent_ok(g2, p, i as int, c as int + 1, false)) by {
                    assert forall|d: int| 0 <= d < c + 1 implies (#[trigger] g2[i as int][d]).to
                        == p.n + p.tix[i as int][d] && g2[i as int][d].cost == p.cost[i as int][d]
                        && g2[i as int][d].act == Some(p.acts[i as int][d]) by {
                        if d < c {
                            assert(g2[i as int][d] == g1[i as int][d]);
                        }
                    }
                }
                assert forall|a: int| 0 <= a < i implies #[trigger] agent_ok(
                    g2,
                    p,
                    a,
                    p.tix[a].len() as int,
                    true,
                ) by {
                    assert(agent_ok(g1, p, a, p.tix[a].len() as int, true));
                    assert(g2[a] == g1[a]);
                }
                assert forall|a: int| i < a < n implies #[trigger] agent_ok(g2, p, a, 0, false) by {
                    assert(agent_ok(g1, p, a, 0, false));
                    assert(g2[a] == g1[a]);
                }
                assert(g2[source_idx as int] == g1[source_idx as int]);
                assert(g2[sink_idx as int] == g1[sink_idx as int]);
                assert forall|j: int| 0 <= j < m implies #[trigger] tile_ok(g2, p, j, false) by {
                    assert(tile_ok(g1, p, j, false));
                    if j == tile {
                        assert forall|r: int| 0 <= r < g2[n + j].len() implies (
                        #[trigger] g2[n + j][r]).to < p.n by {
                            if r < g1[n + j].len() {
                                assert(g2[n + j][r] == g1[n + j][r]);
                            }
                        }
                    } else {
                        assert(g2[n + j] == g1[n + j]);
                    }
                }
                assert forall|u: int, e: int|
                    0 <= u < g2.len() && 0 <= e < g2[u].len() && (#[trigger] g2[u][e]).cap
                        > 0 implies g2[u][e].cost >= 0 by {
                    if u == i && e == c {
                    } else if u == n + tile && e == g1[n + tile].len() {
                    } else {
                        assert(g2[u][e] == g1[u][e]);
                    }
                }
            }
            c += 1;
        }
        let ghost g1 = graph@;
        graph.add(source_idx, i, 1, 0, None);
        proof {
            let g2 = graph@;
            lemma_cap_sum_push(g1[source_idx as int], g2[source_idx as int][i as int]);
            lemma_cap_sum_push(g1[i as int], g2[i as int][k as int]);
            assert(agent_ok(g2, p, i as int, k as int, true)) by {
                assert forall|d: int| 0 <= d < k implies (#[trigger] g2[i as int][d]).to == p.n
                    + p.tix[i as int][d] && g2[i as int][d].cost == p.cost[i as int][d]
                    && g2[i as int][d].act == Some(p.acts[i as int][d]) by {
                    assert(g2[i as int][d] == g1[i as int][d]);
                }
            }
            assert forall|a: int| 0 <= a < i + 1 implies #[trigger] agent_ok(
                g2,
                p,
                a,
                p.tix[a].len() as int,
                true,
            ) by {
                if a < i {
                    assert(agent_ok(g1, p, a, p.tix[a].len() as int, true));
                    assert(g2[a] == g1[a]);
                }
            }
            assert forall|a: int| i + 1 <= a < n implies #[trigger] agent_ok(g2, p, a, 0, false) by {
                assert(agent_ok(g1, p, a, 0, false));
                assert(g2[a] == g1[a]);
            }
            assert(source_ok(g2, p, i as int + 1)) by {
                assert forall|a: int| 0 <= a < i + 1 implies (#[trigger] g2[p.src()][a]).to == a
                    && g2[p.src()][a].rev == p.tix[a].len() by {
                    if a < i {
                        assert(g2[p.src()][a] == g1[p.src()][a]);
                    }
                }
            }
            assert(g2[sink_idx as int] == g1[sink_idx as int]);
            assert forall|j: int| 0 <= j < m implies #[trigger] tile_ok(g2, p, j, false) by {
                assert(tile_ok(g1, p, j, false));
                assert(g2[n + j] == g1[n + j]);
            }
            assert forall|u: int, e: int|
                0 <= u < g2.len() && 0 <= e < g2[u].len() && (#[trigger] g2[u][e]).cap
                    > 0 implies g2[u][e].cost >= 0 by {
                if u == source_idx && e == i {
                } else if u == i && e == k {
                } else {
                    assert(g2[u][e] == g1[u][e]);
                }
            }
        }
        i += 1;
    }
    let mut j: usize = 0;
    proof {
        assert(sink_ok(graph@, p, 0)) by {
            crate::algorithms::matching::lemma_sum_zero(Seq::empty(), 0);
        }
    }
    while j < m
        invariant
            p.wf(),
            p.n == n,
            p.m == m,
            source_idx == n + m,
            sink_idx == n + m + 1,
            j <= m,
            graph.wf(),
            graph.n == n + m + 2,
            graph@.len() == n + m + 2,
            forall|a: int| 0 <= a < n ==> #[trigger] agent_ok(graph@, p, a, p.tix[a].len() as int, true),
            source_ok(graph@, p, n as int),
            forall|t: int| 0 <= t < j ==> #[trigger] tile_ok(graph@, p, t, true),
            forall|t: int| j <= t < m ==> #[trigger] tile_ok(graph@, p, t, false),
            sink_ok(graph@, p, j as int),
            forall|u: int, e: int|
                0 <= u < graph@.len() && 0 <= e < graph@[u].len() && (#[trigger] graph@[u][e]).cap
                    > 0 ==> graph@[u][e].cost >= 0,
        decreases m - j,
    {
        let ghost g1 = graph@;
        graph.add(n + j, sink_idx, 1, 0, None);
        proof {
            let g2 = graph@;
            let last = g1[n + j].len() as int;
            lemma_cap_sum_push(g1[n + j], g2[n + j][last]);
            lemma_cap_sum_push(g1[sink_idx as int], g2[sink_idx as int][j as int]);
            assert(tile_ok(g1, p, j as int, false));
            assert(tile_ok(g2, p, j as int, true)) by {
                assert forall|r: int| 0 <= r < g2[n + j].len() - 1 implies (
                #[trigger] g2[n + j][r]).to < p.n by {
                    assert(g2[n + j][r] == g1[n + j][r]);
                }
            }
            assert forall|t: int| 0 <= t < j + 1 implies #[trigger] tile_ok(g2, p, t, true) by {
                if t < j {
                    assert(tile_ok(g1, p, t, true));
                    assert(g2[n + t] == g1[n + t]);
                }
            }
            assert forall|t: int| j + 1 <= t < m implies #[trigger] tile_ok(g2, p, t, false) by {
                assert(tile_ok(g1, p, t, false));
                assert(g2[n + t] == g1[n + t]);
            }
            assert forall|a: int| 0 <= a < n implies #[trigger] agent_ok(
                g2,
                p,
                a,
                p.tix[a].len() as int,
                true,
            ) by {
                assert(agent_ok(g1, p, a, p.tix[a].len() as int, true));
                assert(g2[a] == g1[a]);
            }
            assert(g2[source_idx as int] == g1[source_idx as int]);
            assert(sink_ok(g2, p, j as int + 1)) by {
                assert forall|t: int| 0 <= t < j + 1 implies (#[trigger] g2[p.snk()][t]).to == p.n
                    + t && g2[p.snk()][t].rev == g2[p.n + t].len() - 1 by {
                    assert(g1[p.snk()].len() == j);
                    assert(g2[n + j].len() == last + 1);
                    if t < j {
                        assert(g1[p.snk()][t].to == p.n + t);
                        assert(g2[p.snk()][t] == g1[p.snk()][t]);
                        assert(g2[n + t] == g1[n + t]);
                    } else {
                        assert(g2[p.snk()][t].to == n + j);
                        assert(g2[p.snk()][t].rev == last);
                    }
                }
            }
            assert forall|u: int, e: int|
                0 <= u < g2.len() && 0 <= e < g2[u].len() && (#[trigger] g2[u][e]).cap
                    > 0 implies g2[u][e].cost >= 0 by {
                if u == n + j && e == last {
                } else if u == sink_idx && e == j {
                } else {
                    assert(g2[u][e] == g1[u][e]);
                }
            }
        }
        j += 1;
    }
    graph
}

/// The capacities of a list of edges, as numbers.
pub open spec fn caps(l: Seq<Edge>) -> Seq<int> {
    Seq::new(l.len(), |e: int| l[e].cap as int)
}

/// The capacity left on a list is the sum of its capacities.
pub proof fn lemma_cap_sum_is_sum(l: Seq<Edge>, k: int)
    requires
        0 <= k <= l.len(),
    ensures
        column_sum(l, cap_of(), k) == sum_to(caps(l), k),
    decreases k,
{
    if k > 0 {
        lemma_cap_sum_is_sum(l, k - 1);
    }
}

/// A network after `k` units went from the source to the sink: the graph
/// `g0` as it was laid out, the graph `g` as it is, and potentials `h`.
pub struct Solved {
    pub g0: Seq<Seq<Edge>>,
    pub g: Seq<Seq<Edge>>,
    pub p: Plan,
    pub h: Seq<i128>,
    pub k: int,
}

impl Solved {
    pub open spec fn wf(self) -> bool {
        &&& self.p.wf()
        &&& graph_wf(self.g0)
        &&& graph_wf(self.g)
        &&& same_shape(self.g, self.g0)
        &&& laid_out(self.g0, self.p)
        &&& feasible(self.g, self.h)
        &&& 0 <= self.k <= self.p.n
        &&& forall|u: int|
            0 <= u < self.g.len() ==> #[trigger] routed_through(
                self.g0,
                self.g,
                self.p.src(),
                self.p.snk(),
                self.k,
                u,
            )
    }

    /// Candidate `c` of agent `i` carries flow.
    pub open spec fn sat(self, i: int, c: int) -> bool {
        self.g[i][c].cap == 0
    }

    /// Agent `i` receives flow from the source.
    pub open spec fn matched(self, i: int) -> bool {
        self.g[self.p.src()][i].cap == 0
    }

    /// Tile `j` sends flow to the sink.
    pub open spec fn taken(self, j: int) -> bool {
        let l = self.g[self.p.n + j];
        l[l.len() - 1].cap == 0
    }

    /// The candidate of agent `i` that carries flow, or `-1`.
    pub open spec fn mate(self, i: int) -> int {
        if exists|c: int| 0 <= c < self.p.tix[i].len() && self.sat(i, c) {
            choose|c: int| 0 <= c < self.p.tix[i].len() && self.sat(i, c)
        } else {
            -1
        }
    }

    /// For every agent the tile of the candidate that carries flow, or
    /// `-1`.
    pub open spec fn tiles(self) -> Seq<int> {
        Seq::new(
            self.p.n as nat,
            |i: int|
                if self.mate(i) >= 0 {
                    self.p.tix[i][self.mate(i)]
                } else {
                    -1
                },
        )
    }
}

/// Every capacity is zero or one.
pub proof fn lemma_cap_bit(g: Seq<Seq<Edge>>, u: int, e: int)
    requires
        graph_wf(g),
        0 <= u < g.len(),
        0 <= e < g[u].len(),
    ensures
        g[u][e].cap <= 1,
{
    assert(paired(g, u, e));
}

/// What holds at an agent: its list has the shape of the plan; if it
/// receives flow exactly one of its candidates carries it, and otherwise
/// none does.
pub proof fn lemma_agent_state(s: Solved, i: int)
    requires
        s.wf(),
        0 <= i < s.p.n,
    ensures
        s.g[i].len() == s.p.tix[i].len() + 1,
        s.g[s.p.src()].len() == s.p.n,
        forall|c: int|
            0 <= c < s.p.tix[i].len() ==> (#[trigger] s.g[i][c]).to == s.p.n + s.p.tix[i][c]
                && s.g[i][c].cost == s.p.cost[i][c] && s.g[i][c].act == Some(s.p.acts[i][c])
                && s.g[i][c].cap <= 1,
        s.matched(i) ==> 0 <= s.mate(i) < s.p.tix[i].len() && s.sat(i, s.mate(i)) && forall|c: int|
            0 <= c < s.p.tix[i].len() && c != s.mate(i) ==> !#[trigger] s.sat(i, c),
        !s.matched(i) ==> s.mate(i) == -1 && forall|c: int|
            0 <= c < s.p.tix[i].len() ==> !#[trigger] s.sat(i, c),
{
    let k = s.p.tix[i].len() as int;
    let l = s.g[i];
    assert(agent_ok(s.g0, s.p, i, k, true));
    assert(routed_through(s.g0, s.g, s.p.src(), s.p.snk(), s.k, i));
    assert(l.len() == s.g0[i].len());
    assert forall|c: int| 0 <= c < k implies (#[trigger] s.g[i][c]).to == s.p.n + s.p.tix[i][c]
        && s.g[i][c].cost == s.p.cost[i][c] && s.g[i][c].act == Some(s.p.acts[i][c])
        && s.g[i][c].cap <= 1 by {
        assert(s.g[i][c] == (Edge { cap: s.g[i][c].cap, ..s.g0[i][c] }));
        lemma_cap_bit(s.g, i, c);
    }
    assert(s.g[s.p.src()].len() == s.g0[s.p.src()].len());
    // the edge back to the source mirrors the edge from the source
    assert(s.g[s.p.src()][i] == (Edge { cap: s.g[s.p.src()][i].cap, ..s.g0[s.p.src()][i] }));
    assert(paired(s.g, s.p.src(), i));
    assert(s.g[i][k] == (Edge { cap: s.g[i][k].cap, ..s.g0[i][k] }));
    let b = l[k].cap as int;
    assert(b + s.g[s.p.src()][i].cap == 1);
    lemma_cap_sum_is_sum(l, k + 1);
    let bits = caps(l);
    assert forall|c: int| 0 <= c < k + 1 implies 0 <= #[trigger] bits[c] <= 1 by {
        lemma_cap_bit(s.g, i, c);
    }
    assert(sum_to(bits, k) == k - b);
    if s.matched(i) {
        let z = lemma_sum_one_missing(bits, k);
        assert(s.sat(i, z));
        let m = s.mate(i);
        assert(0 <= m < k && s.sat(i, m));
        assert forall|c: int| 0 <= c < k && c != m implies !#[trigger] s.sat(i, c) by {
            if c != z {
                assert(bits[c] == 1);
            }
            if m != z {
                assert(bits[m] == 1);
            }
        }
    } else {
        lemma_sum_bits(bits, k);
        assert forall|c: int| 0 <= c < k implies !#[trigger] s.sat(i, c) by {
            assert(bits[c] == 1);
        }
    }
}

/// What holds at a tile: its list ends with the edge to the sink, the
/// edges before it lead back to agents, and exactly one edge of the list
/// has its unit.
pub proof fn lemma_tile_state(s: Solved, j: int)
    requires
        s.wf(),
        0 <= j < s.p.m,
    ensures
        s.g[s.p.n + j].len() >= 1,
        s.g[s.p.n + j][s.g[s.p.n + j].len() - 1].to == s.p.snk(),
        s.g[s.p.n + j][s.g[s.p.n + j].len() - 1].cost == 0,
        s.g[s.p.snk()].len() == s.p.m,
        s.g[s.p.snk()][j].to == s.p.n + j,
        s.g[s.p.snk()][j].rev == s.g[s.p.n + j].len() - 1,
        s.g[s.p.snk()][j].cost == 0,
        s.g[s.p.snk()][j].cap + s.g[s.p.n + j][s.g[s.p.n + j].len() - 1].cap == 1,
        forall|r: int|
            0 <= r < s.g[s.p.n + j].len() - 1 ==> (#[trigger] s.g[s.p.n + j][r]).to < s.p.n,
        forall|a: int, b: int|
            0 <= a < b < s.g[s.p.n + j].len() ==> !((#[trigger] s.g[s.p.n + j][a]).cap == 1 && (
            #[trigger] s.g[s.p.n + j][b]).cap == 1),
        exists|r: int| 0 <= r < s.g[s.p.n + j].len() && (#[trigger] s.g[s.p.n + j][r]).cap == 1,
{
    let u = s.p.n + j;
    let l = s.g[u];
    assert(tile_ok(s.g0, s.p, j, true));
    assert(routed_through(s.g0, s.g, s.p.src(), s.p.snk(), s.k, u));
    assert(l.len() == s.g0[u].len());
    assert(l[l.len() - 1] == (Edge { cap: l[l.len() - 1].cap, ..s.g0[u][l.len() - 1] }));
    assert(s.g[s.p.snk()].len() == s.g0[s.p.snk()].len());
    assert(s.g0[s.p.snk()][j].to == s.p.n + j);
    assert(s.g[s.p.snk()][j] == (Edge { cap: s.g[s.p.snk()][j].cap, ..s.g0[s.p.snk()][j] }));
    assert(paired(s.g, s.p.snk(), j));
    assert forall|r: int| 0 <= r < l.len() - 1 implies (#[trigger] s.g[u][r]).to < s.p.n by {
        assert(s.g[u][r] == (Edge { cap: s.g[u][r].cap, ..s.g0[u][r] }));
    }
    lemma_cap_sum_is_sum(l, l.len() as int);
    let bits = caps(l);
    assert forall|c: int| 0 <= c < l.len() implies 0 <= #[trigger] bits[c] <= 1 by {
        lemma_cap_bit(s.g, u, c);
    }
    assert(sum_to(bits, l.len() as int) == 1);
    assert forall|a: int, b: int| 0 <= a < b < l.len() implies !((#[trigger] s.g[u][a]).cap == 1
        && (#[trigger] s.g[u][b]).cap == 1) by {
        lemma_sum_at_most_one(bits, l.len() as int, a, b);
    }
    let z = lemma_sum_positive(bits, l.len() as int);
    assert(s.g[u][z].cap == 1);
}

/// No two agents send flow to the same tile.
pub proof fn lemma_no_share(s: Solved, i: int, c: int, i2: int, c2: int)
    requires
        s.wf(),
        0 <= i < s.p.n,
        0 <= i2 < s.p.n,
        i != i2,
        0 <= c < s.p.tix[i].len(),
        0 <= c2 < s.p.tix[i2].len(),
        s.sat(i, c),
        s.sat(i2, c2),
    ensures
        s.p.tix[i][c] != s.p.tix[i2][c2],
{
    if s.p.tix[i][c] == s.p.tix[i2][c2] {
        let j = s.p.tix[i][c];
        lemma_agent_state(s, i);
        lemma_agent_state(s, i2);
        lemma_tile_state(s, j);
        assert(paired(s.g, i, c));
        assert(paired(s.g, i2, c2));
        let r = s.g[i][c].rev as int;
        let r2 = s.g[i2][c2].rev as int;
        assert(s.g[s.p.n + j][r].to == i);
        assert(s.g[s.p.n + j][r2].to == i2);
        assert(r != r2);
        assert(s.g[s.p.n + j][r].cap == 1);
        assert(s.g[s.p.n + j][r2].cap == 1);
        if r < r2 {
            assert(!(s.g[s.p.n + j][r].cap == 1 && s.g[s.p.n + j][r2].cap == 1));
        } else {
            assert(!(s.g[s.p.n + j][r2].cap == 1 && s.g[s.p.n + j][r].cap == 1));
        }
    }
}

/// The tiles that carry flow are used by one agent each.
pub proof fn lemma_tiles_one_to_one(s: Solved)
    requires
        s.wf(),
    ensures
        one_to_one(s.tiles(), s.p.n, s.p.m),
        forall|i: int| 0 <= i < s.p.n ==> -1 <= #[trigger] s.tiles()[i],
{
    let t = s.tiles();
    assert forall|i: int| 0 <= i < s.p.n implies -1 <= (#[trigger] t[i]) < s.p.m by {
        lemma_agent_state(s, i);
    }
    assert forall|i: int, k: int| 0 <= i < k < s.p.n && t[i] >= 0 implies t[i] != t[k] by {
        lemma_agent_state(s, i);
        lemma_agent_state(s, k);
        if t[k] >= 0 {
            lemma_no_share(s, i, s.mate(i), k, s.mate(k));
        }
    }
}

/// A tile sends flow to the sink exactly if an agent sends flow to it.
pub proof fn lemma_taken_iff_hit(s: Solved, j: int)
    requires
        s.wf(),
        0 <= j < s.p.m,
    ensures
        s.taken(j) <==> hit(s.tiles(), s.p.n, j),
{
    let u = s.p.n + j;
    let l = s.g[u];
    let last = l.len() - 1;
    lemma_tile_state(s, j);
    if hit(s.tiles(), s.p.n, j) {
        let i = choose|i: int| 0 <= i < s.p.n && #[trigger] s.tiles()[i] == j;
        lemma_agent_state(s, i);
        let c = s.mate(i);
        assert(s.sat(i, c));
        assert(paired(s.g, i, c));
        let r = s.g[i][c].rev as int;
        assert(l[r].cap == 1);
        assert(l[r].to == i);
        assert(r != last);
        if r < last {
            assert(!(l[r].cap == 1 && l[last].cap == 1));
        }
        lemma_cap_bit(s.g, u, last);
    }
    if s.taken(j) {
        let r = choose|r: int| 0 <= r < l.len() && (#[trigger] l[r]).cap == 1;
        assert(r < last);
        let i = l[r].to as int;
        assert(paired(s.g, u, r));
        let c = l[r].rev as int;
        lemma_agent_state(s, i);
        assert(s.g[i][c].to == u);
        assert(c < s.p.tix[i].len()) by {
            if c == s.p.tix[i].len() {
                assert(agent_ok(s.g0, s.p, i, s.p.tix[i].len() as int, true));
                assert(s.g[i][c] == (Edge { cap: s.g[i][c].cap, ..s.g0[i][c] }));
            }
        }
        assert(s.sat(i, c));
        if !s.matched(i) {
            assert(!s.sat(i, c));
        }
        assert(s.mate(i) == c);
        assert(s.tiles()[i] == j);
    }
}

/// The costs of the candidates chosen.
pub open spec fn costs_of(p: Plan, choice: Seq<int>) -> Seq<int> {
    Seq::new(p.n as nat, |i: int| p.cost[i][choice[i]])
}

/// The tiles of the candidates chosen.
pub open spec fn tiles_of(p: Plan, choice: Seq<int>) -> Seq<int> {
    Seq::new(p.n as nat, |i: int| p.tix[i][choice[i]])
}

/// For every agent the candidate that carries flow, or `-1`.
pub open spec fn mates(s: Solved) -> Seq<int> {
    Seq::new(s.p.n as nat, |i: int| s.mate(i))
}

/// `choice` picks a candidate for every agent, and no two tiles agree.
pub open spec fn picks(p: Plan, choice: Seq<int>) -> bool {
    &&& choice.len() == p.n
    &&& forall|i: int| 0 <= i < p.n ==> 0 <= #[trigger] choice[i] < p.tix[i].len()
    &&& forall|i: int, k: int|
        0 <= i < k < p.n ==> p.tix[i][#[trigger] choice[i]] != p.tix[k][#[trigger] choice[k]]
}

/// When every agent receives flow, the source has no capacity left.
pub proof fn lemma_all_matched(s: Solved)
    requires
        s.wf(),
        s.k == s.p.n,
    ensures
        forall|i: int| 0 <= i < s.p.n ==> #[trigger] s.matched(i),
{
    let l = s.g[s.p.src()];
    assert(routed_through(s.g0, s.g, s.p.src(), s.p.snk(), s.k, s.p.src()));
    assert(l.len() == s.g0[s.p.src()].len());
    lemma_cap_sum_is_sum(l, l.len() as int);
    let bits = caps(l);
    assert forall|c: int| 0 <= c < l.len() implies 0 <= #[trigger] bits[c] <= 1 by {
        lemma_cap_bit(s.g, s.p.src(), c);
    }
    lemma_sum_bits(bits, l.len() as int);
    assert forall|i: int| 0 <= i < s.p.n implies #[trigger] s.matched(i) by {
        assert(bits[i] == 0);
    }
}

/// When every agent receives flow, the candidates that carry it use no
/// tile twice.
pub proof fn lemma_mates_pick(s: Solved)
    requires
        s.wf(),
        s.k == s.p.n,
    ensures
        picks(s.p, mates(s)),
{
    let n = s.p.n;
    let chosen = mates(s);
    lemma_all_matched(s);
    assert forall|i: int| 0 <= i < n implies 0 <= #[trigger] chosen[i] < s.p.tix[i].len() by {
        lemma_agent_state(s, i);
    }
    assert forall|i: int, k: int| 0 <= i < k < n implies s.p.tix[i][#[trigger] chosen[i]]
        != s.p.tix[k][#[trigger] chosen[k]] by {
        lemma_agent_state(s, i);
        lemma_agent_state(s, k);
        lemma_no_share(s, i, chosen[i], k, chosen[k]);
    }
}

/// When every agent receives flow, the candidates that carry it cost in
/// sum no more than any other choice that uses no tile twice.
pub proof fn lemma_cheapest(s: Solved, other: Seq<int>)
    requires
        s.wf(),
        s.k == s.p.n,
        picks(s.p, other),
    ensures
        picks(s.p, mates(s)),
        sum_to(costs_of(s.p, other), s.p.n) >= sum_to(costs_of(s.p, mates(s)), s.p.n),
{
    let n = s.p.n;
    let m = s.p.m;
    let chosen = mates(s);
    lemma_all_matched(s);
    lemma_tiles_one_to_one(s);
    lemma_mates_pick(s);
    let ct = s.tiles();
    let ot = tiles_of(s.p, other);
    assert(ct =~= tiles_of(s.p, chosen)) by {
        assert forall|i: int| 0 <= i < n implies ct[i] == tiles_of(s.p, chosen)[i] by {
            lemma_agent_state(s, i);
        }
    }
    let w = Seq::new(m as nat, |j: int| s.h[n + j] - s.h[s.p.snk()]);
    assert forall|j: int| 0 <= j < w.len() && hit(ct, n, j) implies #[trigger] w[j] <= 0 by {
        lemma_taken_iff_hit(s, j);
        lemma_tile_state(s, j);
        assert(s.g[s.p.snk()][j].cap == 1);
        assert(reduced(s.g, s.h, s.p.snk(), j) >= 0);
    }
    assert forall|j: int| 0 <= j < w.len() && !hit(ct, n, j) implies #[trigger] w[j] >= 0 by {
        lemma_taken_iff_hit(s, j);
        lemma_tile_state(s, j);
        let last = s.g[n + j].len() - 1;
        lemma_cap_bit(s.g, n + j, last);
        assert(s.g[n + j][last].cap == 1);
        assert(reduced(s.g, s.h, n + j, last) >= 0);
    }
    assert(one_to_one(ot, n, m)) by {
        assert forall|i: int| 0 <= i < n implies (#[trigger] ot[i]) < m by {}
    }
    lemma_weights_favour(ct, ot, w, n);
    let co = costs_of(s.p, other);
    let cc = costs_of(s.p, chosen);
    let ao = along(ot, w);
    let ac = along(ct, w);
    let da = Seq::new(n as nat, |i: int| co[i] - ao[i]);
    let db = Seq::new(n as nat, |i: int| cc[i] - ac[i]);
    assert forall|i: int| 0 <= i < n implies db[i] <= da[i] by {
        lemma_agent_state(s, i);
        let c = chosen[i];
        let o = other[i];
        assert(s.sat(i, c));
        assert(paired(s.g, i, c));
        let r = s.g[i][c].rev as int;
        let tc = n + s.p.tix[i][c];
        assert(s.g[tc][r].cap == 1);
        assert(reduced(s.g, s.h, tc, r) >= 0);
        if s.sat(i, o) {
            assert(o == c);
        } else {
            assert(s.g[i][o].cap == 1);
            assert(reduced(s.g, s.h, i, o) >= 0);
        }
    }
    lemma_sum_le(db, da, n);
    lemma_sum_minus(co, ao, da, n);
    lemma_sum_minus(cc, ac, db, n);
}

/// When the sink is out of reach of the source although an agent still
/// lacks flow, no choice gives every agent a tile of its own.
pub proof fn lemma_blocked(
    s: Solved,
    dist: Seq<i128>,
    prev_v: Seq<usize>,
    prev_e: Seq<usize>,
    ord: Seq<int>,
    other: Seq<int>,
)
    requires
        s.wf(),
        s.k < s.p.n,
        searched(s.g, s.h, s.p.src(), dist, prev_v, prev_e, ord),
        dist[s.p.snk()] == INF,
    ensures
        !picks(s.p, other),
{
    if picks(s.p, other) {
        lemma_blocked_inner(s, dist, prev_v, prev_e, ord, other);
    }
}

/// The sums behind [`lemma_blocked`]: the agents that the search reaches
/// are more than the tiles it reaches, yet `other` gives each of them a
/// reached tile of its own.
proof fn lemma_blocked_inner(
    s: Solved,
    dist: Seq<i128>,
    prev_v: Seq<usize>,
    prev_e: Seq<usize>,
    ord: Seq<int>,
    other: Seq<int>,
)
    requires
        s.wf(),
        s.k < s.p.n,
        searched(s.g, s.h, s.p.src(), dist, prev_v, prev_e, ord),
        dist[s.p.snk()] == INF,
        picks(s.p, other),
    ensures
        !picks(s.p, other),
{
    let n = s.p.n;
    let m = s.p.m;
    let src = s.p.src();
    let snk = s.p.snk();
    let cur = s.tiles();
    let ot = tiles_of(s.p, other);
    let in_a = Seq::new(
        n as nat,
        |i: int|
            if dist[i] < INF {
                1int
            } else {
                0int
            },
    );
    let in_t = Seq::new(
        m as nat,
        |j: int|
            if dist[n + j] < INF {
                1int
            } else {
                0int
            },
    );
    lemma_tiles_one_to_one(s);
    assert(one_to_one(ot, n, m)) by {
        assert forall|i: int| 0 <= i < n implies (#[trigger] ot[i]) < m by {}
    }
    // an agent without flow that the search reaches
    let l = s.g[src];
    assert(routed_through(s.g0, s.g, src, snk, s.k, src));
    assert(l.len() == s.g0[src].len());
    lemma_cap_sum_is_sum(l, l.len() as int);
    let bits = caps(l);
    assert forall|c: int| 0 <= c < l.len() implies 0 <= #[trigger] bits[c] <= 1 by {
        lemma_cap_bit(s.g, src, c);
    }
    let i0 = lemma_sum_positive(bits, l.len() as int);
    assert(!s.matched(i0));
    lemma_agent_state(s, i0);
    assert(s.g[src][i0] == (Edge { cap: s.g[src][i0].cap, ..s.g0[src][i0] }));
    assert(short(s.g, s.h, dist, src, i0));
    assert(in_a[i0] == 1);
    assert(cur[i0] == -1);
    // every reached tile carries flow
    assert forall|j: int| 0 <= j < m implies masked(cur, n, in_t)[j] == in_t[j] by {
        if in_t[j] == 1 {
            lemma_tile_state(s, j);
            lemma_taken_iff_hit(s, j);
            let last = s.g[n + j].len() - 1;
            if !s.taken(j) {
                lemma_cap_bit(s.g, n + j, last);
                assert(short(s.g, s.h, dist, n + j, last));
            }
        }
    }
    lemma_along_is_masked(cur, in_t, n);
    lemma_sum_same(masked(cur, n, in_t), in_t, m);
    // a tile that carries flow is reached only with its agent
    let rest = in_a.update(i0, 0);
    assert forall|i: int| 0 <= i < n implies along(cur, in_t)[i] <= rest[i] by {
        lemma_agent_state(s, i);
        if cur[i] >= 0 {
            let c = s.mate(i);
            let j = cur[i];
            if in_t[j] == 1 {
                assert(paired(s.g, i, c));
                let r = s.g[i][c].rev as int;
                assert(s.g[n + j][r].cap == 1);
                assert(short(s.g, s.h, dist, n + j, r));
            }
        }
    }
    lemma_sum_le(along(cur, in_t), rest, n);
    lemma_sum_update(in_a, i0, 0, n);
    // a reached agent reaches the tile that the other choice gives it
    lemma_along_is_masked(ot, in_t, n);
    assert forall|i: int| 0 <= i < n implies in_a[i] <= along(ot, in_t)[i] by {
        if dist[i] < INF {
            lemma_agent_state(s, i);
            let o = other[i];
            let j = s.p.tix[i][o];
            if s.g[i][o].cap == 1 {
                assert(short(s.g, s.h, dist, i, o));
            } else {
                assert(s.sat(i, o));
                assert(s.matched(i));
                assert(reached_over(s.g, s.h, dist, prev_v, prev_e, ord, i));
                let pu = prev_v[i] as int;
                let e = prev_e[i] as int;
                assert(paired(s.g, pu, e));
                assert(s.g[pu][e] == (Edge { cap: s.g[pu][e].cap, ..s.g0[pu][e] }));
                if pu == src {
                    assert(s.g0[src][e].to == e);
                } else if pu == snk {
                    assert(s.g0[snk][e].to == n + e);
                } else if pu < n {
                    lemma_agent_state(s, pu);
                    assert(agent_ok(s.g0, s.p, pu, s.p.tix[pu].len() as int, true));
                    if e < s.p.tix[pu].len() {
                        assert(s.g[pu][e].to == n + s.p.tix[pu][e]);
                    }
                } else {
                    let j2 = pu - n;
                    lemma_tile_state(s, j2);
                    let c2 = s.g[pu][e].rev as int;
                    assert(s.g[i][c2].to == pu);
                    assert(s.g[i][c2].cap == 0);
                    assert(agent_ok(s.g0, s.p, i, s.p.tix[i].len() as int, true));
                    assert(s.g[i][c2] == (Edge { cap: s.g[i][c2].cap, ..s.g0[i][c2] }));
                    assert(c2 < s.p.tix[i].len());
                    assert(s.sat(i, c2));
                    assert(c2 == o);
                    assert(j == j2);
                }
            }
        }
    }
    lemma_sum_le(in_a, along(ot, in_t), n);
    assert forall|j: int| 0 <= j < m implies masked(ot, n, in_t)[j] <= in_t[j] by {}
    lemma_sum_le(masked(ot, n, in_t), in_t, m);
}

/// The plan matches the candidates: `poses` lists the tiles claimed, each
/// once; every candidate has the index of its tile, its action, and as
/// its cost what its value lacks to `max_val`.
pub open spec fn linked(
    fv: FieldView,
    side: bool,
    cands: Seq<Seq<(Act, i64)>>,
    poses: Seq<Point>,
    max_val: int,
    p: Plan,
) -> bool {
    &&& p.n == cands.len()
    &&& p.m == poses.len()
    &&& poses.no_duplicates()
    &&& forall|i: int| 0 <= i < p.n ==> (#[trigger] p.tix[i]).len() == cands[i].len()
    &&& forall|i: int, c: int|
        0 <= i < p.n && 0 <= c < cands[i].len() ==> poses[#[trigger] p.tix[i][c]] == claim(
            fv,
            side,
            cands,
            i,
            c,
        )
    &&& forall|i: int, c: int|
        0 <= i < p.n && 0 <= c < cands[i].len() ==> (#[trigger] p.cost[i][c]) == max_val
            - cands[i][c].1
    &&& forall|i: int, c: int|
        0 <= i < p.n && 0 <= c < cands[i].len() ==> (#[trigger] p.acts[i][c]) == cands[i][c].0
}

/// A choice is an assignment of the candidates exactly if it picks from
/// the plan without using a tile twice.
pub proof fn lemma_picks_is_assignment(
    fv: FieldView,
    side: bool,
    cands: Seq<Seq<(Act, i64)>>,
    poses: Seq<Point>,
    max_val: int,
    p: Plan,
    choice: Seq<int>,
)
    requires
        p.wf(),
        linked(fv, side, cands, poses, max_val, p),
    ensures
        picks(p, choice) <==> is_assignment(fv, side, cands, choice),
{
    if picks(p, choice) {
        assert forall|i: int, k: int| 0 <= i < k < cands.len() implies claim(
            fv,
            side,
            cands,
            i,
            #[trigger] choice[i],
        ) != claim(fv, side, cands, k, #[trigger] choice[k]) by {
            assert(p.tix[i][choice[i]] != p.tix[k][choice[k]]);
            assert(0 <= p.tix[i][choice[i]] < p.m);
            assert(0 <= p.tix[k][choice[k]] < p.m);
        }
    }
    if is_assignment(fv, side, cands, choice) {
        assert forall|i: int| 0 <= i < p.n implies 0 <= #[trigger] choice[i] < p.tix[i].len() by {
            assert(p.tix[i].len() == cands[i].len());
        }
        assert forall|i: int, k: int| 0 <= i < k < p.n implies p.tix[i][#[trigger] choice[i]]
            != p.tix[k][#[trigger] choice[k]] by {
            assert(claim(fv, side, cands, i, choice[i]) != claim(fv, side, cands, k, choice[k]));
            assert(p.tix[i].len() == cands[i].len());
            assert(p.tix[k].len() == cands[k].len());
        }
    }
}

/// A choice that costs no more is worth no less.
pub proof fn lemma_cost_to_value(
    fv: FieldView,
    side: bool,
    cands: Seq<Seq<(Act, i64)>>,
    poses: Seq<Point>,
    max_val: int,
    p: Plan,
    chosen: Seq<int>,
    other: Seq<int>,
)
    requires
        p.wf(),
        linked(fv, side, cands, poses, max_val, p),
        picks(p, chosen),
        picks(p, other),
        sum_to(costs_of(p, other), p.n) >= sum_to(costs_of(p, chosen), p.n),
    ensures
        total_value(cands, other) <= total_value(cands, chosen),
{
    let n = p.n;
    let co = costs_of(p, other);
    let cc = costs_of(p, chosen);
    let vo = values_of(cands, other);
    let vc = values_of(cands, chosen);
    let d = Seq::new(n as nat, |i: int| co[i] - cc[i]);
    assert forall|i: int| 0 <= i < n implies d[i] == vc[i] - vo[i] by {
        assert(p.tix[i].len() == cands[i].len());
        assert(p.cost[i][other[i]] == max_val - cands[i][other[i]].1);
        assert(p.cost[i][chosen[i]] == max_val - cands[i][chosen[i]].1);
    }
    lemma_sum_minus(co, cc, d, n);
    lemma_sum_minus(vc, vo, d, n);
}

/// The index of `p` in `poses`, if it is there.
fn find_point(poses: &Vec<Point>, p: Point) -> (r: Option<usize>)
    ensures
        match r {
            Some(j) => j < poses.len() && poses[j as int] == p,
            None => !poses@.contains(p),
        },
{
    let mut j: usize = 0;
    while j < poses.len()
        invariant
            j <= poses.len(),
            forall|k: int| 0 <= k < j ==> poses[k] != p,
        decreases poses.len() - j,
    {
        if poses[j] == p {
            return Some(j);
        }
        j += 1;
    }
    None
}

/// The largest value among all candidates, or zero if all are negative.
fn largest_value(acts: &Vec<Vec<(Act, i64)>>) -> (max_val: i64)
    ensures
        max_val >= 0,
        forall|i: int, c: int|
            0 <= i < acts.len() && 0 <= c < acts[i].len() ==> (#[trigger] acts[i][c]).1 <= max_val,
{
    let mut max_val: i64 = 0;
    let mut i: usize = 0;
    while i < acts.len()
        invariant
            i <= acts.len(),
            max_val >= 0,
            forall|a: int, c: int|
                0 <= a < i && 0 <= c < acts[a].len() ==> (#[trigger] acts[a][c]).1 <= max_val,
        decreases acts.len() - i,
    {
        let mut c: usize = 0;
        while c < acts[i].len()
            invariant
                i < acts.len(),
                c <= acts[i as int].len(),
                max_val >= 0,
                forall|a: int, d: int|
                    0 <= a < i && 0 <= d < acts[a].len() ==> (#[trigger] acts[a][d]).1 <= max_val,
                forall|d: int| 0 <= d < c ==> (#[trigger] acts[i as int][d]).1 <= max_val,
            decreases acts[i as int].len() - c,
        {
            if acts[i][c].1 > max_val {
                max_val = acts[i][c].1;
            }
            c += 1;
        }
        i += 1;
    }
    max_val
}

/// The plan that the tables of tile indices and costs stand for.
pub open spec fn plan_of(
    m: int,
    tix: Seq<Seq<usize>>,
    cost: Seq<Seq<i128>>,
    cands: Seq<Seq<(Act, i64)>>,
) -> Plan {
    Plan {
        n: tix.len() as int,
        m,
        tix: Seq::new(tix.len(), |i: int| Seq::new(tix[i].len(), |c: int| tix[i][c] as int)),
        cost: Seq::new(tix.len(), |i: int| Seq::new(tix[i].len(), |c: int| cost[i][c] as int)),
        acts: Seq::new(tix.len(), |i: int| Seq::new(tix[i].len(), |c: int| cands[i][c].0)),
    }
}

/// The number of candidates grows with every agent.
pub proof fn lemma_candidate_count_monotone(cands: Seq<Seq<(Act, i64)>>, a: int, b: int)
    requires
        0 <= a <= b,
    ensures
        0 <= candidate_count(cands, a) <= candidate_count(cands, b),
    decreases b,
{
    if a < b {
        lemma_candidate_count_monotone(cands, a, b - 1);
    } else if a > 0 {
        lemma_candidate_count_monotone(cands, a - 1, a - 1);
    }
}

/// Assigns to every agent one of its candidate actions so that no two
/// agents claim the same tile and the values of the actions chosen sum to
/// the most that any such assignment can reach. Returns `None` exactly if
/// there is no such assignment at all.
///
/// The candidates become a flow network: an edge from the source to every
/// agent, from every agent to the tile of each of its candidates at a cost
/// of what the candidate's value lacks to the largest value, and from
/// every tile to the sink. One unit of flow is sent per agent, each along
/// a cheapest path. Among assignments of equal total value the order of
/// the candidates decides.
pub fn try_primal_dual(side: bool, acts: &Vec<Vec<(Act, i64)>>, field: &Field) -> (r: Option<
    Vec<Act>,
>)
    requires
        field.wf(),
        assignable(field@, side, table_of(*acts)),
        acts.len() <= MAX_ASSIGN,
        candidate_count(table_of(*acts), acts.len() as int) <= MAX_ASSIGN,
    ensures
        match r {
            Some(res) => exists|choice: Seq<int>| #[trigger]
                is_best(field@, side, table_of(*acts), choice) && res@ == acts_of(
                    table_of(*acts),
                    choice,
                ),
            None => forall|choice: Seq<int>|
                !#[trigger] is_assignment(field@, side, table_of(*acts), choice),
        },
{
    let ghost fv = field@;
    let ghost cands = table_of(*acts);
    let n = acts.len();
    let max_val = largest_value(acts);
    let mut poses: Vec<Point> = Vec::new();
    let mut tix: Vec<Vec<usize>> = Vec::new();
    let mut cost: Vec<Vec<i128>> = Vec::new();
    let mut i: usize = 0;
    proof {
        assert forall|i: int| 0 <= i < n implies cands[i] == (#[trigger] acts[i])@ by {}
    }
    while i < n
        invariant
            field.wf(),
            fv == field@,
            cands == table_of(*acts),
            assignable(fv, side, cands),
            n == acts.len(),
            n <= MAX_ASSIGN,
            candidate_count(cands, n as int) <= MAX_ASSIGN,
            i <= n,
            max_val >= 0,
            forall|a: int, c: int|
                0 <= a < n && 0 <= c < acts[a].len() ==> (#[trigger] acts[a][c]).1 <= max_val,
            tix.len() == i,
            cost.len() == i,
            poses@.no_duplicates(),
            poses.len() <= candidate_count(cands, i as int),
            forall|a: int| 0 <= a < i ==> (#[trigger] tix[a]).len() == cands[a].len(),
            forall|a: int| 0 <= a < i ==> (#[trigger] cost[a]).len() == cands[a].len(),
            forall|a: int, c: int|
                0 <= a < i && 0 <= c < cands[a].len() ==> (#[trigger] tix[a][c]) < poses.len()
                    && poses[tix[a][c] as int] == claim(fv, side, cands, a, c),
            forall|a: int, c: int|
                0 <= a < i && 0 <= c < cands[a].len() ==> (#[trigger] cost[a][c]) == max_val
                    - cands[a][c].1,
        decreases n - i,
    {
        let mut row: Vec<usize> = Vec::new();
        let mut costs: Vec<i128> = Vec::new();
        let k = acts[i].len();
        assert(cands[i as int] == acts[i as int]@);
        let mut c: usize = 0;
        proof {
            lemma_candidate_count_monotone(cands, i as int + 1, n as int);
        }
        while c < k
            invariant
                field.wf(),
                fv == field@,
                cands == table_of(*acts),
                cands[i as int] == acts[i as int]@,
                assignable(fv, side, cands),
                n == acts.len(),
                i < n,
                k == acts[i as int].len(),
                c <= k,
                max_val >= 0,
                forall|d: int| 0 <= d < k ==> (#[trigger] acts[i as int][d]).1 <= max_val,
                tix.len() == i,
                candidate_count(cands, i as int + 1) <= MAX_ASSIGN,
                row.len() == c,
                costs.len() == c,
                poses@.no_duplicates(),
                poses.len() <= candidate_count(cands, i as int) + c,
                forall|a: int, d: int|
                    0 <= a < i && 0 <= d < cands[a].len() ==> (#[trigger] tix[a][d]) < poses.len()
                        && poses[tix[a][d] as int] == claim(fv, side, cands, a, d),
                forall|d: int|
                    0 <= d < c ==> (#[trigger] row[d]) < poses.len() && poses[row[d] as int]
                        == claim(fv, side, cands, i as int, d),
                forall|d: int|
                    0 <= d < c ==> (#[trigger] costs[d]) == max_val - cands[i as int][d].1,
            decreases k - c,
        {
            let entry = acts[i][c];
            assert(entry == cands[i as int][c as int]);
            let pos = tile_pos(side, i, &entry.0, field);
            let ghost before = poses@;
            let idx = match find_point(&poses, pos) {
                Some(j) => j,
                None => {
                    poses.push(pos);
                    poses.len() - 1
                },
            };
            proof {
                assert forall|a: int, d: int|
                    0 <= a < i && 0 <= d < cands[a].len() implies (#[trigger] tix[a][d])
                    < poses.len() && poses[tix[a][d] as int] == claim(fv, side, cands, a, d) by {
                    assert(before[tix[a][d] as int] == claim(fv, side, cands, a, d));
                }
                assert forall|d: int| 0 <= d < c implies (#[trigger] row[d]) < poses.len()
                    && poses[row[d] as int] == claim(fv, side, cands, i as int, d) by {
                    assert(before[row[d] as int] == claim(fv, side, cands, i as int, d));
                }
            }
            row.push(idx);
            costs.push(max_val as i128 - entry.1 as i128);
            c += 1;
        }
        tix.push(row);
        cost.push(costs);
        i += 1;
    }
    let m = poses.len();
    let ghost p = plan_of(m as int, table_of(tix), table_of(cost), cands);
    proof {
        assert forall|a: int| 0 <= a < n implies table_of(tix)[a] == (#[trigger] tix[a])@ by {}
        assert forall|a: int| 0 <= a < n implies table_of(cost)[a] == (#[trigger] cost[a])@ by {}
        assert(p.wf());
        assert(linked(fv, side, cands, poses@, max_val as int, p));
    }
    let mut graph = build_network(n, m, &tix, &cost, acts, Ghost(p));
    let ghost g0 = graph@;
    let (routing, Ghost(ord)) = graph.solve(n + m, n + m + 1, n);
    let ghost s = Solved { g0, g: graph@, p, h: routing.potential@, k: routing.routed as int };
    if routing.routed < n {
        proof {
            assert forall|choice: Seq<int>| !#[trigger] is_assignment(fv, side, cands, choice) by {
                lemma_blocked(
                    s,
                    routing.last.dist@,
                    routing.last.prev_v@,
                    routing.last.prev_e@,
                    ord,
                    choice,
                );
                lemma_picks_is_assignment(fv, side, cands, poses@, max_val as int, p, choice);
            }
        }
        return None;
    }
    let ghost chosen = mates(s);
    let mut res: Vec<Act> = Vec::new();
    let mut i: usize = 0;
    while i < n
        invariant
            s.wf(),
            s.k == s.p.n,
            s.g == graph@,
            s.p == p,
            p.n == n,
            n == acts.len(),
            cands == table_of(*acts),
            linked(fv, side, cands, poses@, max_val as int, p),
            graph.edges.len() == n + m + 2,
            chosen == mates(s),
            i <= n,
            res.len() == i,
            forall|a: int| 0 <= a < i ==> (#[trigger] res[a]) == cands[a][chosen[a]].0,
        decreases n - i,
    {
        proof {
            lemma_all_matched(s);
            lemma_agent_state(s, i as int);
            assert(graph@[i as int] == graph.edges[i as int]@);
            assert(cands[i as int] == acts[i as int]@);
        }
        let k = acts[i].len();
        let mut found = Act::StayAct;
        let mut c: usize = 0;
        while c < k
            invariant
                s.wf(),
                s.p.n == n,
                s.g == graph@,
                graph@[i as int] == graph.edges[i as int]@,
                i < n,
                graph.edges.len() == n + m + 2,
                k == s.p.tix[i as int].len(),
                s.g[i as int].len() == k + 1,
                c <= k,
                0 <= s.mate(i as int) < k,
                s.sat(i as int, s.mate(i as int)),
                forall|d: int| 0 <= d < k && d != s.mate(i as int) ==> !#[trigger] s.sat(i as int, d),
                forall|d: int| 0 <= d < k ==> (#[trigger] s.g[i as int][d]).act == Some(s.p.acts[i as int][d]),
                s.mate(i as int) < c ==> found == s.p.acts[i as int][s.mate(i as int)],
            decreases k - c,
        {
            let ed = graph.edges[i][c];
            if ed.cap != 1 {
                proof {
                    lemma_cap_bit(s.g, i as int, c as int);
                    assert(s.sat(i as int, c as int));
                }
                match ed.act {
                    Some(act) => {
                        found = act;
                    },
                    None => {},
                }
            }
            c += 1;
        }
        res.push(found);
        i += 1;
    }
    proof {
        assert(res@ =~= acts_of(cands, chosen));
        assert(is_best(fv, side, cands, chosen)) by {
            lemma_mates_pick(s);
            lemma_picks_is_assignment(fv, side, cands, poses@, max_val as int, p, chosen);
            assert forall|other: Seq<int>| #[trigger]
                is_assignment(fv, side, cands, other) implies total_value(cands, other)
                <= total_value(cands, chosen) by {
                lemma_picks_is_assignment(fv, side, cands, poses@, max_val as int, p, other);
                lemma_cheapest(s, other);
                lemma_cost_to_value(fv, side, cands, poses@, max_val as int, p, chosen, other);
            }
        }
    }
    Some(res)
}

/// The best assignment of the candidates, which must have one.
pub fn primal_dual(side: bool, acts: &Vec<Vec<(Act, i64)>>, field: &Field) -> (res: Vec<Act>)
    requires
        field.wf(),
        assignable(field@, side, table_of(*acts)),
        acts.len() <= MAX_ASSIGN,
        candidate_count(table_of(*acts), acts.len() as int) <= MAX_ASSIGN,
        exists|choice: Seq<int>| #[trigger] is_assignment(field@, side, table_of(*acts), choice),
    ensures
        exists|choice: Seq<int>| #[trigger]
            is_best(field@, side, table_of(*acts), choice) && res@ == acts_of(
                table_of(*acts),
                choice,
            ),
{
    match try_primal_dual(side, acts, field) {
        Some(res) => res,
        None => {
            proof {
                let choice = choose|choice: Seq<int>| #[trigger]
                    is_assignment(field@, side, table_of(*acts), choice);
                assert(is_assignment(field@, side, table_of(*acts), choice));
            }
            Vec::new()
        },
    }
}

/// No two agents are given the same tile by an assignment, and every
/// action given is one of the agent's candidates.
pub proof fn lemma_assignment_is_one_to_one(
    fv: FieldView,
    side: bool,
    cands: Seq<Seq<(Act, i64)>>,
    choice: Seq<int>,
    i: int,
    k: int,
)
    requires
        is_assignment(fv, side, cands, choice),
        0 <= i < cands.len(),
        0 <= k < cands.len(),
        i != k,
    ensures
        spec_tile_pos(fv, side, i, acts_of(cands, choice)[i]) != spec_tile_pos(
            fv,
            side,
            k,
            acts_of(cands, choice)[k],
        ),
        acts_of(cands, choice)[i] == cands[i][choice[i]].0,
        0 <= choice[i] < cands[i].len(),
{
    if i < k {
        assert(claim(fv, side, cands, i, choice[i]) != claim(fv, side, cands, k, choice[k]));
    } else {
        assert(claim(fv, side, cands, k, choice[k]) != claim(fv, side, cands, i, choice[i]));
    }
}

} // verus!
