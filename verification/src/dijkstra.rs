//! The single-source shortest-path computation that each worker job runs, and
//! the properties proved of its result.

use vstd::prelude::*;

use crate::graph::{
    edge_cost, graph_wf, has_edge, lemma_edge_cost_unique, AdjacencyMatrix, Cost, Node,
    NodeWithCost,
};
use crate::paths::{
    is_path, lemma_path_cost_nonneg, lemma_path_extend, lemma_path_prefix, lemma_trivial_path,
    path_cost, reaches,
};

verus! {

/// Soundness of a distance vector: every present entry is the cost of an
/// actual path from the source to that node.
pub open spec fn dist_sound(m: Seq<Seq<NodeWithCost>>, s: int, dist: Seq<Option<Cost>>) -> bool {
    forall|v: int|
        0 <= v < dist.len() && (#[trigger] dist[v]) is Some ==> exists|p: Seq<int>|
            is_path(m, p) && p[0] == s && p.last() == v && path_cost(m, p) == dist[v]->0 as int
}

/// Edge `j` out of `u` cannot improve the vector: either the relaxed sum does
/// not fit the cost type, or the target's entry is present and no larger.
pub open spec fn edge_relaxed(
    m: Seq<Seq<NodeWithCost>>,
    dist: Seq<Option<Cost>>,
    u: int,
    j: int,
) -> bool {
    dist[u] is Some ==> {
        let sum = dist[u]->0 as int + m[u][j].cost as int;
        sum <= u128::MAX as int ==> {
            &&& dist[m[u][j].node as int] is Some
            &&& dist[m[u][j].node as int]->0 as int <= sum
        }
    }
}

/// No edge out of `u` can improve the vector.
pub open spec fn node_relaxed(m: Seq<Seq<NodeWithCost>>, dist: Seq<Option<Cost>>, u: int) -> bool {
    forall|j: int| 0 <= j < m[u].len() ==> #[trigger] edge_relaxed(m, dist, u, j)
}

/// No edge out of any settled node can improve the vector.
pub open spec fn all_relaxed(m: Seq<Seq<NodeWithCost>>, dist: Seq<Option<Cost>>) -> bool {
    forall|u: int|
        0 <= u < m.len() && (#[trigger] dist[u]) is Some ==> node_relaxed(m, dist, u)
}

/// Optimality of a distance vector: no path from the source whose cost fits
/// the cost type beats the entry at its destination.
pub open spec fn dist_optimal(m: Seq<Seq<NodeWithCost>>, s: int, dist: Seq<Option<Cost>>) -> bool {
    forall|p: Seq<int>|
        is_path(m, p) && p[0] == s && #[trigger] path_cost(m, p) <= u128::MAX as int ==> {
            &&& dist[p.last()] is Some
            &&& dist[p.last()]->0 as int <= path_cost(m, p)
        }
}

/// One entry may only improve: an absent entry may appear, a present one may
/// only shrink.
pub open spec fn opt_improved(o1: Option<Cost>, o2: Option<Cost>) -> bool {
    o1 is Some ==> (o2 is Some && o2->0 <= o1->0)
}

/// A whole vector may only improve, pointwise.
pub open spec fn dist_improved(d1: Seq<Option<Cost>>, d2: Seq<Option<Cost>>) -> bool {
    &&& d1.len() == d2.len()
    &&& forall|w: int| 0 <= w < d1.len() ==> opt_improved(#[trigger] d1[w], #[trigger] d2[w])
}

/// A relaxed edge stays relaxed when entries only improve and the origin's own
/// entry is unchanged.
proof fn lemma_edge_relaxed_improve(
    m: Seq<Seq<NodeWithCost>>,
    d1: Seq<Option<Cost>>,
    d2: Seq<Option<Cost>>,
    u: int,
    j: int,
)
    requires
        graph_wf(m),
        d1.len() == m.len(),
        dist_improved(d1, d2),
        0 <= u < m.len(),
        0 <= j < m[u].len(),
        edge_relaxed(m, d1, u, j),
        d1[u] == d2[u],
    ensures
        edge_relaxed(m, d2, u, j),
{
    let v = m[u][j].node as int;
    assert(0 <= v < d1.len());
    assert(opt_improved(d1[v], d2[v]));
}

/// A relaxed node stays relaxed when entries only improve and its own entry is
/// unchanged.
proof fn lemma_node_relaxed_improve(
    m: Seq<Seq<NodeWithCost>>,
    d1: Seq<Option<Cost>>,
    d2: Seq<Option<Cost>>,
    u: int,
)
    requires
        graph_wf(m),
        d1.len() == m.len(),
        dist_improved(d1, d2),
        0 <= u < m.len(),
        node_relaxed(m, d1, u),
        d1[u] == d2[u],
    ensures
        node_relaxed(m, d2, u),
{
    assert forall|j: int| 0 <= j < m[u].len() implies #[trigger] edge_relaxed(m, d2, u, j) by {
        assert(edge_relaxed(m, d1, u, j));
        lemma_edge_relaxed_improve(m, d1, d2, u, j);
    }
}

/// The heart of optimality: once every settled node is fully relaxed, the
/// vector bounds the cost of every path from the source that fits the cost
/// type. Induction on the path, peeling its last edge.
proof fn lemma_relaxed_bounds_path(
    m: Seq<Seq<NodeWithCost>>,
    s: int,
    dist: Seq<Option<Cost>>,
    p: Seq<int>,
)
    requires
        graph_wf(m),
        dist.len() == m.len(),
        0 <= s < m.len(),
        dist[s] == Some(0u128),
        all_relaxed(m, dist),
        is_path(m, p),
        p[0] == s,
        path_cost(m, p) <= u128::MAX as int,
    ensures
        dist[p.last()] is Some,
        dist[p.last()]->0 as int <= path_cost(m, p),
    decreases p.len(),
{
    if p.len() == 1 {
        assert(p.last() == s);
        lemma_path_cost_nonneg(m, p);
    } else {
        let q = p.drop_last();
        lemma_path_prefix(m, p);
        let u = p[p.len() - 2];
        let v = p[p.len() - 1];
        assert(has_edge(m, u, v));
        let j = choose|j: int| 0 <= j < m[u].len() && (#[trigger] m[u][j]).node as int == v;
        lemma_edge_cost_unique(m, u, j);
        assert(edge_cost(m, u, v) == m[u][j].cost);
        lemma_relaxed_bounds_path(m, s, dist, q);
        let du = dist[u]->0 as int;
        assert(du + m[u][j].cost as int <= path_cost(m, p));
        assert(edge_relaxed(m, dist, u, j));
        assert(p.last() == v);
    }
}

/// A destination no path reaches from the source is reported as absent: a
/// sound distance vector holds an entry only for reachable nodes.
pub proof fn lemma_unreachable_is_none(
    m: Seq<Seq<NodeWithCost>>,
    s: int,
    dist: Seq<Option<Cost>>,
    d: int,
)
    requires
        dist_sound(m, s, dist),
        0 <= d < dist.len(),
        !reaches(m, s, d),
    ensures
        dist[d] is None,
{
    if dist[d] is Some {
        let p = choose|p: Seq<int>|
            is_path(m, p) && p[0] == s && p.last() == d && path_cost(m, p) == dist[d]->0 as int;
        assert(is_path(m, p) && p[0] == s && p.last() == d);
        assert(reaches(m, s, d));
    }
}

/// The reported cost of a reachable destination is the true shortest-path
/// cost: the entry is present, it is the cost of an actual path from the
/// source, and no path whose cost fits the cost type is cheaper.
pub proof fn lemma_reported_cost_is_shortest(
    m: Seq<Seq<NodeWithCost>>,
    s: int,
    dist: Seq<Option<Cost>>,
    p: Seq<int>,
)
    requires
        dist_sound(m, s, dist),
        dist_optimal(m, s, dist),
        dist.len() == m.len(),
        is_path(m, p),
        p[0] == s,
        path_cost(m, p) <= u128::MAX as int,
    ensures
        dist[p.last()] is Some,
        dist[p.last()]->0 as int <= path_cost(m, p),
        exists|q: Seq<int>|
            is_path(m, q) && q[0] == s && q.last() == p.last() && path_cost(m, q) == dist[p.last()]->0 as int,
{
    assert(0 <= p.last() < dist.len());
    assert(dist[p.last()] is Some && dist[p.last()]->0 as int <= path_cost(m, p));
}

/// 1 for an absent entry. The count of absent entries is the first component
/// of the relaxation loop's termination measure.
spec fn none_one(o: Option<Cost>) -> int {
    if o is None {
        1
    } else {
        0
    }
}

/// The stored value, or 0 when absent: summed as the measure's second component.
spec fn some_val(o: Option<Cost>) -> int {
    match o {
        Some(c) => c as int,
        None => 0,
    }
}

/// How many entries are absent.
spec fn none_count(s: Seq<Option<Cost>>) -> int
    decreases s.len(),
{
    if s.len() == 0 {
        0
    } else {
        none_count(s.drop_last()) + none_one(s.last())
    }
}

/// The sum of all present entries.
spec fn some_sum(s: Seq<Option<Cost>>) -> int
    decreases s.len(),
{
    if s.len() == 0 {
        0
    } else {
        some_sum(s.drop_last()) + some_val(s.last())
    }
}

proof fn lemma_measures_nonneg(s: Seq<Option<Cost>>)
    ensures
        none_count(s) >= 0,
        some_sum(s) >= 0,
    decreases s.len(),
{
    if s.len() > 0 {
        lemma_measures_nonneg(s.drop_last());
    }
}

proof fn lemma_measures_update(s: Seq<Option<Cost>>, i: int, v: Option<Cost>)
    requires
        0 <= i < s.len(),
    ensures
        none_count(s.update(i, v)) == none_count(s) - none_one(s[i]) + none_one(v),
        some_sum(s.update(i, v)) == some_sum(s) - some_val(s[i]) + some_val(v),
    decreases s.len(),
{
    let s2 = s.update(i, v);
    if i == s.len() - 1 {
        assert(s2.drop_last() =~= s.drop_last());
        assert(s2.last() == v);
    } else {
        assert(s2.drop_last() =~= s.drop_last().update(i, v));
        assert(s2.last() == s.last());
        assert(s.drop_last()[i] == s[i]);
        lemma_measures_update(s.drop_last(), i, v);
    }
}

/// The pending queue holds an entry naming node `u` with cost `c`.
spec fn queue_has(q: Seq<NodeWithCost>, u: int, c: Cost) -> bool {
    exists|k: int| 0 <= k < q.len() && (#[trigger] q[k]).node as int == u && q[k].cost == c
}

/// Every pending entry names a node of the graph.
spec fn queue_nodes_ok(q: Seq<NodeWithCost>, n: int) -> bool {
    forall|k: int| 0 <= k < q.len() ==> (#[trigger] q[k]).node < n
}

/// Every present entry either still has its value pending in the queue or its
/// node is already fully relaxed.
spec fn pending_ok(
    m: Seq<Seq<NodeWithCost>>,
    dist: Seq<Option<Cost>>,
    q: Seq<NodeWithCost>,
) -> bool {
    forall|u: int|
        0 <= u < m.len() && (#[trigger] dist[u]) is Some ==> queue_has(q, u, dist[u]->0)
            || node_relaxed(m, dist, u)
}

proof fn lemma_queue_has_push(q: Seq<NodeWithCost>, e: NodeWithCost, u: int, c: Cost)
    requires
        queue_has(q, u, c),
    ensures
        queue_has(q.push(e), u, c),
{
    let k = choose|k: int| 0 <= k < q.len() && (#[trigger] q[k]).node as int == u && q[k].cost == c;
    assert(q.push(e)[k] == q[k]);
}

proof fn lemma_queue_has_swap_remove(q: Seq<NodeWithCost>, i: int, u: int, c: Cost)
    requires
        0 <= i < q.len(),
        queue_has(q, u, c),
        !(q[i].node as int == u && q[i].cost == c),
    ensures
        queue_has(q.update(i, q.last()).drop_last(), u, c),
{
    let q2 = q.update(i, q.last()).drop_last();
    let k = choose|k: int| 0 <= k < q.len() && (#[trigger] q[k]).node as int == u && q[k].cost == c;
    if k == q.len() - 1 {
        assert(i < q.len() - 1);
        assert(q2[i] == q[k]);
    } else {
        assert(q2[k] == q[k]);
    }
}

/// Computes, from one source node, the cheapest path cost to every node of the
/// graph. Entry `v` of the result is `None` when no path of the graph leads
/// from `source` to `v`, and otherwise holds the cost of some such path, than
/// which no path whose cost fits the cost type is cheaper — so for every
/// destination whose least cost is representable, the entry is exactly that
/// least cost.
///
/// Classic Dijkstra with lazy deletion: a pending set is seeded with the
/// source at cost zero; each round extracts a minimum-cost entry, discards it
/// if it is stale (its cost no longer matches the vector), and otherwise
/// relaxes every outgoing edge, pushing an entry for each improvement. A
/// relaxation whose running sum would not fit the cost type is never taken.
#[verifier::loop_isolation(false)]
pub fn shortest_paths(matrix: &AdjacencyMatrix, source: Node) -> (r: Vec<Option<Cost>>)
    requires
        matrix.wf(),
        source < matrix@.len(),
    ensures
        r@.len() == matrix@.len(),
        r@[source as int] == Some(0u128),
        dist_sound(matrix@, source as int, r@),
        dist_optimal(matrix@, source as int, r@),
{
    let ghost m = matrix@;
    let n = matrix.total();
    let mut dist: Vec<Option<Cost>> = Vec::new();
    let mut i: usize = 0;
    while i < n
        invariant
            i <= n,
            dist@.len() == i,
            forall|k: int| 0 <= k < i ==> (#[trigger] dist@[k]) is None,
        decreases n - i,
    {
        dist.push(None);
        i = i + 1;
    }
    dist[source] = Some(0u128);
    let mut queue: Vec<NodeWithCost> = Vec::new();
    queue.push(NodeWithCost { node: source, cost: 0 });

    proof {
        lemma_trivial_path(m, source as int);
        assert forall|v: int|
            0 <= v < dist@.len() && (#[trigger] dist@[v]) is Some implies exists|p: Seq<int>|
            is_path(m, p) && p[0] == source as int && p.last() == v && path_cost(m, p)
                == dist@[v]->0 as int by {
            assert(v == source as int);
            let p = seq![source as int];
            assert(is_path(m, p) && p[0] == source as int && p.last() == v && path_cost(m, p)
                == dist@[v]->0 as int);
        }
        assert(queue@[0].node as int == source as int && queue@[0].cost == dist@[source as int]->0);
    }

    while queue.len() > 0
        invariant
            dist@.len() == n,
            dist@[source as int] == Some(0u128),
            dist_sound(m, source as int, dist@),
            queue_nodes_ok(queue@, n as int),
            pending_ok(m, dist@, queue@),
        decreases none_count(dist@), some_sum(dist@), queue@.len(),
    {
        let mut best: usize = 0;
        let mut k: usize = 1;
        while k < queue.len()
            invariant
                best < queue@.len(),
                1 <= k <= queue@.len(),
                forall|t: int|
                    0 <= t < k ==> queue@[best as int].cost <= (#[trigger] queue@[t]).cost,
            decreases queue@.len() - k,
        {
            if queue[k].cost < queue[best].cost {
                best = k;
            }
            k = k + 1;
        }

        let ghost dist0 = dist@;
        let ghost q_before = queue@;
        let ghost qlen0: nat = queue@.len();
        let current = queue.swap_remove(best);
        let cur_node = current.node;
        let cur_cost = current.cost;
        proof {
            assert(current == q_before[best as int]);
            assert forall|t: int| 0 <= t < queue@.len() implies (#[trigger] queue@[t]).node
                < n by {
                if t == best as int {
                    assert(queue@[t] == q_before[q_before.len() - 1]);
                } else {
                    assert(queue@[t] == q_before[t]);
                }
            }
        }

        let known = dist[cur_node];
        let matched = match known {
            Some(d) => d == cur_cost,
            None => false,
        };
        if !matched {
            proof {
                assert forall|u: int|
                    0 <= u < m.len() && (#[trigger] dist@[u]) is Some implies queue_has(
                    queue@,
                    u,
                    dist@[u]->0,
                ) || node_relaxed(m, dist@, u) by {
                    if !node_relaxed(m, dist@, u) {
                        assert(queue_has(q_before, u, dist@[u]->0));
                        assert(!(q_before[best as int].node as int == u
                            && q_before[best as int].cost == dist@[u]->0)) by {
                            if q_before[best as int].node as int == u {
                                assert(known == dist@[u]);
                            }
                        }
                        lemma_queue_has_swap_remove(q_before, best as int, u, dist@[u]->0);
                    }
                }
                lemma_measures_nonneg(dist@);
            }
        } else {
            proof {
                assert(dist@[cur_node as int] == Some(cur_cost));
                assert forall|w: int|
                    0 <= w < m.len() && w != cur_node as int && (#[trigger] dist@[w])
                        is Some implies queue_has(queue@, w, dist@[w]->0) || node_relaxed(
                    m,
                    dist@,
                    w,
                ) by {
                    if !node_relaxed(m, dist@, w) {
                        assert(queue_has(q_before, w, dist@[w]->0));
                        lemma_queue_has_swap_remove(q_before, best as int, w, dist@[w]->0);
                    }
                }
            }
            let row = matrix.row(cur_node);
            let row_len = row.len();
            let mut j: usize = 0;
            while j < row_len
                invariant
                    j <= row_len,
                    row@ == m[cur_node as int],
                    row_len == row@.len(),
                    dist@.len() == n,
                    dist@[source as int] == Some(0u128),
                    dist@[cur_node as int] == Some(cur_cost),
                    dist_sound(m, source as int, dist@),
                    queue_nodes_ok(queue@, n as int),
                    forall|w: int|
                        0 <= w < m.len() && w != cur_node as int && (#[trigger] dist@[w]) is Some
                            ==> queue_has(queue@, w, dist@[w]->0) || node_relaxed(m, dist@, w),
                    forall|jj: int|
                        0 <= jj < j ==> #[trigger] edge_relaxed(m, dist@, cur_node as int, jj),
                    none_count(dist@) <= none_count(dist0),
                    none_count(dist@) == none_count(dist0) ==> some_sum(dist@) <= some_sum(dist0),
                    none_count(dist@) == none_count(dist0) && some_sum(dist@) == some_sum(dist0)
                        ==> queue@.len() == qlen0 - 1,
                decreases row_len - j,
            {
                let e = row[j];
                let v = e.node;
                proof {
                    assert(m[cur_node as int][j as int] == e);
                    assert(e.node < n && e.node as int != cur_node as int);
                }
                if e.cost <= u128::MAX - cur_cost {
                    let cand = cur_cost + e.cost;
                    let prev = dist[v];
                    let improve = match prev {
                        None => true,
                        Some(x) => cand < x,
                    };
                    if improve {
                        let ghost dist_before = dist@;
                        let ghost q_mid = queue@;
                        dist[v] = Some(cand);
                        queue.push(NodeWithCost { node: v, cost: cand });
                        proof {
                            let vi = v as int;
                            assert(dist@ == dist_before.update(vi, Some(cand)));
                            assert(dist_improved(dist_before, dist@)) by {
                                assert forall|w: int| 0 <= w < dist_before.len() implies
                                    opt_improved(
                                    #[trigger] dist_before[w],
                                    #[trigger] dist@[w],
                                ) by {
                                    if w != vi {
                                        assert(dist@[w] == dist_before[w]);
                                    }
                                }
                            }
                            // soundness: extend the path that yielded the origin's entry
                            let pu = choose|p: Seq<int>|
                                is_path(m, p) && p[0] == source as int && p.last()
                                    == cur_node as int && path_cost(m, p)
                                    == dist_before[cur_node as int]->0 as int;
                            lemma_path_extend(m, pu, j as int);
                            let p2 = pu.push(vi);
                            assert(is_path(m, p2) && p2[0] == source as int && p2.last() == vi
                                && path_cost(m, p2) == cand as int);
                            assert forall|w: int|
                                0 <= w < dist@.len() && (#[trigger] dist@[w]) is Some implies
                                exists|p: Seq<int>|
                                is_path(m, p) && p[0] == source as int && p.last() == w
                                    && path_cost(m, p) == dist@[w]->0 as int by {
                                if w == vi {
                                    assert(is_path(m, p2) && p2[0] == source as int && p2.last()
                                        == w && path_cost(m, p2) == dist@[w]->0 as int);
                                } else {
                                    assert(dist@[w] == dist_before[w]);
                                    let pw = choose|p: Seq<int>|
                                        is_path(m, p) && p[0] == source as int && p.last() == w
                                            && path_cost(m, p) == dist_before[w]->0 as int;
                                    assert(is_path(m, pw) && pw[0] == source as int && pw.last()
                                        == w && path_cost(m, pw) == dist@[w]->0 as int);
                                }
                            }
                            // the queue keeps a witness for every unsettled entry
                            assert(queue@[queue@.len() - 1] == NodeWithCost {
                                node: v,
                                cost: cand,
                            });
                            assert forall|w: int|
                                0 <= w < m.len() && w != cur_node as int && (#[trigger] dist@[w])
                                    is Some implies queue_has(queue@, w, dist@[w]->0)
                                || node_relaxed(m, dist@, w) by {
                                if w == vi {
                                    assert(queue_has(queue@, w, dist@[w]->0));
                                } else {
                                    assert(dist@[w] == dist_before[w]);
                                    if node_relaxed(m, dist_before, w) {
                                        lemma_node_relaxed_improve(m, dist_before, dist@, w);
                                    } else {
                                        assert(queue_has(q_mid, w, dist_before[w]->0));
                                        lemma_queue_has_push(
                                            q_mid,
                                            NodeWithCost { node: v, cost: cand },
                                            w,
                                            dist@[w]->0,
                                        );
                                    }
                                }
                            }
                            // edges already handled stay relaxed
                            assert forall|jj: int| 0 <= jj < j implies #[trigger] edge_relaxed(
                                m,
                                dist@,
                                cur_node as int,
                                jj,
                            ) by {
                                lemma_edge_relaxed_improve(m, dist_before, dist@, cur_node as int, jj);
                            }
                            // termination bookkeeping
                            lemma_measures_update(dist_before, vi, Some(cand));
                        }
                    }
                }
                proof {
                    assert(edge_relaxed(m, dist@, cur_node as int, j as int));
                }
                j = j + 1;
            }
            proof {
                assert(node_relaxed(m, dist@, cur_node as int));
                assert forall|u: int|
                    0 <= u < m.len() && (#[trigger] dist@[u]) is Some implies queue_has(
                    queue@,
                    u,
                    dist@[u]->0,
                ) || node_relaxed(m, dist@, u) by {
                    if u != cur_node as int {
                        assert(queue_has(queue@, u, dist@[u]->0) || node_relaxed(m, dist@, u));
                    }
                }
                lemma_measures_nonneg(dist@);
                lemma_measures_nonneg(dist0);
            }
        }
    }

    proof {
        assert(queue@.len() == 0);
        assert forall|u: int|
            0 <= u < m.len() && (#[trigger] dist@[u]) is Some implies node_relaxed(
            m,
            dist@,
            u,
        ) by {
            assert(!queue_has(queue@, u, dist@[u]->0));
        }
        lemma_relaxed_implies_optimal(m, source as int, dist@);
    }
    dist
}

/// A fully relaxed, sound vector rooted at the source is optimal.
proof fn lemma_relaxed_implies_optimal(m: Seq<Seq<NodeWithCost>>, s: int, dist: Seq<Option<Cost>>)
    requires
        graph_wf(m),
        dist.len() == m.len(),
        0 <= s < m.len(),
        dist[s] == Some(0u128),
        all_relaxed(m, dist),
    ensures
        dist_optimal(m, s, dist),
{
    assert forall|p: Seq<int>|
        is_path(m, p) && p[0] == s && #[trigger] path_cost(m, p) <= u128::MAX as int implies {
        &&& dist[p.last()] is Some
        &&& dist[p.last()]->0 as int <= path_cost(m, p)
    } by {
        lemma_relaxed_bounds_path(m, s, dist, p);
    }
}

} // verus!
