//! Paths through the graph and their costs: the vocabulary in which the
//! shortest-path contracts are stated.

use vstd::prelude::*;

use crate::graph::{edge_cost, graph_wf, has_edge, lemma_edge_cost_unique, NodeWithCost};

verus! {

/// `p` is a walk through `m`: it holds at least its starting node, every entry
/// is a node of the graph, and consecutive entries are joined by a stored edge.
pub open spec fn is_path(m: Seq<Seq<NodeWithCost>>, p: Seq<int>) -> bool {
    &&& p.len() >= 1
    &&& forall|i: int| 0 <= i < p.len() ==> 0 <= #[trigger] p[i] < m.len()
    &&& forall|i: int| 0 <= i < p.len() - 1 ==> has_edge(m, #[trigger] p[i], p[i + 1])
}

/// The total cost of a walk: the sum of the stored costs of its edges.
pub open spec fn path_cost(m: Seq<Seq<NodeWithCost>>, p: Seq<int>) -> int
    decreases p.len(),
{
    if p.len() <= 1 {
        0
    } else {
        path_cost(m, p.drop_last()) + edge_cost(m, p[p.len() - 2], p[p.len() - 1]) as int
    }
}

/// Some walk of `m` starts at `s` and ends at `d`.
pub open spec fn reaches(m: Seq<Seq<NodeWithCost>>, s: int, d: int) -> bool {
    exists|p: Seq<int>| is_path(m, p) && p[0] == s && p.last() == d
}

/// The one-node walk is a path of cost zero.
pub proof fn lemma_trivial_path(m: Seq<Seq<NodeWithCost>>, s: int)
    requires
        0 <= s < m.len(),
    ensures
        is_path(m, seq![s]),
        seq![s][0] == s,
        seq![s].last() == s,
        path_cost(m, seq![s]) == 0,
{
}

/// Dropping the last node of a two-or-more-node path leaves a path, and splits
/// the cost at the final edge.
pub proof fn lemma_path_prefix(m: Seq<Seq<NodeWithCost>>, p: Seq<int>)
    requires
        is_path(m, p),
        p.len() >= 2,
    ensures
        is_path(m, p.drop_last()),
        p.drop_last()[0] == p[0],
        p.drop_last().last() == p[p.len() - 2],
        path_cost(m, p) == path_cost(m, p.drop_last()) + edge_cost(m, p[p.len() - 2], p[p.len() - 1]) as int,
{
    let q = p.drop_last();
    assert forall|i: int| 0 <= i < q.len() implies 0 <= #[trigger] q[i] < m.len() by {
        assert(q[i] == p[i]);
    }
    assert forall|i: int| 0 <= i < q.len() - 1 implies has_edge(m, #[trigger] q[i], q[i + 1]) by {
        assert(q[i] == p[i] && q[i + 1] == p[i + 1]);
    }
}

/// A path's cost is never negative: edge costs are unsigned.
pub proof fn lemma_path_cost_nonneg(m: Seq<Seq<NodeWithCost>>, p: Seq<int>)
    requires
        is_path(m, p),
    ensures
        path_cost(m, p) >= 0,
    decreases p.len(),
{
    if p.len() >= 2 {
        lemma_path_prefix(m, p);
        lemma_path_cost_nonneg(m, p.drop_last());
    }
}

/// Following one stored edge extends a path by that edge's cost.
pub proof fn lemma_path_extend(m: Seq<Seq<NodeWithCost>>, p: Seq<int>, j: int)
    requires
        graph_wf(m),
        is_path(m, p),
        0 <= j < m[p.last()].len(),
    ensures
        is_path(m, p.push(m[p.last()][j].node as int)),
        p.push(m[p.last()][j].node as int)[0] == p[0],
        p.push(m[p.last()][j].node as int).last() == m[p.last()][j].node as int,
        path_cost(m, p.push(m[p.last()][j].node as int)) == path_cost(m, p) + m[p.last()][j].cost
            as int,
{
    let u = p.last();
    let v = m[u][j].node as int;
    let p2 = p.push(v);
    lemma_edge_cost_unique(m, u, j);
    assert(p2.drop_last() =~= p);
    assert(p2[p2.len() - 2] == u);
    assert(p2[p2.len() - 1] == v);
    assert forall|i: int| 0 <= i < p2.len() implies 0 <= #[trigger] p2[i] < m.len() by {
        if i < p.len() {
            assert(p2[i] == p[i]);
        }
    }
    assert forall|i: int| 0 <= i < p2.len() - 1 implies has_edge(m, #[trigger] p2[i], p2[i + 1]) by {
        if i < p.len() - 1 {
            assert(p2[i] == p[i] && p2[i + 1] == p[i + 1]);
        } else {
            assert(p2[i] == u && p2[i + 1] == v);
        }
    }
    assert(path_cost(m, p2) == path_cost(m, p2.drop_last()) + edge_cost(m, u, v) as int);
}

} // verus!
