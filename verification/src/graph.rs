//! The adjacency store: a fixed-size, per-node list of outgoing weighted edges.

use vstd::prelude::*;

use crate::errors::{Error, ErrorKind};

verus! {

/// Cost to travel one edge or a whole path. Unsigned, because the shortest-path
/// algorithm assumes non-negative edge weights.
pub type Cost = u128;

/// Identifier of a graph node, in `[0, total)`.
pub type Node = usize;

/// A destination node together with the cost to reach it from some origin.
#[derive(Debug, Clone, Copy, PartialEq, Eq, Structural)]
pub struct NodeWithCost {
    pub node: Node,
    pub cost: Cost,
}

impl NodeWithCost {
    /// Creates a new [`NodeWithCost`].
    pub fn new(node: Node, cost: Cost) -> (r: Self)
        ensures
            r.node == node,
            r.cost == cost,
    {
        Self { node, cost }
    }
}

/// The larger of two costs: the rule applied when the same edge is inserted twice.
pub open spec fn max_cost(a: Cost, b: Cost) -> Cost {
    if a >= b {
        a
    } else {
        b
    }
}

/// The graph holds an edge from `u` to `v`.
pub open spec fn has_edge(m: Seq<Seq<NodeWithCost>>, u: int, v: int) -> bool {
    &&& 0 <= u < m.len()
    &&& exists|j: int| 0 <= j < m[u].len() && (#[trigger] m[u][j]).node as int == v
}

/// The stored cost of the edge from `u` to `v`. Meaningful only when
/// `has_edge(m, u, v)` holds and the adjacency lists are well formed, which
/// makes the entry unique.
pub open spec fn edge_cost(m: Seq<Seq<NodeWithCost>>, u: int, v: int) -> Cost {
    m[u][choose|j: int| 0 <= j < m[u].len() && (#[trigger] m[u][j]).node as int == v].cost
}

/// Well-formedness of the stored lists: every edge target is a node of the
/// graph, no list holds a self-loop, and no list names the same target twice.
pub open spec fn graph_wf(m: Seq<Seq<NodeWithCost>>) -> bool {
    &&& forall|i: int, j: int|
        0 <= i < m.len() && 0 <= j < m[i].len() ==> (#[trigger] m[i][j]).node < m.len()
            && m[i][j].node as int != i
    &&& forall|i: int, j: int, k: int|
        0 <= i < m.len() && 0 <= j < m[i].len() && 0 <= k < m[i].len() && j != k ==> (#[trigger] m[i][j]).node
            != (#[trigger] m[i][k]).node
}

/// In a well-formed graph, any list entry naming target `v` is the unique one,
/// so its cost is the stored edge cost.
pub proof fn lemma_edge_cost_unique(m: Seq<Seq<NodeWithCost>>, u: int, j: int)
    requires
        graph_wf(m),
        0 <= u < m.len(),
        0 <= j < m[u].len(),
    ensures
        has_edge(m, u, m[u][j].node as int),
        edge_cost(m, u, m[u][j].node as int) == m[u][j].cost,
{
    let v = m[u][j].node as int;
    assert(has_edge(m, u, v));
    let k = choose|k: int| 0 <= k < m[u].len() && (#[trigger] m[u][k]).node as int == v;
    assert(k == j);
}

/// An adjacency matrix: one list of outgoing weighted edges per node, the node
/// count fixed at construction.
///
/// Invariants, kept by every operation: no self-loop is ever stored (pushing
/// `from == to` is a silent no-op), and duplicate edges between the same
/// `(from, to)` pair are collapsed into a single entry whose stored cost is the
/// larger of the two (see [`AdjacencyMatrix::push`]).
#[derive(Debug)]
pub struct AdjacencyMatrix {
    matrix: Vec<Vec<NodeWithCost>>,
}

impl View for AdjacencyMatrix {
    type V = Seq<Seq<NodeWithCost>>;

    closed spec fn view(&self) -> Seq<Seq<NodeWithCost>> {
        self.matrix@.map_values(|row: Vec<NodeWithCost>| row@)
    }
}

impl AdjacencyMatrix {
    /// The store's invariant: see [`graph_wf`].
    pub open spec fn wf(&self) -> bool {
        graph_wf(self@)
    }

    /// Creates a new [`AdjacencyMatrix`] with a fixed number of nodes, all of
    /// whose adjacency lists start empty.
    pub fn new(total: Node) -> (r: Self)
        ensures
            r@.len() == total,
            forall|i: int| 0 <= i < total ==> #[trigger] r@[i] == Seq::<NodeWithCost>::empty(),
            r.wf(),
    {
        let mut matrix: Vec<Vec<NodeWithCost>> = Vec::new();
        let mut i: usize = 0;
        while i < total
            invariant
                i <= total,
                matrix@.len() == i,
                forall|k: int| 0 <= k < i ==> (#[trigger] matrix@[k])@ == Seq::<NodeWithCost>::empty(),
            decreases total - i,
        {
            matrix.push(Vec::new());
            i = i + 1;
        }
        let r = Self { matrix };
        assert forall|i: int| 0 <= i < total implies #[trigger] r@[i]
            == Seq::<NodeWithCost>::empty() by {
            assert(r@[i] == r.matrix@[i]@);
        }
        r
    }

    /// Get the number of nodes in the graph.
    pub fn total(&self) -> (r: Node)
        ensures
            r == self@.len(),
    {
        self.matrix.len()
    }

    /// Get the adjacent nodes of a starting node, or `None` if the node is out
    /// of range.
    pub fn get_node(&self, node: Node) -> (r: Option<&Vec<NodeWithCost>>)
        ensures
            node < self@.len() <==> r is Some,
            r is Some ==> r->0@ == self@[node as int],
    {
        if node < self.matrix.len() {
            Some(&self.matrix[node])
        } else {
            None
        }
    }

    /// The adjacency list of a node known to be in range.
    pub(crate) fn row(&self, node: Node) -> (r: &Vec<NodeWithCost>)
        requires
            node < self@.len(),
        ensures
            r@ == self@[node as int],
    {
        &self.matrix[node]
    }

    /// Pushes an adjacent node and the cost to reach it onto an origin node's
    /// list.
    ///
    /// Fails with [`ErrorKind::InvalidIndex`] exactly when `from` or `to.node`
    /// is out of range. A self-loop (`from == to.node`) is a silent no-op. When
    /// an edge to the same destination already exists, the two entries collapse
    /// into one whose stored cost is the larger of the old and the new cost;
    /// otherwise the edge is appended.
    pub fn push(&mut self, from: Node, to: NodeWithCost) -> (r: Result<(), Error>)
        requires
            old(self).wf(),
        ensures
            final(self).wf(),
            final(self)@.len() == old(self)@.len(),
            r is Err <==> (from >= old(self)@.len() || to.node >= old(self)@.len()),
            r is Err ==> final(self)@ == old(self)@ && r->Err_0.kind == ErrorKind::InvalidIndex,
            r is Ok && from == to.node ==> final(self)@ == old(self)@,
            r is Ok && from != to.node ==> {
                &&& forall|i: int|
                    0 <= i < final(self)@.len() && i != from ==> #[trigger] final(self)@[i]
                        == old(self)@[i]
                &&& if has_edge(old(self)@, from as int, to.node as int) {
                    exists|j: int|
                        0 <= j < old(self)@[from as int].len()
                            && (#[trigger] old(self)@[from as int][j]).node == to.node
                            && final(self)@[from as int] == old(self)@[from as int].update(
                            j,
                            NodeWithCost {
                                node: to.node,
                                cost: max_cost(old(self)@[from as int][j].cost, to.cost),
                            },
                        )
                } else {
                    final(self)@[from as int] == old(self)@[from as int].push(to)
                }
                &&& has_edge(final(self)@, from as int, to.node as int)
                &&& edge_cost(final(self)@, from as int, to.node as int) == (
                if has_edge(old(self)@, from as int, to.node as int) {
                    max_cost(edge_cost(old(self)@, from as int, to.node as int), to.cost)
                } else {
                    to.cost
                })
            },
    {
        let total = self.matrix.len();
        if from >= total {
            return Err(Error::new(ErrorKind::InvalidIndex, "origin node exceeds matrix size"));
        }
        if to.node >= total {
            return Err(Error::new(ErrorKind::InvalidIndex, "destination node exceeds matrix size"));
        }
        if from == to.node {
            return Ok(());
        }
        let ghost old_view = self@;
        let mut row = self.matrix.remove(from);
        let ghost row0 = row@;
        assert(row0 == old_view[from as int]);

        let mut i: usize = 0;
        let mut found = false;
        while !found && i < row.len()
            invariant
                row@ == row0,
                i <= row0.len(),
                forall|k: int| 0 <= k < i ==> (#[trigger] row0[k]).node != to.node,
                found ==> i < row0.len() && row0[i as int].node == to.node,
            decreases row0.len() - i + (if found { 0int } else { 1int }),
        {
            if row[i].node == to.node {
                found = true;
            } else {
                i = i + 1;
            }
        }

        if found {
            let old_cost = row[i].cost;
            let new_cost = if old_cost >= to.cost {
                old_cost
            } else {
                to.cost
            };
            row[i] = NodeWithCost { node: to.node, cost: new_cost };
            assert(row@ == row0.update(
                i as int,
                NodeWithCost { node: to.node, cost: max_cost(row0[i as int].cost, to.cost) },
            ));
        } else {
            assert(forall|k: int| 0 <= k < row0.len() ==> (#[trigger] row0[k]).node != to.node);
            row.push(to);
        }
        let ghost new_row = row@;
        self.matrix.insert(from, row);

        proof {
            assert(self.matrix@ =~= old(self).matrix@.update(from as int, row));
            assert(self@ =~= old_view.update(from as int, new_row));
            lemma_push_view_facts(old_view, from as int, to, new_row, self@);
        }
        Ok(())
    }
}

/// Facts about the updated view after a successful, non-self-loop `push`:
/// well-formedness is preserved and the stored cost of the touched edge is the
/// aggregation of old and new (or the new cost when the edge is fresh).
proof fn lemma_push_view_facts(
    old_view: Seq<Seq<NodeWithCost>>,
    from: int,
    to: NodeWithCost,
    new_row: Seq<NodeWithCost>,
    new_view: Seq<Seq<NodeWithCost>>,
)
    requires
        graph_wf(old_view),
        0 <= from < old_view.len(),
        (to.node as int) < old_view.len(),
        to.node as int != from,
        new_view == old_view.update(from, new_row),
        if has_edge(old_view, from, to.node as int) {
            exists|j: int|
                0 <= j < old_view[from].len() && (#[trigger] old_view[from][j]).node == to.node
                    && new_row == old_view[from].update(
                    j,
                    NodeWithCost {
                        node: to.node,
                        cost: max_cost(old_view[from][j].cost, to.cost),
                    },
                )
        } else {
            new_row == old_view[from].push(to)
        },
    ensures
        graph_wf(new_view),
        has_edge(new_view, from, to.node as int),
        edge_cost(new_view, from, to.node as int) == (if has_edge(old_view, from, to.node as int) {
            max_cost(edge_cost(old_view, from, to.node as int), to.cost)
        } else {
            to.cost
        }),
{
    if has_edge(old_view, from, to.node as int) {
        let j = choose|j: int|
            0 <= j < old_view[from].len() && (#[trigger] old_view[from][j]).node == to.node
                && new_row == old_view[from].update(
                j,
                NodeWithCost { node: to.node, cost: max_cost(old_view[from][j].cost, to.cost) },
            );
        assert(graph_wf(new_view)) by {
            assert(forall|i: int, k: int|
                0 <= i < new_view.len() && 0 <= k < new_view[i].len() && i != from
                    ==> (#[trigger] new_view[i][k]) == old_view[i][k]);
            assert(forall|k: int|
                0 <= k < new_view[from].len() && k != j ==> (#[trigger] new_view[from][k])
                    == old_view[from][k]);
        }
        lemma_edge_cost_unique(old_view, from, j);
        assert(new_view[from][j].node == to.node);
        lemma_edge_cost_unique(new_view, from, j);
        assert(edge_cost(old_view, from, to.node as int) == old_view[from][j].cost);
        assert(edge_cost(new_view, from, to.node as int) == max_cost(
            old_view[from][j].cost,
            to.cost,
        ));
    } else {
        let j = old_view[from].len() as int;
        assert(graph_wf(new_view)) by {
            assert(forall|i: int, k: int|
                0 <= i < new_view.len() && 0 <= k < new_view[i].len() && i != from
                    ==> (#[trigger] new_view[i][k]) == old_view[i][k]);
            assert(forall|k: int|
                0 <= k < j ==> (#[trigger] new_view[from][k]) == old_view[from][k]);
            assert(new_view[from][j] == to);
            assert(forall|k: int|
                0 <= k < j ==> (#[trigger] new_view[from][k]).node != to.node);
        }
        assert(new_view[from][j].node == to.node);
        lemma_edge_cost_unique(new_view, from, j);
    }
}

} // verus!
