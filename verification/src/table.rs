//! The result table: one distance vector per source node, filled in as jobs
//! complete and never overwritten.

use vstd::prelude::*;

use crate::graph::{Cost, Node};

verus! {

/// Maps each source node to its computed distance vector. A slot is absent
/// until that source's job completes; each source is processed exactly once,
/// so a recorded entry is never overwritten.
pub struct ResultTable {
    entries: Vec<Option<Vec<Option<Cost>>>>,
}

impl View for ResultTable {
    type V = Seq<Option<Seq<Option<Cost>>>>;

    closed spec fn view(&self) -> Seq<Option<Seq<Option<Cost>>>> {
        self.entries@.map_values(
            |e: Option<Vec<Option<Cost>>>|
                match e {
                    Some(v) => Some(v@),
                    None => None,
                },
        )
    }
}

impl ResultTable {
    /// An empty table with one slot per source node.
    pub fn new(total: Node) -> (r: Self)
        ensures
            r@.len() == total,
            forall|i: int| 0 <= i < total ==> (#[trigger] r@[i]) is None,
    {
        let mut entries: Vec<Option<Vec<Option<Cost>>>> = Vec::new();
        let mut i: usize = 0;
        while i < total
            invariant
                i <= total,
                entries@.len() == i,
                forall|k: int| 0 <= k < i ==> (#[trigger] entries@[k]) is None,
            decreases total - i,
        {
            entries.push(None);
            i = i + 1;
        }
        let r = Self { entries };
        assert forall|i: int| 0 <= i < total implies (#[trigger] r@[i]) is None by {
            assert(r.entries@[i] is None);
        }
        r
    }

    /// The number of source slots.
    pub fn len(&self) -> (r: usize)
        ensures
            r == self@.len(),
    {
        self.entries.len()
    }

    /// Records the finished distance vector of one source. The slot must still
    /// be empty: entries are written once and never overwritten.
    pub fn insert(&mut self, node: Node, distances: Vec<Option<Cost>>)
        requires
            node < old(self)@.len(),
            old(self)@[node as int] is None,
        ensures
            final(self)@ == old(self)@.update(node as int, Some(distances@)),
    {
        let ghost dv = distances@;
        self.entries[node] = Some(distances);
        proof {
            assert(self@ =~= old(self)@.update(node as int, Some(dv)));
        }
    }

    /// A copy of the distance vector recorded for `node`: absent when `node`
    /// is out of range or that source's job has not completed.
    #[verifier::loop_isolation(false)]
    pub fn get(&self, node: Node) -> (r: Option<Vec<Option<Cost>>>)
        ensures
            r is Some <==> (node < self@.len() && self@[node as int] is Some),
            r is Some ==> self@[node as int] == Some(r->0@),
    {
        if node >= self.entries.len() {
            return None;
        }
        match &self.entries[node] {
            Some(stored) => {
                let mut out: Vec<Option<Cost>> = Vec::new();
                let mut i: usize = 0;
                while i < stored.len()
                    invariant
                        i <= stored@.len(),
                        out@.len() == i,
                        forall|k: int| 0 <= k < i ==> #[trigger] out@[k] == stored@[k],
                    decreases stored@.len() - i,
                {
                    out.push(stored[i]);
                    i = i + 1;
                }
                proof {
                    assert(out@ =~= stored@);
                    assert(self@[node as int] == Some(stored@));
                }
                Some(out)
            },
            None => {
                proof {
                    assert(self@[node as int] is None);
                }
                None
            },
        }
    }
}

} // verus!
