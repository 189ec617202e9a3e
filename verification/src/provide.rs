//! Capability contracts between the traversal engine and its collaborators.

use vstd::prelude::*;

verus! {

/// The one capability the traversal engine needs from a graph: neighbor
/// lookup by vertex index. A provider answers with the ordered sequence of
/// neighbors of a vertex; the order is provider-defined and must be stable
/// for the lifetime of the graph. A vertex the provider does not know may
/// simply have no neighbors.
pub trait Neighbors {
    /// The neighbor sequence of `v`, as a mathematical value. Contracts and
    /// proofs about traversals are stated over this function.
    spec fn neighbors_spec(&self, v: usize) -> Seq<usize>;

    /// Returns the ordered neighbors of `v`.
    fn neighbors(&self, v: usize) -> (r: Vec<usize>)
        ensures
            r@ == self.neighbors_spec(v),
    ;
}

/// A read-only observer of a running traversal. `Dfs::traverse_with` calls
/// `visit` exactly once per emitted vertex, in visitation order, handing it
/// the vertex, that vertex's neighbor list, and the engine's live frontier
/// and visited record as they stand just before the vertex is recorded as
/// visited and its neighbors are scheduled (the frontier has already had the
/// current vertex popped off its top). The visitor may keep state of its own
/// but has no way to alter the engine's state or the traversal order.
pub trait Visitor {
    /// Everything this visitor has been shown so far, oldest first: for
    /// each invocation, the vertex, the neighbor list that came with it,
    /// and the frontier and visited record observed.
    spec fn seen(&self) -> Seq<(usize, Seq<usize>, Seq<usize>, Seq<usize>)>;

    /// Observe one visitation step.
    fn visit(&mut self, current: usize, neighbors: &Vec<usize>, frontier: &Vec<usize>, visited: &Vec<usize>)
        ensures
            final(self).seen() == old(self).seen().push((current, neighbors@, frontier@, visited@)),
    ;
}

/// One-for-one copy of a vertex list.
pub(crate) fn copy_list(list: &Vec<usize>) -> (r: Vec<usize>)
    ensures
        r@ == list@,
{
    let mut r: Vec<usize> = Vec::new();
    let mut i: usize = 0;
    while i < list.len()
        invariant
            i <= list@.len(),
            r@ == list@.take(i as int),
        decreases list@.len() - i,
    {
        r.push(list[i]);
        i = i + 1;
    }
    proof {
        assert(list@.take(list@.len() as int) =~= list@);
    }
    r
}

/// One record of what a visitor was shown: the vertex, its neighbor list,
/// and copies of the pre-expansion frontier and visited record observed.
pub struct Observation {
    /// The vertex visited at this step.
    pub vertex: usize,
    /// The vertex's neighbor list.
    pub neighbors: Vec<usize>,
    /// The frontier as observed, the vertex already popped.
    pub frontier: Vec<usize>,
    /// The visited record as observed, the vertex not yet in it.
    pub visited: Vec<usize>,
}

/// A visitor that records everything it is shown, one `Observation` per
/// visit, in visitation order.
pub struct VisitLog {
    /// The recorded observations.
    pub entries: Vec<Observation>,
}

impl VisitLog {
    /// An empty log.
    pub fn new() -> (log: VisitLog)
        ensures
            log.seen() == Seq::<(usize, Seq<usize>, Seq<usize>, Seq<usize>)>::empty(),
    {
        let log = VisitLog { entries: Vec::new() };
        proof {
            assert(log.seen() =~= Seq::<(usize, Seq<usize>, Seq<usize>, Seq<usize>)>::empty());
        }
        log
    }
}

impl Visitor for VisitLog {
    /// The log's record is read straight off its entries.
    open spec fn seen(&self) -> Seq<(usize, Seq<usize>, Seq<usize>, Seq<usize>)> {
        Seq::new(
            self.entries@.len() as nat,
            |i: int|
                (
                    self.entries@[i].vertex,
                    self.entries@[i].neighbors@,
                    self.entries@[i].frontier@,
                    self.entries@[i].visited@,
                ),
        )
    }

    fn visit(&mut self, current: usize, neighbors: &Vec<usize>, frontier: &Vec<usize>, visited: &Vec<usize>) {
        self.entries.push(
            Observation {
                vertex: current,
                neighbors: copy_list(neighbors),
                frontier: copy_list(frontier),
                visited: copy_list(visited),
            },
        );
        proof {
            let prev = old(self).seen();
            let now = self.seen();
            assert(now.len() == prev.len() + 1);
            assert forall|i: int| 0 <= i < prev.len() implies now[i] == prev[i] by {
                assert(self.entries@[i] == old(self).entries@[i]);
            }
            assert(now[prev.len() as int] == (current, neighbors@, frontier@, visited@));
            assert(now =~= prev.push((current, neighbors@, frontier@, visited@)));
        }
    }
}

} // verus!
