//! A concrete adjacency-list graph provider.

use vstd::prelude::*;

use crate::dfs::encloses;
use crate::provide::{copy_list, Neighbors};

verus! {

/// The set of vertex indices below `n`.
pub open spec fn indices_below(n: usize) -> Set<usize> {
    Set::new(|v: usize| v < n)
}

/// That set is finite, with one member per index.
pub proof fn lemma_indices_below_finite(n: usize)
    ensures
        indices_below(n).finite(),
        indices_below(n).len() == n,
    decreases n,
{
    if n == 0 {
        assert(indices_below(0) =~= Set::<usize>::empty());
    } else {
        lemma_indices_below_finite((n - 1) as usize);
        assert(indices_below(n) =~= indices_below((n - 1) as usize).insert((n - 1) as usize));
    }
}

/// An adjacency-list graph: vertex `i`'s neighbors are row `i`, in row
/// order; a vertex with no row has no neighbors.
pub struct AdjacencyGraph {
    rows: Vec<Vec<usize>>,
}

impl AdjacencyGraph {
    /// The rows as a sequence of neighbor sequences.
    pub closed spec fn rows_view(&self) -> Seq<Seq<usize>> {
        Seq::new(self.rows@.len() as nat, |i: int| self.rows@[i]@)
    }

    /// A graph of `n` vertices and no edges.
    pub fn with_vertices(n: usize) -> (g: AdjacencyGraph)
        ensures
            g.rows_view().len() == n,
            forall|i: int| 0 <= i < n ==> #[trigger] g.rows_view()[i] == Seq::<usize>::empty(),
    {
        let mut rows: Vec<Vec<usize>> = Vec::new();
        let mut i: usize = 0;
        while i < n
            invariant
                i <= n,
                rows@.len() == i,
                forall|j: int| 0 <= j < i ==> #[trigger] rows@[j]@ == Seq::<usize>::empty(),
            decreases n - i,
        {
            rows.push(Vec::new());
            i = i + 1;
        }
        AdjacencyGraph { rows }
    }

    /// Every row, and every neighbor a row lists, lies below `n`.
    pub open spec fn bounded_by(&self, n: usize) -> bool {
        &&& self.rows_view().len() <= n
        &&& forall|i: int, j: int|
            0 <= i < self.rows_view().len() && 0 <= j < self.rows_view()[i].len() ==> (
            #[trigger] self.rows_view()[i][j]) < n
    }

    /// A bounded graph is enclosed by the indices below its bound, for any
    /// traversal state whose vertices also lie below it: the finite set
    /// that `Dfs::traverse_with` asks for.
    pub proof fn lemma_bounded_encloses(&self, n: usize, fr: Seq<usize>, vis: Seq<usize>)
        requires
            self.bounded_by(n),
            forall|x: usize| #[trigger] fr.contains(x) ==> x < n,
            forall|x: usize| #[trigger] vis.contains(x) ==> x < n,
        ensures
            encloses(self, indices_below(n), fr, vis),
    {
        lemma_indices_below_finite(n);
        assert forall|x: usize, m: usize|
            indices_below(n).contains(x) && #[trigger] self.neighbors_spec(x).contains(
                m,
            ) implies indices_below(n).contains(m) by {
            if x < self.rows_view().len() {
                let row = self.rows_view()[x as int];
                let j = choose|j: int| 0 <= j < row.len() && row[j] == m;
                assert(self.rows_view()[x as int][j] < n);
            } else {
                assert(!self.neighbors_spec(x).contains(m));
            }
        }
    }

    /// Append `to` to the neighbor row of `from`.
    pub fn add_edge(&mut self, from: usize, to: usize)
        requires
            from < old(self).rows_view().len(),
        ensures
            final(self).rows_view() == old(self).rows_view().update(
                from as int,
                old(self).rows_view()[from as int].push(to),
            ),
    {
        let mut row = self.rows.remove(from);
        row.push(to);
        self.rows.insert(from, row);
        proof {
            assert(self.rows_view() =~= old(self).rows_view().update(
                from as int,
                old(self).rows_view()[from as int].push(to),
            ));
        }
    }
}

impl Neighbors for AdjacencyGraph {
    open spec fn neighbors_spec(&self, v: usize) -> Seq<usize> {
        if v < self.rows_view().len() {
            self.rows_view()[v as int]
        } else {
            Seq::empty()
        }
    }

    fn neighbors(&self, v: usize) -> (r: Vec<usize>) {
        if v < self.rows.len() {
            copy_list(&self.rows[v])
        } else {
            Vec::new()
        }
    }
}

} // verus!
