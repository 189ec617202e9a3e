//! The depth-first traversal engine and its mathematical model.

use vstd::prelude::*;

use crate::provide::{Neighbors, Visitor};

verus! {

/// The neighbors that the scheduling filter keeps: the elements of `neigh`,
/// in order, that appear neither in the visited record `vis` nor in the
/// frontier `fr`. Duplicate suppression happens here and only here.
pub open spec fn undiscovered(neigh: Seq<usize>, vis: Seq<usize>, fr: Seq<usize>) -> Seq<usize>
    decreases neigh.len(),
{
    if neigh.len() == 0 {
        Seq::empty()
    } else {
        let kept = undiscovered(neigh.drop_last(), vis, fr);
        if !vis.contains(neigh.last()) && !fr.contains(neigh.last()) {
            kept.push(neigh.last())
        } else {
            kept
        }
    }
}

/// One step of the engine on a frontier `fr` (a stack, top last) and a
/// visited record `vis` (in visitation order): with an empty frontier the
/// state is left unchanged; otherwise the top vertex is popped and recorded
/// as visited, and then its neighbors not already seen — the record now
/// includes the vertex itself, so a self-loop schedules nothing — are
/// pushed in order. The result is the new (frontier, visited) pair.
pub open spec fn step<G: Neighbors>(g: &G, fr: Seq<usize>, vis: Seq<usize>) -> (Seq<usize>, Seq<usize>) {
    if fr.len() == 0 {
        (fr, vis)
    } else {
        let current = fr.last();
        let rest = fr.drop_last();
        (rest + undiscovered(g.neighbors_spec(current), vis.push(current), rest), vis.push(current))
    }
}

/// What the visitor observes at the step taken from `(fr, vis)`: the
/// popped vertex, its neighbor list, and the pre-expansion state — the
/// frontier with the vertex already popped, the visited record not yet
/// holding it.
pub open spec fn step_observation<G: Neighbors>(g: &G, fr: Seq<usize>, vis: Seq<usize>) -> (
    usize,
    Seq<usize>,
    Seq<usize>,
    Seq<usize>,
) {
    (fr.last(), g.neighbors_spec(fr.last()), fr.drop_last(), vis)
}

/// The state after `k` engine steps from `(fr, vis)`.
pub open spec fn steps<G: Neighbors>(g: &G, fr: Seq<usize>, vis: Seq<usize>, k: nat) -> (Seq<usize>, Seq<usize>)
    decreases k,
{
    if k == 0 {
        (fr, vis)
    } else {
        steps(g, step(g, fr, vis).0, step(g, fr, vis).1, (k - 1) as nat)
    }
}

/// The frontier a fresh engine starts with: the source vertex alone.
pub open spec fn engine_start(src: usize) -> Seq<usize> {
    seq![src]
}

/// A well-formed engine state: no vertex is pending twice, none is recorded
/// as visited twice, and no pending vertex has already been visited.
pub open spec fn state_ok(fr: Seq<usize>, vis: Seq<usize>) -> bool {
    &&& fr.no_duplicates()
    &&& vis.no_duplicates()
    &&& forall|x: usize| #[trigger] fr.contains(x) ==> !vis.contains(x)
}

/// A fresh engine's state is well-formed.
pub proof fn lemma_start_ok(src: usize)
    ensures
        state_ok(engine_start(src), Seq::<usize>::empty()),
{
    assert forall|x: usize| #[trigger] engine_start(src).contains(x) implies !Seq::<
        usize,
    >::empty().contains(x) by {
        assert(Seq::<usize>::empty().len() == 0);
    }
}

/// A well-formed graph provider: every neighbor list is duplicate-free.
/// Self-loops are allowed; the engine suppresses them itself.
pub open spec fn graph_ok<G: Neighbors>(g: &G) -> bool {
    forall|v: usize| (#[trigger] g.neighbors_spec(v)).no_duplicates()
}

/// `dom` encloses a traversal of `g` from the state `(fr, vis)`: it is a
/// finite vertex set that contains the frontier and the visited record and
/// is closed under neighbor edges. Such a set exists exactly when the part
/// of the graph the traversal can still touch is finite.
pub open spec fn encloses<G: Neighbors>(g: &G, dom: Set<usize>, fr: Seq<usize>, vis: Seq<usize>) -> bool {
    &&& dom.finite()
    &&& forall|x: usize| #[trigger] fr.contains(x) ==> dom.contains(x)
    &&& forall|x: usize| #[trigger] vis.contains(x) ==> dom.contains(x)
    &&& forall|x: usize, n: usize| dom.contains(x) && #[trigger] g.neighbors_spec(x).contains(n) ==> dom.contains(n)
}

/// What the scheduling filter keeps: exactly the listed neighbors not yet
/// seen, and, for a duplicate-free neighbor list, without duplicates.
pub proof fn lemma_undiscovered_elems(neigh: Seq<usize>, vis: Seq<usize>, fr: Seq<usize>)
    ensures
        forall|x: usize| #[trigger] undiscovered(neigh, vis, fr).contains(x) <==> (neigh.contains(
            x,
        ) && !vis.contains(x) && !fr.contains(x)),
        neigh.no_duplicates() ==> undiscovered(neigh, vis, fr).no_duplicates(),
    decreases neigh.len(),
{
    broadcast use vstd::seq_lib::group_seq_properties;

    if neigh.len() == 0 {
        assert(neigh =~= Seq::<usize>::empty());
    } else {
        let nd = neigh.drop_last();
        let n = neigh.last();
        lemma_undiscovered_elems(nd, vis, fr);
        assert(neigh =~= nd.push(n));
        if neigh.no_duplicates() {
            assert(nd.no_duplicates());
            assert(!nd.contains(n));
            if !vis.contains(n) && !fr.contains(n) {
                let kept = undiscovered(nd, vis, fr);
                assert(!kept.contains(n));
                assert forall|i: int, j: int|
                    0 <= i < kept.push(n).len() && 0 <= j < kept.push(n).len() && i
                        != j implies kept.push(n)[i] != kept.push(n)[j] by {
                    if i < kept.len() && j < kept.len() {
                        assert(kept[i] != kept[j]);
                    } else if j == kept.len() && i < kept.len() {
                        if kept[i] == n {
                            assert(kept.contains(n));
                        }
                    } else if i == kept.len() && j < kept.len() {
                        if kept[j] == n {
                            assert(kept.contains(n));
                        }
                    }
                }
                assert(undiscovered(neigh, vis, fr).no_duplicates());
            }
        }
    }
}

/// Stepping `k` times and then once more reaches the same state as one step
/// taken from the `k`-step state.
pub proof fn lemma_steps_succ<G: Neighbors>(g: &G, fr: Seq<usize>, vis: Seq<usize>, k: nat)
    ensures
        steps(g, fr, vis, k + 1).0 == step(g, steps(g, fr, vis, k).0, steps(g, fr, vis, k).1).0,
        steps(g, fr, vis, k + 1).1 == step(g, steps(g, fr, vis, k).0, steps(g, fr, vis, k).1).1,
    decreases k,
{
    let s1 = step(g, fr, vis);
    assert(steps(g, fr, vis, k + 1).0 == steps(g, s1.0, s1.1, k).0);
    assert(steps(g, fr, vis, k + 1).1 == steps(g, s1.0, s1.1, k).1);
    if k == 0 {
        assert(steps(g, s1.0, s1.1, 0).0 == s1.0);
        assert(steps(g, fr, vis, 0).0 == fr);
    } else {
        lemma_steps_succ(g, s1.0, s1.1, (k - 1) as nat);
        assert(steps(g, fr, vis, k).0 == steps(g, s1.0, s1.1, (k - 1) as nat).0);
        assert(steps(g, fr, vis, k).1 == steps(g, s1.0, s1.1, (k - 1) as nat).1);
    }
}

/// On a well-formed graph, one step from a nonempty frontier keeps the
/// state well-formed and emits exactly one vertex.
pub proof fn lemma_step_wf<G: Neighbors>(g: &G, fr: Seq<usize>, vis: Seq<usize>)
    requires
        graph_ok(g),
        state_ok(fr, vis),
        fr.len() > 0,
    ensures
        state_ok(step(g, fr, vis).0, step(g, fr, vis).1),
        step(g, fr, vis).1.len() == vis.len() + 1,
{
    broadcast use vstd::seq_lib::group_seq_properties;

    let current = fr.last();
    let rest = fr.drop_last();
    let und = undiscovered(g.neighbors_spec(current), vis.push(current), rest);
    lemma_undiscovered_elems(g.neighbors_spec(current), vis.push(current), rest);
    assert(fr =~= rest.push(current));
    assert(fr.contains(current)) by {
        assert(fr[fr.len() - 1] == current);
    }
    assert(rest.no_duplicates());
    assert(!rest.contains(current));
    assert forall|i: int, j: int|
        0 <= i < rest.len() && 0 <= j < und.len() implies rest[i] != und[j] by {
        assert(und.contains(und[j]));
        assert(rest.contains(rest[i]));
    }
    vstd::seq_lib::lemma_no_dup_in_concat(rest, und);
    assert(!vis.contains(current));
    assert forall|x: usize| #[trigger] (rest + und).contains(x) implies !vis.push(
        current,
    ).contains(x) by {
        if rest.contains(x) {
            assert(fr.contains(x));
            assert(x != current);
        } else {
            assert(und.contains(x));
        }
    }
}

/// One step also stays inside any enclosing vertex set.
pub proof fn lemma_step_ok<G: Neighbors>(g: &G, dom: Set<usize>, fr: Seq<usize>, vis: Seq<usize>)
    requires
        graph_ok(g),
        state_ok(fr, vis),
        encloses(g, dom, fr, vis),
        fr.len() > 0,
    ensures
        state_ok(step(g, fr, vis).0, step(g, fr, vis).1),
        encloses(g, dom, step(g, fr, vis).0, step(g, fr, vis).1),
        step(g, fr, vis).1.len() == vis.len() + 1,
{
    broadcast use vstd::seq_lib::group_seq_properties;

    lemma_step_wf(g, fr, vis);
    let current = fr.last();
    let rest = fr.drop_last();
    let und = undiscovered(g.neighbors_spec(current), vis.push(current), rest);
    lemma_undiscovered_elems(g.neighbors_spec(current), vis.push(current), rest);
    assert(fr =~= rest.push(current));
    assert(fr.contains(current)) by {
        assert(fr[fr.len() - 1] == current);
    }
    assert forall|x: usize| #[trigger] (rest + und).contains(x) implies dom.contains(x) by {
        if rest.contains(x) {
            assert(fr.contains(x));
        } else {
            assert(und.contains(x));
            assert(g.neighbors_spec(current).contains(x));
            assert(dom.contains(current));
        }
    }
    assert forall|x: usize| #[trigger] vis.push(current).contains(x) implies dom.contains(x) by {
        assert(fr.contains(current));
    }
}

/// The depth-first traversal engine: a stack of pending vertex indices and
/// the record of vertices already emitted, in visitation order.
pub struct Dfs {
    stack: Vec<usize>,
    visited: Vec<usize>,
}

/// Linear membership scan over a vertex list.
fn contains_vertex(list: &Vec<usize>, x: usize) -> (r: bool)
    ensures
        r == list@.contains(x),
{
    let mut i: usize = 0;
    while i < list.len()
        invariant
            i <= list@.len(),
            forall|j: int| 0 <= j < i ==> list@[j] != x,
        decreases list@.len() - i,
    {
        if list[i] == x {
            return true;
        }
        i = i + 1;
    }
    false
}

/// The scheduling filter: collects, in order, the neighbors that are in
/// neither the visited record nor the frontier. The filter reads both
/// against their state on entry; a neighbor listed twice passes twice.
fn collect_undiscovered(neighbors: &Vec<usize>, visited: &Vec<usize>, frontier: &Vec<usize>) -> (r: Vec<usize>)
    ensures
        r@ == undiscovered(neighbors@, visited@, frontier@),
{
    let mut kept: Vec<usize> = Vec::new();
    let mut i: usize = 0;
    while i < neighbors.len()
        invariant
            i <= neighbors@.len(),
            kept@ == undiscovered(neighbors@.take(i as int), visited@, frontier@),
        decreases neighbors@.len() - i,
    {
        let n = neighbors[i];
        if !contains_vertex(visited, n) && !contains_vertex(frontier, n) {
            kept.push(n);
        }
        i = i + 1;
        proof {
            let taken = neighbors@.take(i as int);
            assert(taken.drop_last() =~= neighbors@.take(i as int - 1));
            assert(taken.last() == neighbors@[i as int - 1]);
        }
    }
    proof {
        assert(neighbors@.take(neighbors@.len() as int) =~= neighbors@);
    }
    kept
}

impl Dfs {
    /// The pending stack, top last.
    pub closed spec fn frontier(&self) -> Seq<usize> {
        self.stack@
    }

    /// The vertices emitted so far, in visitation order.
    pub closed spec fn visited(&self) -> Seq<usize> {
        self.visited@
    }

    /// A fresh engine: the frontier holds the source vertex alone and
    /// nothing has been visited. The source index is not validated against
    /// any graph; an index the provider does not know simply yields a
    /// one-vertex traversal later.
    pub fn init(src_index: usize) -> (dfs: Dfs)
        ensures
            dfs.frontier() == engine_start(src_index),
            dfs.visited() == Seq::<usize>::empty(),
    {
        Dfs { stack: vec![src_index], visited: Vec::new() }
    }

    /// Pull the next vertex of the traversal. With an empty frontier this
    /// reports exhaustion and leaves the state untouched, now and on every
    /// later call. Otherwise it pops the top of the frontier, records the
    /// vertex as visited, schedules its not-yet-seen neighbors and returns
    /// it: exactly the transition that `step` describes.
    pub fn next<G: Neighbors>(&mut self, graph: &G) -> (r: Option<usize>)
        ensures
            final(self).frontier() == step(graph, old(self).frontier(), old(self).visited()).0,
            final(self).visited() == step(graph, old(self).frontier(), old(self).visited()).1,
            old(self).frontier().len() == 0 ==> r is None,
            old(self).frontier().len() > 0 ==> r == Some(old(self).frontier().last()),
    {
        if let Some(v_index) = self.stack.pop() {
            let neighbors = graph.neighbors(v_index);
            self.visited.push(v_index);
            let mut fresh = collect_undiscovered(&neighbors, &self.visited, &self.stack);
            proof {
                assert(old(self).frontier().drop_last() =~= self.stack@);
            }
            self.stack.append(&mut fresh);
            Some(v_index)
        } else {
            None
        }
    }

    /// Run the traversal to completion. Each round pops the top of the
    /// frontier, invokes `callback.visit` with the popped vertex, its
    /// neighbor list, and the engine's live pre-expansion state (the
    /// frontier without the popped vertex, the visited record not yet
    /// holding it), then records the vertex and schedules its not-yet-seen
    /// neighbors: the very transition `next` performs. The contract pins
    /// the whole exchange: the visitor's record keeps what it held, gains
    /// one entry per vertex this run emits, and each new entry is precisely
    /// the pre-expansion observation of the corresponding model step, its
    /// vertex the one the visited record gains at that step. The visitor
    /// cannot cut the traversal short. A drained engine returns at once,
    /// the visitor never invoked, with no assumptions on the graph;
    /// otherwise the preconditions — duplicate-free neighbor lists, a
    /// well-formed engine state, a finite enclosing vertex set — guarantee
    /// the run terminates.
    pub fn traverse_with<G: Neighbors, V: Visitor>(&mut self, graph: &G, callback: &mut V)
        requires
            old(self).frontier().len() == 0 || (graph_ok(graph) && state_ok(
                old(self).frontier(),
                old(self).visited(),
            ) && exists|dom: Set<usize>|
                encloses(graph, dom, old(self).frontier(), old(self).visited())),
        ensures
            final(self).frontier().len() == 0,
            exists|k: nat|
                (#[trigger] steps(graph, old(self).frontier(), old(self).visited(), k)).0
                    == final(self).frontier()
                && steps(graph, old(self).frontier(), old(self).visited(), k).1
                    == final(self).visited(),
            final(callback).seen().len() == old(callback).seen().len() + final(self).visited().len()
                - old(self).visited().len(),
            final(callback).seen().take(old(callback).seen().len() as int) == old(callback).seen(),
            forall|i: int|
                0 <= i < final(self).visited().len() - old(self).visited().len()
                    ==> (#[trigger] final(callback).seen()[old(callback).seen().len() + i])
                    == step_observation(
                    graph,
                    steps(graph, old(self).frontier(), old(self).visited(), i as nat).0,
                    steps(graph, old(self).frontier(), old(self).visited(), i as nat).1,
                ),
            forall|i: int|
                0 <= i < final(self).visited().len() - old(self).visited().len()
                    ==> (#[trigger] final(callback).seen()[old(callback).seen().len() + i]).0
                    == final(self).visited()[old(self).visited().len() + i],
    {
        if self.stack.len() == 0 {
            proof {
                assert(steps(graph, old(self).frontier(), old(self).visited(), 0).0
                    == old(self).frontier());
                assert(steps(graph, old(self).frontier(), old(self).visited(), 0).1
                    == old(self).visited());
                assert(callback.seen().take(callback.seen().len() as int) =~= callback.seen());
            }
            return;
        }
        let ghost fr0 = self.stack@;
        let ghost vis0 = self.visited@;
        let ghost seen0 = callback.seen();
        let ghost dom = choose|dom: Set<usize>| encloses(graph, dom, fr0, vis0);
        let ghost mut k: nat = 0;
        proof {
            vis0.unique_seq_to_set();
            assert(vis0.to_set().subset_of(dom));
            vstd::set_lib::lemma_len_subset(vis0.to_set(), dom);
            assert(seen0.take(seen0.len() as int) =~= seen0);
        }
        while self.stack.len() > 0
            invariant
                graph_ok(graph),
                state_ok(self.stack@, self.visited@),
                encloses(graph, dom, self.stack@, self.visited@),
                steps(graph, fr0, vis0, k).0 == self.stack@,
                steps(graph, fr0, vis0, k).1 == self.visited@,
                self.visited@.len() <= dom.len(),
                self.visited@.len() == vis0.len() + k,
                callback.seen().len() == seen0.len() + k,
                callback.seen().take(seen0.len() as int) == seen0,
                forall|i: int|
                    0 <= i < k ==> (#[trigger] callback.seen()[seen0.len() + i])
                        == step_observation(
                        graph,
                        steps(graph, fr0, vis0, i as nat).0,
                        steps(graph, fr0, vis0, i as nat).1,
                    ),
                forall|i: int|
                    0 <= i < k ==> (#[trigger] callback.seen()[seen0.len() + i]).0
                        == self.visited@[vis0.len() + i],
            decreases dom.len() - self.visited@.len(),
        {
            let ghost pre_fr = self.stack@;
            let ghost pre_vis = self.visited@;
            let ghost pre_seen = callback.seen();
            let current = self.stack.pop().unwrap();
            let neighbors = graph.neighbors(current);
            callback.visit(current, &neighbors, &self.stack, &self.visited);
            self.visited.push(current);
            let mut fresh = collect_undiscovered(&neighbors, &self.visited, &self.stack);
            proof {
                assert(pre_fr.drop_last() =~= self.stack@);
            }
            self.stack.append(&mut fresh);
            proof {
                lemma_step_ok(graph, dom, pre_fr, pre_vis);
                lemma_steps_succ(graph, fr0, vis0, k);
                assert(callback.seen() == pre_seen.push(
                    (current, neighbors@, pre_fr.drop_last(), pre_vis),
                ));
                assert(callback.seen()[seen0.len() as int + k as int] == step_observation(
                    graph,
                    pre_fr,
                    pre_vis,
                ));
                assert(callback.seen().take(seen0.len() as int) =~= seen0);
                k = k + 1;
                self.visited@.unique_seq_to_set();
                assert(self.visited@.to_set().subset_of(dom));
                vstd::set_lib::lemma_len_subset(self.visited@.to_set(), dom);
            }
        }
        proof {
            assert(steps(graph, old(self).frontier(), old(self).visited(), k).0 == self.stack@
                && steps(graph, old(self).frontier(), old(self).visited(), k).1 == self.visited@);
        }
    }
}

} // verus!
