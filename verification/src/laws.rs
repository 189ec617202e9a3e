//! Reachability and the traversal laws, proved over the engine's model.
//!
//! The engine's operations are specified exactly by the `step` transition in
//! `dfs`; the laws here say what any drained run of that transition — by
//! repeated single stepping or by one run to completion — emits.

use vstd::prelude::*;

use crate::dfs::{
    encloses, engine_start, graph_ok, lemma_step_ok, lemma_step_wf, state_ok, step, steps,
    undiscovered, lemma_undiscovered_elems,
};
use crate::provide::Neighbors;

verus! {

/// A path in `g`: a nonempty vertex sequence in which every vertex is
/// followed by one of its neighbors.
pub open spec fn is_path<G: Neighbors>(g: &G, p: Seq<usize>) -> bool {
    &&& p.len() > 0
    &&& forall|i: int| 0 <= i < p.len() - 1 ==> g.neighbors_spec(#[trigger] p[i]).contains(p[i + 1])
}

/// `v` is reachable from `src` in `g`: some path starts at `src` and ends
/// at `v`. Every vertex reaches itself by the one-vertex path.
pub open spec fn reachable<G: Neighbors>(g: &G, src: usize, v: usize) -> bool {
    exists|p: Seq<usize>| #[trigger] is_path(g, p) && p.first() == src && p.last() == v
}

/// The set of vertices reachable from `src` in `g`.
pub open spec fn reachable_set<G: Neighbors>(g: &G, src: usize) -> Set<usize> {
    Set::new(|v: usize| reachable(g, src, v))
}

/// The inductive invariant of a traversal from `src`: a well-formed state
/// in which everything seen is reachable from `src`, every neighbor of a
/// visited vertex has been seen, and the source itself has been seen.
pub open spec fn engine_inv<G: Neighbors>(g: &G, src: usize, fr: Seq<usize>, vis: Seq<usize>) -> bool {
    &&& state_ok(fr, vis)
    &&& forall|x: usize| #[trigger] fr.contains(x) ==> reachable(g, src, x)
    &&& forall|x: usize| #[trigger] vis.contains(x) ==> reachable(g, src, x)
    &&& forall|x: usize, n: usize|
        vis.contains(x) && #[trigger] g.neighbors_spec(x).contains(n) ==> vis.contains(n)
            || fr.contains(n)
    &&& vis.contains(src) || fr.contains(src)
}

proof fn lemma_reachable_refl<G: Neighbors>(g: &G, v: usize)
    ensures
        reachable(g, v, v),
{
    let p = seq![v];
    assert(is_path(g, p));
    assert(p.first() == v && p.last() == v);
}

proof fn lemma_reachable_extend<G: Neighbors>(g: &G, src: usize, v: usize, n: usize)
    requires
        reachable(g, src, v),
        g.neighbors_spec(v).contains(n),
    ensures
        reachable(g, src, n),
{
    let p = choose|p: Seq<usize>| #[trigger] is_path(g, p) && p.first() == src && p.last() == v;
    let q = p.push(n);
    assert forall|i: int| 0 <= i < q.len() - 1 implies g.neighbors_spec(#[trigger] q[i]).contains(
        q[i + 1],
    ) by {
        if i < p.len() - 1 {
            assert(q[i] == p[i] && q[i + 1] == p[i + 1]);
        } else {
            assert(q[i] == p.last() && q[i + 1] == n);
        }
    }
    assert(is_path(g, q) && q.first() == src && q.last() == n);
}

/// Every vertex at the end of a path that starts inside a neighbor-closed
/// vertex record is itself in the record.
proof fn lemma_path_stays_in_closed<G: Neighbors>(g: &G, p: Seq<usize>, vis: Seq<usize>)
    requires
        is_path(g, p),
        vis.contains(p.first()),
        forall|x: usize, n: usize|
            vis.contains(x) && #[trigger] g.neighbors_spec(x).contains(n) ==> vis.contains(n),
    ensures
        vis.contains(p.last()),
    decreases p.len(),
{
    if p.len() > 1 {
        let q = p.drop_last();
        assert forall|i: int| 0 <= i < q.len() - 1 implies g.neighbors_spec(
            #[trigger] q[i],
        ).contains(q[i + 1]) by {
            assert(q[i] == p[i] && q[i + 1] == p[i + 1]);
        }
        assert(is_path(g, q));
        assert(q.first() == p.first());
        lemma_path_stays_in_closed(g, q, vis);
        assert(g.neighbors_spec(q.last()).contains(p.last())) by {
            assert(q.last() == p[p.len() - 2]);
        }
    }
}

/// One step preserves the traversal invariant.
proof fn lemma_step_preserves_inv<G: Neighbors>(g: &G, src: usize, fr: Seq<usize>, vis: Seq<usize>)
    requires
        graph_ok(g),
        engine_inv(g, src, fr, vis),
    ensures
        engine_inv(g, src, step(g, fr, vis).0, step(g, fr, vis).1),
{
    broadcast use vstd::seq_lib::group_seq_properties;

    if fr.len() > 0 {
        let current = fr.last();
        let rest = fr.drop_last();
        let nb = g.neighbors_spec(current);
        let vis2 = vis.push(current);
        let und = undiscovered(nb, vis2, rest);
        let fr2 = rest + und;
        lemma_step_wf(g, fr, vis);
        lemma_undiscovered_elems(nb, vis2, rest);
        assert(fr =~= rest.push(current));
        assert(fr.contains(current)) by {
            assert(fr[fr.len() - 1] == current);
        }
        assert forall|x: usize| #[trigger] fr2.contains(x) implies reachable(g, src, x) by {
            if rest.contains(x) {
                assert(fr.contains(x));
            } else {
                assert(und.contains(x));
                assert(nb.contains(x));
                lemma_reachable_extend(g, src, current, x);
            }
        }
        assert forall|x: usize| #[trigger] vis2.contains(x) implies reachable(g, src, x) by {
            if x == current {
                assert(fr.contains(current));
            }
        }
        assert forall|x: usize, n: usize|
            vis2.contains(x) && #[trigger] g.neighbors_spec(x).contains(n) implies vis2.contains(n)
            || fr2.contains(n) by {
            if vis.contains(x) {
                assert(vis.contains(n) || fr.contains(n));
                if fr.contains(n) {
                    assert(rest.contains(n) || n == current);
                }
            } else {
                assert(x == current);
                if !vis2.contains(n) && !rest.contains(n) {
                    assert(und.contains(n));
                }
            }
        }
        assert(vis2.contains(src) || fr2.contains(src)) by {
            if fr.contains(src) {
                assert(rest.contains(src) || src == current);
            }
        }
    }
}

/// The invariant holds after any number of steps.
proof fn lemma_steps_preserve_inv<G: Neighbors>(
    g: &G,
    src: usize,
    fr: Seq<usize>,
    vis: Seq<usize>,
    k: nat,
)
    requires
        graph_ok(g),
        engine_inv(g, src, fr, vis),
    ensures
        engine_inv(g, src, steps(g, fr, vis, k).0, steps(g, fr, vis, k).1),
    decreases k,
{
    if k > 0 {
        let s1 = step(g, fr, vis);
        lemma_step_preserves_inv(g, src, fr, vis);
        lemma_steps_preserve_inv(g, src, s1.0, s1.1, (k - 1) as nat);
        assert(steps(g, fr, vis, k).0 == steps(g, s1.0, s1.1, (k - 1) as nat).0);
        assert(steps(g, fr, vis, k).1 == steps(g, s1.0, s1.1, (k - 1) as nat).1);
    }
}

/// Exactly-once visitation: drain an engine started on `src` — frontier
/// holding `src` alone, nothing visited — over a well-formed provider, and
/// the visited record names each vertex reachable from `src` exactly once:
/// no duplicates, no omissions, no strays.
pub proof fn lemma_exactly_once<G: Neighbors>(g: &G, src: usize, k: nat)
    requires
        graph_ok(g),
        steps(g, engine_start(src), Seq::empty(), k).0.len() == 0,
    ensures
        steps(g, engine_start(src), Seq::empty(), k).1.no_duplicates(),
        steps(g, engine_start(src), Seq::empty(), k).1.to_set() == reachable_set(g, src),
{
    broadcast use vstd::seq_lib::group_seq_properties;

    let fr0 = engine_start(src);
    let vis0 = Seq::<usize>::empty();
    assert(engine_inv(g, src, fr0, vis0)) by {
        lemma_reachable_refl(g, src);
        assert(fr0.contains(src)) by {
            assert(fr0[0] == src);
        }
        assert forall|x: usize| #[trigger] fr0.contains(x) implies reachable(g, src, x) by {
            assert(x == src);
        }
    }
    lemma_steps_preserve_inv(g, src, fr0, vis0, k);
    let frk = steps(g, fr0, vis0, k).0;
    let visk = steps(g, fr0, vis0, k).1;
    assert(frk =~= Seq::<usize>::empty());
    assert forall|x: usize, n: usize|
        visk.contains(x) && #[trigger] g.neighbors_spec(x).contains(n) implies visk.contains(
        n,
    ) by {
        assert(!frk.contains(n));
    }
    assert(visk.contains(src));
    assert forall|v: usize| #[trigger] reachable_set(g, src).contains(v) implies visk.to_set()
        .contains(v) by {
        assert(reachable(g, src, v));
        let p = choose|p: Seq<usize>| #[trigger] is_path(g, p) && p.first() == src && p.last() == v;
        lemma_path_stays_in_closed(g, p, visk);
    }
    assert(visk.to_set() =~= reachable_set(g, src));
}

/// Reachability completeness: when every vertex of a set is reachable from
/// the source — as in a graph whose vertices are all mutually reachable — a
/// drained traversal from that source has visited the whole set.
pub proof fn lemma_reachability_completeness<G: Neighbors>(
    g: &G,
    src: usize,
    k: nat,
    vertices: Set<usize>,
)
    requires
        graph_ok(g),
        steps(g, engine_start(src), Seq::empty(), k).0.len() == 0,
        forall|v: usize| #[trigger] vertices.contains(v) ==> reachable(g, src, v),
    ensures
        forall|v: usize| #[trigger] vertices.contains(v) ==> steps(
            g,
            engine_start(src),
            Seq::empty(),
            k,
        ).1.contains(v),
{
    lemma_exactly_once(g, src, k);
    assert forall|v: usize| #[trigger] vertices.contains(v) implies steps(
        g,
        engine_start(src),
        Seq::empty(),
        k,
    ).1.contains(v) by {
        assert(reachable_set(g, src).contains(v));
        assert(steps(g, engine_start(src), Seq::empty(), k).1.to_set().contains(v));
    }
}

/// Everything a run holds stays reachable: vertices flow only from a
/// vertex's neighbor list into the frontier and from the frontier into the
/// visited record, so any number of steps from a state whose vertices are
/// all reachable from `src` keeps every held vertex reachable from `src`.
/// No graph assumptions are needed.
proof fn lemma_steps_stay_reachable<G: Neighbors>(
    g: &G,
    src: usize,
    fr: Seq<usize>,
    vis: Seq<usize>,
    k: nat,
)
    requires
        forall|x: usize| #[trigger] fr.contains(x) ==> reachable(g, src, x),
        forall|x: usize| #[trigger] vis.contains(x) ==> reachable(g, src, x),
    ensures
        forall|x: usize| #[trigger] steps(g, fr, vis, k).0.contains(x) ==> reachable(g, src, x),
        forall|x: usize| #[trigger] steps(g, fr, vis, k).1.contains(x) ==> reachable(g, src, x),
    decreases k,
{
    broadcast use vstd::seq_lib::group_seq_properties;

    if k > 0 {
        let s1 = step(g, fr, vis);
        if fr.len() > 0 {
            let current = fr.last();
            let rest = fr.drop_last();
            let vis2 = vis.push(current);
            let und = undiscovered(g.neighbors_spec(current), vis2, rest);
            lemma_undiscovered_elems(g.neighbors_spec(current), vis2, rest);
            assert(fr.contains(current)) by {
                assert(fr[fr.len() - 1] == current);
            }
            assert forall|x: usize| #[trigger] s1.0.contains(x) implies reachable(g, src, x) by {
                if rest.contains(x) {
                    assert(fr.contains(x));
                } else {
                    assert(und.contains(x));
                    lemma_reachable_extend(g, src, current, x);
                }
            }
            assert forall|x: usize| #[trigger] s1.1.contains(x) implies reachable(g, src, x) by {
                if x == current {
                    assert(fr.contains(current));
                }
            }
        }
        lemma_steps_stay_reachable(g, src, s1.0, s1.1, (k - 1) as nat);
        assert(steps(g, fr, vis, k).0 == steps(g, s1.0, s1.1, (k - 1) as nat).0);
        assert(steps(g, fr, vis, k).1 == steps(g, s1.0, s1.1, (k - 1) as nat).1);
    }
}

/// Unreachable exclusion: a vertex not reachable from the source never
/// appears anywhere in a run from the source — not in the frontier, not in
/// the visited record, so never in a return value of `next` nor in anything
/// shown to a visitor. This needs no assumption on the graph and holds at
/// every step, drained or not.
pub proof fn lemma_unreachable_exclusion<G: Neighbors>(g: &G, src: usize, k: nat, v: usize)
    requires
        !reachable(g, src, v),
    ensures
        !steps(g, engine_start(src), Seq::empty(), k).0.contains(v),
        !steps(g, engine_start(src), Seq::empty(), k).1.contains(v),
{
    lemma_reachable_refl(g, src);
    assert forall|x: usize| #[trigger] engine_start(src).contains(x) implies reachable(
        g,
        src,
        x,
    ) by {
        assert(x == src);
    }
    assert forall|x: usize| #[trigger] Seq::<usize>::empty().contains(x) implies reachable(
        g,
        src,
        x,
    ) by {
        assert(Seq::<usize>::empty().len() == 0);
    }
    lemma_steps_stay_reachable(g, src, engine_start(src), Seq::empty(), k);
}

/// A vertex, other than the source, that no vertex reachable from the
/// source lists as a neighbor — an isolated vertex, or any vertex of
/// another component — is not reachable from the source at all, so the
/// exclusion law applies to it.
pub proof fn lemma_isolated_not_reachable<G: Neighbors>(g: &G, src: usize, isolated: usize)
    requires
        isolated != src,
        forall|v: usize| reachable(g, src, v) ==> !(#[trigger] g.neighbors_spec(v)).contains(
            isolated,
        ),
    ensures
        !reachable(g, src, isolated),
{
    if reachable(g, src, isolated) {
        let p = choose|p: Seq<usize>|
            #[trigger] is_path(g, p) && p.first() == src && p.last() == isolated;
        assert(p.len() > 1) by {
            if p.len() == 1 {
                assert(p.first() == p.last());
            }
        }
        let q = p.drop_last();
        assert forall|i: int| 0 <= i < q.len() - 1 implies g.neighbors_spec(
            #[trigger] q[i],
        ).contains(q[i + 1]) by {
            assert(q[i] == p[i] && q[i + 1] == p[i + 1]);
        }
        assert(is_path(g, q));
        assert(q.first() == src);
        assert(reachable(g, src, q.last()));
        assert(g.neighbors_spec(q.last()).contains(isolated)) by {
            assert(q.last() == p[p.len() - 2]);
        }
        assert(false);
    }
}

/// Termination: from any well-formed state enclosed by a finite vertex set
/// — any state a traversal of a finite graph can be in — some number of
/// steps drains the frontier. Visited strictly grows inside the enclosure,
/// so the drain comes within `dom.len()` steps.
pub proof fn lemma_drain_exists<G: Neighbors>(g: &G, dom: Set<usize>, fr: Seq<usize>, vis: Seq<usize>)
    requires
        graph_ok(g),
        state_ok(fr, vis),
        encloses(g, dom, fr, vis),
    ensures
        exists|k: nat| (#[trigger] steps(g, fr, vis, k)).0.len() == 0,
    decreases dom.len() - vis.len(),
{
    vis.unique_seq_to_set();
    assert(vis.to_set().subset_of(dom));
    vstd::set_lib::lemma_len_subset(vis.to_set(), dom);
    if fr.len() == 0 {
        assert(steps(g, fr, vis, 0).0.len() == 0);
    } else {
        let s1 = step(g, fr, vis);
        lemma_step_ok(g, dom, fr, vis);
        s1.1.unique_seq_to_set();
        assert(s1.1.to_set().subset_of(dom));
        vstd::set_lib::lemma_len_subset(s1.1.to_set(), dom);
        lemma_drain_exists(g, dom, s1.0, s1.1);
        let k = choose|k: nat| (#[trigger] steps(g, s1.0, s1.1, k)).0.len() == 0;
        assert(steps(g, fr, vis, k + 1).0 == steps(g, s1.0, s1.1, k).0);
        assert(steps(g, fr, vis, k + 1).0.len() == 0);
    }
}

/// Idempotent exhaustion: once the frontier is empty, any number of further
/// steps leaves the engine exactly where it stands — `next` keeps reporting
/// exhaustion with no side effect.
pub proof fn lemma_exhaustion_idempotent<G: Neighbors>(g: &G, fr: Seq<usize>, vis: Seq<usize>, k: nat)
    requires
        fr.len() == 0,
    ensures
        steps(g, fr, vis, k).0 == fr,
        steps(g, fr, vis, k).1 == vis,
    decreases k,
{
    if k > 0 {
        assert(step(g, fr, vis).0 == fr && step(g, fr, vis).1 == vis);
        lemma_exhaustion_idempotent(g, fr, vis, (k - 1) as nat);
        assert(steps(g, fr, vis, k).0 == steps(g, fr, vis, (k - 1) as nat).0);
        assert(steps(g, fr, vis, k).1 == steps(g, fr, vis, (k - 1) as nat).1);
    }
}

/// Stepping distributes over addition: `a + b` steps are `b` steps taken
/// from the `a`-step state.
proof fn lemma_steps_add<G: Neighbors>(g: &G, fr: Seq<usize>, vis: Seq<usize>, a: nat, b: nat)
    ensures
        steps(g, fr, vis, a + b).0 == steps(g, steps(g, fr, vis, a).0, steps(g, fr, vis, a).1, b).0,
        steps(g, fr, vis, a + b).1 == steps(g, steps(g, fr, vis, a).0, steps(g, fr, vis, a).1, b).1,
    decreases a,
{
    if a > 0 {
        let s1 = step(g, fr, vis);
        lemma_steps_add(g, s1.0, s1.1, (a - 1) as nat, b);
        assert(steps(g, fr, vis, a + b).0 == steps(g, s1.0, s1.1, (a + b - 1) as nat).0);
        assert(steps(g, fr, vis, a + b).1 == steps(g, s1.0, s1.1, (a + b - 1) as nat).1);
        assert(steps(g, fr, vis, a).0 == steps(g, s1.0, s1.1, (a - 1) as nat).0);
        assert(steps(g, fr, vis, a).1 == steps(g, s1.0, s1.1, (a - 1) as nat).1);
        assert((a - 1) as nat + b == (a + b - 1) as nat);
    }
}

/// A drained run stays drained and unchanged however much further it is
/// stepped.
proof fn lemma_drain_extend<G: Neighbors>(g: &G, fr: Seq<usize>, vis: Seq<usize>, k1: nat, k2: nat)
    requires
        k1 <= k2,
        steps(g, fr, vis, k1).0.len() == 0,
    ensures
        steps(g, fr, vis, k2).0 == steps(g, fr, vis, k1).0,
        steps(g, fr, vis, k2).1 == steps(g, fr, vis, k1).1,
{
    let d = (k2 - k1) as nat;
    lemma_steps_add(g, fr, vis, k1, d);
    lemma_exhaustion_idempotent(g, steps(g, fr, vis, k1).0, steps(g, fr, vis, k1).1, d);
    assert(k1 + d == k2);
}

/// Stepping and run-to-completion agree: any two drained runs of the step
/// transition from one start state carry the same visited record. Repeated
/// `next` calls and one `traverse_with` call both realize such runs, so the
/// ordered sequence of vertices the former returns is the sequence the
/// latter hands its visitor.
pub proof fn lemma_drains_agree<G: Neighbors>(g: &G, fr: Seq<usize>, vis: Seq<usize>, k1: nat, k2: nat)
    requires
        steps(g, fr, vis, k1).0.len() == 0,
        steps(g, fr, vis, k2).0.len() == 0,
    ensures
        steps(g, fr, vis, k1).1 == steps(g, fr, vis, k2).1,
{
    if k1 <= k2 {
        lemma_drain_extend(g, fr, vis, k1, k2);
    } else {
        lemma_drain_extend(g, fr, vis, k2, k1);
    }
}

} // verus!
