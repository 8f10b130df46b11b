//! Breadth-first and depth-first traversals driven by caller callbacks.
use vstd::prelude::*;
use vstd::set_lib::{lemma_int_range, lemma_len_subset, set_int_range};

use crate::containers::{
    frame_stack_capacity, frame_stack_items, frame_stack_len, frame_stack_new, frame_stack_pop,
    frame_stack_push, frame_stack_top, flag_array_get, flag_array_items, flag_array_new_cleared, flag_array_set, queue_capacity,
    queue_dequeue, queue_items, queue_len, queue_new_pow2_sized, queue_push, layout_fits,
};
use eta_algorithms::data_structs::array::Array;

use crate::handles::types::{Edge, VHandle, Weight};
use crate::handles::{spec_vh, vh};
use crate::paths::{
    has_edge, hop_distance, lemma_closed_holds_reachable, lemma_reachable_in_last_edge, lemma_reachable_in_step,
    lemma_distinct_below, lemma_reachable_in_prefix, lemma_reachable_in_zero, lemma_reachable_self, lemma_reachable_step, reachable, reachable_in,
    lemma_avoiding_zero_closed, lemma_avoiding_zero_step, reachable_avoiding_zero,
    hop_distance_avoiding_zero, lemma_avoiding_zero_in_step, lemma_avoiding_zero_last_edge,
    reachable_in_avoiding_zero,
    targets_below,
};
use crate::traits::EdgeStore;

verus! {

/// What a traversal callback asks the traversal to do next.
#[derive(Clone, Copy)]
pub enum ControlFlow {
    /// Go on, and explore below the vertex just visited.
    Resume,
    /// Stop exploring the current vertex's edges.
    End,
    /// Stop exploring the current vertex's edges.
    Exit,
    /// Go on without exploring below the vertex just visited.
    Continue,
}

/// Whether every answer of `f` is `Resume`.
pub open spec fn always_resumes<F: FnMut(Edge, Weight) -> ControlFlow>(f: F) -> bool {
    forall|e: Edge, l: Weight, r: ControlFlow| #[trigger] f.ensures((e, l), r) ==> r is Resume
}

/// One call of a breadth-first traversal's callback: the edge, the layer
/// handed with it, and the callback's answer.
pub type BfsVisit = (Edge, Weight, ControlFlow);

/// Whether visit `j` of `trace` follows a live edge of the target of an
/// earlier visit that was explored: the first visit, or one answered
/// `Resume`.
pub open spec fn explored_from(edges: Seq<Seq<Edge>>, trace: Seq<BfsVisit>, j: int) -> bool {
    exists|a: int, q: int|
        #![trigger trace[a], edges[spec_vh(trace[a].0) as int][q]]
        0 <= a < j && (a == 0 || trace[a].2 is Resume) && 0 <= q < edges[spec_vh(trace[a].0) as int].len()
            && edges[spec_vh(trace[a].0) as int][q] == trace[j].0
}

/// Whether `par` gives, for every visit after the first, the visit whose
/// target's edges it followed and the edge's position: an explored visit
/// (the first, or one answered `Resume`) and a live edge to the visit's
/// edge; visits come in the order of their (visit, position) pairs, and
/// after a visit answered `End` or `Exit` no edge of the same target is
/// followed again.
pub open spec fn bfs_parents(edges: Seq<Seq<Edge>>, trace: Seq<BfsVisit>, par: Seq<(int, int)>) -> bool {
    &&& par.len() == trace.len()
    &&& forall|j: int|
        1 <= j < trace.len() ==> {
            let (a, q) = #[trigger] par[j];
            &&& 0 <= a < j
            &&& (a == 0 || trace[a].2 is Resume)
            &&& 0 <= q < edges[spec_vh(trace[a].0) as int].len()
            &&& edges[spec_vh(trace[a].0) as int][q] == trace[j].0
        }
    &&& forall|j: int, k: int|
        1 <= j < k < trace.len() ==> #[trigger] par[j].0 < #[trigger] par[k].0 || (par[j].0 == par[k].0
            && par[j].1 < par[k].1)
    &&& forall|j: int, k: int|
        1 <= j < k < trace.len() && (trace[j].2 is End || trace[j].2 is Exit) ==> #[trigger] par[j].0
            < #[trigger] par[k].0
}

/// Whether the layer handed with the visit that queued each queue entry is
/// that entry's layer.
#[verifier::opaque]
spec fn queued_layers(trace: Seq<BfsVisit>, qidx: Seq<int>, lay: Seq<int>) -> bool {
    forall|p: int| 0 <= p < qidx.len() ==> trace[#[trigger] qidx[p]].1 == lay[p]
}

/// Whether every visit after the first was handed its parent's layer plus
/// one.
pub open spec fn parent_layers(trace: Seq<BfsVisit>, par: Seq<(int, int)>) -> bool {
    forall|j: int| 1 <= j < trace.len() ==> #[trigger] trace[j].1 == trace[par[j].0].1 + 1
}

/// Whether visit `a` was explored: the first visit unless it was answered
/// `End` or `Exit`, or a later visit answered `Resume`.
pub open spec fn bfs_explored(trace: Seq<BfsVisit>, a: int) -> bool {
    ||| a == 0 && trace.len() >= 1 && !(trace[0].2 is End || trace[0].2 is Exit)
    ||| 1 <= a < trace.len() && trace[a].2 is Resume
}

/// Whether edge `q` of the target of visit `a` was dealt with: a visit
/// followed it, or it leads to vertex 0 or to the target of a visit made
/// from an earlier (visit, position) pair, or reading stopped at an `End` or
/// `Exit` answered for an earlier edge of the same target.
pub open spec fn edge_handled(edges: Seq<Seq<Edge>>, trace: Seq<BfsVisit>, par: Seq<(int, int)>, a: int, q: int) -> bool {
    let x = spec_vh(edges[spec_vh(trace[a].0) as int][q]) as int;
    ||| exists|j: int| 1 <= j < trace.len() && #[trigger] par[j] == (a, q)
    ||| x == 0
    ||| exists|j: int|
        1 <= j < trace.len() && spec_vh(#[trigger] trace[j].0) == x && (par[j].0 < a || (par[j].0 == a && par[j].1
            < q))
    ||| exists|j: int|
        1 <= j < trace.len() && #[trigger] par[j].0 == a && par[j].1 < q && (trace[j].2 is End || trace[j].2 is Exit)
}

/// Whether every edge of the target of every explored visit was dealt with.
pub open spec fn bfs_scanned(edges: Seq<Seq<Edge>>, trace: Seq<BfsVisit>, par: Seq<(int, int)>) -> bool {
    forall|a: int, q: int|
        bfs_explored(trace, a) && 0 <= q < edges[spec_vh(trace[a].0) as int].len() ==> #[trigger] edge_handled(
            edges,
            trace,
            par,
            a,
            q,
        )
}

/// An edge dealt with stays dealt with as visits are appended.
proof fn lemma_handled_push(
    edges: Seq<Seq<Edge>>,
    tr: Seq<BfsVisit>,
    par: Seq<(int, int)>,
    v: BfsVisit,
    pp: (int, int),
    a: int,
    q: int,
)
    requires
        edge_handled(edges, tr, par, a, q),
        0 <= a < tr.len(),
        par.len() == tr.len(),
    ensures
        edge_handled(edges, tr.push(v), par.push(pp), a, q),
{
    let t2 = tr.push(v);
    let p2 = par.push(pp);
    assert(t2[a] == tr[a]);
    let x = spec_vh(edges[spec_vh(tr[a].0) as int][q]) as int;
    if exists|j: int| 1 <= j < tr.len() && #[trigger] par[j] == (a, q) {
        let j = choose|j: int| 1 <= j < tr.len() && #[trigger] par[j] == (a, q);
        assert(p2[j] == par[j]);
    } else if x == 0 {
    } else if exists|j: int|
        1 <= j < tr.len() && spec_vh(#[trigger] tr[j].0) == x && (par[j].0 < a || (par[j].0 == a && par[j].1 < q)) {
        let j = choose|j: int|
            1 <= j < tr.len() && spec_vh(#[trigger] tr[j].0) == x && (par[j].0 < a || (par[j].0 == a && par[j].1
                < q));
        assert(p2[j] == par[j] && t2[j] == tr[j]);
    } else {
        let j = choose|j: int|
            1 <= j < tr.len() && #[trigger] par[j].0 == a && par[j].1 < q && (tr[j].2 is End || tr[j].2 is Exit);
        assert(p2[j] == par[j] && t2[j] == tr[j]);
    }
}

/// Flags set for vertex 0 and every visit's target stay so as visits are
/// appended.
proof fn lemma_marks_push(tr: Seq<BfsVisit>, v: BfsVisit, marks: Set<int>)
    requires
        tr.len() >= 1,
        forall|x: int| #[trigger] marks.contains(x) <==> visited_before(tr, tr.len() as int, x),
    ensures
        forall|x: int|
            #[trigger] marks.insert(spec_vh(v.0) as int).contains(x) <==> visited_before(
                tr.push(v),
                tr.len() + 1 as int,
                x,
            ),
{
    let t2 = tr.push(v);
    let j = tr.len() as int;
    assert forall|x: int| #[trigger] marks.insert(spec_vh(v.0) as int).contains(x) <==> visited_before(t2, j + 1, x) by {
        if x == spec_vh(v.0) as int {
            assert(spec_vh(t2[j].0) == x);
        } else {
            if visited_before(t2, j + 1, x) && x != 0 {
                let i = choose|i: int| 1 <= i < j + 1 && spec_vh(#[trigger] t2[i].0) == x;
                assert(t2[i] == tr[i]);
            }
            if marks.contains(x) && x != 0 {
                let i = choose|i: int| 1 <= i < j && spec_vh(#[trigger] tr[i].0) == x;
                assert(t2[i] == tr[i]);
            }
        }
    }
}

/// Appending a visit that follows edge `q` of the target of an explored
/// visit `a`, after every earlier visit's (visit, position) pair and with no
/// `End` or `Exit` answered on an edge of `a`'s target, extends the parents.
proof fn lemma_parents_push(
    edges: Seq<Seq<Edge>>,
    tr: Seq<BfsVisit>,
    par: Seq<(int, int)>,
    v: BfsVisit,
    a: int,
    q: int,
)
    requires
        bfs_parents(edges, tr, par),
        0 <= a < tr.len(),
        a == 0 || tr[a].2 is Resume,
        0 <= q < edges[spec_vh(tr[a].0) as int].len(),
        edges[spec_vh(tr[a].0) as int][q] == v.0,
        forall|j: int| 1 <= j < tr.len() ==> #[trigger] par[j].0 < a || (par[j].0 == a && par[j].1 < q),
        forall|j: int| 1 <= j < tr.len() && #[trigger] par[j].0 == a ==> !(tr[j].2 is End || tr[j].2 is Exit),
    ensures
        bfs_parents(edges, tr.push(v), par.push((a, q))),
{
    let t2 = tr.push(v);
    let p2 = par.push((a, q));
    let n = tr.len() as int;
    assert forall|j: int| 1 <= j < t2.len() implies {
        let (b, r) = #[trigger] p2[j];
        &&& 0 <= b < j
        &&& (b == 0 || t2[b].2 is Resume)
        &&& 0 <= r < edges[spec_vh(t2[b].0) as int].len()
        &&& edges[spec_vh(t2[b].0) as int][r] == t2[j].0
    } by {
        if j < n {
            assert(p2[j] == par[j] && t2[j] == tr[j]);
            assert(t2[par[j].0] == tr[par[j].0]);
        } else {
            assert(p2[j] == (a, q) && t2[j] == v && t2[a] == tr[a]);
        }
    }
    assert forall|j: int, k: int| 1 <= j < k < t2.len() implies #[trigger] p2[j].0 < #[trigger] p2[k].0 || (p2[j].0
        == p2[k].0 && p2[j].1 < p2[k].1) by {
        assert(p2[j] == par[j]);
        if k < n {
            assert(p2[k] == par[k]);
        }
    }
    assert forall|j: int, k: int|
        1 <= j < k < t2.len() && (t2[j].2 is End || t2[j].2 is Exit) implies #[trigger] p2[j].0 < #[trigger] p2[k].0 by {
        assert(p2[j] == par[j] && t2[j] == tr[j]);
        if k < n {
            assert(p2[k] == par[k]);
        }
    }
}

/// Whether the answer recorded in `v` is one `f` may give for its edge and
/// layer.
pub open spec fn visit_answered<F: FnMut(Edge, Weight) -> ControlFlow>(f: F, v: BfsVisit) -> bool {
    f.ensures((v.0, v.1), v.2)
}

/// Appending a visit that follows edge `q` of the target of an explored
/// visit `a` keeps every visit after the first explored from an earlier one.
proof fn lemma_explored_push(edges: Seq<Seq<Edge>>, tr: Seq<BfsVisit>, v: BfsVisit, a: int, q: int)
    requires
        forall|j: int| 1 <= j < tr.len() ==> #[trigger] explored_from(edges, tr, j),
        0 <= a < tr.len(),
        a == 0 || tr[a].2 is Resume,
        0 <= q < edges[spec_vh(tr[a].0) as int].len(),
        edges[spec_vh(tr[a].0) as int][q] == v.0,
    ensures
        forall|j: int| 1 <= j < tr.len() + 1 ==> #[trigger] explored_from(edges, tr.push(v), j),
{
    let t2 = tr.push(v);
    assert forall|j: int| 1 <= j < tr.len() + 1 implies #[trigger] explored_from(edges, t2, j) by {
        if j < tr.len() {
            assert(explored_from(edges, tr, j));
            let (b, r) = choose|b: int, r: int|
                #![trigger tr[b], edges[spec_vh(tr[b].0) as int][r]]
                0 <= b < j && (b == 0 || tr[b].2 is Resume) && 0 <= r < edges[spec_vh(tr[b].0) as int].len()
                    && edges[spec_vh(tr[b].0) as int][r] == tr[j].0;
            assert(t2[b] == tr[b] && t2[j] == tr[j]);
            assert(edges[spec_vh(t2[b].0) as int][r] == t2[j].0);
        } else {
            assert(t2[a] == tr[a] && t2[j] == v);
            assert(edges[spec_vh(t2[a].0) as int][q] == t2[j].0);
        }
    }
}

/// The target of every visit after the first is reached from the start by
/// a walk that avoids vertex 0, when each such visit follows an edge of an
/// earlier visit's target and none leads to vertex 0.
proof fn lemma_visits_avoid_zero(edges: Seq<Seq<Edge>>, trace: Seq<BfsVisit>, i: int)
    requires
        trace.len() >= 1,
        spec_vh(trace[0].0) < edges.len(),
        targets_below(edges, edges.len() as int),
        forall|j: int| 1 <= j < trace.len() ==> #[trigger] explored_from(edges, trace, j),
        forall|j: int| 1 <= j < trace.len() ==> spec_vh(#[trigger] trace[j].0) != 0,
        1 <= i < trace.len(),
    ensures
        reachable_avoiding_zero(edges, spec_vh(trace[0].0) as int, spec_vh(trace[i].0) as int),
    decreases i,
{
    let sv = spec_vh(trace[0].0) as int;
    assert(explored_from(edges, trace, i));
    let (a, q) = choose|a: int, q: int|
        #![trigger trace[a], edges[spec_vh(trace[a].0) as int][q]]
        0 <= a < i && (a == 0 || trace[a].2 is Resume) && 0 <= q < edges[spec_vh(trace[a].0) as int].len()
            && edges[spec_vh(trace[a].0) as int][q] == trace[i].0;
    let u = spec_vh(trace[a].0) as int;
    assert(spec_vh(trace[i].0) != 0);
    if a == 0 {
        lemma_avoiding_zero_step(edges, sv, u, q);
    } else {
        lemma_visits_avoid_zero(edges, trace, a);
        assert(explored_from(edges, trace, a));
        let (b, r) = choose|b: int, r: int|
            #![trigger trace[b], edges[spec_vh(trace[b].0) as int][r]]
            0 <= b < a && (b == 0 || trace[b].2 is Resume) && 0 <= r < edges[spec_vh(trace[b].0) as int].len()
                && edges[spec_vh(trace[b].0) as int][r] == trace[a].0;
        if b == 0 {
            assert(spec_vh(trace[b].0) < edges.len());
        } else {
            lemma_visit_target_below(edges, trace, b);
        }
        assert(u < edges.len());
        lemma_avoiding_zero_step(edges, sv, u, q);
    }
}

proof fn lemma_visit_target_below(edges: Seq<Seq<Edge>>, trace: Seq<BfsVisit>, j: int)
    requires
        trace.len() >= 1,
        spec_vh(trace[0].0) < edges.len(),
        targets_below(edges, edges.len() as int),
        forall|k: int| 1 <= k < trace.len() ==> #[trigger] explored_from(edges, trace, k),
        0 <= j < trace.len(),
    ensures
        spec_vh(trace[j].0) < edges.len(),
    decreases j,
{
    if j > 0 {
        assert(explored_from(edges, trace, j));
        let (a, q) = choose|a: int, q: int|
            #![trigger trace[a], edges[spec_vh(trace[a].0) as int][q]]
            0 <= a < j && (a == 0 || trace[a].2 is Resume) && 0 <= q < edges[spec_vh(trace[a].0) as int].len()
                && edges[spec_vh(trace[a].0) as int][q] == trace[j].0;
        lemma_visit_target_below(edges, trace, a);
    }
}

/// Whether `v` is the target of one of the visits in `trace`.
pub open spec fn visits_target(trace: Seq<BfsVisit>, v: int) -> bool {
    exists|j: int| 0 <= j < trace.len() && spec_vh(#[trigger] trace[j].0) == v
}

/// Whether `e` is a live edge of a vertex reachable from `from`.
pub open spec fn edge_of_reached(edges: Seq<Seq<Edge>>, from: int, e: Edge) -> bool {
    exists|u: int, i: int|
        0 <= u < edges.len() && 0 <= i < edges[u].len() && #[trigger] edges[u][i] == e && reachable(edges, from, u)
}

/// Whether `x` is one of the handles in `s`.
pub open spec fn holds_handle(s: Seq<VHandle>, x: int) -> bool {
    exists|j: int| 0 <= j < s.len() && #[trigger] s[j] as int == x
}

/// Whether `x` counts as seen once the traversal has made its first `j`
/// visits: vertex 0, whose queued flag is set before the traversal starts,
/// and the target of every visit after the first.
pub open spec fn visited_before(trace: Seq<BfsVisit>, j: int, x: int) -> bool {
    x == 0 || exists|i: int| 1 <= i < j && spec_vh(#[trigger] trace[i].0) == x
}

/// Whether vertex `u` has a live edge to a vertex none of the first `j`
/// visits leads to.
pub open spec fn has_unvisited_edge(edges: Seq<Seq<Edge>>, trace: Seq<BfsVisit>, j: int, u: int) -> bool {
    exists|q: int| 0 <= q < edges[u].len() && !visited_before(trace, j, spec_vh(#[trigger] edges[u][q]) as int)
}

/// Whether the last visit of `p` is the one a breadth-first traversal makes
/// after `p`'s other visits: the first live edge to an unvisited vertex of
/// the vertex visited first (by position in `p`) that still has such an
/// edge.
pub open spec fn bfs_step_ok(edges: Seq<Seq<Edge>>, p: Seq<BfsVisit>) -> bool {
    let j = p.len() - 1;
    exists|a: int, q: int|
        #![trigger p[a], edges[spec_vh(p[a].0) as int][q]]
        0 <= a < j && 0 <= q < edges[spec_vh(p[a].0) as int].len() && p[j].0 == edges[spec_vh(p[a].0) as int][q]
            && p[j].1 == p[a].1 + 1 && !visited_before(p, j, spec_vh(p[j].0) as int) && (forall|q2: int|
            0 <= q2 < q ==> visited_before(p, j, spec_vh(#[trigger] edges[spec_vh(p[a].0) as int][q2]) as int)) && (
        forall|b: int| 0 <= b < a ==> !has_unvisited_edge(edges, p, j, spec_vh(#[trigger] p[b].0) as int))
}

/// Whether every visit after the first is the one a breadth-first
/// traversal makes next.
pub open spec fn bfs_order(edges: Seq<Seq<Edge>>, trace: Seq<BfsVisit>) -> bool {
    forall|j: int| 1 <= j < trace.len() ==> #[trigger] bfs_step_ok(edges, trace.take(j + 1))
}

/// Whether no visited vertex has a live edge to an unvisited one.
pub open spec fn bfs_maximal(edges: Seq<Seq<Edge>>, trace: Seq<BfsVisit>) -> bool {
    forall|a: int|
        0 <= a < trace.len() ==> !has_unvisited_edge(edges, trace, trace.len() as int, spec_vh(#[trigger] trace[a].0) as int)
}

/// Breadth-first traversal from the target of `start`.
///
/// `pre_order` is called on `start` with layer 0 and then on every edge
/// that leads to a vertex not yet queued, with the layer of the edge's
/// target; its answer decides whether that target is explored. The
/// traversal returns the edges and layers it handed to `pre_order`, in order.
/// Slot 0 of the queued flags is set at the start (whatever `start` is),
/// so vertex 0 is reported again only as the start; the start's own
/// target is not flagged and is reported again when an edge leads back to
/// it. With every answer `Resume`, from any start, the visits come in
/// breadth-first order, each with the layer of the visit whose edges led to
/// it plus one, and no visited vertex is left with an edge to a vertex not
/// yet seen, so the visits after the first reach exactly the vertices other
/// than 0 that a walk of at least one edge avoiding vertex 0 leads to, each
/// with the least number of edges of such a walk; from vertex 0 the visits
/// are exactly the reachable vertices, each with the least number of edges
/// that lead to it. Every answer is recorded with its visit; a target is
/// explored only when it is the start or was answered `Resume`; `End` or
/// `Exit` for the start ends the traversal, and for any other visit stops
/// reading the edges of the vertex being explored. Whatever the answers,
/// the edges of every explored visit are read in order up to such a stop,
/// and each leads to a visit unless its target was already flagged
/// (`bfs_scanned`); without `Continue` answers, whose counting shifts the
/// layers, each visit is handed its parent's layer plus one.
#[verifier::rlimit(100)]
#[verifier::spinoff_prover]
pub fn bfs<PreOrderFunc, Edges>(
    edge_storage: &Edges,
    start: Edge,
    vertices_count: usize,
    mut pre_order: PreOrderFunc,
) -> (trace: Vec<BfsVisit>)
    where
        PreOrderFunc: FnMut(Edge, Weight) -> ControlFlow,
        Edges: EdgeStore,
    requires
        edge_storage.wf(),
        forall|e: Edge, l: Weight| #[trigger] pre_order.requires((e, l)),
        spec_vh(start) < edge_storage.spec_edges().len(),
        targets_below(edge_storage.spec_edges(), edge_storage.spec_edges().len() as int),
        edge_storage.spec_edges().len() <= vertices_count < 0x7FFF_FFF0,
        layout_fits(2 * vertices_count, 4),
    ensures
        trace@.len() >= 1,
        trace@[0].0 == start && trace@[0].1 == 0i32,
        forall|j: int| 0 <= j < trace@.len() ==> #[trigger] visit_answered(pre_order, trace@[j]),
        (trace@[0].2 is End || trace@[0].2 is Exit) ==> trace@.len() == 1,
        forall|j: int| 1 <= j < trace@.len() ==> #[trigger] explored_from(edge_storage.spec_edges(), trace@, j),
        exists|par: Seq<(int, int)>|
            #[trigger] bfs_parents(edge_storage.spec_edges(), trace@, par) && bfs_scanned(
                edge_storage.spec_edges(),
                trace@,
                par,
            ) && ((forall|j: int| 1 <= j < trace@.len() ==> !(#[trigger] trace@[j].2 is Continue)) ==> parent_layers(
                trace@,
                par,
            )),
        forall|j: int|
            1 <= j < trace@.len() ==> reachable(
                edge_storage.spec_edges(),
                spec_vh(start) as int,
                spec_vh(#[trigger] trace@[j].0) as int,
            ) && spec_vh(trace@[j].0) != 0,
        forall|j: int, k: int|
            1 <= j < k < trace@.len() ==> spec_vh(#[trigger] trace@[j].0) != spec_vh(
                #[trigger] trace@[k].0,
            ),
        forall|j: int|
            1 <= j < trace@.len() ==> edge_of_reached(edge_storage.spec_edges(), spec_vh(start) as int, #[trigger] trace@[j].0),
        always_resumes(pre_order) ==> forall|j: int, k: int|
            0 <= j < k < trace@.len() ==> #[trigger] trace@[j].1 <= #[trigger] trace@[k].1,
        always_resumes(pre_order) ==> bfs_order(edge_storage.spec_edges(), trace@)
            && bfs_maximal(edge_storage.spec_edges(), trace@),
        always_resumes(pre_order) ==> forall|j: int|
            1 <= j < trace@.len() ==> hop_distance_avoiding_zero(
                edge_storage.spec_edges(),
                spec_vh(start) as int,
                spec_vh(#[trigger] trace@[j].0) as int,
                trace@[j].1 as int,
            ),
        always_resumes(pre_order) ==> forall|v: int|
            v != 0 ==> (visited_before(trace@, trace@.len() as int, v) <==> reachable_avoiding_zero(
                edge_storage.spec_edges(),
                spec_vh(start) as int,
                v,
            )),
        always_resumes(pre_order) && spec_vh(start) == 0 ==> forall|v: int|
            visits_target(trace@, v) <==> reachable(edge_storage.spec_edges(), 0, v),
        always_resumes(pre_order) && spec_vh(start) == 0 ==> forall|j: int|
            0 <= j < trace@.len() ==> hop_distance(
                edge_storage.spec_edges(),
                0,
                spec_vh(#[trigger] trace@[j].0) as int,
                trace@[j].1 as int,
            ),
{
    let ghost edges = edge_storage.spec_edges();
    let ghost count = edges.len();
    let ghost sv = spec_vh(start) as int;
    let ghost ar = always_resumes(pre_order);
    let n = vertices_count;
    let mut was_queued_flags = flag_array_new_cleared(n);
    let mut visit_queue = queue_new_pow2_sized(n);
    let mut end: usize = 1;
    let mut next_layer: usize = 1;
    let mut layer: Weight = 0;
    queue_push(&mut visit_queue, vh(start));
    flag_array_set(&mut was_queued_flags, 0, true);
    let mut i: usize = 0;
    let mut trace: Vec<BfsVisit> = Vec::new();
    let ghost mut marked: Set<int> = set![0int];
    let ghost mut pushed: Seq<u32> = seq![spec_vh(start)];
    let ghost mut dequeued: int = 0;
    let ghost mut continues: int = 0;
    let ghost bz = ar && sv == 0;
    let ghost mut lay: Seq<int> = seq![0int];
    let ghost mut qidx: Seq<int> = seq![0int];
    let ghost mut par: Seq<(int, int)> = seq![(0int, 0int)];
    let ghost f0 = pre_order;
    proof {
        if bz {
            assert forall|x: int, m: int| #[trigger] reachable_in(edges, sv, x, m) && 0 <= m <= 0 implies marked.contains(
                x,
            ) by {
                lemma_reachable_in_zero(edges, sv, x);
            }
        }
        lemma_reachable_in_zero(edges, sv, sv);
        lemma_reachable_self(edges, sv);
        lemma_int_range(0, n as int);
    }
    let first = pre_order(start, layer);
    trace.push((start, layer, first));
    proof {
        assert(trace@[0] == (start, layer, first));
        assert(visit_answered(pre_order, trace@[0]));
        assert(bfs_parents(edges, trace@, par));
        assert(queued_layers(trace@, qidx, lay)) by {
            reveal(queued_layers);
        }
    }
    match first {
        ControlFlow::End => {
            return trace;
        },
        ControlFlow::Exit => {
            return trace;
        },
        _ => {},
    }
    proof {
        assert(first is Resume || first is Continue);
        assert(forall|a: int| #[trigger] bfs_explored(trace@, a) ==> a == 0 && qidx[0] == a);
        if true {
            assert forall|x: int| #[trigger] marked.contains(x) <==> visited_before(trace@, trace@.len() as int, x) by {
                assert(trace@.len() == 1);
                assert(trace@[0].0 == start && trace@[0].1 == 0i32);
            }
        }
    }
    while queue_len(&visit_queue) != 0
        invariant
            edge_storage.wf(),
            edges == edge_storage.spec_edges(),
            count == edges.len(),
            sv == spec_vh(start),
            sv < count,
            targets_below(edges, count as int),
            count <= n < 0x7FFF_FFF0,
            ar == always_resumes(pre_order),
            forall|e: Edge, l: Weight| #[trigger] pre_order.requires((e, l)),
            set_int_range(0, n as int).finite(),
            set_int_range(0, n as int).len() == n,
            flag_array_items(was_queued_flags).len() == n,
            forall|x: int| 0 <= x < n ==> (flag_array_items(was_queued_flags)[x] <==> #[trigger] marked.contains(x)),
            marked.subset_of(set_int_range(0, n as int)),
            marked.contains(0),
            queue_capacity(visit_queue) >= n,
            queue_items(visit_queue) == pushed.skip(dequeued),
            0 <= dequeued <= pushed.len(),
            continues >= 0,
            pushed.len() + continues <= marked.len(),
            pushed[0] == sv,
            forall|j: int|
                0 <= j < pushed.len() ==> #[trigger] pushed[j] < count && reachable(edges, sv, pushed[j] as int),
            i <= dequeued + continues,
            end == pushed.len(),
            layer <= i,
            trace@.len() >= 1,
            trace@[0].0 == start && trace@[0].1 == 0i32,
            forall|j: int|
                1 <= j < trace@.len() ==> reachable(edges, sv, spec_vh(#[trigger] trace@[j].0) as int)
                    && spec_vh(trace@[j].0) != 0 && marked.contains(spec_vh(trace@[j].0) as int),
            forall|j: int, k: int|
                1 <= j < k < trace@.len() ==> spec_vh(#[trigger] trace@[j].0) != spec_vh(
                    #[trigger] trace@[k].0,
                ),
            ar ==> continues == 0,
            (continues == 0) == (forall|j: int| 1 <= j < trace@.len() ==> !(#[trigger] trace@[j].2 is Continue)),
            continues == 0 ==> queued_layers(trace@, qidx, lay) && parent_layers(trace@, par),
            ar ==> trace@.len() == pushed.len(),
            ar ==> forall|j: int| 0 <= j < pushed.len() ==> spec_vh(#[trigger] trace@[j].0) == pushed[j],
            ar ==> forall|x: int| #[trigger] marked.contains(x) ==> x == 0 || holds_handle(pushed, x),
            ar ==> forall|j: int, k: int|
                0 <= j < dequeued && 0 <= k < edges[pushed[j] as int].len() ==> marked.contains(
                    spec_vh(#[trigger] edges[pushed[j] as int][k]) as int,
                ),
            lay.len() == pushed.len(),
            0 <= layer,
            bz == (ar && sv == 0),
            continues == 0 ==> i == dequeued,
            continues == 0 ==> i <= next_layer <= end && (i == next_layer ==> i == end),
            bz ==> forall|a: int| 0 <= a < pushed.len() ==> hop_distance(edges, sv, pushed[a] as int, #[trigger] lay[a]),
            continues == 0 ==> forall|a: int|
                0 <= a < pushed.len() ==> (a < next_layer ==> #[trigger] lay[a] <= layer) && (i <= a < next_layer
                    ==> lay[a] == layer) && (next_layer <= a ==> lay[a] == layer + 1),
            bz ==> forall|x: int, m: int| #[trigger] reachable_in(edges, sv, x, m) && 0 <= m <= layer ==> marked.contains(x),
            ar ==> forall|j: int| 0 <= j < trace@.len() ==> #[trigger] trace@[j].1 == lay[j],
            continues == 0 ==> forall|a: int, b: int| 0 <= a <= b < pushed.len() ==> #[trigger] lay[a] <= #[trigger] lay[b],
            forall|j: int| 1 <= j < trace@.len() ==> edge_of_reached(edges, sv, #[trigger] trace@[j].0),
            ar ==> forall|x: int| #[trigger] marked.contains(x) <==> visited_before(trace@, trace@.len() as int, x),
            ar ==> bfs_order(edges, trace@),
            lay[0] == 0,
            ar ==> forall|a: int|
                1 <= a < pushed.len() ==> hop_distance_avoiding_zero(edges, sv, pushed[a] as int, #[trigger] lay[a]),
            ar ==> forall|x: int, m: int|
                #[trigger] reachable_in_avoiding_zero(edges, sv, x, m) && 1 <= m <= layer ==> marked.contains(x),
            forall|j: int| 0 <= j < trace@.len() ==> #[trigger] visit_answered(f0, trace@[j]),
            pre_order == f0,
            !(trace@[0].2 is End || trace@[0].2 is Exit),
            forall|j: int| 1 <= j < trace@.len() ==> #[trigger] explored_from(edges, trace@, j),
            qidx.len() == pushed.len(),
            forall|p: int|
                0 <= p < pushed.len() ==> 0 <= #[trigger] qidx[p] < trace@.len() && (qidx[p] == 0
                    || trace@[qidx[p]].2 is Resume) && spec_vh(trace@[qidx[p]].0) == pushed[p],
            forall|p1: int, p2: int| 0 <= p1 < p2 < pushed.len() ==> #[trigger] qidx[p1] < #[trigger] qidx[p2],
            bfs_parents(edges, trace@, par),
            forall|j: int, p: int|
                1 <= j < trace@.len() && dequeued <= p < pushed.len() ==> #[trigger] par[j].0 < #[trigger] qidx[p],
            forall|x: int| #[trigger] marked.contains(x) <==> visited_before(trace@, trace@.len() as int, x),
            forall|a: int| #[trigger] bfs_explored(trace@, a) ==> exists|p: int| 0 <= p < pushed.len() && #[trigger] qidx[p] == a,
            forall|p: int, q: int|
                0 <= p < dequeued && 0 <= q < edges[pushed[p] as int].len() ==> #[trigger] edge_handled(
                    edges,
                    trace@,
                    par,
                    qidx[p],
                    q,
                ),
        decreases n - dequeued,
    {
        let ghost marked_before = marked;
        let handle = match queue_dequeue(&mut visit_queue) {
            Some(h) => h,
            None => {
                proof {
                    assert(false);
                }
                0
            },
        };
        proof {
            assert(pushed.skip(dequeued)[0] == pushed[dequeued]);
            assert(pushed.skip(dequeued).drop_first() =~= pushed.skip(dequeued + 1));
            dequeued = dequeued + 1;
            lemma_len_subset(marked, set_int_range(0, n as int));
        }
        let len = edge_storage.edges_len(handle);
        let mut k: usize = 0;
        let mut stop = false;
        while k < len && !stop
            invariant
                edge_storage.wf(),
                edges == edge_storage.spec_edges(),
                count == edges.len(),
                sv == spec_vh(start),
                sv < count,
                targets_below(edges, count as int),
                count <= n < 0x7FFF_FFF0,
                ar == always_resumes(pre_order),
                forall|e: Edge, l: Weight| #[trigger] pre_order.requires((e, l)),
                set_int_range(0, n as int).finite(),
                set_int_range(0, n as int).len() == n,
                flag_array_items(was_queued_flags).len() == n,
                forall|x: int| 0 <= x < n ==> (flag_array_items(was_queued_flags)[x] <==> #[trigger] marked.contains(x)),
                marked.subset_of(set_int_range(0, n as int)),
                marked.contains(0),
                marked_before.subset_of(marked),
                queue_capacity(visit_queue) >= n,
                queue_items(visit_queue) == pushed.skip(dequeued),
                1 <= dequeued <= pushed.len(),
                handle == pushed[dequeued - 1],
                len == edges[handle as int].len(),
                k <= len,
                continues >= 0,
                pushed.len() + continues <= marked.len(),
                pushed[0] == sv,
                forall|j: int|
                    0 <= j < pushed.len() ==> #[trigger] pushed[j] < count && reachable(edges, sv, pushed[j] as int),
                i + 1 <= dequeued + continues,
                end == pushed.len(),
                layer <= i,
                trace@.len() >= 1,
                trace@[0].0 == start && trace@[0].1 == 0i32,
                forall|j: int|
                    1 <= j < trace@.len() ==> reachable(edges, sv, spec_vh(#[trigger] trace@[j].0) as int)
                        && spec_vh(trace@[j].0) != 0 && marked.contains(spec_vh(trace@[j].0) as int),
                forall|j: int, k: int|
                    1 <= j < k < trace@.len() ==> spec_vh(#[trigger] trace@[j].0) != spec_vh(
                        #[trigger] trace@[k].0,
                    ),
                ar ==> !stop,
                ar ==> continues == 0,
                (continues == 0) == (forall|j: int| 1 <= j < trace@.len() ==> !(#[trigger] trace@[j].2 is Continue)),
                continues == 0 ==> queued_layers(trace@, qidx, lay) && parent_layers(trace@, par),
                ar ==> trace@.len() == pushed.len(),
                ar ==> forall|j: int| 0 <= j < pushed.len() ==> spec_vh(#[trigger] trace@[j].0) == pushed[j],
                ar ==> forall|x: int| #[trigger] marked.contains(x) ==> x == 0 || holds_handle(pushed, x),
                ar ==> forall|j: int, q: int|
                    0 <= j < dequeued - 1 && 0 <= q < edges[pushed[j] as int].len() ==> marked.contains(
                        spec_vh(#[trigger] edges[pushed[j] as int][q]) as int,
                    ),
                ar ==> forall|q: int|
                    0 <= q < k ==> marked.contains(spec_vh(#[trigger] edges[handle as int][q]) as int),
                lay.len() == pushed.len(),
                0 <= layer,
                bz == (ar && sv == 0),
                continues == 0 ==> i + 1 == dequeued,
                continues == 0 ==> i < next_layer <= end,
                bz ==> forall|a: int| 0 <= a < pushed.len() ==> hop_distance(edges, sv, pushed[a] as int, #[trigger] lay[a]),
                continues == 0 ==> forall|a: int|
                    0 <= a < pushed.len() ==> (a < next_layer ==> #[trigger] lay[a] <= layer) && (i <= a < next_layer
                        ==> lay[a] == layer) && (next_layer <= a ==> lay[a] == layer + 1),
                bz ==> forall|x: int, m: int| #[trigger] reachable_in(edges, sv, x, m) && 0 <= m <= layer ==> marked.contains(x),
                ar ==> forall|j: int| 0 <= j < trace@.len() ==> #[trigger] trace@[j].1 == lay[j],
                continues == 0 ==> forall|a: int, b: int| 0 <= a <= b < pushed.len() ==> #[trigger] lay[a] <= #[trigger] lay[b],
                forall|j: int| 1 <= j < trace@.len() ==> edge_of_reached(edges, sv, #[trigger] trace@[j].0),
                ar ==> forall|x: int| #[trigger] marked.contains(x) <==> visited_before(trace@, trace@.len() as int, x),
                ar ==> bfs_order(edges, trace@),
                lay[0] == 0,
                ar ==> forall|a: int|
                    1 <= a < pushed.len() ==> hop_distance_avoiding_zero(edges, sv, pushed[a] as int, #[trigger] lay[a]),
                ar ==> forall|x: int, m: int|
                    #[trigger] reachable_in_avoiding_zero(edges, sv, x, m) && 1 <= m <= layer ==> marked.contains(x),
                forall|j: int| 0 <= j < trace@.len() ==> #[trigger] visit_answered(f0, trace@[j]),
                pre_order == f0,
                !(trace@[0].2 is End || trace@[0].2 is Exit),
                forall|j: int| 1 <= j < trace@.len() ==> #[trigger] explored_from(edges, trace@, j),
                qidx.len() == pushed.len(),
                forall|p: int|
                    0 <= p < pushed.len() ==> 0 <= #[trigger] qidx[p] < trace@.len() && (qidx[p] == 0
                        || trace@[qidx[p]].2 is Resume) && spec_vh(trace@[qidx[p]].0) == pushed[p],
                forall|p1: int, p2: int| 0 <= p1 < p2 < pushed.len() ==> #[trigger] qidx[p1] < #[trigger] qidx[p2],
                bfs_parents(edges, trace@, par),
                forall|j: int, p: int|
                    1 <= j < trace@.len() && dequeued <= p < pushed.len() ==> #[trigger] par[j].0 < #[trigger] qidx[p],
                forall|j: int|
                    1 <= j < trace@.len() ==> #[trigger] par[j].0 < qidx[dequeued - 1] || (par[j].0 == qidx[dequeued - 1]
                        && (par[j].1 < k || stop)),
                !stop ==> forall|j: int|
                    1 <= j < trace@.len() && #[trigger] par[j].0 == qidx[dequeued - 1] ==> !(trace@[j].2 is End
                        || trace@[j].2 is Exit),
                forall|x: int| #[trigger] marked.contains(x) <==> visited_before(trace@, trace@.len() as int, x),
                forall|a: int| #[trigger] bfs_explored(trace@, a) ==> exists|p: int| 0 <= p < pushed.len() && #[trigger] qidx[p] == a,
                forall|p: int, q: int|
                    0 <= p < dequeued - 1 && 0 <= q < edges[pushed[p] as int].len() ==> #[trigger] edge_handled(
                        edges,
                        trace@,
                        par,
                        qidx[p],
                        q,
                    ),
                forall|q: int| 0 <= q < k ==> #[trigger] edge_handled(edges, trace@, par, qidx[dequeued - 1], q),
                stop ==> exists|j: int|
                    1 <= j < trace@.len() && #[trigger] par[j] == (qidx[dequeued - 1], k as int) && (trace@[j].2 is End
                        || trace@[j].2 is Exit),
            decreases len - k + (if stop { 0int } else { 1int }),
        {
            let edge = edge_storage.edge_at(handle, k);
            let t = vh(edge);
            proof {
                assert(spec_vh(edges[handle as int][k as int]) < count);
            }
            if flag_array_get(&was_queued_flags, t as usize) {
                proof {
                    let a = qidx[dequeued - 1];
                    assert(spec_vh(trace@[a].0) == handle);
                    assert(edges[handle as int][k as int] == edge);
                    assert(marked.contains(t as int));
                    if t != 0 {
                        let j = choose|j: int| 1 <= j < trace@.len() && spec_vh(#[trigger] trace@[j].0) == t as int;
                        assert(par[j].0 < a || (par[j].0 == a && par[j].1 < k));
                    }
                    assert(edge_handled(edges, trace@, par, a, k as int));
                }
                k = k + 1;
            } else {
                let ghost marked_prev = marked;
                let ghost trace_prev = trace@;
                flag_array_set(&mut was_queued_flags, t as usize, true);
                proof {
                    marked = marked.insert(t as int);
                    assert(!marked_prev.contains(t as int));
                    assert(marked.len() == marked_prev.len() + 1);
                    lemma_len_subset(marked, set_int_range(0, n as int));
                    lemma_reachable_step(edges, sv, handle as int, k as int);
                }
                let decision = pre_order(edge, layer + 1);
                trace.push((edge, layer + 1, decision));
                proof {
                    let a = qidx[dequeued - 1];
                    assert(spec_vh(trace_prev[a].0) == handle);
                    assert(edges[handle as int][k as int] == edge);
                    lemma_explored_push(edges, trace_prev, (edge, (layer + 1) as i32, decision), a, k as int);
                    lemma_parents_push(edges, trace_prev, par, (edge, (layer + 1) as i32, decision), a, k as int);
                    let par_prev = par;
                    par = par.push((a, k as int));
                    assert forall|j: int, p: int|
                        1 <= j < trace@.len() && dequeued <= p < pushed.len() implies #[trigger] par[j].0 < #[trigger] qidx[p] by {
                        if j < trace_prev.len() {
                            assert(par[j] == par_prev[j]);
                        } else {
                            assert(qidx[dequeued - 1] < qidx[p]);
                        }
                    }
                    assert forall|j: int| 1 <= j < trace@.len() implies #[trigger] par[j].0 < qidx[dequeued - 1] || (
                        par[j].0 == qidx[dequeued - 1] && (par[j].1 < k + 1)) by {
                        if j < trace_prev.len() {
                            assert(par[j] == par_prev[j]);
                        }
                    }
                    assert forall|j: int|
                        1 <= j < trace_prev.len() && #[trigger] par[j].0 == qidx[dequeued - 1] implies !(trace@[j].2 is End
                            || trace@[j].2 is Exit) by {
                        assert(par[j] == par_prev[j]);
                        assert(trace@[j] == trace_prev[j]);
                    }
                    assert(trace@ == trace_prev.push((edge, (layer + 1) as i32, decision)));
                    lemma_marks_push(trace_prev, (edge, (layer + 1) as i32, decision), marked_prev);
                    if continues == 0 {
                        let a = qidx[dequeued - 1];
                        assert(lay[dequeued - 1] == layer);
                        assert(trace_prev[a].1 == lay[dequeued - 1]) by {
                            reveal(queued_layers);
                        }
                        assert(queued_layers(trace@, qidx, lay)) by {
                            reveal(queued_layers);
                            assert forall|p: int| 0 <= p < qidx.len() implies trace@[#[trigger] qidx[p]].1 == lay[p] by {
                                assert(trace@[qidx[p]] == trace_prev[qidx[p]]);
                            }
                        }
                        assert forall|j: int| 1 <= j < trace@.len() implies #[trigger] trace@[j].1 == trace@[par[j].0].1 + 1 by {
                            if j < trace_prev.len() {
                                assert(trace@[j] == trace_prev[j] && par[j] == par_prev[j]);
                                assert(trace@[par[j].0] == trace_prev[par[j].0]);
                            } else {
                                assert(par[j] == (a, k as int));
                                assert(trace@[a] == trace_prev[a]);
                            }
                        }
                    }
                    assert((forall|j: int| 1 <= j < trace@.len() ==> !(#[trigger] trace@[j].2 is Continue)) == ((forall|
                        j: int,
                    | 1 <= j < trace_prev.len() ==> !(#[trigger] trace_prev[j].2 is Continue)) && !(decision is Continue))) by {
                        assert forall|j: int| 1 <= j < trace_prev.len() implies trace@[j] == trace_prev[j] by {}
                        assert(trace@[trace_prev.len() as int].2 == decision);
                    }
                    assert(t == spec_vh(edge));
                    assert(marked =~= marked_prev.insert(spec_vh(edge) as int));
                    assert forall|x: int| #[trigger] marked.contains(x) <==> visited_before(trace@, trace@.len() as int, x) by {
                        assert(marked_prev.insert(spec_vh(edge) as int).contains(x) == marked.contains(x));
                        let v0 = (edge, (layer + 1) as i32, decision);
                        assert(spec_vh(v0.0) == spec_vh(edge));
                        assert(marked_prev.insert(spec_vh(v0.0) as int).contains(x) <==> visited_before(
                            trace_prev.push(v0),
                            trace_prev.len() + 1 as int,
                            x,
                        ));
                        assert(trace_prev.push(v0) == trace@);
                    }
                    assert forall|p: int, q: int|
                        0 <= p < dequeued - 1 && 0 <= q < edges[pushed[p] as int].len() implies #[trigger] edge_handled(
                            edges,
                            trace@,
                            par,
                            qidx[p],
                            q,
                        ) by {
                        assert(edge_handled(edges, trace_prev, par_prev, qidx[p], q));
                        lemma_handled_push(edges, trace_prev, par_prev, (edge, (layer + 1) as i32, decision), (a, k as int), qidx[p], q);
                    }
                    assert forall|q: int| 0 <= q < k + 1 implies #[trigger] edge_handled(edges, trace@, par, a, q) by {
                        if q < k {
                            assert(edge_handled(edges, trace_prev, par_prev, a, q));
                            lemma_handled_push(edges, trace_prev, par_prev, (edge, (layer + 1) as i32, decision), (a, k as int), a, q);
                        } else {
                            let jn = trace_prev.len() as int;
                            assert(par[jn] == (a, q));
                        }
                    }
                    assert forall|b: int| 0 <= b < trace_prev.len() && #[trigger] bfs_explored(trace@, b) implies exists|p: int|
                        0 <= p < pushed.len() && #[trigger] qidx[p] == b by {
                        assert(trace@[b] == trace_prev[b]);
                        assert(bfs_explored(trace_prev, b));
                    }
                    assert forall|j: int| 0 <= j < trace@.len() implies #[trigger] visit_answered(f0, trace@[j]) by {
                        if j < trace_prev.len() {
                            assert(trace@[j] == trace_prev[j]);
                        }
                    }
                    assert forall|p: int|
                        0 <= p < pushed.len() implies 0 <= #[trigger] qidx[p] < trace@.len() && (qidx[p] == 0
                            || trace@[qidx[p]].2 is Resume) && spec_vh(trace@[qidx[p]].0) == pushed[p] by {
                        assert(trace@[qidx[p]] == trace_prev[qidx[p]]);
                    }
                }
                proof {
                    if ar {
                        let a = dequeued - 1;
                        assert(spec_vh(trace_prev[a].0) == pushed[a]);
                        assert(forall|b: int, q: int|
                            0 <= b < a && 0 <= q < edges[spec_vh(trace_prev[b].0) as int].len() ==> marked_prev.contains(
                                spec_vh(#[trigger] edges[spec_vh(trace_prev[b].0) as int][q]) as int,
                            )) by {
                            assert forall|b: int, q: int|
                                0 <= b < a && 0 <= q < edges[spec_vh(trace_prev[b].0) as int].len() implies marked_prev.contains(
                                    spec_vh(#[trigger] edges[spec_vh(trace_prev[b].0) as int][q]) as int,
                                ) by {
                                assert(spec_vh(trace_prev[b].0) == pushed[b]);
                                assert(marked_prev.contains(spec_vh(edges[pushed[b] as int][q]) as int));
                            }
                        }
                        lemma_bfs_step(edges, trace_prev, edge, (layer + 1) as i32, decision, a, k as int, marked_prev);
                        assert(trace@ == trace_prev.push((edge, (layer + 1) as i32, decision)));
                    }
                    assert(edges[handle as int][k as int] == edge);
                    assert(reachable(edges, sv, pushed[dequeued - 1] as int));
                    assert(edge_of_reached(edges, sv, edge));
                    assert forall|j: int| 1 <= j < trace@.len() implies edge_of_reached(edges, sv, #[trigger] trace@[j].0) by {
                        if j < trace@.len() - 1 {
                            assert(trace@[j] == trace_prev[j]);
                        }
                    }
                    assert forall|j: int, q: int|
                        1 <= j < q < trace@.len() implies spec_vh(#[trigger] trace@[j].0) != spec_vh(
                            #[trigger] trace@[q].0,
                        ) by {
                        if q == trace@.len() - 1 {
                            assert(trace@[j] == trace_prev[j]);
                            assert(marked_prev.contains(spec_vh(trace_prev[j].0) as int));
                        } else {
                            assert(trace@[j] == trace_prev[j]);
                            assert(trace@[q] == trace_prev[q]);
                        }
                    }
                }
                match decision {
                    ControlFlow::End => {
                        stop = true;
                        proof {
                            let jn = trace@.len() - 1;
                            assert(par[jn] == (qidx[dequeued - 1], k as int));
                            assert(!bfs_explored(trace@, jn));
                        }
                    },
                    ControlFlow::Exit => {
                        stop = true;
                        proof {
                            let jn = trace@.len() - 1;
                            assert(par[jn] == (qidx[dequeued - 1], k as int));
                            assert(!bfs_explored(trace@, jn));
                        }
                    },
                    ControlFlow::Continue => {
                        proof {
                            continues = continues + 1;
                            let jn = trace@.len() - 1;
                            assert(!bfs_explored(trace@, jn));
                        }
                        i = i + 1;
                        k = k + 1;
                    },
                    ControlFlow::Resume => {
                        proof {
                            lemma_len_subset(marked, set_int_range(0, n as int));
                            assert(pushed.skip(dequeued).len() == pushed.len() - dequeued);
                        }
                        queue_push(&mut visit_queue, t);
                        proof {
                            if bz {
                                let d = dequeued - 1;
                                assert(lay[d] == layer);
                                assert(hop_distance(edges, sv, pushed[d] as int, lay[d]));
                                lemma_reachable_in_step(edges, sv, handle as int, layer as int, k as int);
                                assert forall|m: int| 0 <= m < layer + 1 implies !#[trigger] reachable_in(edges, sv, t as int, m) by {
                                    if reachable_in(edges, sv, t as int, m) {
                                        assert(marked_prev.contains(t as int));
                                    }
                                }
                                assert(hop_distance(edges, sv, t as int, layer + 1));
                            }
                            if ar {
                                let d = dequeued - 1;
                                assert(lay[d] == layer);
                                assert(t != 0) by {
                                    assert(marked_prev.contains(0));
                                }
                                if d == 0 {
                                    assert(pushed[0] == sv);
                                    lemma_avoiding_zero_in_step(edges, sv, handle as int, 0, k as int);
                                } else {
                                    assert(hop_distance_avoiding_zero(edges, sv, pushed[d] as int, lay[d]));
                                    lemma_avoiding_zero_in_step(edges, sv, handle as int, layer as int, k as int);
                                }
                                assert forall|m: int| 1 <= m < layer + 1 implies !#[trigger] reachable_in_avoiding_zero(
                                    edges,
                                    sv,
                                    t as int,
                                    m,
                                ) by {
                                    if reachable_in_avoiding_zero(edges, sv, t as int, m) {
                                        assert(marked_prev.contains(t as int));
                                    }
                                }
                                assert(hop_distance_avoiding_zero(edges, sv, t as int, layer + 1));
                            }
                            let lay_prev = lay;
                            lay = lay.push(layer + 1);
                            assert(lay[0] == lay_prev[0]);
                            let old_qidx = qidx;
                            assert(forall|p: int| 0 <= p < old_qidx.len() ==> #[trigger] old_qidx[p] < trace@.len() - 1);
                            qidx = qidx.push(trace@.len() - 1);
                            if continues == 0 {
                                assert(queued_layers(trace@, qidx, lay)) by {
                                    reveal(queued_layers);
                                    assert forall|p: int| 0 <= p < qidx.len() implies trace@[#[trigger] qidx[p]].1 == lay[p] by {
                                        if p < old_qidx.len() {
                                            assert(qidx[p] == old_qidx[p] && lay[p] == lay_prev[p]);
                                        }
                                    }
                                }
                            }
                            assert forall|b: int| #[trigger] bfs_explored(trace@, b) implies exists|p: int|
                                0 <= p < pushed.len() + 1 && #[trigger] qidx[p] == b by {
                                if b < trace@.len() - 1 {
                                    let p = choose|p: int| 0 <= p < old_qidx.len() && #[trigger] old_qidx[p] == b;
                                    assert(qidx[p] == old_qidx[p]);
                                } else {
                                    assert(qidx[pushed.len() as int] == b);
                                }
                            }
                            assert forall|p: int|
                                0 <= p < pushed.len() + 1 implies 0 <= #[trigger] qidx[p] < trace@.len() && (qidx[p] == 0
                                    || trace@[qidx[p]].2 is Resume) && spec_vh(trace@[qidx[p]].0) == pushed.push(t)[p] by {
                                if p < pushed.len() {
                                    assert(qidx[p] == old_qidx[p]);
                                }
                            }
                            let old_pushed = pushed;
                            pushed = pushed.push(t);
                            assert(pushed.skip(dequeued) =~= old_pushed.skip(dequeued).push(t));
                            assert(pushed[pushed.len() - 1] == t);
                            assert(pushed.contains(t));
                            assert forall|x: int| #[trigger] marked.contains(x) && ar implies x == 0
                                || pushed.contains(x as u32) by {
                                if x != t {
                                    assert(marked_prev.contains(x));
                                    if x != 0 {
                                        let w = choose|w: int| 0 <= w < old_pushed.len() && old_pushed[w] == x as u32;
                                        assert(pushed[w] == x as u32);
                                    }
                                }
                            }
                        }
                        end = end + 1;
                        k = k + 1;
                    },
                }
            }
        }
        proof {
            lemma_len_subset(marked, set_int_range(0, n as int));
            let a = qidx[dequeued - 1];
            assert forall|p: int, q: int|
                0 <= p < dequeued && 0 <= q < edges[pushed[p] as int].len() implies #[trigger] edge_handled(
                    edges,
                    trace@,
                    par,
                    qidx[p],
                    q,
                ) by {
                if p == dequeued - 1 && q >= k {
                    let j = choose|j: int|
                        1 <= j < trace@.len() && #[trigger] par[j] == (a, k as int) && (trace@[j].2 is End
                            || trace@[j].2 is Exit);
                    if q > k {
                        assert(par[j].0 == a && par[j].1 < q);
                    }
                }
            }
        }
        i = i + 1;
        if i == next_layer {
            proof {
                if bz {
                    lemma_bfs_next_layer(edges, sv, pushed, lay, marked, dequeued, layer as int);
                }
                if ar {
                    lemma_bfs_next_layer_avoiding(edges, sv, pushed, lay, marked, dequeued, layer as int);
                }
            }
            layer = layer + 1;
            next_layer = end;
        }
    }
    proof {
        if ar {
            assert(dequeued == pushed.len()) by {
                assert(pushed.skip(dequeued).len() == 0);
            }
            assert forall|j: int, k: int| 0 <= j < k < trace@.len() implies #[trigger] trace@[j].1 <= #[trigger] trace@[k].1 by {
                assert(lay[j] <= lay[k]);
            }
            assert forall|a: int| 0 <= a < trace@.len() implies !has_unvisited_edge(
                edges,
                trace@,
                trace@.len() as int,
                spec_vh(#[trigger] trace@[a].0) as int,
            ) by {
                assert(spec_vh(trace@[a].0) == pushed[a]);
                assert forall|q: int| 0 <= q < edges[pushed[a] as int].len() implies visited_before(
                    trace@,
                    trace@.len() as int,
                    spec_vh(#[trigger] edges[pushed[a] as int][q]) as int,
                ) by {
                    assert(marked.contains(spec_vh(edges[pushed[a] as int][q]) as int));
                }
            }
            assert forall|j: int| 1 <= j < trace@.len() implies hop_distance_avoiding_zero(
                edges,
                sv,
                spec_vh(#[trigger] trace@[j].0) as int,
                trace@[j].1 as int,
            ) by {
                assert(lay[j] == trace@[j].1);
                assert(spec_vh(trace@[j].0) == pushed[j]);
            }
            let s = Set::new(|x: int| x != 0 && visited_before(trace@, trace@.len() as int, x));
            assert forall|w: int| #[trigger] has_edge(edges, sv, w) && w != 0 implies s.contains(w) by {
                let q = choose|q: int| 0 <= q < edges[sv].len() && spec_vh(#[trigger] edges[sv][q]) == w;
                assert(pushed[0] == sv);
                assert(marked.contains(spec_vh(edges[pushed[0] as int][q]) as int));
            }
            assert forall|u: int, w: int| s.contains(u) && #[trigger] has_edge(edges, u, w) && w != 0 implies s.contains(w) by {
                let i = choose|i: int| 1 <= i < trace@.len() && spec_vh(#[trigger] trace@[i].0) == u;
                assert(spec_vh(trace@[i].0) == pushed[i]);
                let q = choose|q: int| 0 <= q < edges[u].len() && spec_vh(#[trigger] edges[u][q]) == w;
                assert(marked.contains(spec_vh(edges[pushed[i] as int][q]) as int));
            }
            assert forall|v: int| v != 0 implies (visited_before(trace@, trace@.len() as int, v) <==> reachable_avoiding_zero(
                edges,
                sv,
                v,
            )) by {
                if reachable_avoiding_zero(edges, sv, v) {
                    lemma_avoiding_zero_closed(edges, s, sv, v);
                }
                if visited_before(trace@, trace@.len() as int, v) {
                    let i = choose|i: int| 1 <= i < trace@.len() && spec_vh(#[trigger] trace@[i].0) == v;
                    lemma_visits_avoid_zero(edges, trace@, i);
                }
            }
        }
        assert(bfs_parents(edges, trace@, par));
        assert(dequeued == pushed.len()) by {
            assert(pushed.skip(dequeued).len() == 0);
        }
        assert forall|a: int, q: int|
            bfs_explored(trace@, a) && 0 <= q < edges[spec_vh(trace@[a].0) as int].len() implies #[trigger] edge_handled(
                edges,
                trace@,
                par,
                a,
                q,
            ) by {
            let p = choose|p: int| 0 <= p < pushed.len() && #[trigger] qidx[p] == a;
            assert(spec_vh(trace@[qidx[p]].0) == pushed[p]);
        }
        if ar && sv == 0 {
            let s = Set::new(|x: int| holds_handle(pushed, x));
            assert(dequeued == pushed.len()) by {
                assert(pushed.skip(dequeued).len() == 0);
            }
            assert forall|u: int, v: int| s.contains(u) && #[trigger] has_edge(edges, u, v) implies s.contains(v) by {
                let j = choose|j: int| 0 <= j < pushed.len() && #[trigger] pushed[j] as int == u;
                let q = choose|q: int| 0 <= q < edges[u].len() && spec_vh(#[trigger] edges[u][q]) == v;
                assert(marked.contains(spec_vh(edges[pushed[j] as int][q]) as int));
                if v != 0 {
                    assert(holds_handle(pushed, v));
                } else {
                    assert(pushed[0] as int == 0);
                }
            }
            assert forall|j: int| 0 <= j < trace@.len() implies hop_distance(edges, 0, spec_vh(#[trigger] trace@[j].0) as int, trace@[j].1 as int) by {
                assert(lay[j] == trace@[j].1);
                assert(spec_vh(trace@[j].0) == pushed[j]);
            }
            assert forall|j: int, k: int| 0 <= j < k < trace@.len() implies #[trigger] trace@[j].1 <= #[trigger] trace@[k].1 by {
                assert(lay[j] <= lay[k]);
            }
            assert forall|a: int| 0 <= a < trace@.len() implies !has_unvisited_edge(
                edges,
                trace@,
                trace@.len() as int,
                spec_vh(#[trigger] trace@[a].0) as int,
            ) by {
                assert(spec_vh(trace@[a].0) == pushed[a]);
                assert forall|q: int| 0 <= q < edges[pushed[a] as int].len() implies visited_before(
                    trace@,
                    trace@.len() as int,
                    spec_vh(#[trigger] edges[pushed[a] as int][q]) as int,
                ) by {
                    assert(marked.contains(spec_vh(edges[pushed[a] as int][q]) as int));
                }
            }
            assert forall|v: int| visits_target(trace@, v) <==> reachable(edges, 0, v) by {
                if reachable(edges, 0, v) {
                    assert(s.contains(0)) by {
                        assert(pushed[0] as int == 0);
                    }
                    lemma_closed_holds_reachable(edges, s, 0, v);
                    let j = choose|j: int| 0 <= j < pushed.len() && #[trigger] pushed[j] as int == v;
                    assert(spec_vh(trace@[j].0) == v);
                }
                if visits_target(trace@, v) {
                    let j = choose|j: int| 0 <= j < trace@.len() && spec_vh(#[trigger] trace@[j].0) == v;
                    if j == 0 {
                        lemma_reachable_self(edges, 0);
                    }
                }
            }
        }
    }
    trace
}

/// Visiting the edge `k` of the vertex of visit `a`, whose target is not
/// marked yet, when earlier edges of that vertex and all edges of earlier
/// visits lead to marked vertices: the visits stay in breadth-first order.
proof fn lemma_bfs_step(
    edges: Seq<Seq<Edge>>,
    tr: Seq<BfsVisit>,
    e: Edge,
    l: Weight,
    d: ControlFlow,
    a: int,
    k: int,
    marks: Set<int>,
)
    requires
        bfs_order(edges, tr),
        forall|x: int| #[trigger] marks.contains(x) <==> visited_before(tr, tr.len() as int, x),
        0 <= a < tr.len(),
        0 <= k < edges[spec_vh(tr[a].0) as int].len(),
        e == edges[spec_vh(tr[a].0) as int][k],
        l == tr[a].1 + 1,
        !marks.contains(spec_vh(e) as int),
        forall|q: int| 0 <= q < k ==> marks.contains(spec_vh(#[trigger] edges[spec_vh(tr[a].0) as int][q]) as int),
        forall|b: int, q: int|
            0 <= b < a && 0 <= q < edges[spec_vh(tr[b].0) as int].len() ==> marks.contains(
                spec_vh(#[trigger] edges[spec_vh(tr[b].0) as int][q]) as int,
            ),
    ensures
        bfs_order(edges, tr.push((e, l, d))),
        forall|x: int|
            #[trigger] marks.insert(spec_vh(e) as int).contains(x) <==> visited_before(
                tr.push((e, l, d)),
                tr.len() + 1 as int,
                x,
            ),
{
    let j = tr.len() as int;
    let t2 = tr.push((e, l, d));
    assert forall|x: int| visited_before(t2, j, x) == visited_before(tr, j, x) by {
        if visited_before(tr, j, x) && x != 0 {
            let i = choose|i: int| 1 <= i < j && spec_vh(#[trigger] tr[i].0) == x;
            assert(t2[i] == tr[i]);
        }
        if visited_before(t2, j, x) && x != 0 {
            let i = choose|i: int| 1 <= i < j && spec_vh(#[trigger] t2[i].0) == x;
            assert(t2[i] == tr[i]);
        }
    }
    assert(t2[a] == tr[a]);
    assert(t2[j] == (e, l, d));
    assert forall|q2: int| 0 <= q2 < k implies visited_before(t2, j, spec_vh(#[trigger] edges[spec_vh(t2[a].0) as int][q2]) as int) by {
        assert(marks.contains(spec_vh(edges[spec_vh(tr[a].0) as int][q2]) as int));
    }
    assert forall|b: int| 0 <= b < a implies !has_unvisited_edge(edges, t2, j, spec_vh(#[trigger] t2[b].0) as int) by {
        assert(t2[b] == tr[b]);
        assert forall|q: int| 0 <= q < edges[spec_vh(tr[b].0) as int].len() implies visited_before(
            t2,
            j,
            spec_vh(#[trigger] edges[spec_vh(tr[b].0) as int][q]) as int,
        ) by {
            assert(marks.contains(spec_vh(edges[spec_vh(tr[b].0) as int][q]) as int));
        }
    }
    assert(bfs_step_ok(edges, t2)) by {
        assert(t2.len() - 1 == j);
        assert(0 <= a < j && 0 <= k < edges[spec_vh(t2[a].0) as int].len() && t2[j].0 == edges[spec_vh(t2[a].0) as int][k]);
    }
    assert forall|jj: int| 1 <= jj < t2.len() implies #[trigger] bfs_step_ok(edges, t2.take(jj + 1)) by {
        if jj < j {
            assert(t2.take(jj + 1) =~= tr.take(jj + 1));
        } else {
            assert(t2.take(jj + 1) =~= t2);
        }
    }
    assert forall|x: int| #[trigger] marks.insert(spec_vh(e) as int).contains(x) <==> visited_before(t2, j + 1, x) by {
        if x == spec_vh(e) as int {
            assert(spec_vh(t2[j].0) == x);
        } else {
            if visited_before(t2, j + 1, x) && x != 0 {
                let i = choose|i: int| 1 <= i < j + 1 && spec_vh(#[trigger] t2[i].0) == x;
                assert(i < j);
                assert(t2[i] == tr[i]);
            }
            if marks.contains(x) && x != 0 {
                let i = choose|i: int| 1 <= i < j && spec_vh(#[trigger] tr[i].0) == x;
                assert(t2[i] == tr[i]);
            }
        }
    }
}

/// Once every vertex queued before `done` has been explored and every
/// vertex queued from `done` on is one layer further out, every vertex
/// within one more layer has been queued.
proof fn lemma_bfs_next_layer_avoiding(
    edges: Seq<Seq<Edge>>,
    sv: int,
    pushed: Seq<u32>,
    lay: Seq<int>,
    marked: Set<int>,
    done: int,
    layer: int,
)
    requires
        pushed.len() > 0,
        pushed[0] as int == sv,
        lay.len() == pushed.len(),
        lay[0] == 0,
        1 <= done <= pushed.len(),
        layer >= 0,
        forall|a: int| 1 <= a < pushed.len() ==> hop_distance_avoiding_zero(edges, sv, pushed[a] as int, #[trigger] lay[a]),
        forall|a: int| done <= a < pushed.len() ==> #[trigger] lay[a] == layer + 1,
        forall|j: int, k: int|
            0 <= j < done && 0 <= k < edges[pushed[j] as int].len() ==> marked.contains(
                spec_vh(#[trigger] edges[pushed[j] as int][k]) as int,
            ),
        forall|x: int| #[trigger] marked.contains(x) ==> x == 0 || holds_handle(pushed, x),
        forall|x: int, m: int| #[trigger] reachable_in_avoiding_zero(edges, sv, x, m) && 1 <= m <= layer ==> marked.contains(x),
    ensures
        forall|x: int, m: int|
            #[trigger] reachable_in_avoiding_zero(edges, sv, x, m) && 1 <= m <= layer + 1 ==> marked.contains(x),
{
    assert forall|x: int, m: int| #[trigger] reachable_in_avoiding_zero(edges, sv, x, m) && 1 <= m <= layer + 1 implies marked.contains(
        x,
    ) by {
        if m == layer + 1 {
            let w = lemma_avoiding_zero_last_edge(edges, sv, x, m);
            let q = choose|q: int| 0 <= q < edges[w].len() && spec_vh(#[trigger] edges[w][q]) == x;
            if m == 1 {
                assert(w == sv);
                assert(marked.contains(spec_vh(edges[pushed[0] as int][q]) as int));
            } else {
                assert(marked.contains(w));
                let a = choose|a: int| 0 <= a < pushed.len() && #[trigger] pushed[a] as int == w;
                if a >= 1 {
                    assert(hop_distance_avoiding_zero(edges, sv, pushed[a] as int, lay[a]));
                    if lay[a] > layer {
                        assert(!reachable_in_avoiding_zero(edges, sv, w, layer));
                    }
                }
                assert(a < done);
                assert(marked.contains(spec_vh(edges[pushed[a] as int][q]) as int));
            }
        }
    }
}

proof fn lemma_bfs_next_layer(
    edges: Seq<Seq<Edge>>,
    sv: int,
    pushed: Seq<u32>,
    lay: Seq<int>,
    marked: Set<int>,
    done: int,
    layer: int,
)
    requires
        sv == 0,
        pushed.len() > 0,
        pushed[0] as int == sv,
        lay.len() == pushed.len(),
        0 <= done <= pushed.len(),
        layer >= 0,
        forall|a: int| 0 <= a < pushed.len() ==> hop_distance(edges, sv, pushed[a] as int, #[trigger] lay[a]),
        forall|a: int| done <= a < pushed.len() ==> #[trigger] lay[a] == layer + 1,
        forall|j: int, k: int|
            0 <= j < done && 0 <= k < edges[pushed[j] as int].len() ==> marked.contains(
                spec_vh(#[trigger] edges[pushed[j] as int][k]) as int,
            ),
        forall|x: int| #[trigger] marked.contains(x) ==> x == 0 || holds_handle(pushed, x),
        forall|x: int, m: int| #[trigger] reachable_in(edges, sv, x, m) && 0 <= m <= layer ==> marked.contains(x),
    ensures
        forall|x: int, m: int| #[trigger] reachable_in(edges, sv, x, m) && 0 <= m <= layer + 1 ==> marked.contains(x),
{
    assert forall|x: int, m: int| #[trigger] reachable_in(edges, sv, x, m) && 0 <= m <= layer + 1 implies marked.contains(
        x,
    ) by {
        if m == layer + 1 {
            let w = lemma_reachable_in_last_edge(edges, sv, x, m);
            assert(reachable_in(edges, sv, w, layer));
            assert(marked.contains(w));
            let a = if w == 0 {
                0
            } else {
                choose|a: int| 0 <= a < pushed.len() && #[trigger] pushed[a] as int == w
            };
            assert(0 <= a < pushed.len() && pushed[a] as int == w);
            assert(hop_distance(edges, sv, pushed[a] as int, lay[a]));
            if lay[a] > layer {
                assert(!reachable_in(edges, sv, w, layer));
            }
            assert(a < done);
            let q = choose|q: int| 0 <= q < edges[w].len() && spec_vh(#[trigger] edges[w][q]) == x;
            assert(marked.contains(spec_vh(edges[pushed[a] as int][q]) as int));
        }
    }
}

// ------------------------------------------------------------------ DFS

/// Why a depth-first traversal stopped early.
pub enum TraversalError {
    /// The path being explored grew longer than the traversal's stack
    /// (one slot per vertex).
    StackOverflow,
}

/// Whether every answer of `f` is `Resume`.
pub open spec fn always_resumes_edge<F: FnMut(Edge) -> ControlFlow>(f: F) -> bool {
    forall|e: Edge, r: ControlFlow| #[trigger] f.ensures((e,), r) ==> r is Resume
}

/// Whether `v` is the target of one of the edges in `s`.
pub open spec fn holds_target(s: Seq<Edge>, v: int) -> bool {
    exists|j: int| 0 <= j < s.len() && spec_vh(#[trigger] s[j]) == v
}

/// The largest number of live edges of a vertex.
pub open spec fn max_degree(edges: Seq<Seq<Edge>>) -> nat
    decreases edges.len(),
{
    if edges.len() == 0 {
        0
    } else {
        let m = max_degree(edges.drop_last());
        if edges.last().len() > m {
            edges.last().len()
        } else {
            m
        }
    }
}

pub(crate) proof fn lemma_max_degree(edges: Seq<Seq<Edge>>, v: int)
    requires
        0 <= v < edges.len(),
    ensures
        edges[v].len() <= max_degree(edges),
    decreases edges.len(),
{
    if v < edges.len() - 1 {
        lemma_max_degree(edges.drop_last(), v);
        assert(edges.drop_last()[v] == edges[v]);
    }
}

/// `b` to the power `e`.
pub open spec fn power(b: int, e: nat) -> int
    decreases e,
{
    if e == 0 {
        1
    } else {
        b * power(b, (e - 1) as nat)
    }
}

pub(crate) proof fn lemma_power_positive(b: int, e: nat)
    requires
        b >= 1,
    ensures
        power(b, e) >= 1,
    decreases e,
{
    if e > 0 {
        lemma_power_positive(b, (e - 1) as nat);
        assert(b * power(b, (e - 1) as nat) >= 1) by (nonlinear_arith)
            requires
                b >= 1,
                power(b, (e - 1) as nat) >= 1,
        ;
    }
}

/// The work left in a frame: its unread edges plus the frame itself.
pub open spec fn frame_work(f: (usize, usize, usize)) -> int {
    f.2 - f.1 + 1
}

/// A bound on the work left in a stack of frames, at most `depth` deep,
/// read as a number in base `b` (deeper frames weigh less).
pub open spec fn stack_work(frames: Seq<(usize, usize, usize)>, depth: nat, b: int) -> int
    decreases frames.len(),
{
    if frames.len() == 0 {
        0
    } else {
        stack_work(frames.drop_last(), depth, b) + frame_work(frames.last()) * power(
            b,
            (depth - frames.len()) as nat,
        )
    }
}

pub(crate) proof fn lemma_stack_work_nonneg(frames: Seq<(usize, usize, usize)>, depth: nat, b: int)
    requires
        b >= 1,
        forall|j: int| 0 <= j < frames.len() ==> #[trigger] frames[j].1 <= frames[j].2,
    ensures
        stack_work(frames, depth, b) >= 0,
    decreases frames.len(),
{
    if frames.len() > 0 {
        lemma_stack_work_nonneg(frames.drop_last(), depth, b);
        lemma_power_positive(b, (depth - frames.len()) as nat);
        let w = frame_work(frames.last());
        let p = power(b, (depth - frames.len()) as nat);
        assert(w * p >= 0) by (nonlinear_arith)
            requires
                w >= 1,
                p >= 1,
        ;
    }
}

/// Reading one edge of the top frame, and maybe opening a frame for its
/// target, lowers the work bound.
pub(crate) proof fn lemma_stack_work_advance(
    frames: Seq<(usize, usize, usize)>,
    top: (usize, usize, usize),
    child: Option<(usize, usize, usize)>,
    depth: nat,
    b: int,
)
    requires
        frames.len() >= 1,
        frames.len() <= depth,
        b >= 2,
        top.0 == frames.last().0,
        top.1 == frames.last().1 + 1,
        top.2 == frames.last().2,
        top.1 <= top.2,
        forall|j: int| 0 <= j < frames.len() ==> #[trigger] frames[j].1 <= frames[j].2,
        child matches Some(c) ==> c.1 <= c.2 && c.2 + 1 < b && frames.len() < depth,
    ensures
        ({
            let next = frames.drop_last().push(top);
            let next2 = match child {
                Some(c) => next.push(c),
                None => next,
            };
            0 <= stack_work(next2, depth, b) < stack_work(frames, depth, b)
        }),
{
    let next = frames.drop_last().push(top);
    assert(next.drop_last() =~= frames.drop_last());
    let l = frames.len();
    assert forall|j: int| 0 <= j < next.len() implies #[trigger] next[j].1 <= next[j].2 by {
        if j < l - 1 {
            assert(next[j] == frames[j]);
        }
    }
    lemma_stack_work_nonneg(next, depth, b);
    let p = power(b, (depth - l) as nat);
    lemma_power_positive(b, (depth - l) as nat);
    assert(stack_work(next, depth, b) == stack_work(frames, depth, b) - p) by (nonlinear_arith)
        requires
            stack_work(next, depth, b) == stack_work(frames.drop_last(), depth, b) + frame_work(top) * p,
            stack_work(frames, depth, b) == stack_work(frames.drop_last(), depth, b) + frame_work(frames.last()) * p,
            frame_work(top) == frame_work(frames.last()) - 1,
    ;
    match child {
        Some(c) => {
            let next2 = next.push(c);
            assert(next2.drop_last() =~= next);
            assert forall|j: int| 0 <= j < next2.len() implies #[trigger] next2[j].1 <= next2[j].2 by {
                if j < l {
                    assert(next2[j] == next[j]);
                }
            }
            lemma_stack_work_nonneg(next2, depth, b);
            let q = power(b, (depth - l - 1) as nat);
            lemma_power_positive(b, (depth - l - 1) as nat);
            assert(p == b * q);
            assert(frame_work(c) * q < p) by (nonlinear_arith)
                requires
                    frame_work(c) < b,
                    frame_work(c) >= 1,
                    q >= 1,
                    p == b * q,
            ;
        },
        None => {},
    }
}

/// Closing the top frame lowers the work bound.
pub(crate) proof fn lemma_stack_work_pop(frames: Seq<(usize, usize, usize)>, depth: nat, b: int)
    requires
        frames.len() >= 1,
        frames.len() <= depth,
        b >= 1,
        frames.last().1 <= frames.last().2,
        forall|j: int| 0 <= j < frames.len() ==> #[trigger] frames[j].1 <= frames[j].2,
    ensures
        0 <= stack_work(frames.drop_last(), depth, b) < stack_work(frames, depth, b),
{
    assert forall|j: int| 0 <= j < frames.drop_last().len() implies #[trigger] frames.drop_last()[j].1
        <= frames.drop_last()[j].2 by {
        assert(frames.drop_last()[j] == frames[j]);
    }
    lemma_stack_work_nonneg(frames.drop_last(), depth, b);
    lemma_power_positive(b, (depth - frames.len()) as nat);
    let w = frame_work(frames.last());
    let p = power(b, (depth - frames.len()) as nat);
    assert(w * p >= 1) by (nonlinear_arith)
        requires
            w >= 1,
            p >= 1,
    ;
}

/// A record of which vertices a depth-first traversal has seen.
pub trait VisitTracker: Sized {
    /// The vertices recorded as seen.
    spec fn marks(&self) -> Set<int>;

    /// Whether the tracker answers exactly from `marks` and records every
    /// vertex it is asked about.
    spec fn exact(&self) -> bool;

    /// Whether the tracker may be asked about `e`.
    spec fn accepts(&self, e: Edge) -> bool;

    /// Whether `was` is an answer the tracker may give about `e`.
    spec fn answers(&self, e: Edge, was: bool) -> bool;

    /// Whether the target of `e` was already seen; records it as seen.
    fn check_and_mark(&mut self, e: Edge) -> (was: bool)
        requires
            old(self).accepts(e),
        ensures
            forall|x: Edge| old(self).accepts(x) ==> #[trigger] final(self).accepts(x),
            old(self).exact() ==> final(self).exact(),
            old(self).exact() ==> was == old(self).marks().contains(spec_vh(e) as int)
                && final(self).marks() == old(self).marks().insert(spec_vh(e) as int),
            old(self).answers(e, was),
            forall|x: Edge, w: bool| #[trigger] final(self).answers(x, w) == old(self).answers(x, w),
    ;
}

/// A tracker that keeps one flag per vertex.
pub struct FlagTracker {
    /// One flag per vertex.
    pub flags: Array<bool>,
    /// The vertices whose flag is set.
    pub seen: Ghost<Set<int>>,
}

impl VisitTracker for FlagTracker {
    open spec fn marks(&self) -> Set<int> {
        self.seen@
    }

    open spec fn exact(&self) -> bool {
        forall|x: int|
            0 <= x < flag_array_items(self.flags).len() ==> (flag_array_items(self.flags)[x]
                <==> #[trigger] self.seen@.contains(x))
    }

    open spec fn accepts(&self, e: Edge) -> bool {
        spec_vh(e) < flag_array_items(self.flags).len()
    }

    open spec fn answers(&self, e: Edge, was: bool) -> bool {
        true
    }

    fn check_and_mark(&mut self, e: Edge) -> (was: bool) {
        let t = vh(e) as usize;
        let was_visited = flag_array_get(&self.flags, t);
        flag_array_set(&mut self.flags, t, true);
        proof {
            let ghost s = self.seen@.insert(t as int);
            self.seen = Ghost(s);
        }
        was_visited
    }
}

/// A tracker that asks a caller's function.
pub struct FnTracker<VisitedFunc> {
    /// The caller's function.
    pub is_visited: VisitedFunc,
}

impl<VisitedFunc: FnMut(Edge) -> bool> VisitTracker for FnTracker<VisitedFunc> {
    open spec fn marks(&self) -> Set<int> {
        Set::empty()
    }

    open spec fn exact(&self) -> bool {
        false
    }

    open spec fn accepts(&self, e: Edge) -> bool {
        self.is_visited.requires((e,))
    }

    open spec fn answers(&self, e: Edge, was: bool) -> bool {
        self.is_visited.ensures((e,), was)
    }

    fn check_and_mark(&mut self, e: Edge) -> (was: bool)
        ensures
            old(self).is_visited.ensures((e,), was),
            final(self).is_visited == old(self).is_visited,
    {
        (self.is_visited)(e)
    }
}

/// One thing a depth-first traversal did.
pub enum DfsStep {
    /// It asked whether the target of the edge was visited and got the answer.
    Asked(Edge, bool),
    /// It called the pre-order callback on the edge, which gave the answer.
    Entered(Edge, ControlFlow),
    /// It called the post-order callback on the edge.
    Left(Edge),
}

/// What a depth-first traversal reports: the edges handed to the pre-order
/// callback and those handed to the post-order callback, in order, and
/// every step it took, in order.
pub type DfsTrace = (Vec<Edge>, Vec<Edge>, Vec<DfsStep>);

/// Where a depth-first traversal stands between two steps.
pub enum DfsPhase {
    /// Reading the edges of the top frame.
    Exploring,
    /// Waiting for the pre-order answer on an edge whose target was not
    /// visited.
    Deciding(Edge),
    /// Closing the open frames after an `End` answer.
    Closing,
    /// Stopped after an `Exit` answer.
    Stopped,
}

/// The state of a depth-first traversal: its open frames, each the edge
/// that opened it and the number of the target's edges read so far, bottom
/// first; its phase; and whether every step so far was one the traversal
/// could take.
pub type DfsState = (Seq<(Edge, int)>, DfsPhase, bool);

/// The state after `step`. Reading: a top frame whose edges are all read is
/// closed (post-order on the edge that opened it); otherwise its next edge
/// is put to the visited check, and an unvisited target is put to the
/// pre-order callback, whose answer opens a frame (`Resume`), skips the
/// target (`Continue`), starts closing the open frames (`End`) or stops
/// (`Exit`). Closing: the top frame is closed.
pub open spec fn dfs_apply(edges: Seq<Seq<Edge>>, st: DfsState, step: DfsStep) -> DfsState {
    let (frames, phase, ok) = st;
    let bad: DfsState = (frames, phase, false);
    if !ok {
        bad
    } else {
        match phase {
            DfsPhase::Exploring => {
                if frames.len() == 0 {
                    bad
                } else {
                    let top = frames.last();
                    let u = spec_vh(top.0) as int;
                    if top.1 >= edges[u].len() {
                        match step {
                            DfsStep::Left(e) => if e == top.0 {
                                (frames.drop_last(), DfsPhase::Exploring, true)
                            } else {
                                bad
                            },
                            _ => bad,
                        }
                    } else {
                        let x = edges[u][top.1];
                        let read = frames.drop_last().push((top.0, top.1 + 1));
                        match step {
                            DfsStep::Asked(e, seen) => if e != x {
                                bad
                            } else if seen {
                                (read, DfsPhase::Exploring, true)
                            } else {
                                (read, DfsPhase::Deciding(x), true)
                            },
                            _ => bad,
                        }
                    }
                }
            },
            DfsPhase::Deciding(x) => {
                match step {
                    DfsStep::Entered(e, d) => if e != x {
                        bad
                    } else {
                        match d {
                            ControlFlow::Resume => (frames.push((x, 0)), DfsPhase::Exploring, true),
                            ControlFlow::Continue => (frames, DfsPhase::Exploring, true),
                            ControlFlow::End => (frames, DfsPhase::Closing, true),
                            ControlFlow::Exit => (frames, DfsPhase::Stopped, true),
                        }
                    },
                    _ => bad,
                }
            },
            DfsPhase::Closing => {
                match step {
                    DfsStep::Left(e) => if frames.len() > 0 && e == frames.last().0 {
                        (frames.drop_last(), DfsPhase::Closing, true)
                    } else {
                        bad
                    },
                    _ => bad,
                }
            },
            DfsPhase::Stopped => bad,
        }
    }
}

/// The state after `steps`, starting from one open frame for `start`.
pub open spec fn dfs_replay(edges: Seq<Seq<Edge>>, start: Edge, steps: Seq<DfsStep>) -> DfsState
    decreases steps.len(),
{
    if steps.len() == 0 {
        (seq![(start, 0int)], DfsPhase::Exploring, true)
    } else {
        dfs_apply(edges, dfs_replay(edges, start, steps.drop_last()), steps.last())
    }
}

/// Whether `steps` is a whole depth-first traversal from `start`: it
/// begins with the pre-order call on `start`; an `End` answer there ends
/// it; otherwise every later step is one the traversal takes next, and the
/// steps stop only once no frame is open or after an `Exit` answer.
pub open spec fn dfs_transcript(edges: Seq<Seq<Edge>>, start: Edge, steps: Seq<DfsStep>) -> bool {
    &&& steps.len() >= 1
    &&& match steps[0] {
        DfsStep::Entered(e, ControlFlow::End) => e == start && steps.len() == 1,
        DfsStep::Entered(e, _) => {
            let st = dfs_replay(edges, start, steps.skip(1));
            e == start && st.2 && (st.0.len() == 0 || st.1 is Stopped)
        },
        _ => false,
    }
}

/// A step that the traversal cannot take spoils every later state.
proof fn lemma_replay_spoiled(edges: Seq<Seq<Edge>>, start: Edge, steps: Seq<DfsStep>, i: int)
    requires
        0 <= i <= steps.len(),
        !dfs_replay(edges, start, steps.take(i)).2,
    ensures
        !dfs_replay(edges, start, steps).2,
    decreases steps.len() - i,
{
    if i < steps.len() {
        assert(steps.take(i + 1).drop_last() =~= steps.take(i));
        lemma_replay_spoiled(edges, start, steps, i + 1);
    } else {
        assert(steps.take(i) =~= steps);
    }
}

/// A post-order call in a traversal closes the frame opened last among
/// those still open, on the edge that opened it.
pub proof fn lemma_dfs_left_closes_top(edges: Seq<Seq<Edge>>, start: Edge, steps: Seq<DfsStep>, k: int, e: Edge)
    requires
        0 <= k < steps.len(),
        steps[k] == DfsStep::Left(e),
        dfs_replay(edges, start, steps).2,
    ensures
        dfs_replay(edges, start, steps.take(k)).0.len() >= 1,
        e == dfs_replay(edges, start, steps.take(k)).0.last().0,
        dfs_replay(edges, start, steps.take(k + 1)).0 == dfs_replay(edges, start, steps.take(k)).0.drop_last(),
{
    assert(steps.take(k + 1).drop_last() =~= steps.take(k));
    assert(steps.take(k + 1).last() == steps[k]);
    if !dfs_replay(edges, start, steps.take(k + 1)).2 {
        lemma_replay_spoiled(edges, start, steps, k + 1);
    }
}

/// Parentheses: in a whole traversal every frame open at some point is
/// closed later by a post-order call on the edge that opened it, when
/// exactly that frame is the top one, unless an `Exit` answer stops the
/// traversal.
pub proof fn lemma_dfs_frames_close(edges: Seq<Seq<Edge>>, start: Edge, steps: Seq<DfsStep>, i: int, p: int)
    requires
        dfs_replay(edges, start, steps).2,
        dfs_replay(edges, start, steps).0.len() == 0 || dfs_replay(edges, start, steps).1 is Stopped,
        0 <= i <= steps.len(),
        0 <= p < dfs_replay(edges, start, steps.take(i)).0.len(),
    ensures
        dfs_replay(edges, start, steps).1 is Stopped || exists|j: int|
            i <= j < steps.len() && #[trigger] steps[j] == DfsStep::Left(
                dfs_replay(edges, start, steps.take(i)).0[p].0,
            ) && dfs_replay(edges, start, steps.take(j)).0.len() == p + 1,
    decreases steps.len() - i,
{
    let st = dfs_replay(edges, start, steps.take(i));
    if i == steps.len() {
        assert(steps.take(i) =~= steps);
    } else {
        assert(steps.take(i + 1).drop_last() =~= steps.take(i));
        assert(steps.take(i + 1).last() == steps[i]);
        let nx = dfs_replay(edges, start, steps.take(i + 1));
        assert(nx == dfs_apply(edges, st, steps[i]));
        if !nx.2 {
            lemma_replay_spoiled(edges, start, steps, i + 1);
        } else if nx.0.len() > p && nx.0[p].0 == st.0[p].0 {
            lemma_dfs_frames_close(edges, start, steps, i + 1, p);
            if !(dfs_replay(edges, start, steps).1 is Stopped) {
                let j = choose|j: int|
                    i + 1 <= j < steps.len() && #[trigger] steps[j] == DfsStep::Left(nx.0[p].0)
                        && dfs_replay(edges, start, steps.take(j)).0.len() == p + 1;
                assert(steps[j] == DfsStep::Left(st.0[p].0));
            }
        } else {
            assert(p == st.0.len() - 1);
            assert(steps[i] == DfsStep::Left(st.0[p].0));
        }
    }
}

/// Whether one of `steps[1..k]` is a pre-order call on `e` answered `Resume`.
pub open spec fn resumed_before(steps: Seq<DfsStep>, k: int, e: Edge) -> bool {
    exists|j: int| 1 <= j < k && #[trigger] steps[j] == DfsStep::Entered(e, ControlFlow::Resume)
}

/// Whether `step` is a pre-order call answered `Resume` on an edge into `u`.
pub open spec fn resumes_into(step: DfsStep, u: int) -> bool {
    match step {
        DfsStep::Entered(e, ControlFlow::Resume) => spec_vh(e) == u,
        _ => false,
    }
}

/// Whether every post-order call after the first step is on `start` or on
/// an edge that an earlier pre-order call answered `Resume`.
pub open spec fn closes_only_resumed(start: Edge, steps: Seq<DfsStep>) -> bool {
    forall|k: int|
        #![trigger steps[k]]
        1 <= k < steps.len() ==> match steps[k] {
            DfsStep::Left(e) => e == start || resumed_before(steps, k, e),
            _ => true,
        }
}

/// Whether every visited check after the first step is on an edge of the
/// start's target or of a vertex that an earlier pre-order call answered
/// `Resume` led into.
pub open spec fn reads_only_resumed(edges: Seq<Seq<Edge>>, start: Edge, steps: Seq<DfsStep>) -> bool {
    forall|k: int|
        #![trigger steps[k]]
        1 <= k < steps.len() ==> match steps[k] {
            DfsStep::Asked(e, _) => exists|u: int, i: int|
                0 <= u < edges.len() && 0 <= i < edges[u].len() && #[trigger] edges[u][i] == e && (u == spec_vh(
                    start,
                ) || exists|j: int| 1 <= j < k && #[trigger] resumes_into(steps[j], u)),
            _ => true,
        }
}

/// Whether no step after the first, except the last, is a pre-order call
/// answered `Exit`.
pub open spec fn exit_is_last(steps: Seq<DfsStep>) -> bool {
    forall|k: int|
        #![trigger steps[k]]
        1 <= k < steps.len() - 1 ==> match steps[k] {
            DfsStep::Entered(_, ControlFlow::Exit) => false,
            _ => true,
        }
}

/// After `k` steps past the first, every open frame leads to a vertex of
/// the store, has read a count of edges that is not negative, and was
/// opened by `start` or by a `Resume` answer among `steps[1..=k]`; a pending
/// pre-order call is on an edge into a vertex of the store.
spec fn frames_resumed(edges: Seq<Seq<Edge>>, start: Edge, steps: Seq<DfsStep>, st: DfsState, k: int) -> bool {
    &&& forall|p: int|
        0 <= p < st.0.len() ==> spec_vh((#[trigger] st.0[p]).0) < edges.len() && st.0[p].1 >= 0 && (st.0[p].0
            == start || resumed_before(steps, k + 1, st.0[p].0))
    &&& (st.1 matches DfsPhase::Deciding(x) ==> spec_vh(x) < edges.len())
}

/// Every state a traversal reaches meets `frames_resumed`.
proof fn lemma_frames_resumed(edges: Seq<Seq<Edge>>, start: Edge, steps: Seq<DfsStep>, k: int)
    requires
        1 <= steps.len(),
        0 <= k < steps.len(),
        spec_vh(start) < edges.len(),
        targets_below(edges, edges.len() as int),
        dfs_replay(edges, start, steps.skip(1).take(k)).2,
    ensures
        frames_resumed(edges, start, steps, dfs_replay(edges, start, steps.skip(1).take(k)), k),
    decreases k,
{
    let s1 = steps.skip(1);
    if k == 0 {
        assert(s1.take(0) =~= Seq::<DfsStep>::empty());
    } else {
        assert(s1.take(k).drop_last() =~= s1.take(k - 1));
        assert(s1.take(k).last() == steps[k]);
        let st = dfs_replay(edges, start, s1.take(k - 1));
        let nx = dfs_replay(edges, start, s1.take(k));
        assert(nx == dfs_apply(edges, st, steps[k]));
        assert(st.2);
        lemma_frames_resumed(edges, start, steps, k - 1);
        assert forall|p: int| 0 <= p < st.0.len() && resumed_before(steps, k, st.0[p].0) implies resumed_before(
            steps,
            k + 1,
            st.0[p].0,
        ) by {
            let j = choose|j: int| 1 <= j < k && #[trigger] steps[j] == DfsStep::Entered(st.0[p].0, ControlFlow::Resume);
            assert(steps[j] == DfsStep::Entered(st.0[p].0, ControlFlow::Resume));
        }
        let (frames, phase, ok) = st;
        match phase {
            DfsPhase::Exploring => {
                let top = frames.last();
                let u = spec_vh(top.0) as int;
                assert(frames[frames.len() - 1] == top);
                if top.1 < edges[u].len() {
                    let x = edges[u][top.1];
                    assert(spec_vh(x) < edges.len());
                    let read = frames.drop_last().push((top.0, top.1 + 1));
                    assert forall|p: int| 0 <= p < read.len() implies spec_vh((#[trigger] read[p]).0) < edges.len()
                        && read[p].1 >= 0 && (read[p].0 == start || resumed_before(steps, k + 1, read[p].0)) by {
                        assert(read[p].0 == frames[p].0);
                    }
                } else {
                    assert forall|p: int| 0 <= p < frames.drop_last().len() implies #[trigger] frames.drop_last()[p]
                        == frames[p] by {}
                }
            },
            DfsPhase::Deciding(x) => {
                match steps[k] {
                    DfsStep::Entered(e, ControlFlow::Resume) => {
                        let pushed = frames.push((x, 0int));
                        assert(steps[k] == DfsStep::Entered(x, ControlFlow::Resume));
                        assert forall|p: int| 0 <= p < pushed.len() implies spec_vh((#[trigger] pushed[p]).0)
                            < edges.len() && pushed[p].1 >= 0 && (pushed[p].0 == start || resumed_before(
                            steps,
                            k + 1,
                            pushed[p].0,
                        )) by {
                            if p == frames.len() {
                                assert(steps[k] == DfsStep::Entered(pushed[p].0, ControlFlow::Resume));
                            }
                        }
                    },
                    _ => {},
                }
            },
            DfsPhase::Closing => {
                assert forall|p: int| 0 <= p < frames.drop_last().len() implies #[trigger] frames.drop_last()[p]
                    == frames[p] by {}
            },
            DfsPhase::Stopped => {},
        }
    }
}

/// What a `Resume`, `Continue` and `Exit` answer mean for a whole traversal:
/// only `start` and the edges answered `Resume` open a frame, so every
/// post-order call is on one of them and every visited check is on an edge
/// of the start's target or of a vertex entered with `Resume` (the target of
/// an edge answered `Continue` is reached but not explored); and after an
/// `Exit` answer on any edge but the first the traversal takes no further
/// step, so no post-order call follows it.
pub proof fn lemma_dfs_steps_from_resumed(edges: Seq<Seq<Edge>>, start: Edge, steps: Seq<DfsStep>)
    requires
        dfs_transcript(edges, start, steps),
        spec_vh(start) < edges.len(),
        targets_below(edges, edges.len() as int),
    ensures
        closes_only_resumed(start, steps),
        reads_only_resumed(edges, start, steps),
        exit_is_last(steps),
{
    let s1 = steps.skip(1);
    if steps.len() == 1 {
        return;
    }
    assert(s1.take(s1.len() as int) =~= s1);
    assert(dfs_replay(edges, start, s1).2);
    assert forall|k: int| #![trigger steps[k]] 1 <= k < steps.len() implies match steps[k] {
        DfsStep::Left(e) => e == start || resumed_before(steps, k, e),
        _ => true,
    } && match steps[k] {
        DfsStep::Asked(e, _) => exists|u: int, i: int|
            0 <= u < edges.len() && 0 <= i < edges[u].len() && #[trigger] edges[u][i] == e && (u == spec_vh(start)
                || exists|j: int| 1 <= j < k && #[trigger] resumes_into(steps[j], u)),
        _ => true,
    } && (k < steps.len() - 1 ==> match steps[k] {
        DfsStep::Entered(_, ControlFlow::Exit) => false,
        _ => true,
    }) by {
        if !dfs_replay(edges, start, s1.take(k - 1)).2 {
            lemma_replay_spoiled(edges, start, s1, k - 1);
        }
        if !dfs_replay(edges, start, s1.take(k)).2 {
            lemma_replay_spoiled(edges, start, s1, k);
        }
        lemma_frames_resumed(edges, start, steps, k - 1);
        assert(s1.take(k).drop_last() =~= s1.take(k - 1));
        assert(s1.take(k).last() == steps[k]);
        let st = dfs_replay(edges, start, s1.take(k - 1));
        let nx = dfs_replay(edges, start, s1.take(k));
        assert(nx == dfs_apply(edges, st, steps[k]));
        let (frames, phase, ok) = st;
        match steps[k] {
            DfsStep::Left(e) => {
                let top = frames.last();
                assert(frames[frames.len() - 1] == top);
            },
            DfsStep::Asked(e, _) => {
                let top = frames.last();
                assert(frames[frames.len() - 1] == top);
                let u = spec_vh(top.0) as int;
                let i = top.1;
                assert(edges[u][i] == e);
                if top.0 != start {
                    let j = choose|j: int| 1 <= j < k && #[trigger] steps[j] == DfsStep::Entered(top.0, ControlFlow::Resume);
                    assert(resumes_into(steps[j], u));
                }
            },
            DfsStep::Entered(_, d) => {
                if k < steps.len() - 1 && d == ControlFlow::Exit {
                    assert(nx.1 is Stopped);
                    assert(s1.take(k + 1).drop_last() =~= s1.take(k));
                    assert(s1.take(k + 1).last() == steps[k + 1]);
                    assert(!dfs_replay(edges, start, s1.take(k + 1)).2);
                    lemma_replay_spoiled(edges, start, s1, k + 1);
                }
            },
        }
    }
}

/// The number of pre-order calls among `steps` answered `Resume`.
pub open spec fn resumed_count(steps: Seq<DfsStep>) -> nat
    decreases steps.len(),
{
    if steps.len() == 0 {
        0
    } else {
        resumed_count(steps.drop_last()) + match steps.last() {
            DfsStep::Entered(_, ControlFlow::Resume) => 1nat,
            _ => 0nat,
        }
    }
}

/// Whether no step after the first is a pre-order call answered `Exit`.
pub open spec fn exit_free(steps: Seq<DfsStep>) -> bool {
    forall|k: int|
        #![trigger steps[k]]
        1 <= k < steps.len() ==> match steps[k] {
            DfsStep::Entered(_, ControlFlow::Exit) => false,
            _ => true,
        }
}

/// Whether `step` is a pre-order call answered `Exit`.
spec fn is_exit_answer(step: DfsStep) -> bool {
    match step {
        DfsStep::Entered(_, ControlFlow::Exit) => true,
        _ => false,
    }
}

/// Steps that do not begin with a post-order call have the post-order
/// calls of the steps after the first.
proof fn lemma_left_edges_skip_first(steps: Seq<DfsStep>)
    requires
        steps.len() >= 1,
        !(steps[0] is Left),
    ensures
        left_edges(steps) == left_edges(steps.skip(1)),
    decreases steps.len(),
{
    if steps.len() == 1 {
        assert(steps.drop_last() =~= Seq::<DfsStep>::empty());
        assert(steps.skip(1) =~= Seq::<DfsStep>::empty());
        assert(steps.last() == steps[0]);
    } else {
        lemma_left_edges_skip_first(steps.drop_last());
        assert(steps.drop_last().skip(1) =~= steps.skip(1).drop_last());
        assert(steps.skip(1).last() == steps.last());
    }
}

/// After `k` steps of `s1` the open frames and the post-order calls made
/// together number one more than the `Resume` answers given, and the
/// traversal stands stopped only after an `Exit` answer.
proof fn lemma_frames_counted(edges: Seq<Seq<Edge>>, start: Edge, s1: Seq<DfsStep>, k: int)
    requires
        0 <= k <= s1.len(),
        dfs_replay(edges, start, s1.take(k)).2,
    ensures
        dfs_replay(edges, start, s1.take(k)).0.len() + left_edges(s1.take(k)).len() == 1 + resumed_count(
            s1.take(k),
        ),
        dfs_replay(edges, start, s1.take(k)).1 is Stopped ==> exists|j: int|
            0 <= j < k && #[trigger] is_exit_answer(s1[j]),
    decreases k,
{
    if k == 0 {
        assert(s1.take(0) =~= Seq::<DfsStep>::empty());
    } else {
        let pre = s1.take(k - 1);
        assert(s1.take(k).drop_last() =~= pre);
        assert(s1.take(k).last() == s1[k - 1]);
        let st = dfs_replay(edges, start, pre);
        assert(dfs_replay(edges, start, s1.take(k)) == dfs_apply(edges, st, s1[k - 1]));
        assert(st.2);
        lemma_frames_counted(edges, start, s1, k - 1);
        if st.1 is Stopped {
            let j = choose|j: int| 0 <= j < k - 1 && #[trigger] is_exit_answer(s1[j]);
            assert(is_exit_answer(s1[j]));
        }
        if is_exit_answer(s1[k - 1]) {
            assert(is_exit_answer(s1[k - 1]));
        }
    }
}

/// Every frame opened is closed once unless an `Exit` answer stops the
/// traversal: a whole traversal makes at most one post-order call for
/// `start` and for each `Resume` answer after the first step, and exactly
/// one for each when no later answer is `Exit` and the first answer is not
/// `End` (so an `End` answer closes every open frame).
pub proof fn lemma_dfs_closes_each_frame(edges: Seq<Seq<Edge>>, start: Edge, steps: Seq<DfsStep>)
    requires
        dfs_transcript(edges, start, steps),
    ensures
        left_edges(steps).len() <= 1 + resumed_count(steps.skip(1)),
        exit_free(steps) && steps[0] != DfsStep::Entered(start, ControlFlow::End) ==> left_edges(steps).len() == 1
            + resumed_count(steps.skip(1)),
{
    let s1 = steps.skip(1);
    lemma_left_edges_skip_first(steps);
    if steps[0] == DfsStep::Entered(start, ControlFlow::End) {
        assert(s1 =~= Seq::<DfsStep>::empty());
        assert(left_edges(s1) == Seq::<Edge>::empty());
    } else {
        assert(s1.take(s1.len() as int) =~= s1);
        lemma_frames_counted(edges, start, s1, s1.len() as int);
        if exit_free(steps) && dfs_replay(edges, start, s1).1 is Stopped {
            let j = choose|j: int| 0 <= j < s1.len() && #[trigger] is_exit_answer(s1[j]);
            assert(s1[j] == steps[j + 1]);
            assert(is_exit_answer(steps[j + 1]));
        }
    }
}

/// Whether `steps` begins a depth-first traversal from `start` (a pre-order
/// call on `start` not answered `End`, then steps the traversal takes) and
/// its last step leaves more than `limit` frames open.
pub open spec fn dfs_overflows(edges: Seq<Seq<Edge>>, start: Edge, steps: Seq<DfsStep>, limit: int) -> bool {
    &&& steps.len() >= 1
    &&& match steps[0] {
        DfsStep::Entered(e, ControlFlow::End) => false,
        DfsStep::Entered(e, _) => e == start,
        _ => false,
    }
    &&& dfs_replay(edges, start, steps.skip(1)).2
    &&& dfs_replay(edges, start, steps.skip(1)).0.len() > limit
}

/// The edges of the pre-order calls among `steps`, in order.
pub open spec fn entered_edges(steps: Seq<DfsStep>) -> Seq<Edge>
    decreases steps.len(),
{
    if steps.len() == 0 {
        Seq::empty()
    } else {
        match steps.last() {
            DfsStep::Entered(e, _) => entered_edges(steps.drop_last()).push(e),
            _ => entered_edges(steps.drop_last()),
        }
    }
}

/// The edges of the post-order calls among `steps`, in order.
pub open spec fn left_edges(steps: Seq<DfsStep>) -> Seq<Edge>
    decreases steps.len(),
{
    if steps.len() == 0 {
        Seq::empty()
    } else {
        match steps.last() {
            DfsStep::Left(e) => left_edges(steps.drop_last()).push(e),
            _ => left_edges(steps.drop_last()),
        }
    }
}

/// Whether `step` is a visited check about an edge to `x`.
pub open spec fn asks_about(step: DfsStep, x: int) -> bool {
    match step {
        DfsStep::Asked(e, _) => spec_vh(e) == x,
        _ => false,
    }
}

/// Whether one of the visited checks among `steps` was about an edge to `x`.
pub open spec fn asked_target(steps: Seq<DfsStep>, x: int) -> bool {
    exists|j: int| 0 <= j < steps.len() && asks_about(#[trigger] steps[j], x)
}

/// Whether every visited check among `steps` got an answer `tracker` may
/// give, and, from an exact tracker, the answer whether its marks or an
/// earlier check covered the target.
pub open spec fn answered_by<T: VisitTracker>(steps: Seq<DfsStep>, tracker: T) -> bool {
    forall|k: int|
        0 <= k < steps.len() ==> match #[trigger] steps[k] {
            DfsStep::Asked(e, b) => tracker.answers(e, b) && (tracker.exact() ==> b == (tracker.marks().contains(
                spec_vh(e) as int,
            ) || asked_target(steps.take(k), spec_vh(e) as int))),
            _ => true,
        }
}

/// Whether every pre-order answer among `steps` is one `f` may give.
pub open spec fn decided_by<F: FnMut(Edge) -> ControlFlow>(steps: Seq<DfsStep>, f: F) -> bool {
    forall|k: int|
        0 <= k < steps.len() ==> match #[trigger] steps[k] {
            DfsStep::Entered(e, d) => f.ensures((e,), d),
            _ => true,
        }
}

/// Whether every visited check among `steps` got an answer `f` may give.
pub open spec fn checked_by<F: FnMut(Edge) -> bool>(steps: Seq<DfsStep>, f: F) -> bool {
    forall|k: int|
        0 <= k < steps.len() ==> match #[trigger] steps[k] {
            DfsStep::Asked(e, b) => f.ensures((e,), b),
            _ => true,
        }
}

/// Whether every visited check among `steps` answered whether an earlier
/// check was about the same target.
pub open spec fn checks_seen(steps: Seq<DfsStep>) -> bool {
    forall|k: int|
        0 <= k < steps.len() ==> match #[trigger] steps[k] {
            DfsStep::Asked(e, b) => b == asked_target(steps.take(k), spec_vh(e) as int),
            _ => true,
        }
}

/// Checks answered as a caller's function tracker may answer are answers
/// that function may give.
proof fn lemma_checked_by_tracker<F: FnMut(Edge) -> bool>(steps: Seq<DfsStep>, f: F, t: FnTracker<F>)
    requires
        answered_by(steps, t),
        t.is_visited == f,
    ensures
        checked_by(steps, f),
{
    assert forall|k: int| 0 <= k < steps.len() implies match #[trigger] steps[k] {
        DfsStep::Asked(e, b) => f.ensures((e,), b),
        _ => true,
    } by {
        match steps[k] {
            DfsStep::Asked(e, b) => {
                assert(t.answers(e, b));
            },
            _ => {},
        }
    }
}

/// Checks answered by an exact flag tracker that started with nothing
/// marked answer whether an earlier check was about the same target.
proof fn lemma_checks_seen_fresh(steps: Seq<DfsStep>, t: FlagTracker)
    requires
        answered_by(steps, t),
        t.exact(),
        t.marks() == Set::<int>::empty(),
    ensures
        checks_seen(steps),
{
    assert forall|k: int| 0 <= k < steps.len() implies match #[trigger] steps[k] {
        DfsStep::Asked(e, b) => b == asked_target(steps.take(k), spec_vh(e) as int),
        _ => true,
    } by {
        match steps[k] {
            DfsStep::Asked(e, b) => {
                assert(!t.marks().contains(spec_vh(e) as int));
            },
            _ => {},
        }
    }
}

/// Appending a step extends the replay, the pre-order edges and the
/// post-order edges by that step.
proof fn lemma_steps_push(edges: Seq<Seq<Edge>>, start: Edge, steps: Seq<DfsStep>, x: DfsStep)
    requires
        steps.len() >= 1,
    ensures
        dfs_replay(edges, start, steps.push(x).skip(1)) == dfs_apply(
            edges,
            dfs_replay(edges, start, steps.skip(1)),
            x,
        ),
        entered_edges(steps.push(x)) == (match x {
            DfsStep::Entered(e, _) => entered_edges(steps).push(e),
            _ => entered_edges(steps),
        }),
        left_edges(steps.push(x)) == (match x {
            DfsStep::Left(e) => left_edges(steps).push(e),
            _ => left_edges(steps),
        }),
{
    let t = steps.push(x).skip(1);
    assert(t.drop_last() =~= steps.skip(1));
    assert(t.last() == x);
    assert(steps.push(x).drop_last() =~= steps);
}

/// The edge that opened frame `j`: `start` for the bottom frame, else the
/// edge the frame below it read last.
pub open spec fn frame_edge(
    edges: Seq<Seq<Edge>>,
    start: Edge,
    frames: Seq<(usize, usize, usize)>,
    j: int,
) -> Edge {
    if j == 0 {
        start
    } else {
        edges[frames[j - 1].0 as int][frames[j - 1].1 - 1]
    }
}

/// The shape of a depth-first stack: frame `j` reads vertex `frames[j].0`
/// (reachable from the start) with cursor `frames[j].1` over its
/// `frames[j].2` live edges; the bottom frame reads the start's target and
/// every other frame reads the target of the edge the frame below read last.
#[verifier::opaque]
pub open spec fn frames_ok(
    edges: Seq<Seq<Edge>>,
    start: Edge,
    frames: Seq<(usize, usize, usize)>,
    count: int,
) -> bool {
    let sv = spec_vh(start) as int;
    &&& forall|j: int|
        0 <= j < frames.len() ==> {
            let f = #[trigger] frames[j];
            &&& f.0 < count
            &&& f.2 == edges[f.0 as int].len()
            &&& f.1 <= f.2
            &&& reachable(edges, sv, f.0 as int)
        }
    &&& frames.len() > 0 ==> frames[0].0 == sv
    &&& forall|j: int|
        1 <= j < frames.len() ==> frames[j - 1].1 >= 1 && #[trigger] frames[j].0 == spec_vh(
            frame_edge(edges, start, frames, j),
        )
}

proof fn lemma_frames_start(edges: Seq<Seq<Edge>>, start: Edge, count: int, sv: usize, slen: usize)
    requires
        spec_vh(start) < count,
        count == edges.len(),
        sv == spec_vh(start),
        slen == edges[sv as int].len(),
    ensures
        frames_ok(edges, start, seq![(sv, 0usize, slen)], count),
{
    reveal(frames_ok);
    lemma_reachable_self(edges, spec_vh(start) as int);
}

#[verifier::spinoff_prover]
proof fn lemma_frames_top(
    edges: Seq<Seq<Edge>>,
    start: Edge,
    frames: Seq<(usize, usize, usize)>,
    count: int,
)
    requires
        frames_ok(edges, start, frames, count),
        frames.len() >= 1,
        count == edges.len(),
        targets_below(edges, count),
    ensures
        frames_ok(edges, start, frames.drop_last(), count),
        frames.last().0 < count,
        frames.last().2 == edges[frames.last().0 as int].len(),
        frames.last().1 <= frames.last().2,
        reachable(edges, spec_vh(start) as int, frames.last().0 as int),
        frames.len() >= 2 ==> reachable(edges, spec_vh(start) as int, frames[frames.len() - 2].0 as int),
        frames.len() == 1 ==> frames.last().0 == spec_vh(start),
        forall|j: int| 0 <= j < frames.len() ==> #[trigger] frames[j].1 <= frames[j].2,
        frames.len() >= 2 ==> {
            let p = frames[frames.len() - 2];
            &&& p.0 < count
            &&& 1 <= p.1 <= edges[p.0 as int].len()
            &&& spec_vh(edges[p.0 as int][p.1 - 1]) == frames.last().0
        },
{
    reveal(frames_ok);
    let l = frames.len();
    assert(frames[l - 1] == frames.last());
    if l >= 2 {
        assert(frames[l - 2].0 < count);
    }
    let d = frames.drop_last();
    assert forall|j: int| 1 <= j < d.len() implies d[j - 1].1 >= 1 && #[trigger] d[j].0 == spec_vh(
        frame_edge(edges, start, d, j),
    ) by {
        assert(d[j] == frames[j] && d[j - 1] == frames[j - 1]);
        assert(frames[j].0 == spec_vh(frame_edge(edges, start, frames, j)));
    }
    assert forall|j: int| 0 <= j < d.len() implies {
        let f = #[trigger] d[j];
        &&& f.0 < count
        &&& f.2 == edges[f.0 as int].len()
        &&& f.1 <= f.2
        &&& reachable(edges, spec_vh(start) as int, f.0 as int)
    } by {
        assert(d[j] == frames[j]);
    }
    if d.len() > 0 {
        assert(d[0] == frames[0]);
    }
    assert(frames_ok(edges, start, d, count));
}

/// The frames of a depth-first stack lie on a walk from the start: the
/// top frame's vertex is reached by a path of one edge less than there are
/// frames.
proof fn lemma_frames_walk(edges: Seq<Seq<Edge>>, start: Edge, frames: Seq<(usize, usize, usize)>, count: int)
    requires
        frames_ok(edges, start, frames, count),
        frames.len() >= 1,
        count == edges.len(),
        targets_below(edges, count),
    ensures
        reachable_in(edges, spec_vh(start) as int, frames.last().0 as int, frames.len() - 1),
    decreases frames.len(),
{
    lemma_frames_top(edges, start, frames, count);
    if frames.len() == 1 {
        lemma_reachable_in_zero(edges, spec_vh(start) as int, spec_vh(start) as int);
    } else {
        let d = frames.drop_last();
        lemma_frames_walk(edges, start, d, count);
        let p = frames[frames.len() - 2];
        assert(d.last() == p);
        lemma_reachable_in_step(edges, spec_vh(start) as int, p.0 as int, d.len() - 1, p.1 - 1);
    }
}

#[verifier::spinoff_prover]
proof fn lemma_frames_advance(
    edges: Seq<Seq<Edge>>,
    start: Edge,
    frames: Seq<(usize, usize, usize)>,
    count: int,
)
    requires
        frames_ok(edges, start, frames, count),
        frames.len() >= 1,
        frames.last().1 < frames.last().2,
    ensures
        frames_ok(
            edges,
            start,
            frames.drop_last().push(
                (frames.last().0, (frames.last().1 + 1) as usize, frames.last().2),
            ),
            count,
        ),
{
    reveal(frames_ok);
    let l = frames.len();
    let top = frames.last();
    let a = (top.0, (top.1 + 1) as usize, top.2);
    let d = frames.drop_last().push(a);
    assert(frames[l - 1] == top);
    assert(d.len() == l);
    assert forall|j: int| 0 <= j < l - 1 implies d[j] == frames[j] by {}
    assert(d[l - 1] == a);
    assert forall|j: int| 1 <= j < d.len() implies d[j - 1].1 >= 1 && #[trigger] d[j].0 == spec_vh(
        frame_edge(edges, start, d, j),
    ) by {
        assert(frames[j].0 == spec_vh(frame_edge(edges, start, frames, j)));
        assert(d[j - 1] == frames[j - 1]);
        if j < l - 1 {
            assert(d[j] == frames[j]);
        } else {
            assert(d[j].0 == frames[j].0);
        }
    }
    assert forall|j: int| 0 <= j < d.len() implies {
        let f = #[trigger] d[j];
        &&& f.0 < count
        &&& f.2 == edges[f.0 as int].len()
        &&& f.1 <= f.2
        &&& reachable(edges, spec_vh(start) as int, f.0 as int)
    } by {
        let f = frames[j];
        if j < l - 1 {
            assert(d[j] == f);
        }
    }
    if l > 1 {
        assert(d[0] == frames[0]);
    }
}

#[verifier::spinoff_prover]
proof fn lemma_frames_push(
    edges: Seq<Seq<Edge>>,
    start: Edge,
    frames: Seq<(usize, usize, usize)>,
    count: int,
    t: usize,
    tlen: usize,
)
    requires
        frames_ok(edges, start, frames, count),
        frames.len() >= 1,
        frames.last().1 >= 1,
        t == spec_vh(edges[frames.last().0 as int][frames.last().1 - 1]),
        t < count,
        tlen == edges[t as int].len(),
        count == edges.len(),
    ensures
        frames_ok(edges, start, frames.push((t, 0usize, tlen)), count),
{
    reveal(frames_ok);
    let l = frames.len();
    let top = frames.last();
    let d = frames.push((t, 0usize, tlen));
    assert(frames[l - 1] == top);
    assert(top.1 - 1 < edges[top.0 as int].len());
    lemma_reachable_step(edges, spec_vh(start) as int, top.0 as int, top.1 - 1);
    assert forall|j: int| 1 <= j < d.len() implies d[j - 1].1 >= 1 && #[trigger] d[j].0 == spec_vh(
        frame_edge(edges, start, d, j),
    ) by {
        assert(d[j - 1] == frames[j - 1]);
        if j < l {
            assert(d[j] == frames[j]);
            assert(frames[j].0 == spec_vh(frame_edge(edges, start, frames, j)));
        } else {
            assert(d[j] == (t, 0usize, tlen));
            assert(d[j - 1] == top);
            assert(frame_edge(edges, start, d, j) == edges[top.0 as int][top.1 - 1]);
        }
    }
    assert(d[0] == frames[0]);
    assert forall|j: int| 0 <= j < d.len() implies {
        let f = #[trigger] d[j];
        &&& f.0 < count
        &&& f.2 == edges[f.0 as int].len()
        &&& f.1 <= f.2
        &&& reachable(edges, spec_vh(start) as int, f.0 as int)
    } by {
        if j < l {
            let f = frames[j];
            assert(d[j] == f);
            assert(f.0 < count);
        } else {
            assert(d[j] == (t, 0usize, tlen));
        }
    }
    assert(d.len() > 0 ==> d[0].0 == spec_vh(start) as int);
    assert(frames_ok(edges, start, d, count));
}

/// What a complete depth-first search keeps true: the `explored` vertices
/// and the edges already read by the frames have marked targets, every
/// marked vertex is explored or on the stack, and so is the start.
#[verifier::opaque]
pub open spec fn explore_ok(
    edges: Seq<Seq<Edge>>,
    frames: Seq<(usize, usize, usize)>,
    explored: Set<int>,
    marks: Set<int>,
    sv: int,
    count: int,
) -> bool {
    &&& forall|x: int|
        #[trigger] explored.contains(x) ==> 0 <= x < count && forall|k: int|
            0 <= k < edges[x].len() ==> marks.contains(spec_vh(#[trigger] edges[x][k]) as int)
    &&& forall|j: int, k: int|
        0 <= j < frames.len() && 0 <= k < frames[j].1 ==> marks.contains(
            spec_vh(#[trigger] edges[frames[j].0 as int][k]) as int,
        )
    &&& forall|x: int|
        #[trigger] marks.contains(x) ==> explored.contains(x) || exists|j: int|
            0 <= j < frames.len() && #[trigger] frames[j].0 == x
    &&& explored.contains(sv) || frames.len() > 0
    &&& frames.len() > 0 ==> frames[0].0 == sv
}

/// Whether one of the pre-order edges `pre[1..j]` leads to `x`.
pub open spec fn seen_before(pre: Seq<Edge>, j: int, x: int) -> bool {
    exists|i: int| 1 <= i < j && spec_vh(#[trigger] pre[i]) == x
}

/// Whether vertex `u` has a live edge to a vertex that none of
/// `pre[1..j]` leads to.
pub open spec fn has_fresh_edge(edges: Seq<Seq<Edge>>, pre: Seq<Edge>, j: int, u: int) -> bool {
    exists|q: int| 0 <= q < edges[u].len() && !seen_before(pre, j, spec_vh(#[trigger] edges[u][q]) as int)
}

/// Whether the last edge of `p` is the one a depth-first traversal takes
/// after `p`'s other edges: the first live edge to an unseen vertex of the
/// vertex reached last (by position in `p`) that still has such an edge.
pub open spec fn dfs_step_ok(edges: Seq<Seq<Edge>>, p: Seq<Edge>) -> bool {
    let j = p.len() - 1;
    exists|a: int, q: int|
        #![trigger p[a], edges[spec_vh(p[a]) as int][q]]
        0 <= a < j && 0 <= q < edges[spec_vh(p[a]) as int].len() && p[j] == edges[spec_vh(p[a]) as int][q]
            && !seen_before(p, j, spec_vh(p[j]) as int) && (forall|q2: int|
            0 <= q2 < q ==> seen_before(p, j, spec_vh(#[trigger] edges[spec_vh(p[a]) as int][q2]) as int)) && (
        forall|b: int| a < b < j ==> !has_fresh_edge(edges, p, j, spec_vh(#[trigger] p[b]) as int))
}

/// Whether every pre-order edge after the first is the one a depth-first
/// traversal takes next.
pub open spec fn dfs_order(edges: Seq<Seq<Edge>>, pre: Seq<Edge>) -> bool {
    forall|j: int| 1 <= j < pre.len() ==> #[trigger] dfs_step_ok(edges, pre.take(j + 1))
}

/// Whether no vertex that `pre` reaches has a live edge to an unseen vertex.
pub open spec fn dfs_maximal(edges: Seq<Seq<Edge>>, pre: Seq<Edge>) -> bool {
    forall|a: int| 0 <= a < pre.len() ==> !has_fresh_edge(edges, pre, pre.len() as int, spec_vh(#[trigger] pre[a]) as int)
}

/// What a complete depth-first traversal keeps of its order: frame `k` was
/// opened by the pre-order edge `pre[pos[k]]`, the positions grow from 0;
/// every pre-order edge whose frame is closed leads to a vertex without
/// edges to unmarked vertices; the marks are exactly the targets of
/// `pre[1..]`; and the pre-order so far is in depth-first order.
#[verifier::opaque]
spec fn order_ok(
    edges: Seq<Seq<Edge>>,
    frames: Seq<(usize, usize, usize)>,
    pos: Seq<int>,
    pre: Seq<Edge>,
    marks: Set<int>,
) -> bool {
    &&& pos.len() == frames.len()
    &&& frames.len() > 0 ==> pos[0] == 0
    &&& forall|k: int|
        0 <= k < pos.len() ==> 0 <= #[trigger] pos[k] < pre.len() && frames[k].0 == spec_vh(pre[pos[k]])
    &&& forall|k1: int, k2: int| 0 <= k1 < k2 < pos.len() ==> #[trigger] pos[k1] < #[trigger] pos[k2]
    &&& forall|a: int|
        0 <= a < pre.len() && (forall|k: int| 0 <= k < pos.len() ==> pos[k] != a) ==> forall|q: int|
            0 <= q < edges[spec_vh(#[trigger] pre[a]) as int].len() ==> marks.contains(
                spec_vh(edges[spec_vh(pre[a]) as int][q]) as int,
            )
    &&& forall|x: int| #[trigger] marks.contains(x) <==> seen_before(pre, pre.len() as int, x)
    &&& dfs_order(edges, pre)
}

proof fn lemma_order_start(edges: Seq<Seq<Edge>>, start: Edge, frame: (usize, usize, usize))
    requires
        frame.0 == spec_vh(start),
    ensures
        order_ok(edges, seq![frame], seq![0int], seq![start], Set::empty()),
{
    reveal(order_ok);
    let pre = seq![start];
    let pos = seq![0int];
    let frames = seq![frame];
    assert(pos[0] == 0 && frames[0] == frame && pre[0] == start);
    assert forall|x: int| #[trigger] Set::<int>::empty().contains(x) <==> seen_before(pre, 1, x) by {}
    assert forall|a: int|
        0 <= a < pre.len() && (forall|k: int| 0 <= k < pos.len() ==> pos[k] != a) implies forall|q: int|
            0 <= q < edges[spec_vh(#[trigger] pre[a]) as int].len() ==> Set::<int>::empty().contains(
                spec_vh(edges[spec_vh(pre[a]) as int][q]) as int,
            ) by {
        assert(pos[0] == a);
    }
    assert(dfs_order(edges, pre));
}

/// Reading one more edge of the top frame whose target is already marked.
proof fn lemma_order_skip(
    edges: Seq<Seq<Edge>>,
    frames: Seq<(usize, usize, usize)>,
    pos: Seq<int>,
    pre: Seq<Edge>,
    marks: Set<int>,
    adv: (usize, usize, usize),
)
    requires
        order_ok(edges, frames, pos, pre, marks),
        frames.len() >= 1,
        adv.0 == frames.last().0,
    ensures
        order_ok(edges, frames.drop_last().push(adv), pos, pre, marks),
{
    reveal(order_ok);
    let f2 = frames.drop_last().push(adv);
    assert forall|k: int| 0 <= k < pos.len() implies 0 <= #[trigger] pos[k] < pre.len() && f2[k].0 == spec_vh(pre[pos[k]]) by {
        if k < frames.len() - 1 {
            assert(f2[k] == frames[k]);
        }
    }
}

/// Closing the top frame, whose vertex has no edge to an unmarked vertex.
proof fn lemma_order_pop(
    edges: Seq<Seq<Edge>>,
    frames: Seq<(usize, usize, usize)>,
    pos: Seq<int>,
    pre: Seq<Edge>,
    marks: Set<int>,
)
    requires
        order_ok(edges, frames, pos, pre, marks),
        frames.len() >= 1,
        forall|q: int|
            0 <= q < edges[frames.last().0 as int].len() ==> marks.contains(
                spec_vh(#[trigger] edges[frames.last().0 as int][q]) as int,
            ),
    ensures
        order_ok(edges, frames.drop_last(), pos.drop_last(), pre, marks),
{
    reveal(order_ok);
    let l = frames.len() - 1;
    let f2 = frames.drop_last();
    let p2 = pos.drop_last();
    assert forall|k: int| 0 <= k < p2.len() implies 0 <= #[trigger] p2[k] < pre.len() && f2[k].0 == spec_vh(pre[p2[k]]) by {
        assert(p2[k] == pos[k] && f2[k] == frames[k]);
    }
    assert forall|k1: int, k2: int| 0 <= k1 < k2 < p2.len() implies #[trigger] p2[k1] < #[trigger] p2[k2] by {
        assert(p2[k1] == pos[k1] && p2[k2] == pos[k2]);
    }
    assert forall|a: int|
        0 <= a < pre.len() && (forall|k: int| 0 <= k < p2.len() ==> p2[k] != a) implies forall|q: int|
            0 <= q < edges[spec_vh(#[trigger] pre[a]) as int].len() ==> marks.contains(
                spec_vh(edges[spec_vh(pre[a]) as int][q]) as int,
            ) by {
        if a == pos[l] {
            assert(frames[l].0 == spec_vh(pre[pos[l]]));
            assert(frames.last() == frames[l]);
        } else {
            assert forall|k: int| 0 <= k < pos.len() implies pos[k] != a by {
                if k < l {
                    assert(p2[k] == pos[k]);
                }
            }
        }
    }
}

/// Taking the edge at the top frame's cursor to an unmarked vertex and
/// opening a frame for that vertex.
proof fn lemma_order_enter(
    edges: Seq<Seq<Edge>>,
    frames: Seq<(usize, usize, usize)>,
    pos: Seq<int>,
    pre: Seq<Edge>,
    marks: Set<int>,
    adv: (usize, usize, usize),
    child: (usize, usize, usize),
)
    requires
        order_ok(edges, frames, pos, pre, marks),
        frames.len() >= 1,
        ({
            let top = frames.last();
            &&& top.1 < edges[top.0 as int].len()
            &&& adv.0 == top.0
            &&& child.0 == spec_vh(edges[top.0 as int][top.1 as int])
            &&& !marks.contains(spec_vh(edges[top.0 as int][top.1 as int]) as int)
            &&& forall|q: int|
                0 <= q < top.1 ==> marks.contains(spec_vh(#[trigger] edges[top.0 as int][q]) as int)
        }),
    ensures
        ({
            let top = frames.last();
            let e = edges[top.0 as int][top.1 as int];
            order_ok(
                edges,
                frames.drop_last().push(adv).push(child),
                pos.push(pre.len() as int),
                pre.push(e),
                marks.insert(spec_vh(e) as int),
            )
        }),
{
    reveal(order_ok);
    let l = frames.len() - 1;
    let top = frames.last();
    assert(top == frames[l]);
    let u = top.0 as int;
    let c = top.1 as int;
    let e = edges[u][c];
    let j = pre.len() as int;
    let pre2 = pre.push(e);
    let pos2 = pos.push(j);
    let f2 = frames.drop_last().push(adv).push(child);
    let m2 = marks.insert(spec_vh(e) as int);
    assert forall|x: int| seen_before(pre2, j, x) == seen_before(pre, j, x) by {
        if seen_before(pre, j, x) {
            let i = choose|i: int| 1 <= i < j && spec_vh(#[trigger] pre[i]) == x;
            assert(pre2[i] == pre[i]);
        }
        if seen_before(pre2, j, x) {
            let i = choose|i: int| 1 <= i < j && spec_vh(#[trigger] pre2[i]) == x;
            assert(pre2[i] == pre[i]);
        }
    }
    assert forall|x: int| #[trigger] m2.contains(x) <==> seen_before(pre2, j + 1, x) by {
        if x == spec_vh(e) as int {
            assert(spec_vh(pre2[j]) == x);
        } else {
            if seen_before(pre2, j + 1, x) {
                let i = choose|i: int| 1 <= i < j + 1 && spec_vh(#[trigger] pre2[i]) == x;
                assert(i < j);
                assert(pre2[i] == pre[i]);
            }
            if marks.contains(x) {
                assert(seen_before(pre, j, x));
                let i = choose|i: int| 1 <= i < j && spec_vh(#[trigger] pre[i]) == x;
                assert(pre2[i] == pre[i]);
            }
        }
    }
    let a = pos[l];
    assert(frames[l].0 == spec_vh(pre[a]));
    assert(0 <= a < j);
    assert forall|b: int| a < b < j implies !has_fresh_edge(edges, pre2, j, spec_vh(#[trigger] pre2[b]) as int) by {
        assert(pre2[b] == pre[b]);
        assert forall|k: int| 0 <= k < pos.len() implies pos[k] != b by {
            if k < l {
                assert(pos[k] < pos[l]);
            }
        }
        assert forall|q: int| 0 <= q < edges[spec_vh(pre[b]) as int].len() implies seen_before(
            pre2,
            j,
            spec_vh(#[trigger] edges[spec_vh(pre[b]) as int][q]) as int,
        ) by {
            assert(marks.contains(spec_vh(edges[spec_vh(pre[b]) as int][q]) as int));
        }
    }
    assert forall|q2: int| 0 <= q2 < c implies seen_before(pre2, j, spec_vh(#[trigger] edges[spec_vh(pre2[a]) as int][q2]) as int) by {
        assert(pre2[a] == pre[a]);
        assert(marks.contains(spec_vh(edges[u][q2]) as int));
    }
    assert(pre2[a] == pre[a]);
    assert(pre2[j] == e);
    assert(!seen_before(pre2, j, spec_vh(pre2[j]) as int));
    assert(dfs_step_ok(edges, pre2)) by {
        assert(pre2.len() - 1 == j);
        assert(0 <= a < j && 0 <= c < edges[spec_vh(pre2[a]) as int].len() && pre2[j] == edges[spec_vh(pre2[a]) as int][c]);
    }
    assert forall|jj: int| 1 <= jj < pre2.len() implies #[trigger] dfs_step_ok(edges, pre2.take(jj + 1)) by {
        if jj < j {
            assert(pre2.take(jj + 1) =~= pre.take(jj + 1));
        } else {
            assert(pre2.take(jj + 1) =~= pre2);
        }
    }
    assert forall|k: int| 0 <= k < pos2.len() implies 0 <= #[trigger] pos2[k] < pre2.len() && f2[k].0 == spec_vh(
        pre2[pos2[k]],
    ) by {
        if k < l {
            assert(f2[k] == frames[k] && pos2[k] == pos[k] && pre2[pos[k]] == pre[pos[k]]);
        } else if k == l {
            assert(f2[k] == adv && pos2[k] == pos[k] && pre2[pos[k]] == pre[pos[k]]);
        } else {
            assert(f2[k] == child && pos2[k] == j);
        }
    }
    assert forall|k1: int, k2: int| 0 <= k1 < k2 < pos2.len() implies #[trigger] pos2[k1] < #[trigger] pos2[k2] by {
        if k2 < pos.len() {
            assert(pos2[k1] == pos[k1] && pos2[k2] == pos[k2]);
        } else {
            assert(pos2[k1] == pos[k1]);
        }
    }
    assert forall|b: int|
        0 <= b < pre2.len() && (forall|k: int| 0 <= k < pos2.len() ==> pos2[k] != b) implies forall|q: int|
            0 <= q < edges[spec_vh(#[trigger] pre2[b]) as int].len() ==> m2.contains(
                spec_vh(edges[spec_vh(pre2[b]) as int][q]) as int,
            ) by {
        assert(b != j) by {
            assert(pos2[pos.len() as int] == j);
        }
        assert(pre2[b] == pre[b]);
        assert forall|k: int| 0 <= k < pos.len() implies pos[k] != b by {
            assert(pos2[k] == pos[k]);
        }
    }
    if f2.len() > 0 {
        assert(f2[0] == frames[0] || l == 0);
        assert(pos2[0] == pos[0]);
    }
}

/// The edges the top frame has read lead to marked vertices.
proof fn lemma_explore_top_read(
    edges: Seq<Seq<Edge>>,
    frames: Seq<(usize, usize, usize)>,
    explored: Set<int>,
    marks: Set<int>,
    sv: int,
    count: int,
)
    requires
        explore_ok(edges, frames, explored, marks, sv, count),
        frames.len() >= 1,
    ensures
        forall|q: int|
            0 <= q < frames.last().1 ==> marks.contains(spec_vh(#[trigger] edges[frames.last().0 as int][q]) as int),
{
    reveal(explore_ok);
    let l = frames.len() - 1;
    assert(frames[l] == frames.last());
    assert forall|q: int| 0 <= q < frames.last().1 implies marks.contains(
        spec_vh(#[trigger] edges[frames.last().0 as int][q]) as int,
    ) by {
        assert(marks.contains(spec_vh(edges[frames[l].0 as int][q]) as int));
    }
}

proof fn lemma_explore_start(edges: Seq<Seq<Edge>>, sv: int, count: int, svu: usize, tlen: usize)
    requires
        0 <= sv < count,
        svu == sv,
    ensures
        explore_ok(edges, seq![(svu, 0usize, tlen)], Set::empty(), Set::empty(), sv, count),
{
    reveal(explore_ok);
}

proof fn lemma_explore_pop(
    edges: Seq<Seq<Edge>>,
    frames: Seq<(usize, usize, usize)>,
    explored: Set<int>,
    marks: Set<int>,
    sv: int,
    count: int,
)
    requires
        explore_ok(edges, frames, explored, marks, sv, count),
        frames.len() >= 1,
        frames.last().1 == frames.last().2,
        frames.last().2 == edges[frames.last().0 as int].len(),
        frames.last().0 < count,
    ensures
        explore_ok(edges, frames.drop_last(), explored.insert(frames.last().0 as int), marks, sv, count),
{
    reveal(explore_ok);
    let l = frames.len();
    let d = frames.drop_last();
    let e2 = explored.insert(frames.last().0 as int);
    assert(frames[l - 1] == frames.last());
    assert forall|x: int| #[trigger] e2.contains(x) implies 0 <= x < count && forall|k: int|
        0 <= k < edges[x].len() ==> marks.contains(spec_vh(#[trigger] edges[x][k]) as int) by {
        if x == frames.last().0 {
            assert forall|k: int| 0 <= k < edges[x].len() implies marks.contains(
                spec_vh(#[trigger] edges[x][k]) as int,
            ) by {
                assert(0 <= k < frames[l - 1].1);
            }
        }
    }
    assert forall|j: int, k: int| 0 <= j < d.len() && 0 <= k < d[j].1 implies marks.contains(
        spec_vh(#[trigger] edges[d[j].0 as int][k]) as int,
    ) by {
        assert(d[j] == frames[j]);
    }
    assert forall|x: int| #[trigger] marks.contains(x) implies e2.contains(x) || exists|j: int|
        0 <= j < d.len() && #[trigger] d[j].0 == x by {
        if !explored.contains(x) {
            let j = choose|j: int| 0 <= j < frames.len() && #[trigger] frames[j].0 == x;
            if j < l - 1 {
                assert(d[j] == frames[j]);
            }
        }
    }
    if d.len() > 0 {
        assert(d[0] == frames[0]);
    }
}

proof fn lemma_explore_advance(
    edges: Seq<Seq<Edge>>,
    frames: Seq<(usize, usize, usize)>,
    explored: Set<int>,
    marks: Set<int>,
    sv: int,
    count: int,
    child: Option<(usize, usize, usize)>,
)
    requires
        explore_ok(edges, frames, explored, marks, sv, count),
        frames.len() >= 1,
        frames.last().1 < edges[frames.last().0 as int].len(),
        child matches Some(c) ==> c.0 == spec_vh(edges[frames.last().0 as int][frames.last().1 as int]) && c.1 == 0,
        child is None ==> marks.contains(spec_vh(edges[frames.last().0 as int][frames.last().1 as int]) as int),
    ensures
        ({
            let top = frames.last();
            let t = spec_vh(edges[top.0 as int][top.1 as int]) as int;
            let next = frames.drop_last().push((top.0, (top.1 + 1) as usize, top.2));
            let next2 = match child {
                Some(c) => next.push(c),
                None => next,
            };
            explore_ok(edges, next2, explored, marks.insert(t), sv, count)
        }),
{
    reveal(explore_ok);
    let l = frames.len();
    let top = frames.last();
    let t = spec_vh(edges[top.0 as int][top.1 as int]) as int;
    let m2 = marks.insert(t);
    let next = frames.drop_last().push((top.0, (top.1 + 1) as usize, top.2));
    let next2 = match child {
        Some(c) => next.push(c),
        None => next,
    };
    assert(frames[l - 1] == top);
    assert forall|j: int, k: int| 0 <= j < next2.len() && 0 <= k < next2[j].1 implies m2.contains(
        spec_vh(#[trigger] edges[next2[j].0 as int][k]) as int,
    ) by {
        if j < l - 1 {
            assert(next2[j] == frames[j]);
        } else if j == l - 1 {
            assert(next2[j].0 == top.0);
            if k < top.1 {
                assert(marks.contains(spec_vh(edges[frames[l - 1].0 as int][k]) as int));
            }
        }
    }
    assert forall|x: int| #[trigger] m2.contains(x) implies explored.contains(x) || exists|j: int|
        0 <= j < next2.len() && #[trigger] next2[j].0 == x by {
        if x == t && !marks.contains(t) {
            assert(next2[l as int].0 == x);
        } else {
            assert(marks.contains(x));
            if !explored.contains(x) {
                let j = choose|j: int| 0 <= j < frames.len() && #[trigger] frames[j].0 == x;
                assert(next2[j].0 == frames[j].0);
            }
        }
    }
    assert forall|x: int| #[trigger] explored.contains(x) implies 0 <= x < count && forall|k: int|
        0 <= k < edges[x].len() ==> m2.contains(spec_vh(#[trigger] edges[x][k]) as int) by {
        assert forall|k: int| 0 <= k < edges[x].len() implies m2.contains(
            spec_vh(#[trigger] edges[x][k]) as int,
        ) by {
            assert(marks.contains(spec_vh(edges[x][k]) as int));
        }
    }
    assert(next2[0].0 == frames[0].0);
}

/// The edge that opened frame `j` depends only on the frames below it.
proof fn lemma_frame_edge_same(
    edges: Seq<Seq<Edge>>,
    start: Edge,
    frames: Seq<(usize, usize, usize)>,
    frames2: Seq<(usize, usize, usize)>,
    m: int,
)
    requires
        0 <= m <= frames.len(),
        m <= frames2.len(),
        forall|i: int| 0 <= i < m ==> frames2[i] == frames[i],
    ensures
        forall|j: int| 0 <= j <= m ==> #[trigger] frame_edge(edges, start, frames2, j) == frame_edge(edges, start, frames, j),
{
    assert forall|j: int| 0 <= j <= m implies #[trigger] frame_edge(edges, start, frames2, j) == frame_edge(
        edges,
        start,
        frames,
        j,
    ) by {
        if j > 0 {
            assert(frames2[j - 1] == frames[j - 1]);
        }
    }
}

/// Appending a step that is not a visited check keeps the checks' answers
/// and the checked targets.
proof fn lemma_log_other<T: VisitTracker>(steps: Seq<DfsStep>, x: DfsStep, tracker: T)
    requires
        answered_by(steps, tracker),
        !(x is Asked),
    ensures
        answered_by(steps.push(x), tracker),
        forall|v: int| asked_target(steps.push(x), v) <==> asked_target(steps, v),
{
    let s2 = steps.push(x);
    assert forall|k: int| 0 <= k < s2.len() implies match #[trigger] s2[k] {
        DfsStep::Asked(e, b) => tracker.answers(e, b) && (tracker.exact() ==> b == (tracker.marks().contains(
            spec_vh(e) as int,
        ) || asked_target(s2.take(k), spec_vh(e) as int))),
        _ => true,
    } by {
        if k < steps.len() {
            assert(s2[k] == steps[k]);
            assert(s2.take(k) =~= steps.take(k));
            match steps[k] {
                DfsStep::Asked(e, b) => {},
                _ => {},
            }
        }
    }
    assert forall|v: int| asked_target(s2, v) <==> asked_target(steps, v) by {
        if asked_target(s2, v) {
            let j = choose|j: int| 0 <= j < s2.len() && asks_about(#[trigger] s2[j], v);
            assert(steps[j] == s2[j]);
        }
        if asked_target(steps, v) {
            let j = choose|j: int| 0 <= j < steps.len() && asks_about(#[trigger] steps[j], v);
            assert(steps[j] == s2[j]);
        }
    }
}

/// Appending a visited check about `e` answered `was` keeps the answers
/// right when `was` is an answer the tracker may give and, from an exact
/// tracker, is whether its marks or an earlier check covered the target.
proof fn lemma_log_asked<T: VisitTracker>(steps: Seq<DfsStep>, e: Edge, was: bool, tracker: T)
    requires
        answered_by(steps, tracker),
        tracker.answers(e, was),
        tracker.exact() ==> was == (tracker.marks().contains(spec_vh(e) as int) || asked_target(
            steps,
            spec_vh(e) as int,
        )),
    ensures
        answered_by(steps.push(DfsStep::Asked(e, was)), tracker),
        forall|v: int|
            asked_target(steps.push(DfsStep::Asked(e, was)), v) <==> (asked_target(steps, v) || v == spec_vh(e)),
{
    let x = DfsStep::Asked(e, was);
    let s2 = steps.push(x);
    assert forall|k: int| 0 <= k < s2.len() implies match #[trigger] s2[k] {
        DfsStep::Asked(e, b) => tracker.answers(e, b) && (tracker.exact() ==> b == (tracker.marks().contains(
            spec_vh(e) as int,
        ) || asked_target(s2.take(k), spec_vh(e) as int))),
        _ => true,
    } by {
        if k < steps.len() {
            assert(s2[k] == steps[k]);
            assert(s2.take(k) =~= steps.take(k));
            match steps[k] {
                DfsStep::Asked(e, b) => {},
                _ => {},
            }
        } else {
            assert(s2.take(k) =~= steps);
        }
    }
    assert forall|v: int| asked_target(s2, v) <==> (asked_target(steps, v) || v == spec_vh(e)) by {
        if asked_target(s2, v) {
            let j = choose|j: int| 0 <= j < s2.len() && asks_about(#[trigger] s2[j], v);
            if j < steps.len() {
                assert(steps[j] == s2[j]);
            }
        }
        if asked_target(steps, v) {
            let j = choose|j: int| 0 <= j < steps.len() && asks_about(#[trigger] steps[j], v);
            assert(steps[j] == s2[j]);
        }
        if v == spec_vh(e) {
            assert(asks_about(s2[steps.len() as int], v));
        }
    }
}

/// Depth-first traversal from the target of `start`, asking `tracker`
/// whether each edge's target was seen before exploring it.
fn dfs_tracked<Tracker, PreOrderFunc, PostOrderFunc, Edges>(
    edge_storage: &Edges,
    start: Edge,
    vertex_count: usize,
    tracker: &mut Tracker,
    pre_order: PreOrderFunc,
    post_order: PostOrderFunc,
) -> (r: Result<DfsTrace, TraversalError>)
    where
        Tracker: VisitTracker,
        PreOrderFunc: FnMut(Edge) -> ControlFlow,
        PostOrderFunc: FnMut(Edge),
        Edges: EdgeStore,
    requires
        edge_storage.wf(),
        spec_vh(start) < edge_storage.spec_edges().len(),
        targets_below(edge_storage.spec_edges(), edge_storage.spec_edges().len() as int),
        edge_storage.spec_edges().len() <= vertex_count,
        layout_fits(vertex_count as int, 24),
        forall|e: Edge| #[trigger] pre_order.requires((e,)),
        forall|e: Edge| #[trigger] post_order.requires((e,)),
        forall|e: Edge|
            spec_vh(e) < edge_storage.spec_edges().len() ==> #[trigger] old(tracker).accepts(e),
    ensures
        r matches Ok(t) ==> dfs_result_ok(
            edge_storage.spec_edges(),
            start,
            t.0@,
            t.1@,
            always_resumes_edge(pre_order),
            old(tracker).exact(),
            old(tracker).marks(),
        ),
        r matches Ok(t) ==> t.0@ == entered_edges(t.2@) && t.1@ == left_edges(t.2@) && dfs_transcript(
            edge_storage.spec_edges(),
            start,
            t.2@,
        ) && answered_by(t.2@, *old(tracker)) && decided_by(t.2@, pre_order),
        old(tracker).exact() && edge_storage.spec_edges().len() < vertex_count ==> r is Ok,
        r is Err ==> exists|s: Seq<DfsStep>|
            #[trigger] dfs_overflows(edge_storage.spec_edges(), start, s, vertex_count as int) && answered_by(
                s,
                *old(tracker),
            ) && decided_by(s, pre_order),
        r is Err ==> exists|x: int| #[trigger]
            reachable_in(edge_storage.spec_edges(), spec_vh(start) as int, x, vertex_count as int),
{
    let ghost edges = edge_storage.spec_edges();
    let ghost count = edges.len() as int;
    let ghost sv = spec_vh(start) as int;
    let ghost ar = always_resumes_edge(pre_order);
    let mut pre_order_func = pre_order;
    let mut post_order_func = post_order;
    let ghost ex = tracker.exact();
    let ghost m0 = tracker.marks();
    let ghost full = ar && ex && m0 == Set::<int>::empty();
    let ghost b: int = max_degree(edges) as int + 2;
    let n = vertex_count;
    let mut stack = frame_stack_new(n);
    let sh = vh(start);
    let slen = edge_storage.edges_len(sh);
    frame_stack_push(&mut stack, (sh as usize, 0, slen));
    let mut pre: Vec<Edge> = Vec::new();
    let mut post: Vec<Edge> = Vec::new();
    let ghost mut pushes: int = 1;
    let ghost mut skips: int = 0;
    let ghost mut explored: Set<int> = Set::empty();
    proof {
        edge_storage.lemma_shape();
        lemma_reachable_self(edges, sv);
        assert(frame_stack_items(stack) =~= seq![(sh as usize, 0usize, slen)]);
        lemma_frames_start(edges, start, count, sh as usize, slen);
        lemma_explore_start(edges, sv, count, sh as usize, slen);
    }
    let first = pre_order_func(start);
    pre.push(start);
    let mut steps: Vec<DfsStep> = Vec::new();
    steps.push(DfsStep::Entered(start, first));
    let ghost mut sframes: Seq<(Edge, int)> = seq![(start, 0int)];
    let ghost mut phase: DfsPhase = DfsPhase::Exploring;
    proof {
        assert(steps@.drop_last() =~= Seq::<DfsStep>::empty());
        assert(steps@.skip(1) =~= Seq::<DfsStep>::empty());
        assert(entered_edges(Seq::<DfsStep>::empty()) == Seq::<Edge>::empty());
        assert(left_edges(Seq::<DfsStep>::empty()) == Seq::<Edge>::empty());
        assert(steps@.last() == DfsStep::Entered(start, first));
        assert(pre@ =~= entered_edges(steps@));
        assert(post@ =~= left_edges(steps@));
        assert(steps@.take(0) =~= Seq::<DfsStep>::empty());
    }
    let ghost mut pos: Seq<int> = seq![0int];
    proof {
        if full {
            assert(pre@ =~= seq![start]);
            lemma_order_start(edges, start, (sh as usize, 0usize, slen));
        }
    }
    match first {
        ControlFlow::End => {
            proof {
                reveal(dfs_result_ok);
            }
            return Ok((pre, post, steps));
        },
        _ => {},
    }
    let mut done = false;
    while frame_stack_len(&stack) > 0 && !done
        invariant
            edge_storage.wf(),
            edges == edge_storage.spec_edges(),
            count == edges.len(),
            sv == spec_vh(start),
            sv < count,
            count <= n,
            n == vertex_count,
            targets_below(edges, count),
            b == max_degree(edges) + 2,
            ar == always_resumes_edge(pre_order_func),
            ar == always_resumes_edge(pre_order),
            full == (ar && ex && m0 == Set::<int>::empty()),
            forall|e: Edge| #[trigger] pre_order_func.requires((e,)),
            forall|e: Edge| #[trigger] post_order_func.requires((e,)),
            forall|e: Edge| spec_vh(e) < count ==> #[trigger] tracker.accepts(e),
            ex == old(tracker).exact(),
            m0 == old(tracker).marks(),
            ex ==> tracker.exact(),
            ex ==> m0.subset_of(tracker.marks()),
            count <= u32::MAX,
            reachable(edges, sv, sv),
            frame_stack_capacity(stack) == n,
            frame_stack_items(stack).len() <= n,
            frames_ok(edges, start, frame_stack_items(stack), count),
            pre@.len() >= 1,
            pre@[0] == start,
            forall|j: int|
                1 <= j < pre@.len() ==> spec_vh(#[trigger] pre@[j]) < count && reachable(
                    edges,
                    sv,
                    spec_vh(pre@[j]) as int,
                ),
            forall|j: int| 0 <= j < post@.len() ==> reachable(edges, sv, spec_vh(#[trigger] post@[j]) as int),
            forall|j: int| 1 <= j < pre@.len() ==> edge_of_reached(edges, sv, #[trigger] pre@[j]),
            forall|j: int| 0 <= j < post@.len() ==> #[trigger] post@[j] == start || edge_of_reached(edges, sv, post@[j]),
            post@.len() + frame_stack_items(stack).len() == pushes,
            pre@.len() == pushes + skips,
            skips >= 0,
            ar ==> skips == 0 && !done,
            ex ==> forall|j: int, k: int|
                1 <= j < k < pre@.len() ==> spec_vh(#[trigger] pre@[j]) != spec_vh(#[trigger] pre@[k]),
            ex ==> forall|j: int|
                1 <= j < pre@.len() ==> !m0.contains(spec_vh(#[trigger] pre@[j]) as int)
                    && tracker.marks().contains(spec_vh(pre@[j]) as int),
            ex ==> forall|x: int|
                #[trigger] tracker.marks().contains(x) ==> m0.contains(x) || holds_target(pre@, x),
            full ==> explore_ok(edges, frame_stack_items(stack), explored, tracker.marks(), sv, count),
            full ==> order_ok(edges, frame_stack_items(stack), pos, pre@, tracker.marks()),
            pre_order_func == pre_order,
            steps@.len() >= 1,
            steps@[0] == DfsStep::Entered(start, first),
            !(first is End),
            pre@ == entered_edges(steps@),
            post@ == left_edges(steps@),
            decided_by(steps@, pre_order),
            answered_by(steps@, *old(tracker)),
            forall|x: Edge, w: bool| #[trigger] tracker.answers(x, w) == old(tracker).answers(x, w),
            ex ==> forall|x: int| #[trigger] tracker.marks().contains(x) <==> (m0.contains(x) || asked_target(steps@, x)),
            phase == (if done { DfsPhase::Closing } else { DfsPhase::Exploring }),
            dfs_replay(edges, start, steps@.skip(1)) == (sframes, phase, true),
            sframes.len() == frame_stack_items(stack).len(),
            forall|j: int|
                0 <= j < sframes.len() ==> #[trigger] sframes[j] == (
                    frame_edge(edges, start, frame_stack_items(stack), j),
                    frame_stack_items(stack)[j].1 as int,
                ),
        decreases stack_work(frame_stack_items(stack), n as nat, b),
    {
        let ghost frames = frame_stack_items(stack);
        proof {
            lemma_frames_top(edges, start, frames, count);
            lemma_stack_work_nonneg(frames, n as nat, b);
        }
        let top = match frame_stack_pop(&mut stack) {
            Some(f) => f,
            None => {
                proof {
                    assert(false);
                }
                (0, 0, 0)
            },
        };
        let (v, cur, len) = top;
        if cur == len {
            let e = match frame_stack_top(&stack) {
                None => start,
                Some(parent) => {
                    proof {
                        assert(parent == frames[frames.len() - 2]);
                    }
                    let pe = edge_storage.edge_at(parent.0 as u32, parent.1 - 1);
                    proof {
                        assert(edges[parent.0 as int][parent.1 - 1] == pe);
                        assert(edge_of_reached(edges, sv, pe));
                    }
                    pe
                },
            };
            proof {
                lemma_stack_work_pop(frames, n as nat, b);
                if full {
                    lemma_explore_top_read(edges, frames, explored, tracker.marks(), sv, count);
                    lemma_order_pop(edges, frames, pos, pre@, tracker.marks());
                    pos = pos.drop_last();
                    lemma_explore_pop(edges, frames, explored, tracker.marks(), sv, count);
                    explored = explored.insert(v as int);
                }
            }
            post_order_func(e);
            post.push(e);
            let ghost steps_before = steps@;
            steps.push(DfsStep::Left(e));
            proof {
                lemma_steps_push(edges, start, steps_before, DfsStep::Left(e));
                let sf0 = sframes;
                let l = frames.len() as int;
                assert(sf0.last() == sf0[l - 1]);
                assert(sf0[l - 1] == (frame_edge(edges, start, frames, l - 1), frames[l - 1].1 as int));
                assert(frame_edge(edges, start, frames, l - 1) == e);
                assert(frame_stack_items(stack) == frames.drop_last());
                lemma_frame_edge_same(edges, start, frames, frames.drop_last(), l - 1);
                sframes = sf0.drop_last();
                assert forall|j: int| 0 <= j < sframes.len() implies #[trigger] sframes[j] == (
                    frame_edge(edges, start, frame_stack_items(stack), j),
                    frame_stack_items(stack)[j].1 as int,
                ) by {
                    assert(sframes[j] == sf0[j]);
                    assert(frame_stack_items(stack)[j] == frames[j]);
                }
                lemma_log_other(steps_before, DfsStep::Left(e), *old(tracker));
            }
        } else {
            let advanced = (v, cur + 1, len);
            frame_stack_push(&mut stack, advanced);
            proof {
                lemma_frames_advance(edges, start, frames, count);
                assert(frame_stack_items(stack) == frames.drop_last().push(advanced));
            }
            let edge = edge_storage.edge_at(v as u32, cur);
            proof {
                assert(spec_vh(edges[v as int][cur as int]) < count);
                lemma_reachable_step(edges, sv, v as int, cur as int);
            }
            let ghost marks_before = tracker.marks();
            let ghost pre_before = pre@;
            let seen = tracker.check_and_mark(edge);
            let ghost steps_b0 = steps@;
            steps.push(DfsStep::Asked(edge, seen));
            proof {
                lemma_steps_push(edges, start, steps_b0, DfsStep::Asked(edge, seen));
                assert(old(tracker).answers(edge, seen));
                lemma_log_asked(steps_b0, edge, seen, *old(tracker));
                let sf0 = sframes;
                let l = frames.len() as int;
                lemma_frames_top(edges, start, frames, count);
                assert(sf0.last() == sf0[l - 1]);
                assert(sf0[l - 1] == (frame_edge(edges, start, frames, l - 1), frames[l - 1].1 as int));
                assert(frames[l - 1] == top);
                assert(spec_vh(sf0.last().0) == v);
                assert(edges[v as int][cur as int] == edge);
                let f2 = frame_stack_items(stack);
                assert(f2 == frames.drop_last().push(advanced));
                lemma_frame_edge_same(edges, start, frames, f2, l - 1);
                sframes = sf0.drop_last().push((sf0.last().0, cur + 1));
                phase = if seen { DfsPhase::Exploring } else { DfsPhase::Deciding(edge) };
                assert forall|j: int| 0 <= j < sframes.len() implies #[trigger] sframes[j] == (
                    frame_edge(edges, start, f2, j),
                    f2[j].1 as int,
                ) by {
                    if j < l - 1 {
                        assert(sframes[j] == sf0[j]);
                        assert(f2[j] == frames[j]);
                    } else {
                        assert(f2[j] == advanced);
                        assert(frame_edge(edges, start, f2, j) == frame_edge(edges, start, frames, j));
                    }
                }
                assert(dfs_replay(edges, start, steps@.skip(1)) == (sframes, phase, true));
            }
            if seen {
                proof {
                    lemma_stack_work_advance(frames, advanced, None, n as nat, b);
                    if full {
                        lemma_explore_advance(edges, frames, explored, marks_before, sv, count, None);
                        assert(marks_before.insert(spec_vh(edge) as int) == tracker.marks());
                        assert(marks_before.insert(spec_vh(edge) as int) =~= marks_before);
                        lemma_order_skip(edges, frames, pos, pre@, marks_before, advanced);
                    }
                }
            } else {
                let decision = pre_order_func(edge);
                pre.push(edge);
                let ghost steps_b1 = steps@;
                steps.push(DfsStep::Entered(edge, decision));
                proof {
                    lemma_steps_push(edges, start, steps_b1, DfsStep::Entered(edge, decision));
                    lemma_log_other(steps_b1, DfsStep::Entered(edge, decision), *old(tracker));
                    assert forall|k: int| 0 <= k < steps@.len() implies match #[trigger] steps@[k] {
                        DfsStep::Entered(e, d) => pre_order.ensures((e,), d),
                        _ => true,
                    } by {
                        if k < steps_b1.len() {
                            assert(steps@[k] == steps_b1[k]);
                        }
                    }
                }
                proof {
                    assert(edges[v as int][cur as int] == edge);
                    assert(edge_of_reached(edges, sv, edge));
                    assert forall|j: int| 1 <= j < pre@.len() implies edge_of_reached(edges, sv, #[trigger] pre@[j]) by {
                        if j < pre@.len() - 1 {
                            assert(pre@[j] == pre_before[j]);
                        }
                    }
                    if ex {
                        assert(!marks_before.contains(spec_vh(edge) as int));
                        assert(!m0.contains(spec_vh(edge) as int));
                        assert forall|j: int, k: int|
                            1 <= j < k < pre@.len() implies spec_vh(#[trigger] pre@[j]) != spec_vh(
                                #[trigger] pre@[k],
                            ) by {
                            assert(pre@[j] == pre_before[j]);
                            if k < pre@.len() - 1 {
                                assert(pre@[k] == pre_before[k]);
                            } else {
                                assert(marks_before.contains(spec_vh(pre_before[j]) as int));
                            }
                        }
                        assert forall|x: int| #[trigger] tracker.marks().contains(x) implies m0.contains(x)
                            || holds_target(pre@, x) by {
                            if x == spec_vh(edge) {
                                assert(spec_vh(pre@[pre@.len() - 1]) == x);
                            } else {
                                assert(marks_before.contains(x));
                                if !m0.contains(x) {
                                    let j = choose|j: int| 0 <= j < pre_before.len() && spec_vh(#[trigger] pre_before[j]) == x;
                                    assert(pre@[j] == pre_before[j]);
                                }
                            }
                        }
                    }
                }
                match decision {
                    ControlFlow::End => {
                        done = true;
                        proof {
                            phase = DfsPhase::Closing;
                            skips = skips + 1;
                            lemma_stack_work_advance(frames, advanced, None, n as nat, b);
                        }
                    },
                    ControlFlow::Exit => {
                        proof {
                            reveal(dfs_result_ok);
                            assert(!ar);
                        }
                        return Ok((pre, post, steps));
                    },
                    ControlFlow::Continue => {
                        proof {
                            phase = DfsPhase::Exploring;
                            skips = skips + 1;
                            lemma_stack_work_advance(frames, advanced, None, n as nat, b);
                        }
                    },
                    ControlFlow::Resume => {
                        proof {
                            if ex {
                                let tg = Seq::new((pre@.len() - 1) as nat, |j: int| spec_vh(pre@[j + 1]));
                                assert(tg.no_duplicates()) by {
                                    assert forall|a: int, c: int| 0 <= a < tg.len() && 0 <= c < tg.len() && a != c implies tg[a]
                                        != tg[c] by {
                                        if a < c {
                                            assert(spec_vh(pre@[a + 1]) != spec_vh(pre@[c + 1]));
                                        } else {
                                            assert(spec_vh(pre@[c + 1]) != spec_vh(pre@[a + 1]));
                                        }
                                    }
                                }
                                assert forall|j: int| 0 <= j < tg.len() implies #[trigger] tg[j] < count by {
                                    assert(spec_vh(pre@[j + 1]) < count);
                                }
                                lemma_distinct_below(tg, count);
                                assert(pre@.len() == pre_before.len() + 1);
                                assert(frames.len() <= pushes);
                                assert(frame_stack_items(stack).len() == frames.len());
                                assert(ex && count < n ==> frame_stack_items(stack).len() < n);
                            }
                        }
                        if frame_stack_len(&stack) >= n {
                            proof {
                                assert(frame_stack_items(stack).len() == frames.len());
                                lemma_frames_walk(edges, start, frames, count);
                                assert(frames.last() == top);
                                lemma_reachable_in_step(edges, sv, v as int, frames.len() - 1, cur as int);
                                lemma_reachable_in_prefix(
                                    edges,
                                    sv,
                                    spec_vh(edges[v as int][cur as int]) as int,
                                    frames.len() as int,
                                    n as int,
                                );
                                assert(dfs_replay(edges, start, steps@.skip(1)) == (
                                    sframes.push((edge, 0int)),
                                    DfsPhase::Exploring,
                                    true,
                                ));
                                assert(dfs_overflows(edges, start, steps@, n as int));
                            }
                            return Err(TraversalError::StackOverflow);
                        }
                        let t = vh(edge);
                        let tlen = edge_storage.edges_len(t);
                        let child = (t as usize, 0usize, tlen);
                        proof {
                            lemma_max_degree(edges, t as int);
                            lemma_stack_work_advance(frames, advanced, Some(child), n as nat, b);
                            let adv_frames = frames.drop_last().push(advanced);
                            assert(adv_frames.last() == advanced);
                            lemma_frames_push(edges, start, adv_frames, count, t as usize, tlen);
                            if full {
                                lemma_explore_top_read(edges, frames, explored, marks_before, sv, count);
                                lemma_order_enter(edges, frames, pos, pre_before, marks_before, advanced, child);
                                assert(pre@ == pre_before.push(edges[v as int][cur as int]));
                                pos = pos.push(pre_before.len() as int);
                                lemma_explore_advance(edges, frames, explored, marks_before, sv, count, Some(child));
                            }
                        }
                        let ghost f2 = frame_stack_items(stack);
                        frame_stack_push(&mut stack, child);
                        proof {
                            pushes = pushes + 1;
                            let sf1 = sframes;
                            let l2 = f2.len() as int;
                            let f3 = frame_stack_items(stack);
                            assert(f3 == f2.push(child));
                            lemma_frame_edge_same(edges, start, f2, f3, l2);
                            assert(f2[l2 - 1] == advanced);
                            assert(frame_edge(edges, start, f3, l2) == edge);
                            sframes = sf1.push((edge, 0int));
                            phase = DfsPhase::Exploring;
                            assert forall|j: int| 0 <= j < sframes.len() implies #[trigger] sframes[j] == (
                                frame_edge(edges, start, f3, j),
                                f3[j].1 as int,
                            ) by {
                                if j < l2 {
                                    assert(sframes[j] == sf1[j]);
                                    assert(f3[j] == f2[j]);
                                }
                            }
                        }
                    },
                }
            }
        }
    }
    proof {
        if full {
            reveal(order_ok);
            assert(frame_stack_items(stack).len() == 0);
            assert(dfs_order(edges, pre@));
            assert forall|a: int| 0 <= a < pre@.len() implies !has_fresh_edge(
                edges,
                pre@,
                pre@.len() as int,
                spec_vh(#[trigger] pre@[a]) as int,
            ) by {
                assert forall|q: int| 0 <= q < edges[spec_vh(pre@[a]) as int].len() implies seen_before(
                    pre@,
                    pre@.len() as int,
                    spec_vh(#[trigger] edges[spec_vh(pre@[a]) as int][q]) as int,
                ) by {
                    assert(tracker.marks().contains(spec_vh(edges[spec_vh(pre@[a]) as int][q]) as int));
                }
            }
            assert(dfs_maximal(edges, pre@));
        }
    }
    while frame_stack_len(&stack) > 0
        invariant
            edge_storage.wf(),
            edges == edge_storage.spec_edges(),
            count == edges.len(),
            sv == spec_vh(start),
            sv < count,
            count <= u32::MAX,
            reachable(edges, sv, sv),
            targets_below(edges, count),
            forall|e: Edge| #[trigger] post_order_func.requires((e,)),
            frame_stack_capacity(stack) == n,
            frames_ok(edges, start, frame_stack_items(stack), count),
            forall|j: int| 0 <= j < post@.len() ==> reachable(edges, sv, spec_vh(#[trigger] post@[j]) as int),
            forall|j: int| 0 <= j < post@.len() ==> #[trigger] post@[j] == start || edge_of_reached(edges, sv, post@[j]),
            post@.len() + frame_stack_items(stack).len() == pushes,
            pre@.len() == pushes + skips,
            skips >= 0,
            ar ==> skips == 0,
            steps@.len() >= 1,
            steps@[0] == DfsStep::Entered(start, first),
            !(first is End),
            pre@ == entered_edges(steps@),
            post@ == left_edges(steps@),
            decided_by(steps@, pre_order),
            answered_by(steps@, *old(tracker)),
            dfs_replay(edges, start, steps@.skip(1)) == (sframes, phase, true),
            phase is Closing || (phase is Exploring && sframes.len() == 0),
            sframes.len() == frame_stack_items(stack).len(),
            forall|j: int|
                0 <= j < sframes.len() ==> #[trigger] sframes[j] == (
                    frame_edge(edges, start, frame_stack_items(stack), j),
                    frame_stack_items(stack)[j].1 as int,
                ),
        decreases frame_stack_items(stack).len(),
    {
        let ghost frames = frame_stack_items(stack);
        proof {
            lemma_frames_top(edges, start, frames, count);
        }
        let top = match frame_stack_pop(&mut stack) {
            Some(f) => f,
            None => {
                proof {
                    assert(false);
                }
                (0, 0, 0)
            },
        };
        let e = match frame_stack_top(&stack) {
            None => start,
            Some(parent) => {
                proof {
                    assert(parent == frames[frames.len() - 2]);
                }
                let pe = edge_storage.edge_at(parent.0 as u32, parent.1 - 1);
                proof {
                    assert(edges[parent.0 as int][parent.1 - 1] == pe);
                    assert(edge_of_reached(edges, sv, pe));
                }
                pe
            },
        };
        post_order_func(e);
        post.push(e);
        let ghost steps_before = steps@;
        steps.push(DfsStep::Left(e));
        proof {
            lemma_steps_push(edges, start, steps_before, DfsStep::Left(e));
            let sf0 = sframes;
            let l = frames.len() as int;
            assert(sf0.last() == sf0[l - 1]);
            assert(sf0[l - 1] == (frame_edge(edges, start, frames, l - 1), frames[l - 1].1 as int));
            assert(frame_edge(edges, start, frames, l - 1) == e);
            assert(frame_stack_items(stack) == frames.drop_last());
            lemma_frame_edge_same(edges, start, frames, frames.drop_last(), l - 1);
            sframes = sf0.drop_last();
            assert forall|j: int| 0 <= j < sframes.len() implies #[trigger] sframes[j] == (
                frame_edge(edges, start, frame_stack_items(stack), j),
                frame_stack_items(stack)[j].1 as int,
            ) by {
                assert(sframes[j] == sf0[j]);
                assert(frame_stack_items(stack)[j] == frames[j]);
            }
            lemma_log_other(steps_before, DfsStep::Left(e), *old(tracker));
        }
    }
    proof {
        reveal(dfs_result_ok);
        if full {
            reveal(explore_ok);
            let s = explored;
            let marks = tracker.marks();
            assert forall|u: int, w: int| s.contains(u) && #[trigger] has_edge(edges, u, w) implies s.contains(w) by {
                let q = choose|q: int| 0 <= q < edges[u].len() && spec_vh(#[trigger] edges[u][q]) == w;
                assert(marks.contains(spec_vh(edges[u][q]) as int));
            }
            assert forall|v: int| holds_target(pre@, v) <==> reachable(edges, sv, v) by {
                if reachable(edges, sv, v) {
                    lemma_closed_holds_reachable(edges, s, sv, v);
                    if v != sv {
                        assert(marks.contains(v)) by {
                            let p = choose|p: Seq<int>| #[trigger] crate::paths::is_path(edges, p) && p[0] == sv && p.last() == v;
                            assert(p.len() >= 2);
                            let i = p.len() - 2;
                            assert(has_edge(edges, p[i], p[i + 1]));
                            let u = p[i];
                            crate::paths::lemma_reachable_prefix(edges, p, i);
                            lemma_closed_holds_reachable(edges, s, sv, u);
                            let q = choose|q: int| 0 <= q < edges[u].len() && spec_vh(#[trigger] edges[u][q]) == v;
                            assert(marks.contains(spec_vh(edges[u][q]) as int));
                        }
                    } else {
                        assert(spec_vh(pre@[0]) == v);
                    }
                }
                if holds_target(pre@, v) {
                    let j = choose|j: int| 0 <= j < pre@.len() && spec_vh(#[trigger] pre@[j]) == v;
                    if j == 0 {
                        lemma_reachable_self(edges, sv);
                    }
                }
            }
        }
    }
    Ok((pre, post, steps))
}

/// Depth-first traversal from the target of `start` that skips every edge
/// whose target `is_visited` reports as visited.
///
/// `pre_order_func` is called on `start` and then on every edge whose
/// target `is_visited` answers `false` for; on `Resume` the target is
/// explored, on `Continue` it is not, on `End` exploring stops and
/// `post_order_func` is called on the edges of the open frames, on `Exit`
/// the traversal returns at once (an `End` answered for `start` also returns
/// at once). `post_order_func` is called on the edge that opened a frame
/// when the frame's edges are all read. Returns the edges handed to both
/// callbacks and every step taken, which together form a whole traversal
/// (`dfs_transcript`) in which every answer is one the callbacks may give,
/// or `StackOverflow` when a frame would be opened beyond `vertex_count`:
/// then the steps taken so far, with answers the callbacks may give, leave
/// more than `vertex_count` frames open (`dfs_overflows`).
pub fn dfs_custom_flags<VisitedFunc, PreOrderFunc, PostOrderFunc, Edges>(
    edge_storage: &Edges,
    start: Edge,
    vertex_count: usize,
    is_visited: VisitedFunc,
    pre_order_func: PreOrderFunc,
    post_order_func: PostOrderFunc,
) -> (r: Result<DfsTrace, TraversalError>)
    where
        VisitedFunc: FnMut(Edge) -> bool,
        PreOrderFunc: FnMut(Edge) -> ControlFlow,
        PostOrderFunc: FnMut(Edge),
        Edges: EdgeStore,
    requires
        edge_storage.wf(),
        spec_vh(start) < edge_storage.spec_edges().len(),
        targets_below(edge_storage.spec_edges(), edge_storage.spec_edges().len() as int),
        edge_storage.spec_edges().len() <= vertex_count,
        layout_fits(vertex_count as int, 24),
        forall|e: Edge| #[trigger] is_visited.requires((e,)),
        forall|e: Edge| #[trigger] pre_order_func.requires((e,)),
        forall|e: Edge| #[trigger] post_order_func.requires((e,)),
    ensures
        r matches Ok(t) ==> dfs_result_ok(
            edge_storage.spec_edges(),
            start,
            t.0@,
            t.1@,
            always_resumes_edge(pre_order_func),
            false,
            Set::empty(),
        ),
        r matches Ok(t) ==> t.0@ == entered_edges(t.2@) && t.1@ == left_edges(t.2@) && dfs_transcript(
            edge_storage.spec_edges(),
            start,
            t.2@,
        ) && checked_by(t.2@, is_visited) && decided_by(t.2@, pre_order_func),
        r matches Ok(t) ==> closes_only_resumed(start, t.2@) && reads_only_resumed(
            edge_storage.spec_edges(),
            start,
            t.2@,
        ) && exit_is_last(t.2@),
        r matches Ok(t) ==> t.1@.len() <= 1 + resumed_count(t.2@.skip(1)) && (exit_free(t.2@) && t.2@[0]
            != DfsStep::Entered(start, ControlFlow::End) ==> t.1@.len() == 1 + resumed_count(t.2@.skip(1))),
        r is Err ==> exists|s: Seq<DfsStep>|
            #[trigger] dfs_overflows(edge_storage.spec_edges(), start, s, vertex_count as int) && checked_by(
                s,
                is_visited,
            ) && decided_by(s, pre_order_func),
        r is Err ==> exists|x: int| #[trigger]
            reachable_in(edge_storage.spec_edges(), spec_vh(start) as int, x, vertex_count as int),
{
    let mut tracker = FnTracker { is_visited };
    let ghost t0 = tracker;
    let r = dfs_tracked(edge_storage, start, vertex_count, &mut tracker, pre_order_func, post_order_func);
    proof {
        if let Ok(t) = &r {
            lemma_checked_by_tracker(t.2@, is_visited, t0);
            lemma_dfs_steps_from_resumed(edge_storage.spec_edges(), start, t.2@);
            lemma_dfs_closes_each_frame(edge_storage.spec_edges(), start, t.2@);
        } else {
            let s = choose|s: Seq<DfsStep>|
                #[trigger] dfs_overflows(edge_storage.spec_edges(), start, s, vertex_count as int) && answered_by(
                    s,
                    t0,
                ) && decided_by(s, pre_order_func);
            lemma_checked_by_tracker(s, is_visited, t0);
        }
    }
    r
}

/// Depth-first traversal from the target of `start` that explores every
/// vertex at most once (the start's target is not marked as visited until
/// an edge leads back to it); otherwise as [`dfs_custom_flags`], where the
/// visited check answers whether an earlier check was about the same
/// target. With more slots than the store has vertices the explored path
/// always fits.
pub fn dfs<PreOrderFunc, PostOrderFunc, Edges>(
    edge_storage: &Edges,
    start: Edge,
    vertices_count: usize,
    pre_order_func: PreOrderFunc,
    post_order_func: PostOrderFunc,
) -> (r: Result<DfsTrace, TraversalError>)
    where
        PreOrderFunc: FnMut(Edge) -> ControlFlow,
        PostOrderFunc: FnMut(Edge),
        Edges: EdgeStore,
    requires
        edge_storage.wf(),
        spec_vh(start) < edge_storage.spec_edges().len(),
        targets_below(edge_storage.spec_edges(), edge_storage.spec_edges().len() as int),
        edge_storage.spec_edges().len() <= vertices_count,
        layout_fits(vertices_count as int, 24),
        forall|e: Edge| #[trigger] pre_order_func.requires((e,)),
        forall|e: Edge| #[trigger] post_order_func.requires((e,)),
    ensures
        r matches Ok(t) ==> dfs_result_ok(
            edge_storage.spec_edges(),
            start,
            t.0@,
            t.1@,
            always_resumes_edge(pre_order_func),
            true,
            Set::empty(),
        ),
        r matches Ok(t) ==> t.0@ == entered_edges(t.2@) && t.1@ == left_edges(t.2@) && dfs_transcript(
            edge_storage.spec_edges(),
            start,
            t.2@,
        ) && checks_seen(t.2@) && decided_by(t.2@, pre_order_func),
        r matches Ok(t) ==> closes_only_resumed(start, t.2@) && reads_only_resumed(
            edge_storage.spec_edges(),
            start,
            t.2@,
        ) && exit_is_last(t.2@),
        r matches Ok(t) ==> t.1@.len() <= 1 + resumed_count(t.2@.skip(1)) && (exit_free(t.2@) && t.2@[0]
            != DfsStep::Entered(start, ControlFlow::End) ==> t.1@.len() == 1 + resumed_count(t.2@.skip(1))),
        edge_storage.spec_edges().len() < vertices_count ==> r is Ok,
        r is Err ==> exists|s: Seq<DfsStep>|
            #[trigger] dfs_overflows(edge_storage.spec_edges(), start, s, vertices_count as int) && checks_seen(s)
                && decided_by(s, pre_order_func),
        r is Err ==> exists|x: int| #[trigger]
            reachable_in(edge_storage.spec_edges(), spec_vh(start) as int, x, vertices_count as int),
{
    let flags = flag_array_new_cleared(vertices_count);
    let mut tracker = FlagTracker { flags, seen: Ghost(Set::empty()) };
    let ghost t0 = tracker;
    let r = dfs_tracked(edge_storage, start, vertices_count, &mut tracker, pre_order_func, post_order_func);
    proof {
        assert(t0.exact());
        if let Ok(t) = &r {
            lemma_checks_seen_fresh(t.2@, t0);
            lemma_dfs_steps_from_resumed(edge_storage.spec_edges(), start, t.2@);
            lemma_dfs_closes_each_frame(edge_storage.spec_edges(), start, t.2@);
        } else {
            let s = choose|s: Seq<DfsStep>|
                #[trigger] dfs_overflows(edge_storage.spec_edges(), start, s, vertices_count as int) && answered_by(
                    s,
                    t0,
                ) && decided_by(s, pre_order_func);
            lemma_checks_seen_fresh(s, t0);
        }
    }
    r
}

/// What a finished depth-first traversal from `start` reports: `pre[0]` is
/// `start` and every other pre-order edge, and every post-order edge, leads
/// to a vertex reachable from the start; every pre-order edge after the
/// first, and every post-order edge other than `start`, is a live edge of a
/// vertex reachable from the start; there are no more post-order
/// edges than pre-order ones, and as many when every callback answer is
/// `Resume`; with an exact tracker the pre-order targets after the start are
/// pairwise distinct and were not marked before; with an exact tracker that
/// started empty and callbacks that always resume, the pre-order targets are
/// exactly the vertices reachable from the start, each pre-order edge is the
/// one a depth-first traversal takes next, and no vertex reached is left
/// with an edge to an unseen vertex.
#[verifier::opaque]
pub open spec fn dfs_result_ok(
    edges: Seq<Seq<Edge>>,
    start: Edge,
    pre: Seq<Edge>,
    post: Seq<Edge>,
    all_resume: bool,
    exact: bool,
    marks: Set<int>,
) -> bool {
    let sv = spec_vh(start) as int;
    &&& pre.len() >= 1
    &&& pre[0] == start
    &&& forall|j: int| 1 <= j < pre.len() ==> reachable(edges, sv, spec_vh(#[trigger] pre[j]) as int)
    &&& forall|j: int| 0 <= j < post.len() ==> reachable(edges, sv, spec_vh(#[trigger] post[j]) as int)
    &&& forall|j: int| 1 <= j < pre.len() ==> edge_of_reached(edges, sv, #[trigger] pre[j])
    &&& forall|j: int| 0 <= j < post.len() ==> #[trigger] post[j] == start || edge_of_reached(edges, sv, post[j])
    &&& post.len() <= pre.len()
    &&& all_resume ==> post.len() == pre.len()
    &&& exact ==> forall|j: int, k: int|
        1 <= j < k < pre.len() ==> spec_vh(#[trigger] pre[j]) != spec_vh(#[trigger] pre[k])
    &&& exact ==> forall|j: int| 1 <= j < pre.len() ==> !marks.contains(spec_vh(#[trigger] pre[j]) as int)
    &&& (all_resume && exact && marks == Set::<int>::empty()) ==> forall|v: int|
        holds_target(pre, v) <==> reachable(edges, sv, v)
    &&& (all_resume && exact && marks == Set::<int>::empty()) ==> dfs_order(edges, pre) && dfs_maximal(edges, pre)
}

} // verus!
