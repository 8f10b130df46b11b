//! Layering and augmenting-path search on a weighted edge store, where an
//! edge's weight is its remaining capacity.
use vstd::prelude::*;

use eta_algorithms::data_structs::array::Array;
use eta_algorithms::data_structs::queue::Queue;

use eta_algorithms::data_structs::stack::Stack;

use crate::algorithms::flow_model::{
    balance, graph_sum, inflow, lemma_edge_sum_diff, lemma_graph_sum_diff,
    outflow, weight_into, weight_of, lemma_flows_after_update, lemma_graph_sum_bound,
    lemma_graph_sum_update_edge, residual_total, same_targets, weight_avoiding,
};
use crate::algorithms::general::{
    lemma_stack_work_advance, lemma_stack_work_nonneg, lemma_stack_work_pop, stack_work,
};
use crate::containers::{
    frame_stack_capacity, frame_stack_items, frame_stack_len, frame_stack_new, frame_stack_pop,
    frame_stack_push, layout_fits, queue_new_pow2_sized, weight_array_fill,
    weight_array_new_with_default, queue_capacity, queue_dequeue, queue_items, queue_len, queue_push, weight_array_get,
    weight_array_items, weight_array_set,
};
use crate::edge_storage::{EdgeStorage, VertexEntry};
use crate::handles::types::{Edge, VHandle, Weight};
use crate::handles::{lemma_pack_unpack, lemma_unpack_pack, pack, set_wgt, spec_pack, spec_vh, spec_wgt, vh, vhu, wgt};
use crate::paths::{lemma_distinct_below, targets_below};
use crate::traits::EdgeStore;
use crate::vertex_storage::VertexStorage;

verus! {

/// The layer value of a vertex not reached yet.
pub const UNREACHED: Weight = 0x7FFF_FFFF;

/// Whether `u` has a live edge of nonzero weight whose target is `v`.
pub open spec fn has_open_edge(edges: Seq<Seq<Edge>>, u: int, v: int) -> bool {
    0 <= u < edges.len() && exists|k: int|
        0 <= k < edges[u].len() && spec_vh(#[trigger] edges[u][k]) == v && spec_wgt(edges[u][k]) != 0
}

/// Whether `p` is a path along edges of nonzero weight.
pub open spec fn is_open_path(edges: Seq<Seq<Edge>>, p: Seq<int>) -> bool {
    &&& p.len() >= 1
    &&& forall|i: int| 0 <= i < p.len() - 1 ==> #[trigger] has_open_edge(edges, p[i], p[i + 1])
}

/// Whether a path of nonzero-weight edges leads from `from` to `to`.
pub open spec fn open_reachable(edges: Seq<Seq<Edge>>, from: int, to: int) -> bool {
    exists|p: Seq<int>| #[trigger] is_open_path(edges, p) && p[0] == from && p.last() == to
}

/// Whether a path of exactly `k` nonzero-weight edges leads from `from` to
/// `to`.
pub open spec fn open_reachable_in(edges: Seq<Seq<Edge>>, from: int, to: int, k: int) -> bool {
    exists|p: Seq<int>| #[trigger] is_open_path(edges, p) && p[0] == from && p.last() == to && p.len() == k + 1
}

/// Whether `d` is the least number of edges on a path of nonzero-weight
/// edges from `from` to `to`.
pub open spec fn open_distance(edges: Seq<Seq<Edge>>, from: int, to: int, d: int) -> bool {
    &&& open_reachable_in(edges, from, to, d)
    &&& forall|m: int| 0 <= m < d ==> !#[trigger] open_reachable_in(edges, from, to, m)
}

/// Whether `u` has a live edge of nonzero weight to `v` and `v` lies in a
/// higher layer than `u`.
pub open spec fn has_layered_edge(edges: Seq<Seq<Edge>>, lay: Seq<Weight>, u: int, v: int) -> bool {
    &&& 0 <= u < edges.len()
    &&& lay[u] < lay[v]
    &&& exists|i: int| 0 <= i < edges[u].len() && spec_vh(#[trigger] edges[u][i]) == v && spec_wgt(edges[u][i]) != 0
}

/// Whether `p` is a path along edges of nonzero weight whose layers
/// strictly grow.
pub open spec fn is_layered_path(edges: Seq<Seq<Edge>>, lay: Seq<Weight>, p: Seq<int>) -> bool {
    &&& p.len() >= 1
    &&& forall|j: int| 0 <= j < p.len() - 1 ==> #[trigger] has_layered_edge(edges, lay, p[j], p[j + 1])
}

/// Whether such a path leads from `from` to `to`.
pub open spec fn layered_reachable(edges: Seq<Seq<Edge>>, lay: Seq<Weight>, from: int, to: int) -> bool {
    exists|p: Seq<int>| #[trigger] is_layered_path(edges, lay, p) && p[0] == from && p.last() == to
}

proof fn lemma_open_in_zero(edges: Seq<Seq<Edge>>, from: int, to: int)
    ensures
        open_reachable_in(edges, from, to, 0) <==> to == from,
{
    if to == from {
        assert(is_open_path(edges, seq![from]));
    }
}

proof fn lemma_open_in_step(edges: Seq<Seq<Edge>>, from: int, u: int, k: int, i: int)
    requires
        open_reachable_in(edges, from, u, k),
        0 <= u < edges.len(),
        0 <= i < edges[u].len(),
        spec_wgt(edges[u][i]) != 0,
    ensures
        open_reachable_in(edges, from, spec_vh(edges[u][i]) as int, k + 1),
{
    let p = choose|p: Seq<int>| #[trigger] is_open_path(edges, p) && p[0] == from && p.last() == u && p.len() == k + 1;
    let v = spec_vh(edges[u][i]) as int;
    let q = p.push(v);
    assert(has_open_edge(edges, u, v));
    assert forall|j: int| 0 <= j < q.len() - 1 implies #[trigger] has_open_edge(edges, q[j], q[j + 1]) by {
        if j < p.len() - 1 {
            assert(q[j] == p[j] && q[j + 1] == p[j + 1]);
        } else {
            assert(q[j] == u && q[j + 1] == v);
        }
    }
    assert(is_open_path(edges, q));
}

proof fn lemma_open_in_last_edge(edges: Seq<Seq<Edge>>, from: int, to: int, k: int) -> (w: int)
    requires
        open_reachable_in(edges, from, to, k),
        k >= 1,
    ensures
        open_reachable_in(edges, from, w, k - 1),
        has_open_edge(edges, w, to),
{
    let p = choose|p: Seq<int>| #[trigger] is_open_path(edges, p) && p[0] == from && p.last() == to && p.len() == k + 1;
    let q = p.drop_last();
    assert forall|j: int| 0 <= j < q.len() - 1 implies #[trigger] has_open_edge(edges, q[j], q[j + 1]) by {
        assert(q[j] == p[j] && q[j + 1] == p[j + 1]);
    }
    assert(is_open_path(edges, q));
    let j = k - 1;
    assert(has_open_edge(edges, p[j], p[j + 1]));
    assert(p[j + 1] == to);
    p[j]
}

/// Once every vertex queued before `done` has been layered out and every
/// vertex queued from `done` on lies one layer further, every vertex within
/// one more layer has a layer.
proof fn lemma_levels_next_layer(
    edges: Seq<Seq<Edge>>,
    src: int,
    pushed: Seq<u32>,
    l: Seq<Weight>,
    done: int,
    layer: int,
)
    requires
        0 <= src < edges.len(),
        targets_below(edges, edges.len() as int),
        edges.len() <= l.len(),
        pushed.len() > 0,
        pushed[0] as int == src,
        0 <= done <= pushed.len(),
        layer >= 0,
        forall|a: int| 0 <= a < pushed.len() ==> open_distance(edges, src, #[trigger] pushed[a] as int, l[pushed[a] as int] as int),
        forall|a: int| done <= a < pushed.len() ==> l[#[trigger] pushed[a] as int] == layer + 1,
        forall|j: int, q: int|
            0 <= j < done && 0 <= q < edges[pushed[j] as int].len() && spec_wgt(#[trigger] edges[pushed[j] as int][q])
                != 0 ==> l[spec_vh(edges[pushed[j] as int][q]) as int] != UNREACHED,
        forall|x: int|
            0 <= x < l.len() && x != src && #[trigger] l[x] != UNREACHED ==> exists|j: int|
                1 <= j < pushed.len() && pushed[j] as int == x,
        forall|x: int, m: int|
            0 <= x < edges.len() && #[trigger] open_reachable_in(edges, src, x, m) && 0 <= m <= layer ==> l[x]
                != UNREACHED,
    ensures
        forall|x: int, m: int|
            0 <= x < edges.len() && #[trigger] open_reachable_in(edges, src, x, m) && 0 <= m <= layer + 1 ==> l[x]
                != UNREACHED,
{
    assert forall|x: int, m: int|
        0 <= x < edges.len() && #[trigger] open_reachable_in(edges, src, x, m) && 0 <= m <= layer + 1 implies l[x]
            != UNREACHED by {
        if m == layer + 1 {
            let w = lemma_open_in_last_edge(edges, src, x, m);
            assert(open_reachable_in(edges, src, w, layer));
            assert(0 <= w < edges.len());
            assert(l[w] != UNREACHED);
            let a = if w == src {
                0
            } else {
                choose|a: int| 1 <= a < pushed.len() && pushed[a] as int == w
            };
            assert(0 <= a < pushed.len() && pushed[a] as int == w);
            assert(open_distance(edges, src, pushed[a] as int, l[pushed[a] as int] as int));
            if l[w] > layer {
                assert(!open_reachable_in(edges, src, w, layer));
            }
            assert(a < done);
            let q = choose|q: int| 0 <= q < edges[w].len() && spec_vh(#[trigger] edges[w][q]) == x && spec_wgt(edges[w][q]) != 0;
            assert(l[spec_vh(edges[pushed[a] as int][q]) as int] != UNREACHED);
        }
    }
}

proof fn lemma_open_self(edges: Seq<Seq<Edge>>, v: int)
    ensures
        open_reachable(edges, v, v),
{
    assert(is_open_path(edges, seq![v]));
}

proof fn lemma_open_step(edges: Seq<Seq<Edge>>, from: int, u: int, k: int)
    requires
        open_reachable(edges, from, u),
        0 <= u < edges.len(),
        0 <= k < edges[u].len(),
        spec_wgt(edges[u][k]) != 0,
    ensures
        open_reachable(edges, from, spec_vh(edges[u][k]) as int),
{
    let p = choose|p: Seq<int>| #[trigger] is_open_path(edges, p) && p[0] == from && p.last() == u;
    let v = spec_vh(edges[u][k]) as int;
    let q = p.push(v);
    assert(has_open_edge(edges, u, v));
    assert forall|i: int| 0 <= i < q.len() - 1 implies #[trigger] has_open_edge(edges, q[i], q[i + 1]) by {
        if i < p.len() - 1 {
            assert(q[i] == p[i] && q[i + 1] == p[i + 1]);
        } else {
            assert(q[i] == u && q[i + 1] == v);
        }
    }
    assert(is_open_path(edges, q));
}

proof fn lemma_open_closed_path(edges: Seq<Seq<Edge>>, s: Set<int>, p: Seq<int>, i: int)
    requires
        is_open_path(edges, p),
        s.contains(p[0]),
        forall|u: int, v: int| s.contains(u) && #[trigger] has_open_edge(edges, u, v) ==> s.contains(v),
        0 <= i < p.len(),
    ensures
        s.contains(p[i]),
    decreases i,
{
    if i > 0 {
        lemma_open_closed_path(edges, s, p, i - 1);
        let j = i - 1;
        assert(has_open_edge(edges, p[j], p[j + 1]));
    }
}

proof fn lemma_open_closed(edges: Seq<Seq<Edge>>, s: Set<int>, from: int, to: int)
    requires
        s.contains(from),
        forall|u: int, v: int| s.contains(u) && #[trigger] has_open_edge(edges, u, v) ==> s.contains(v),
        open_reachable(edges, from, to),
    ensures
        s.contains(to),
{
    let p = choose|p: Seq<int>| #[trigger] is_open_path(edges, p) && p[0] == from && p.last() == to;
    lemma_open_closed_path(edges, s, p, p.len() - 1);
}

/// Breadth-first layering from `src_handle` along edges of nonzero weight.
///
/// `layer_data[src_handle]` becomes 0; a vertex whose layer is still
/// `UNREACHED` when an edge of nonzero weight leads to it gets the layer
/// counter plus one and is queued; vertices that already had a layer keep
/// it. Fails with "Sink not found" unless `sink_handle` was dequeued. On
/// fresh layers, every vertex's layer is the least number of nonzero-weight
/// edges that lead to it from the source.
pub fn mark_levels(
    src_handle: VHandle,
    sink_handle: VHandle,
    edge_storage: &EdgeStorage,
    queue: &mut Queue<VHandle>,
    layer_data: &mut Array<Weight>,
) -> (r: Result<(), &'static str>)
    requires
        edge_storage.wf(),
        src_handle < edge_storage.spec_edges().len(),
        targets_below(edge_storage.spec_edges(), edge_storage.spec_edges().len() as int),
        edge_storage.spec_edges().len() <= weight_array_items(*old(layer_data)).len() < 0x7FFF_FFF0,
        queue_items(*old(queue)) == Seq::<u32>::empty(),
        queue_capacity(*old(queue)) >= edge_storage.spec_edges().len(),
    ensures
        ({
            let l0 = weight_array_items(*old(layer_data));
            let l = weight_array_items(*final(layer_data));
            let edges = edge_storage.spec_edges();
            let src = src_handle as int;
            &&& queue_items(*final(queue)) == Seq::<u32>::empty()
            &&& queue_capacity(*final(queue)) == queue_capacity(*old(queue))
            &&& l.len() == l0.len()
            &&& l[src] == 0
            &&& forall|v: int| 0 <= v < l.len() && v != src && l0[v] != UNREACHED ==> #[trigger] l[v] == l0[v]
            &&& forall|v: int|
                0 <= v < l.len() && v != src && l0[v] == UNREACHED && #[trigger] l[v] != UNREACHED ==> 1
                    <= l[v] && v < edges.len() && open_reachable(edges, src, v) && open_reachable_fresh(edges, l0, src, v)
            &&& (r is Ok <==> (sink_handle == src_handle || (sink_handle < l.len() && l0[sink_handle as int]
                == UNREACHED && l[sink_handle as int] != UNREACHED)))
            &&& (r matches Err(m) ==> m@ == "Sink not found"@)
            &&& ((forall|v: int| 0 <= v < l0.len() ==> #[trigger] l0[v] == UNREACHED) && sink_handle < edges.len()
                && sink_handle != src_handle) ==> (r is Ok <==> open_reachable(edges, src, sink_handle as int))
            &&& (forall|v: int| 0 <= v < l0.len() ==> #[trigger] l0[v] == UNREACHED) ==> forall|v: int|
                0 <= v < edges.len() ==> (#[trigger] l[v] != UNREACHED <==> open_reachable(edges, src, v))
            &&& (forall|v: int| 0 <= v < l0.len() ==> #[trigger] l0[v] == UNREACHED) ==> forall|v: int|
                0 <= v < edges.len() && #[trigger] l[v] != UNREACHED ==> open_distance(edges, src, v, l[v] as int)
        }),
{
    let ghost edges = edge_storage.spec_edges();
    let ghost count = edges.len() as int;
    let ghost l0 = weight_array_items(*layer_data);
    let ghost src = src_handle as int;
    let ghost all_fresh = forall|v: int| 0 <= v < l0.len() ==> #[trigger] l0[v] == UNREACHED;
    let mut found_sink = false;
    queue_push(queue, src_handle);
    let mut layer: Weight = 0;
    let mut sibling_counter: usize = 0;
    let mut last_sibling_in_layer: usize = 1;
    let mut next_last_sibling_in_layer: usize = 1;
    weight_array_set(layer_data, src_handle as usize, 0);
    let ghost mut pushed: Seq<u32> = seq![src_handle];
    let ghost mut dequeued: int = 0;
    proof {
        lemma_open_self(edges, src);
        assert(queue_items(*queue) =~= pushed.skip(0));
        edge_storage.lemma_shape();
        lemma_open_in_zero(edges, src, src);
        lemma_open_fresh_self(edges, l0, src);
        if all_fresh {
            assert forall|x: int, m: int|
                0 <= x < count && #[trigger] open_reachable_in(edges, src, x, m) && 0 <= m <= 0 implies weight_array_items(
                    *layer_data,
                )[x] != UNREACHED by {
                lemma_open_in_zero(edges, src, x);
            }
        }
    }
    while queue_len(queue) != 0
        invariant
            edge_storage.wf(),
            edges == edge_storage.spec_edges(),
            count == edges.len(),
            count <= u32::MAX,
            0 <= src < count,
            src == src_handle,
            targets_below(edges, count),
            count <= l0.len() < 0x7FFF_FFF0,
            weight_array_items(*layer_data).len() == l0.len(),
            queue_capacity(*queue) == queue_capacity(*old(queue)),
            queue_capacity(*queue) >= count,
            queue_items(*queue) == pushed.skip(dequeued),
            0 <= dequeued <= pushed.len(),
            pushed.len() >= 1,
            pushed[0] == src_handle,
            pushed.no_duplicates(),
            forall|j: int| 0 <= j < pushed.len() ==> #[trigger] pushed[j] < count,
            forall|j: int|
                1 <= j < pushed.len() ==> l0[#[trigger] pushed[j] as int] == UNREACHED
                    && weight_array_items(*layer_data)[pushed[j] as int] != UNREACHED,
            forall|j: int| 0 <= j < pushed.len() ==> open_reachable(edges, src, #[trigger] pushed[j] as int),
            forall|j: int| 0 <= j < pushed.len() ==> open_reachable_fresh(edges, l0, src, #[trigger] pushed[j] as int),
            weight_array_items(*layer_data)[src] == 0,
            forall|v: int|
                0 <= v < l0.len() && v != src && l0[v] != UNREACHED ==> #[trigger] weight_array_items(
                    *layer_data,
                )[v] == l0[v],
            forall|v: int|
                0 <= v < l0.len() && v != src && l0[v] == UNREACHED && #[trigger] weight_array_items(
                    *layer_data,
                )[v] != UNREACHED ==> 1 <= weight_array_items(*layer_data)[v] && exists|j: int|
                    1 <= j < pushed.len() && pushed[j] as int == v,
            found_sink <==> exists|j: int| 0 <= j < dequeued && #[trigger] pushed[j] == sink_handle,
            sibling_counter == dequeued,
            next_last_sibling_in_layer == pushed.len(),
            0 <= layer <= sibling_counter,
            all_fresh ==> forall|a: int|
                0 <= a < pushed.len() ==> open_distance(
                    edges,
                    src,
                    #[trigger] pushed[a] as int,
                    weight_array_items(*layer_data)[pushed[a] as int] as int,
                ),
            all_fresh ==> sibling_counter <= last_sibling_in_layer <= next_last_sibling_in_layer && (sibling_counter
                == last_sibling_in_layer ==> sibling_counter == next_last_sibling_in_layer),
            all_fresh ==> forall|a: int|
                0 <= a < pushed.len() ==> (a < last_sibling_in_layer ==> weight_array_items(*layer_data)[#[trigger] pushed[a] as int]
                    <= layer) && (sibling_counter <= a < last_sibling_in_layer ==> weight_array_items(*layer_data)[pushed[a] as int]
                    == layer) && (last_sibling_in_layer <= a ==> weight_array_items(*layer_data)[pushed[a] as int] == layer + 1),
            all_fresh ==> forall|x: int, m: int|
                0 <= x < count && #[trigger] open_reachable_in(edges, src, x, m) && 0 <= m <= layer ==> weight_array_items(
                    *layer_data,
                )[x] != UNREACHED,
            all_fresh == (forall|v: int| 0 <= v < l0.len() ==> #[trigger] l0[v] == UNREACHED),
            all_fresh ==> forall|j: int, k: int|
                0 <= j < dequeued && 0 <= k < edges[pushed[j] as int].len() && spec_wgt(
                    #[trigger] edges[pushed[j] as int][k],
                ) != 0 ==> weight_array_items(*layer_data)[spec_vh(edges[pushed[j] as int][k]) as int]
                    != UNREACHED,
        decreases count - dequeued,
    {
        proof {
            lemma_distinct_below(pushed, count);
        }
        let v = match queue_dequeue(queue) {
            Some(x) => x,
            None => {
                proof {
                    assert(false);
                }
                0
            },
        };
        proof {
            assert(pushed.skip(dequeued)[0] == pushed[dequeued]);
            assert(pushed.skip(dequeued).drop_first() =~= pushed.skip(dequeued + 1));
            dequeued = dequeued + 1;
        }
        if v == sink_handle {
            found_sink = true;
        }
        let len = edge_storage.edges_len(v);
        let mut k: usize = 0;
        while k < len
            invariant
                edge_storage.wf(),
                edges == edge_storage.spec_edges(),
                count == edges.len(),
                count <= u32::MAX,
                0 <= src < count,
                src == src_handle,
                targets_below(edges, count),
                count <= l0.len() < 0x7FFF_FFF0,
                weight_array_items(*layer_data).len() == l0.len(),
                queue_capacity(*queue) == queue_capacity(*old(queue)),
                queue_capacity(*queue) >= count,
                queue_items(*queue) == pushed.skip(dequeued),
                1 <= dequeued <= pushed.len(),
                v == pushed[dequeued - 1],
                len == edges[v as int].len(),
                k <= len,
                pushed[0] == src_handle,
                pushed.no_duplicates(),
                forall|j: int| 0 <= j < pushed.len() ==> #[trigger] pushed[j] < count,
                forall|j: int|
                    1 <= j < pushed.len() ==> l0[#[trigger] pushed[j] as int] == UNREACHED
                        && weight_array_items(*layer_data)[pushed[j] as int] != UNREACHED,
                forall|j: int| 0 <= j < pushed.len() ==> open_reachable(edges, src, #[trigger] pushed[j] as int),
                forall|j: int| 0 <= j < pushed.len() ==> open_reachable_fresh(edges, l0, src, #[trigger] pushed[j] as int),
                weight_array_items(*layer_data)[src] == 0,
                forall|x: int|
                    0 <= x < l0.len() && x != src && l0[x] != UNREACHED ==> #[trigger] weight_array_items(
                        *layer_data,
                    )[x] == l0[x],
                forall|x: int|
                    0 <= x < l0.len() && x != src && l0[x] == UNREACHED && #[trigger] weight_array_items(
                        *layer_data,
                    )[x] != UNREACHED ==> 1 <= weight_array_items(*layer_data)[x] && exists|j: int|
                        1 <= j < pushed.len() && pushed[j] as int == x,
                found_sink <==> exists|j: int| 0 <= j < dequeued && #[trigger] pushed[j] == sink_handle,
                sibling_counter + 1 == dequeued,
                next_last_sibling_in_layer == pushed.len(),
                0 <= layer <= sibling_counter,
                all_fresh ==> forall|a: int|
                    0 <= a < pushed.len() ==> open_distance(
                        edges,
                        src,
                        #[trigger] pushed[a] as int,
                        weight_array_items(*layer_data)[pushed[a] as int] as int,
                    ),
                all_fresh ==> sibling_counter < last_sibling_in_layer <= next_last_sibling_in_layer,
                all_fresh ==> forall|a: int|
                    0 <= a < pushed.len() ==> (a < last_sibling_in_layer ==> weight_array_items(*layer_data)[#[trigger] pushed[a] as int]
                        <= layer) && (sibling_counter <= a < last_sibling_in_layer ==> weight_array_items(
                        *layer_data,
                    )[pushed[a] as int] == layer) && (last_sibling_in_layer <= a ==> weight_array_items(*layer_data)[pushed[a] as int]
                        == layer + 1),
                all_fresh ==> forall|x: int, m: int|
                    0 <= x < count && #[trigger] open_reachable_in(edges, src, x, m) && 0 <= m <= layer ==> weight_array_items(
                        *layer_data,
                    )[x] != UNREACHED,
                all_fresh == (forall|x: int| 0 <= x < l0.len() ==> #[trigger] l0[x] == UNREACHED),
                all_fresh ==> forall|j: int, q: int|
                    0 <= j < dequeued - 1 && 0 <= q < edges[pushed[j] as int].len() && spec_wgt(
                        #[trigger] edges[pushed[j] as int][q],
                    ) != 0 ==> weight_array_items(*layer_data)[spec_vh(edges[pushed[j] as int][q]) as int]
                        != UNREACHED,
                all_fresh ==> forall|q: int|
                    0 <= q < k && spec_wgt(#[trigger] edges[v as int][q]) != 0 ==> weight_array_items(
                        *layer_data,
                    )[spec_vh(edges[v as int][q]) as int] != UNREACHED,
            decreases len - k,
        {
            let e = edge_storage.edge_at(v, k);
            let t = vh(e);
            proof {
                assert(spec_vh(edges[v as int][k as int]) < count);
            }
            let tl = weight_array_get(layer_data, t as usize);
            if tl == UNREACHED && wgt(e) != 0 {
                let ghost lprev = weight_array_items(*layer_data);
                let ghost old_pushed = pushed;
                proof {
                    assert(l0[t as int] == UNREACHED) by {
                        if l0[t as int] != UNREACHED {
                            assert(lprev[t as int] == l0[t as int]);
                        }
                    }
                    lemma_open_fresh_step(edges, l0, src, v as int, k as int);
                    if all_fresh {
                        let d = dequeued - 1;
                        assert(lprev[pushed[d] as int] == layer);
                        assert(open_distance(edges, src, pushed[d] as int, lprev[pushed[d] as int] as int));
                        lemma_open_in_step(edges, src, v as int, layer as int, k as int);
                        assert forall|m: int| 0 <= m < layer + 1 implies !#[trigger] open_reachable_in(
                            edges,
                            src,
                            t as int,
                            m,
                        ) by {
                            if open_reachable_in(edges, src, t as int, m) {
                                assert(lprev[t as int] != UNREACHED);
                            }
                        }
                        assert(open_distance(edges, src, t as int, layer + 1));
                    }
                    lemma_distinct_below(pushed, count);
                    assert(t != src_handle);
                    assert forall|j: int| 0 <= j < pushed.len() implies pushed[j] != t by {
                        if j == 0 {
                        } else {
                            assert(lprev[pushed[j] as int] != UNREACHED);
                        }
                    }
                    let np = pushed.push(t);
                    assert(np.no_duplicates()) by {
                        assert forall|a: int, c: int| 0 <= a < np.len() && 0 <= c < np.len() && a != c implies np[a] != np[c] by {
                            if a < pushed.len() && c < pushed.len() {
                                assert(np[a] == pushed[a] && np[c] == pushed[c]);
                            } else if a < pushed.len() {
                                assert(np[a] == pushed[a]);
                            } else {
                                assert(np[c] == pushed[c]);
                            }
                        }
                    }
                    lemma_distinct_below(np, count);
                    assert(pushed.skip(dequeued).len() < queue_capacity(*queue));
                    lemma_open_step(edges, src, v as int, k as int);
                }
                weight_array_set(layer_data, t as usize, layer + 1);
                queue_push(queue, t);
                proof {
                    pushed = pushed.push(t);
                    assert(pushed.skip(dequeued) =~= old_pushed.skip(dequeued).push(t));
                    assert(pushed[pushed.len() - 1] == t);
                    assert forall|j: int| 0 <= j < dequeued implies (pushed[j] == sink_handle <==> #[trigger] old_pushed[j] == sink_handle) by {
                        assert(pushed[j] == old_pushed[j]);
                    }
                    assert forall|x: int|
                        0 <= x < l0.len() && x != src && l0[x] == UNREACHED && #[trigger] weight_array_items(
                            *layer_data,
                        )[x] != UNREACHED implies 1 <= weight_array_items(*layer_data)[x] && exists|j: int|
                            1 <= j < pushed.len() && pushed[j] as int == x by {
                        if x != t {
                            let j = choose|j: int| 1 <= j < old_pushed.len() && old_pushed[j] as int == x;
                            assert(pushed[j] == old_pushed[j]);
                        } else {
                            assert(pushed[pushed.len() - 1] as int == x);
                        }
                    }
                }
                next_last_sibling_in_layer = next_last_sibling_in_layer + 1;
            }
            k = k + 1;
        }
        sibling_counter = sibling_counter + 1;
        if sibling_counter == last_sibling_in_layer {
            proof {
                if all_fresh {
                    let l = weight_array_items(*layer_data);
                    assert forall|j: int, q: int|
                        0 <= j < dequeued && 0 <= q < edges[pushed[j] as int].len() && spec_wgt(
                            #[trigger] edges[pushed[j] as int][q],
                        ) != 0 implies l[spec_vh(edges[pushed[j] as int][q]) as int] != UNREACHED by {
                        if j == dequeued - 1 {
                            assert(pushed[j] == v);
                        }
                    }
                    assert forall|x: int|
                        0 <= x < l.len() && x != src && #[trigger] l[x] != UNREACHED implies exists|j: int|
                            1 <= j < pushed.len() && pushed[j] as int == x by {
                        assert(l0[x] == UNREACHED);
                    }
                    lemma_levels_next_layer(edges, src, pushed, l, dequeued, layer as int);
                }
            }
            last_sibling_in_layer = next_last_sibling_in_layer;
            layer = layer + 1;
        }
    }
    proof {
        let l = weight_array_items(*layer_data);
        assert(dequeued == pushed.len()) by {
            assert(pushed.skip(dequeued).len() == 0);
        }
        assert forall|x: int|
            0 <= x < l.len() && x != src && l0[x] == UNREACHED && #[trigger] l[x] != UNREACHED implies 1
                <= l[x] && x < edges.len() && open_reachable(edges, src, x) && open_reachable_fresh(edges, l0, src, x) by {
            let j = choose|j: int| 1 <= j < pushed.len() && pushed[j] as int == x;
            assert(open_reachable(edges, src, pushed[j] as int));
            assert(open_reachable_fresh(edges, l0, src, pushed[j] as int));
        }
        if found_sink {
            let j = choose|j: int| 0 <= j < dequeued && #[trigger] pushed[j] == sink_handle;
            if j != 0 {
                assert(l0[pushed[j] as int] == UNREACHED);
            }
        } else {
            if sink_handle != src_handle && sink_handle < l.len() && l0[sink_handle as int] == UNREACHED
                && l[sink_handle as int] != UNREACHED {
                let j = choose|j: int| 1 <= j < pushed.len() && pushed[j] as int == sink_handle as int;
                assert(pushed[j] == sink_handle);
            }
            assert(sink_handle != src_handle) by {
                assert(pushed[0] == src_handle);
            }
        }
        if all_fresh {
            let s = Set::new(|x: int| 0 <= x < l.len() && l[x] != UNREACHED);
            assert forall|u: int, w: int| s.contains(u) && #[trigger] has_open_edge(edges, u, w) implies s.contains(w) by {
                let q = choose|q: int| 0 <= q < edges[u].len() && spec_vh(#[trigger] edges[u][q]) == w && spec_wgt(edges[u][q]) != 0;
                let j: int = if u == src { 0 } else { choose|j: int| 1 <= j < pushed.len() && pushed[j] as int == u };
                assert(pushed[j] as int == u);
                assert(l[spec_vh(edges[pushed[j] as int][q]) as int] != UNREACHED);
                assert(spec_vh(edges[u][q]) < count);
            }
            assert forall|x: int| 0 <= x < edges.len() implies (#[trigger] l[x] != UNREACHED <==> open_reachable(edges, src, x)) by {
                if open_reachable(edges, src, x) {
                    lemma_open_closed(edges, s, src, x);
                }
                if l[x] != UNREACHED && x != src {
                    let j = choose|j: int| 1 <= j < pushed.len() && pushed[j] as int == x;
                    assert(open_reachable(edges, src, pushed[j] as int));
                }
                if x == src {
                    lemma_open_self(edges, src);
                }
            }
            assert forall|x: int| 0 <= x < edges.len() && #[trigger] l[x] != UNREACHED implies open_distance(
                edges,
                src,
                x,
                l[x] as int,
            ) by {
                if x == src {
                    assert(pushed[0] as int == src);
                } else {
                    let j = choose|j: int| 1 <= j < pushed.len() && pushed[j] as int == x;
                    assert(open_distance(edges, src, pushed[j] as int, l[pushed[j] as int] as int));
                }
            }
        }
    }
    if !found_sink {
        return Err("Sink not found");
    }
    Ok(())
}


/// The slot recorded for the root frame of the augmenting search: no edge
/// of the store leads into the source.
pub const ROOT_SLOT: usize = usize::MAX;

/// What the search keeps true of one residual edge `e` whose capacity edge
/// is `ce`, an edge of `v`: it never grows; unless it leads into the sink it
/// stays at least 0; an edge into the sink stays at least `floor`; an edge
/// from the source straight into the sink keeps weight 0.
pub open spec fn residual_edge_ok(e: Edge, ce: Edge, v: int, src: int, sink: int, floor: int) -> bool {
    &&& spec_wgt(e) <= spec_wgt(ce)
    &&& spec_vh(ce) != sink ==> 0 <= spec_wgt(e)
    &&& spec_vh(ce) == sink ==> floor <= spec_wgt(e)
    &&& (v == src && spec_vh(ce) == sink) ==> spec_wgt(e) == 0
}

/// Whether `r` is a residual network of the capacities `c` for a flow from
/// `src` to `sink`: the same edges, each within `residual_edge_ok` (the
/// floor of an edge into the sink is what the other edges have lost, below
/// 0), and every vertex but the source and the sink as balanced as in `c`.
pub open spec fn residual_ok(r: Seq<Seq<Edge>>, c: Seq<Seq<Edge>>, src: int, sink: int, s0: int) -> bool {
    &&& same_targets(r, c)
    &&& forall|v: int, i: int|
        0 <= v < c.len() && 0 <= i < c[v].len() ==> residual_edge_ok(
            #[trigger] r[v][i],
            c[v][i],
            v,
            src,
            sink,
            residual_total(r, sink) - s0,
        )
    &&& residual_total(r, sink) <= s0
    &&& forall|v: int| 0 <= v < c.len() && v != src && v != sink ==> #[trigger] balance(r, v) == balance(c, v)
}

/// Where a frame of the search lies: vertex `v`'s live slots, with its
/// cursor between their first slot and their end.
spec fn frame_ok(ents: Seq<VertexEntry>, r: Seq<Seq<Edge>>, f: (usize, usize, usize), v: int) -> bool {
    &&& 0 <= v < r.len()
    &&& ents[v].offset <= f.1 <= f.2
    &&& f.2 == ents[v].offset + ents[v].len
}

/// How a frame hangs below its parent: it was entered through the live
/// edge `i` of `u`, the slot just behind the parent's cursor, an edge of
/// nonzero weight whose target is `v`.
spec fn link_ok(
    ents: Seq<VertexEntry>,
    r: Seq<Seq<Edge>>,
    parent: (usize, usize, usize),
    f: (usize, usize, usize),
    u: int,
    i: int,
    v: int,
) -> bool {
    &&& 0 <= i < r[u].len()
    &&& f.0 == ents[u].offset + i
    &&& parent.1 == f.0 + 1
    &&& spec_vh(r[u][i]) == v
    &&& spec_wgt(r[u][i]) != 0
}

/// The frames of the search form a path from the source along edges of
/// nonzero weight whose layers strictly grow; only its last vertex may be
/// the sink.
spec fn frames_valid(
    ents: Seq<VertexEntry>,
    r: Seq<Seq<Edge>>,
    fr: Seq<(usize, usize, usize)>,
    path: Seq<u32>,
    idx: Seq<int>,
    lay: Seq<i32>,
    src: int,
    sink: int,
) -> bool {
    &&& fr.len() == path.len()
    &&& idx.len() == path.len()
    &&& fr.len() > 0 ==> fr[0].0 == ROOT_SLOT && path[0] == src
    &&& forall|j: int| 0 <= j < fr.len() ==> frame_ok(ents, r, #[trigger] fr[j], path[j] as int)
    &&& forall|j: int|
        1 <= j < fr.len() ==> link_ok(
            ents,
            r,
            fr[j - 1],
            #[trigger] fr[j],
            path[j - 1] as int,
            idx[j],
            path[j] as int,
        )
    &&& forall|a: int, c: int| 0 <= a < c < fr.len() ==> lay[#[trigger] path[a] as int] < lay[#[trigger] path[c] as int]
    &&& forall|j: int| 0 <= j < fr.len() - 1 ==> #[trigger] path[j] as int != sink
}

/// Whether the live edge `i` of `u` is one of the path's edges `lo..=hi`.
spec fn on_path(pos: Seq<(int, int)>, lo: int, hi: int, u: int, i: int) -> bool {
    exists|j: int| lo <= j <= hi && #[trigger] pos[j] == (u, i)
}

/// A path whose layers strictly grow visits no vertex twice, so it is no
/// longer than the number of vertices.
proof fn lemma_layered_path(path: Seq<u32>, lay: Seq<i32>, n: int)
    requires
        n >= 0,
        forall|j: int| 0 <= j < path.len() ==> #[trigger] path[j] < n,
        forall|a: int, c: int| 0 <= a < c < path.len() ==> lay[#[trigger] path[a] as int] < lay[#[trigger] path[c] as int],
    ensures
        path.no_duplicates(),
        path.len() <= n,
{
    assert forall|a: int, c: int| 0 <= a < path.len() && 0 <= c < path.len() && a != c implies path[a] != path[c] by {
        if a < c {
            assert(lay[path[a] as int] < lay[path[c] as int]);
        } else {
            assert(lay[path[c] as int] < lay[path[a] as int]);
        }
    }
    lemma_distinct_below(path, n);
}

/// The lowest path edge already lowered while the search unwinds a stack
/// of `l` frames.
spec fn lowered_from(l: int) -> int {
    if l >= 1 {
        l
    } else {
        1
    }
}

/// The edge `i` of `u` of `r0`, lowered by `b` if it is one of the path
/// edges `lo..=hi` of `pos`.
spec fn lowered(r0: Seq<Seq<Edge>>, pos: Seq<(int, int)>, lo: int, hi: int, b: int, u: int, i: int) -> Edge {
    if on_path(pos, lo, hi, u, i) {
        spec_pack(spec_vh(r0[u][i]), (spec_wgt(r0[u][i]) - b) as i32)
    } else {
        r0[u][i]
    }
}

/// The edges of a path of frames, as (vertex, index) pairs: entry `j` is
/// the edge that leads into the vertex of frame `j` (none for the root).
spec fn path_positions(path: Seq<u32>, idx: Seq<int>) -> Seq<(int, int)> {
    Seq::new(idx.len(), |j: int| if j == 0 { (-1int, -1int) } else { (path[j - 1] as int, idx[j]) })
}

/// The state of the search while it unwinds the path `aug_path` (frames
/// `aug_fr`, whose last vertex is the sink) after reaching the sink: `l`
/// frames are left, the path edges from `l` on are lowered by `b`, `nsu` of
/// them avoid the sink, and only the vertex of the top frame is out of
/// balance, by `b`.
spec fn unwind_ok(
    ents: Seq<VertexEntry>,
    lay: Seq<i32>,
    cap: Seq<Seq<Edge>>,
    r0: Seq<Seq<Edge>>,
    cur: Seq<Seq<Edge>>,
    aug_fr: Seq<(usize, usize, usize)>,
    aug_path: Seq<u32>,
    aug_idx: Seq<int>,
    pos: Seq<(int, int)>,
    k: int,
    l: int,
    b: int,
    nsu: int,
    src: int,
    sink: int,
) -> bool {
    let n = cap.len() as int;
    &&& 2 <= k
    &&& 0 <= l <= k + 1
    &&& aug_path.len() == k + 1
    &&& aug_idx.len() == k + 1
    &&& aug_fr.len() == k + 1
    &&& pos == path_positions(aug_path, aug_idx)
    &&& frames_valid(ents, r0, aug_fr, aug_path, aug_idx, lay, src, sink)
    &&& aug_path[k] as int == sink
    &&& b >= 1
    &&& forall|j: int| 1 <= j < k ==> spec_wgt(#[trigger] r0[aug_path[j - 1] as int][aug_idx[j]]) >= b
    &&& cur.len() == n
    &&& forall|u: int| 0 <= u < n ==> #[trigger] cur[u].len() == r0[u].len()
    &&& forall|u: int, i: int|
        0 <= u < n && 0 <= i < r0[u].len() ==> #[trigger] cur[u][i] == lowered(
            r0,
            pos,
            lowered_from(l),
            k,
            b,
            u,
            i,
        )
    &&& nsu == (if l >= k {
        0
    } else if l >= 1 {
        k - l
    } else {
        k - 1
    })
    &&& residual_total(cur, sink) == residual_total(r0, sink) - b * nsu
    &&& forall|v: int|
        0 <= v < n && v != src && v != sink ==> #[trigger] balance(cur, v) == balance(cap, v) + (if 1 <= l
            <= k && v == aug_path[l - 1] as int {
            b
        } else {
            0
        })
}

/// What the search knows of the network it started from.
spec fn start_ok(cap: Seq<Seq<Edge>>, r0: Seq<Seq<Edge>>, src: int, sink: int, s0: int) -> bool {
    &&& r0.len() == cap.len()
    &&& residual_ok(r0, cap, src, sink, s0)
    &&& s0 <= Weight::MAX
    &&& 0 <= src < cap.len()
    &&& 0 <= sink < cap.len()
    &&& src != sink
    &&& targets_below(cap, cap.len() as int)
}

proof fn lemma_frames_pop(
    ents: Seq<VertexEntry>,
    r: Seq<Seq<Edge>>,
    fr: Seq<(usize, usize, usize)>,
    path: Seq<u32>,
    idx: Seq<int>,
    lay: Seq<i32>,
    src: int,
    sink: int,
)
    requires
        frames_valid(ents, r, fr, path, idx, lay, src, sink),
        fr.len() >= 1,
    ensures
        frames_valid(ents, r, fr.drop_last(), path.drop_last(), idx.drop_last(), lay, src, sink),
{
    let f2 = fr.drop_last();
    let p2 = path.drop_last();
    let i2 = idx.drop_last();
    assert forall|j: int| 0 <= j < f2.len() implies frame_ok(ents, r, #[trigger] f2[j], p2[j] as int) by {
        assert(frame_ok(ents, r, fr[j], path[j] as int));
    }
    assert forall|j: int| 1 <= j < f2.len() implies link_ok(
        ents,
        r,
        f2[j - 1],
        #[trigger] f2[j],
        p2[j - 1] as int,
        i2[j],
        p2[j] as int,
    ) by {
        assert(link_ok(ents, r, fr[j - 1], fr[j], path[j - 1] as int, idx[j], path[j] as int));
    }
    assert forall|a: int, c: int| 0 <= a < c < f2.len() implies lay[#[trigger] p2[a] as int] < lay[#[trigger] p2[c] as int] by {
        assert(lay[path[a] as int] < lay[path[c] as int]);
    }
    assert forall|j: int| 0 <= j < f2.len() - 1 implies #[trigger] p2[j] as int != sink by {
        assert(path[j] as int != sink);
    }
}

proof fn lemma_frames_advance(
    ents: Seq<VertexEntry>,
    r: Seq<Seq<Edge>>,
    fr: Seq<(usize, usize, usize)>,
    path: Seq<u32>,
    idx: Seq<int>,
    lay: Seq<i32>,
    src: int,
    sink: int,
    adv: (usize, usize, usize),
)
    requires
        frames_valid(ents, r, fr, path, idx, lay, src, sink),
        fr.len() >= 1,
        adv.0 == fr.last().0,
        adv.1 == fr.last().1 + 1,
        adv.2 == fr.last().2,
        adv.1 <= adv.2,
    ensures
        frames_valid(ents, r, fr.drop_last().push(adv), path, idx, lay, src, sink),
{
    let f2 = fr.drop_last().push(adv);
    let l = fr.len() - 1;
    assert forall|j: int| 0 <= j < f2.len() implies frame_ok(ents, r, #[trigger] f2[j], path[j] as int) by {
        assert(frame_ok(ents, r, fr[j], path[j] as int));
    }
    assert forall|j: int| 1 <= j < f2.len() implies link_ok(
        ents,
        r,
        f2[j - 1],
        #[trigger] f2[j],
        path[j - 1] as int,
        idx[j],
        path[j] as int,
    ) by {
        assert(link_ok(ents, r, fr[j - 1], fr[j], path[j - 1] as int, idx[j], path[j] as int));
    }
}

proof fn lemma_frames_push(
    ents: Seq<VertexEntry>,
    r: Seq<Seq<Edge>>,
    fr: Seq<(usize, usize, usize)>,
    path: Seq<u32>,
    idx: Seq<int>,
    lay: Seq<i32>,
    src: int,
    sink: int,
    child: (usize, usize, usize),
    t: u32,
    i: int,
)
    requires
        frames_valid(ents, r, fr, path, idx, lay, src, sink),
        fr.len() >= 1,
        path.last() as int != sink,
        0 <= i < r[path.last() as int].len(),
        child.0 == ents[path.last() as int].offset + i,
        fr.last().1 == child.0 + 1,
        spec_vh(r[path.last() as int][i]) == t,
        spec_wgt(r[path.last() as int][i]) != 0,
        t < r.len(),
        child.1 == ents[t as int].offset,
        child.2 == ents[t as int].offset + ents[t as int].len,
        lay[t as int] > lay[path.last() as int],
    ensures
        frames_valid(ents, r, fr.push(child), path.push(t), idx.push(i), lay, src, sink),
{
    let f2 = fr.push(child);
    let p2 = path.push(t);
    let i2 = idx.push(i);
    let l = fr.len();
    assert forall|j: int| 0 <= j < f2.len() implies frame_ok(ents, r, #[trigger] f2[j], p2[j] as int) by {
        if j < l {
            assert(frame_ok(ents, r, fr[j], path[j] as int));
        }
    }
    assert forall|j: int| 1 <= j < f2.len() implies link_ok(
        ents,
        r,
        f2[j - 1],
        #[trigger] f2[j],
        p2[j - 1] as int,
        i2[j],
        p2[j] as int,
    ) by {
        if j < l {
            assert(link_ok(ents, r, fr[j - 1], fr[j], path[j - 1] as int, idx[j], path[j] as int));
        } else {
            assert(f2[j - 1] == fr.last());
            assert(p2[j - 1] == path.last());
        }
    }
    assert forall|a: int, c: int| 0 <= a < c < f2.len() implies lay[#[trigger] p2[a] as int] < lay[#[trigger] p2[c] as int] by {
        if c < l {
            assert(lay[path[a] as int] < lay[path[c] as int]);
        } else if a < l - 1 {
            assert(lay[path[a] as int] < lay[path[l - 1] as int]);
        }
    }
    assert forall|j: int| 0 <= j < f2.len() - 1 implies #[trigger] p2[j] as int != sink by {
        if j < l - 1 {
            assert(path[j] as int != sink);
        }
    }
}

/// Reaching the sink starts the unwinding: the path has at least two edges
/// (an edge from the source straight into the sink has weight 0) and
/// nothing is lowered yet.
proof fn lemma_unwind_begin(
    ents: Seq<VertexEntry>,
    lay: Seq<i32>,
    cap: Seq<Seq<Edge>>,
    r0: Seq<Seq<Edge>>,
    fr: Seq<(usize, usize, usize)>,
    path: Seq<u32>,
    idx: Seq<int>,
    b: int,
    src: int,
    sink: int,
    s0: int,
)
    requires
        start_ok(cap, r0, src, sink, s0),
        frames_valid(ents, r0, fr, path, idx, lay, src, sink),
        fr.len() >= 1,
        path.last() as int == sink,
        b >= 1,
        forall|j: int| 1 <= j < path.len() - 1 ==> spec_wgt(#[trigger] r0[path[j - 1] as int][idx[j]]) >= b,
    ensures
        unwind_ok(
            ents,
            lay,
            cap,
            r0,
            r0,
            fr,
            path,
            idx,
            path_positions(path, idx),
            fr.len() - 1,
            fr.len() as int,
            b,
            0,
            src,
            sink,
        ),
{
    let k = fr.len() - 1;
    let n = cap.len() as int;
    assert(k >= 1) by {
        if k == 0 {
            assert(path[0] as int == src);
        }
    }
    assert(k >= 2) by {
        if k == 1 {
            assert(link_ok(ents, r0, fr[0], fr[1], path[0] as int, idx[1], path[1] as int));
            assert(residual_edge_ok(r0[src][idx[1]], cap[src][idx[1]], src, src, sink, residual_total(r0, sink) - s0));
        }
    }
    let pos = path_positions(path, idx);
    assert forall|u: int, i: int| 0 <= u < n && 0 <= i < r0[u].len() implies #[trigger] r0[u][i] == lowered(
        r0,
        pos,
        lowered_from(k + 1),
        k,
        b,
        u,
        i,
    ) by {}
    assert(b * 0 == 0);
}

/// One unwinding step: the top frame's entry edge is still as it was when
/// the search started; lowering it by `b` cannot overflow, and afterwards
/// one frame less is left.
proof fn lemma_unwind_step(
    ents: Seq<VertexEntry>,
    lay: Seq<i32>,
    cap: Seq<Seq<Edge>>,
    r0: Seq<Seq<Edge>>,
    cur: Seq<Seq<Edge>>,
    aug_fr: Seq<(usize, usize, usize)>,
    aug_path: Seq<u32>,
    aug_idx: Seq<int>,
    pos: Seq<(int, int)>,
    k: int,
    l: int,
    b: int,
    nsu: int,
    src: int,
    sink: int,
    s0: int,
)
    requires
        start_ok(cap, r0, src, sink, s0),
        unwind_ok(ents, lay, cap, r0, cur, aug_fr, aug_path, aug_idx, pos, k, l, b, nsu, src, sink),
        2 <= l,
    ensures
        ({
            let u = aug_path[l - 2] as int;
            let i = aug_idx[l - 1];
            let e = cur[u][i];
            let e2 = spec_pack(spec_vh(e), (spec_wgt(e) - b) as i32);
            let nsu2 = if l - 1 < k { nsu + 1 } else { nsu };
            &&& 0 <= u < cap.len()
            &&& 0 <= i < r0[u].len()
            &&& e == r0[u][i]
            &&& spec_vh(e) == aug_path[l - 1]
            &&& spec_wgt(e) - b >= -s0
            &&& unwind_ok(
                ents,
                lay,
                cap,
                r0,
                cur.update(u, cur[u].update(i, e2)),
                aug_fr,
                aug_path,
                aug_idx,
                pos,
                k,
                l - 1,
                b,
                nsu2,
                src,
                sink,
            )
        }),
{
    let n = cap.len() as int;
    let u = aug_path[l - 2] as int;
    let i = aug_idx[l - 1];
    let lo_old = lowered_from(l);
    let lo_new = lowered_from(l - 1);
    let sr0 = residual_total(r0, sink);
    assert(link_ok(ents, r0, aug_fr[l - 2], aug_fr[l - 1], u, i, aug_path[l - 1] as int));
    assert(frame_ok(ents, r0, aug_fr[l - 2], u));
    assert(pos[l - 1] == (u, i));
    assert(!on_path(pos, lo_old, k, u, i)) by {
        if on_path(pos, lo_old, k, u, i) {
            let j = choose|j: int| lo_old <= j <= k && #[trigger] pos[j] == (u, i);
            assert(lay[aug_path[l - 2] as int] < lay[aug_path[j - 1] as int]);
        }
    }
    let e = cur[u][i];
    assert(e == r0[u][i]);
    assert(residual_edge_ok(r0[u][i], cap[u][i], u, src, sink, sr0 - s0));
    assert(spec_vh(r0[u][i]) == spec_vh(cap[u][i]));
    assert forall|v: int, j: int| 0 <= v < r0.len() && 0 <= j < r0[v].len() implies weight_avoiding(sink)(
        #[trigger] r0[v][j],
    ) >= 0 by {
        assert(residual_edge_ok(r0[v][j], cap[v][j], v, src, sink, sr0 - s0));
        assert(spec_vh(r0[v][j]) == spec_vh(cap[v][j]));
    }
    lemma_graph_sum_bound(r0, weight_avoiding(sink), src, aug_idx[1]);
    if l - 1 < k {
        assert(spec_wgt(r0[aug_path[l - 2] as int][aug_idx[l - 1]]) >= b);
        assert(aug_path[l - 1] as int != sink);
    } else {
        assert(link_ok(ents, r0, aug_fr[0], aug_fr[1], aug_path[0] as int, aug_idx[1], aug_path[1] as int));
        assert(aug_path[1] as int != sink);
        assert(spec_wgt(r0[src][aug_idx[1]]) >= b);
        assert(spec_vh(r0[src][aug_idx[1]]) == spec_vh(cap[src][aug_idx[1]]));
    }
    assert(spec_wgt(e) - b >= -s0);
    let e2 = spec_pack(spec_vh(e), (spec_wgt(e) - b) as i32);
    lemma_pack_unpack(spec_vh(e), (spec_wgt(e) - b) as i32);
    let new = cur.update(u, cur[u].update(i, e2));
    lemma_flows_after_update(cur, u, i, e2);
    lemma_graph_sum_update_edge(cur, u, i, e2, weight_avoiding(sink));
    assert forall|uu: int, ii: int| 0 <= uu < n && 0 <= ii < r0[uu].len() implies #[trigger] new[uu][ii]
        == lowered(r0, pos, lo_new, k, b, uu, ii) by {
        if uu == u && ii == i {
            assert(on_path(pos, lo_new, k, u, i)) by {
                assert(pos[l - 1] == (u, i));
            }
        } else {
            assert(new[uu][ii] == cur[uu][ii]);
            if on_path(pos, lo_new, k, uu, ii) {
                let j = choose|j: int| lo_new <= j <= k && #[trigger] pos[j] == (uu, ii);
                assert(j != l - 1);
                assert(on_path(pos, lo_old, k, uu, ii));
            }
            if on_path(pos, lo_old, k, uu, ii) {
                let j = choose|j: int| lo_old <= j <= k && #[trigger] pos[j] == (uu, ii);
                assert(on_path(pos, lo_new, k, uu, ii));
            }
        }
    }
    assert forall|uu: int| 0 <= uu < n implies #[trigger] new[uu].len() == r0[uu].len() by {}
    let nsu2 = if l - 1 < k { nsu + 1 } else { nsu };
    assert(b * nsu2 == b * nsu + (if l - 1 < k { b } else { 0 })) by (nonlinear_arith)
        requires
            nsu2 == (if l - 1 < k { nsu + 1 } else { nsu }),
    ;
    assert(u != aug_path[l - 1] as int) by {
        assert(lay[aug_path[l - 2] as int] < lay[aug_path[l - 1] as int]);
    }
    let t = aug_path[l - 1] as int;
    assert(spec_vh(e2) == t);
    assert(spec_wgt(e2) == spec_wgt(e) - b);
    assert(residual_total(new, sink) == residual_total(r0, sink) - b * nsu2);
    assert forall|v: int| 0 <= v < n && v != src && v != sink implies #[trigger] balance(new, v) == balance(cap, v) + (if 1 <= l - 1
        <= k && v == aug_path[l - 2] as int {
        b
    } else {
        0
    }) by {
        assert(balance(cur, v) == balance(cap, v) + (if 1 <= l <= k && v == aug_path[l - 1] as int {
            b
        } else {
            0
        }));
        assert(inflow(new, v) == inflow(cur, v) + (if v == t { -b } else { 0 }));
        assert(outflow(new, v) == outflow(cur, v) + (if v == u { -b } else { 0 }));
    }
}

/// Popping the root frame changes nothing but the frame count.
proof fn lemma_unwind_root(
    ents: Seq<VertexEntry>,
    lay: Seq<i32>,
    cap: Seq<Seq<Edge>>,
    r0: Seq<Seq<Edge>>,
    cur: Seq<Seq<Edge>>,
    aug_fr: Seq<(usize, usize, usize)>,
    aug_path: Seq<u32>,
    aug_idx: Seq<int>,
    pos: Seq<(int, int)>,
    k: int,
    b: int,
    nsu: int,
    src: int,
    sink: int,
)
    requires
        unwind_ok(ents, lay, cap, r0, cur, aug_fr, aug_path, aug_idx, pos, k, 1, b, nsu, src, sink),
    ensures
        unwind_ok(ents, lay, cap, r0, cur, aug_fr, aug_path, aug_idx, pos, k, 0, b, nsu, src, sink),
{
    assert(aug_path[0] as int == src);
}

/// When the unwinding is over, every path edge is lowered by `b`: the
/// result is again a residual network of `cap`, with less left outside the
/// edges into the sink.
proof fn lemma_unwind_end(
    ents: Seq<VertexEntry>,
    lay: Seq<i32>,
    cap: Seq<Seq<Edge>>,
    r0: Seq<Seq<Edge>>,
    cur: Seq<Seq<Edge>>,
    aug_fr: Seq<(usize, usize, usize)>,
    aug_path: Seq<u32>,
    aug_idx: Seq<int>,
    pos: Seq<(int, int)>,
    k: int,
    b: int,
    nsu: int,
    src: int,
    sink: int,
    s0: int,
)
    requires
        start_ok(cap, r0, src, sink, s0),
        unwind_ok(ents, lay, cap, r0, cur, aug_fr, aug_path, aug_idx, pos, k, 0, b, nsu, src, sink),
    ensures
        residual_ok(cur, cap, src, sink, s0),
        residual_total(cur, sink) < residual_total(r0, sink),
{
    let n = cap.len() as int;
    let sr0 = residual_total(r0, sink);
    assert(b * (k - 1) >= b) by (nonlinear_arith)
        requires
            b >= 1,
            k >= 2,
    ;
    assert forall|v: int, j: int| 0 <= v < r0.len() && 0 <= j < r0[v].len() implies weight_avoiding(sink)(
        #[trigger] r0[v][j],
    ) >= 0 by {
        assert(residual_edge_ok(r0[v][j], cap[v][j], v, src, sink, sr0 - s0));
        assert(spec_vh(r0[v][j]) == spec_vh(cap[v][j]));
    }
    assert(link_ok(ents, r0, aug_fr[0], aug_fr[1], aug_path[0] as int, aug_idx[1], aug_path[1] as int));
    assert(aug_path[1] as int != sink);
    assert(spec_vh(r0[src][aug_idx[1]]) == spec_vh(cap[src][aug_idx[1]]));
    lemma_graph_sum_bound(r0, weight_avoiding(sink), src, aug_idx[1]);
    assert(sr0 >= b);
    assert forall|v: int, i: int| 0 <= v < n && 0 <= i < cap[v].len() implies spec_vh(#[trigger] cur[v][i])
        == spec_vh(cap[v][i]) by {
        lemma_pack_unpack(spec_vh(r0[v][i]), (spec_wgt(r0[v][i]) - b) as i32);
        assert(r0[v].len() == cap[v].len());
    }
    assert forall|v: int| 0 <= v < n implies #[trigger] cur[v].len() == cap[v].len() by {
        assert(r0[v].len() == cap[v].len());
    }
    assert(same_targets(cur, cap));
    assert forall|v: int, i: int| 0 <= v < n && 0 <= i < cap[v].len() implies residual_edge_ok(
        #[trigger] cur[v][i],
        cap[v][i],
        v,
        src,
        sink,
        residual_total(cur, sink) - s0,
    ) by {
        assert(r0[v].len() == cap[v].len());
        assert(residual_edge_ok(r0[v][i], cap[v][i], v, src, sink, sr0 - s0));
        if on_path(pos, 1, k, v, i) {
            let j = choose|j: int| 1 <= j <= k && #[trigger] pos[j] == (v, i);
            lemma_pack_unpack(spec_vh(r0[v][i]), (spec_wgt(r0[v][i]) - b) as i32);
            assert(link_ok(ents, r0, aug_fr[j - 1], aug_fr[j], aug_path[j - 1] as int, aug_idx[j], aug_path[j] as int));
            assert(spec_vh(r0[v][i]) == spec_vh(cap[v][i]));
            if j < k {
                assert(spec_wgt(r0[aug_path[j - 1] as int][aug_idx[j]]) >= b);
                assert(aug_path[j] as int != sink);
            } else {
                assert(lay[aug_path[0] as int] < lay[aug_path[k - 1] as int]);
            }
        }
    }
}

/// While the search has not reached the sink: from the target of every
/// edge a frame has read, except the edge that leads to the next frame,
/// no layered path leads to the sink, if the edge could be taken.
spec fn scanned_dead(
    ents: Seq<VertexEntry>,
    r: Seq<Seq<Edge>>,
    lay: Seq<i32>,
    fr: Seq<(usize, usize, usize)>,
    path: Seq<u32>,
    idx: Seq<int>,
    sink: int,
) -> bool {
    forall|j: int, i: int|
        0 <= j < fr.len() && 0 <= i < fr[j].1 - ents[path[j] as int].offset && !(j + 1 < fr.len() && i == idx[j
            + 1]) && spec_wgt(#[trigger] r[path[j] as int][i]) != 0 && lay[path[j] as int] < lay[spec_vh(
            r[path[j] as int][i],
        ) as int] ==> !layered_reachable(r, lay, spec_vh(r[path[j] as int][i]) as int, sink)
}

/// A vertex other than the sink from which every edge that could be taken
/// leads where no layered path reaches the sink has no layered path to the
/// sink either.
proof fn lemma_no_layered_way(r: Seq<Seq<Edge>>, lay: Seq<i32>, x: int, sink: int)
    requires
        x != sink,
        0 <= x < r.len(),
        forall|i: int|
            0 <= i < r[x].len() && spec_wgt(#[trigger] r[x][i]) != 0 && lay[x] < lay[spec_vh(r[x][i]) as int]
                ==> !layered_reachable(r, lay, spec_vh(r[x][i]) as int, sink),
    ensures
        !layered_reachable(r, lay, x, sink),
{
    if layered_reachable(r, lay, x, sink) {
        let p = choose|p: Seq<int>| #[trigger] is_layered_path(r, lay, p) && p[0] == x && p.last() == sink;
        assert(p.len() >= 2);
        let z: int = 0;
        assert(has_layered_edge(r, lay, p[z], p[z + 1]));
        let i = choose|i: int| 0 <= i < r[x].len() && spec_vh(#[trigger] r[x][i]) == p[1] && spec_wgt(r[x][i]) != 0;
        let q = p.drop_first();
        assert forall|j: int| 0 <= j < q.len() - 1 implies #[trigger] has_layered_edge(r, lay, q[j], q[j + 1]) by {
            assert(q[j] == p[j + 1] && q[j + 1] == p[j + 2]);
            assert(has_layered_edge(r, lay, p[j + 1], p[j + 2]));
        }
        assert(is_layered_path(r, lay, q));
        assert(q[0] == spec_vh(r[x][i]) as int);
        assert(layered_reachable(r, lay, spec_vh(r[x][i]) as int, sink));
    }
}

/// Popping a finished frame whose vertex is not the sink: its vertex has
/// no layered path to the sink, and the frames below keep the property.
proof fn lemma_scanned_pop(
    ents: Seq<VertexEntry>,
    r: Seq<Seq<Edge>>,
    lay: Seq<i32>,
    fr: Seq<(usize, usize, usize)>,
    path: Seq<u32>,
    idx: Seq<int>,
    src: int,
    sink: int,
)
    requires
        frames_valid(ents, r, fr, path, idx, lay, src, sink),
        scanned_dead(ents, r, lay, fr, path, idx, sink),
        fr.len() >= 1,
        fr.last().1 == fr.last().2,
        path.last() as int != sink,
        r[path.last() as int].len() == ents[path.last() as int].len,
    ensures
        !layered_reachable(r, lay, path.last() as int, sink),
        scanned_dead(ents, r, lay, fr.drop_last(), path.drop_last(), idx.drop_last(), sink),
{
    let l = fr.len() - 1;
    let x = path[l] as int;
    assert(frame_ok(ents, r, fr[l], x));
    assert forall|i: int|
        0 <= i < r[x].len() && spec_wgt(#[trigger] r[x][i]) != 0 && lay[x] < lay[spec_vh(r[x][i]) as int]
            implies !layered_reachable(r, lay, spec_vh(r[x][i]) as int, sink) by {
        assert(spec_wgt(r[path[l] as int][i]) != 0);
    }
    lemma_no_layered_way(r, lay, x, sink);
    let f2 = fr.drop_last();
    let p2 = path.drop_last();
    let i2 = idx.drop_last();
    assert forall|j: int, i: int|
        0 <= j < f2.len() && 0 <= i < f2[j].1 - ents[p2[j] as int].offset && !(j + 1 < f2.len() && i == i2[j
            + 1]) && spec_wgt(#[trigger] r[p2[j] as int][i]) != 0 && lay[p2[j] as int] < lay[spec_vh(
            r[p2[j] as int][i],
        ) as int] implies !layered_reachable(r, lay, spec_vh(r[p2[j] as int][i]) as int, sink) by {
        assert(f2[j] == fr[j] && p2[j] == path[j]);
        if j + 1 == l && i == idx[l] {
            assert(link_ok(ents, r, fr[l - 1], fr[l], path[l - 1] as int, idx[l], x));
        } else {
            assert(spec_wgt(r[path[j] as int][i]) != 0);
        }
    }
}

/// Reading one more edge of the top frame: an edge that cannot be taken
/// adds nothing to show.
proof fn lemma_scanned_skip(
    ents: Seq<VertexEntry>,
    r: Seq<Seq<Edge>>,
    lay: Seq<i32>,
    fr: Seq<(usize, usize, usize)>,
    path: Seq<u32>,
    idx: Seq<int>,
    sink: int,
    adv: (usize, usize, usize),
)
    requires
        scanned_dead(ents, r, lay, fr, path, idx, sink),
        fr.len() >= 1,
        fr.len() == path.len(),
        adv.1 == fr.last().1 + 1,
        ({
            let x = path.last() as int;
            let i = fr.last().1 - ents[x].offset;
            spec_wgt(r[x][i]) == 0 || lay[x] >= lay[spec_vh(r[x][i]) as int]
        }),
    ensures
        scanned_dead(ents, r, lay, fr.drop_last().push(adv), path, idx, sink),
{
    let f2 = fr.drop_last().push(adv);
    let l = fr.len() - 1;
    assert forall|j: int, i: int|
        0 <= j < f2.len() && 0 <= i < f2[j].1 - ents[path[j] as int].offset && !(j + 1 < f2.len() && i == idx[j
            + 1]) && spec_wgt(#[trigger] r[path[j] as int][i]) != 0 && lay[path[j] as int] < lay[spec_vh(
            r[path[j] as int][i],
        ) as int] implies !layered_reachable(r, lay, spec_vh(r[path[j] as int][i]) as int, sink) by {
        if j < l {
            assert(f2[j] == fr[j]);
        } else {
            assert(i != fr.last().1 - ents[path[l] as int].offset);
        }
    }
}

/// Reading one more edge of the top frame and entering its target as a new
/// frame: the edge read leads to the new frame, and the new frame has read
/// nothing yet.
proof fn lemma_scanned_enter(
    ents: Seq<VertexEntry>,
    r: Seq<Seq<Edge>>,
    lay: Seq<i32>,
    fr: Seq<(usize, usize, usize)>,
    path: Seq<u32>,
    idx: Seq<int>,
    sink: int,
    adv: (usize, usize, usize),
    child: (usize, usize, usize),
    t: u32,
)
    requires
        scanned_dead(ents, r, lay, fr, path, idx, sink),
        fr.len() >= 1,
        fr.len() == path.len(),
        fr.len() == idx.len(),
        adv.1 == fr.last().1 + 1,
        child.1 == ents[t as int].offset,
    ensures
        scanned_dead(
            ents,
            r,
            lay,
            fr.drop_last().push(adv).push(child),
            path.push(t),
            idx.push(fr.last().1 - ents[path.last() as int].offset),
            sink,
        ),
{
    let l = fr.len() - 1;
    let f2 = fr.drop_last().push(adv).push(child);
    let p2 = path.push(t);
    let i2 = idx.push(fr.last().1 - ents[path.last() as int].offset);
    assert forall|j: int, i: int|
        0 <= j < f2.len() && 0 <= i < f2[j].1 - ents[p2[j] as int].offset && !(j + 1 < f2.len() && i == i2[j
            + 1]) && spec_wgt(#[trigger] r[p2[j] as int][i]) != 0 && lay[p2[j] as int] < lay[spec_vh(
            r[p2[j] as int][i],
        ) as int] implies !layered_reachable(r, lay, spec_vh(r[p2[j] as int][i]) as int, sink) by {
        assert(j <= l);
        assert(p2[j] == path[j]);
        if j < l {
            assert(f2[j] == fr[j]);
            assert(i2[j + 1] == idx[j + 1]);
        } else {
            assert(f2[j] == adv);
        }
    }
}

/// Whether a path of nonzero-weight edges leads from `from` to `to` whose
/// vertices after the first all have the layer `UNREACHED` in `l`.
pub open spec fn open_reachable_fresh(edges: Seq<Seq<Edge>>, l: Seq<Weight>, from: int, to: int) -> bool {
    exists|p: Seq<int>|
        #[trigger] is_open_path(edges, p) && p[0] == from && p.last() == to && forall|j: int|
            1 <= j < p.len() ==> l[#[trigger] p[j]] == UNREACHED
}

/// Whether `l` holds, for every vertex of `edges`, whether a path of
/// nonzero-weight edges leads to it from `src` and, if one does, the least
/// number of edges on such a path.
pub open spec fn levels_from(edges: Seq<Seq<Edge>>, l: Seq<Weight>, src: int) -> bool {
    forall|v: int|
        0 <= v < edges.len() ==> (#[trigger] l[v] != UNREACHED <==> open_reachable(edges, src, v)) && (l[v]
            != UNREACHED ==> open_distance(edges, src, v, l[v] as int))
}

proof fn lemma_open_fresh_self(edges: Seq<Seq<Edge>>, l: Seq<Weight>, v: int)
    ensures
        open_reachable_fresh(edges, l, v, v),
{
    assert(is_open_path(edges, seq![v]));
}

proof fn lemma_open_fresh_step(edges: Seq<Seq<Edge>>, l: Seq<Weight>, from: int, u: int, k: int)
    requires
        open_reachable_fresh(edges, l, from, u),
        0 <= u < edges.len(),
        0 <= k < edges[u].len(),
        spec_wgt(edges[u][k]) != 0,
        l[spec_vh(edges[u][k]) as int] == UNREACHED,
    ensures
        open_reachable_fresh(edges, l, from, spec_vh(edges[u][k]) as int),
{
    let p = choose|p: Seq<int>|
        #[trigger] is_open_path(edges, p) && p[0] == from && p.last() == u && forall|j: int|
            1 <= j < p.len() ==> l[#[trigger] p[j]] == UNREACHED;
    let v = spec_vh(edges[u][k]) as int;
    let q = p.push(v);
    assert(has_open_edge(edges, u, v));
    assert forall|j: int| 0 <= j < q.len() - 1 implies #[trigger] has_open_edge(edges, q[j], q[j + 1]) by {
        if j < p.len() - 1 {
            assert(q[j] == p[j] && q[j + 1] == p[j + 1]);
        } else {
            assert(q[j] == u && q[j + 1] == v);
        }
    }
    assert(is_open_path(edges, q));
    assert forall|j: int| 1 <= j < q.len() implies l[#[trigger] q[j]] == UNREACHED by {
        if j < p.len() {
            assert(q[j] == p[j]);
        }
    }
}

/// A layered path is a path of nonzero-weight edges.
proof fn lemma_layered_is_open(edges: Seq<Seq<Edge>>, lay: Seq<Weight>, from: int, to: int)
    requires
        layered_reachable(edges, lay, from, to),
    ensures
        open_reachable(edges, from, to),
{
    let p = choose|p: Seq<int>| #[trigger] is_layered_path(edges, lay, p) && p[0] == from && p.last() == to;
    assert forall|j: int| 0 <= j < p.len() - 1 implies #[trigger] has_open_edge(edges, p[j], p[j + 1]) by {
        assert(has_layered_edge(edges, lay, p[j], p[j + 1]));
    }
    assert(is_open_path(edges, p));
}

/// A path of nonzero residual weight that never enters the sink runs along
/// edges of nonzero capacity.
proof fn lemma_fresh_path_in_capacities(
    r: Seq<Seq<Edge>>,
    c: Seq<Seq<Edge>>,
    l: Seq<Weight>,
    src: int,
    sink: int,
    s0: int,
    v: int,
)
    requires
        residual_ok(r, c, src, sink, s0),
        open_reachable_fresh(r, l, src, v),
        l[sink] != UNREACHED,
    ensures
        open_reachable(c, src, v),
{
    let p = choose|p: Seq<int>|
        #[trigger] is_open_path(r, p) && p[0] == src && p.last() == v && forall|j: int|
            1 <= j < p.len() ==> l[#[trigger] p[j]] == UNREACHED;
    assert forall|j: int| 0 <= j < p.len() - 1 implies #[trigger] has_open_edge(c, p[j], p[j + 1]) by {
        assert(has_open_edge(r, p[j], p[j + 1]));
        let u = p[j];
        let i = choose|i: int| 0 <= i < r[u].len() && spec_vh(#[trigger] r[u][i]) == p[j + 1] && spec_wgt(r[u][i]) != 0;
        assert(l[p[j + 1]] == UNREACHED);
        assert(p[j + 1] != sink);
        assert(r[u].len() == c[u].len());
        assert(spec_vh(r[u][i]) == spec_vh(c[u][i]));
        assert(residual_edge_ok(r[u][i], c[u][i], u, src, sink, residual_total(r, sink) - s0));
        assert(spec_vh(c[u][i]) == p[j + 1] && spec_wgt(c[u][i]) != 0);
    }
    assert(is_open_path(c, p));
}

/// One depth-first search from the source over the layered edges of
/// nonzero weight. When it reaches the sink it lowers every edge of the
/// path by the bottleneck (the smallest weight it met on its way, edges
/// into the sink aside) and returns `true`; otherwise nothing changes.
#[verifier::rlimit(100)]
#[verifier::spinoff_prover]
/// The state of one search for an augmenting path: the open frames, bottom
/// first, each its vertex, the position of the edge that entered it in its
/// parent's edges (-1 for the source's frame) and the position of its next
/// edge to read; the least weight met so far; whether the sink was reached;
/// and the residual network.
pub type SearchState = (Seq<(int, int, int)>, int, bool, Seq<Seq<Edge>>);

/// The state a search starts in on the residual network `r`.
pub open spec fn search_init(r: Seq<Seq<Edge>>, src: int) -> SearchState {
    (seq![(src, -1int, 0int)], Weight::MAX as int, false, r)
}

/// One step of the search. The top frame is taken off, with the edge that
/// entered it (an edge to the source of weight `Weight::MAX` for the
/// source's frame). Once that edge leads to the sink, the search unwinds:
/// every frame taken off lowers the edge that entered it by the least
/// weight met. Otherwise the least weight takes in that edge's weight; a
/// frame whose edges are all read is dropped; else its next edge is read
/// and the frame put back, and an edge of nonzero weight to a vertex of a
/// higher layer opens a frame for that vertex on top.
#[verifier::opaque]
pub open spec fn search_step(lay: Seq<Weight>, src: int, sink: int, st: SearchState) -> SearchState {
    let (fs, b, aug, r) = st;
    if fs.len() == 0 {
        st
    } else {
        let top = fs.last();
        let x = top.0;
        let u = if fs.len() >= 2 { fs[fs.len() - 2].0 } else { -1 };
        let out = if top.1 < 0 { spec_pack(src as u32, Weight::MAX) } else { r[u][top.1] };
        let rest = fs.drop_last();
        if aug || spec_vh(out) == sink {
            if top.1 >= 0 {
                (rest, b, true, r.update(u, r[u].update(top.1, spec_pack(spec_vh(out), (spec_wgt(out) - b) as i32))))
            } else {
                (rest, b, true, r)
            }
        } else {
            let b2 = if spec_wgt(out) < b { spec_wgt(out) as int } else { b };
            if top.2 >= r[x].len() {
                (rest, b2, false, r)
            } else {
                let nx = r[x][top.2];
                let adv = rest.push((x, top.1, top.2 + 1));
                if spec_wgt(nx) != 0 && lay[spec_vh(nx) as int] > lay[spec_vh(out) as int] {
                    (adv.push((spec_vh(nx) as int, top.2, 0int)), b2, false, r)
                } else {
                    (adv, b2, false, r)
                }
            }
        }
    }
}

/// The state after `k` steps of the search on `r`.
pub open spec fn search_iter(r: Seq<Seq<Edge>>, lay: Seq<Weight>, src: int, sink: int, k: nat) -> SearchState
    decreases k,
{
    if k == 0 {
        search_init(r, src)
    } else {
        search_step(lay, src, sink, search_iter(r, lay, src, sink, (k - 1) as nat))
    }
}

/// What the search on `r` ends with: whether it reached the sink, and the
/// residual network then.
pub open spec fn search_result(r: Seq<Seq<Edge>>, lay: Seq<Weight>, src: int, sink: int) -> (bool, Seq<Seq<Edge>>) {
    let k = choose|k: nat| #[trigger] search_iter(r, lay, src, sink, k).0.len() == 0;
    (search_iter(r, lay, src, sink, k).2, search_iter(r, lay, src, sink, k).3)
}

/// The residual network after `m` searches in a row, each on what the one
/// before left.
pub open spec fn searches(r: Seq<Seq<Edge>>, lay: Seq<Weight>, src: int, sink: int, m: nat) -> Seq<Seq<Edge>>
    decreases m,
{
    if m == 0 {
        r
    } else {
        search_result(searches(r, lay, src, sink, (m - 1) as nat), lay, src, sink).1
    }
}

/// Whether each of the first `m` searches in a row reached the sink.
pub open spec fn searches_found(r: Seq<Seq<Edge>>, lay: Seq<Weight>, src: int, sink: int, m: nat) -> bool {
    forall|j: nat| j < m ==> #[trigger] search_result(searches(r, lay, src, sink, j), lay, src, sink).0
}

/// Whether `r2` is what searches in a row leave of `r` with the layers
/// `lay`: each reached the sink, and one more would not; with the sink
/// unlayered there was none.
pub open spec fn searched_out(r: Seq<Seq<Edge>>, r2: Seq<Seq<Edge>>, lay: Seq<Weight>, src: int, sink: int) -> bool {
    exists|m: nat|
        #[trigger] searches(r, lay, src, sink, m) == r2 && searches_found(r, lay, src, sink, m) && (lay[sink]
            != UNREACHED ==> !search_result(r2, lay, src, sink).0) && (lay[sink] == UNREACHED ==> m == 0)
}

/// A search that has no frame left stays where it is.
proof fn lemma_search_stays(r: Seq<Seq<Edge>>, lay: Seq<Weight>, src: int, sink: int, k1: nat, k2: nat)
    requires
        search_iter(r, lay, src, sink, k1).0.len() == 0,
        k1 <= k2,
    ensures
        search_iter(r, lay, src, sink, k2) == search_iter(r, lay, src, sink, k1),
    decreases k2,
{
    if k2 > k1 {
        lemma_search_stays(r, lay, src, sink, k1, (k2 - 1) as nat);
        reveal(search_step);
    }
}

/// Once a search has no frame left, its result is the state it stopped in.
proof fn lemma_search_result(r: Seq<Seq<Edge>>, lay: Seq<Weight>, src: int, sink: int, k: nat)
    requires
        search_iter(r, lay, src, sink, k).0.len() == 0,
    ensures
        search_result(r, lay, src, sink) == (search_iter(r, lay, src, sink, k).2, search_iter(r, lay, src, sink, k).3),
{
    let k2 = choose|k2: nat| #[trigger] search_iter(r, lay, src, sink, k2).0.len() == 0;
    assert(search_iter(r, lay, src, sink, k2).0.len() == 0);
    if k2 <= k {
        lemma_search_stays(r, lay, src, sink, k2, k);
    } else {
        lemma_search_stays(r, lay, src, sink, k, k2);
    }
}

/// The search state that the frames of `augment_once` stand for.
spec fn search_frames(
    ents: Seq<VertexEntry>,
    fr: Seq<(usize, usize, usize)>,
    path: Seq<u32>,
    idx: Seq<int>,
) -> Seq<(int, int, int)> {
    Seq::new(
        fr.len(),
        |j: int| (path[j] as int, if j == 0 { -1int } else { idx[j] }, fr[j].1 - ents[path[j] as int].offset),
    )
}

/// Dropping the top frame drops the top of the search frames; putting a
/// frame back with its cursor moved on, or opening one, does the same to
/// them.
proof fn lemma_search_frames(
    ents: Seq<VertexEntry>,
    fr: Seq<(usize, usize, usize)>,
    path: Seq<u32>,
    idx: Seq<int>,
)
    requires
        fr.len() == path.len(),
        idx.len() == path.len(),
        fr.len() >= 1,
    ensures
        search_frames(ents, fr.drop_last(), path.drop_last(), idx.drop_last()) == search_frames(ents, fr, path, idx).drop_last(),
        forall|f: (usize, usize, usize)|
            f.1 == fr.last().1 + 1 ==> #[trigger] search_frames(ents, fr.drop_last().push(f), path, idx) == search_frames(
                ents,
                fr,
                path,
                idx,
            ).drop_last().push(
                (
                    search_frames(ents, fr, path, idx).last().0,
                    search_frames(ents, fr, path, idx).last().1,
                    search_frames(ents, fr, path, idx).last().2 + 1,
                ),
            ),
        forall|f: (usize, usize, usize), t: u32, i: int|
            fr.len() >= 1 ==> #[trigger] search_frames(ents, fr.push(f), path.push(t), idx.push(i)) == search_frames(
                ents,
                fr,
                path,
                idx,
            ).push((t as int, i, f.1 - ents[t as int].offset)),
{
    let m = search_frames(ents, fr, path, idx);
    assert(search_frames(ents, fr.drop_last(), path.drop_last(), idx.drop_last()) =~= m.drop_last());
    assert forall|f: (usize, usize, usize)| f.1 == fr.last().1 + 1 implies #[trigger] search_frames(
        ents,
        fr.drop_last().push(f),
        path,
        idx,
    ) == m.drop_last().push((m.last().0, m.last().1, m.last().2 + 1)) by {
        assert(search_frames(ents, fr.drop_last().push(f), path, idx) =~= m.drop_last().push(
            (m.last().0, m.last().1, m.last().2 + 1),
        ));
    }
    assert forall|f: (usize, usize, usize), t: u32, i: int| fr.len() >= 1 implies #[trigger] search_frames(
        ents,
        fr.push(f),
        path.push(t),
        idx.push(i),
    ) == m.push((t as int, i, f.1 - ents[t as int].offset)) by {
        assert(search_frames(ents, fr.push(f), path.push(t), idx.push(i)) =~= m.push(
            (t as int, i, f.1 - ents[t as int].offset),
        ));
    }
}

/// What the top frame of `augment_once` tells of the search state: its
/// vertex, the position of the edge that entered it, and that edge.
proof fn search_top_facts(
    ents: Seq<VertexEntry>,
    r0: Seq<Seq<Edge>>,
    cur: Seq<Seq<Edge>>,
    fr: Seq<(usize, usize, usize)>,
    path: Seq<u32>,
    idx: Seq<int>,
    lay: Seq<i32>,
    src: int,
    sink: int,
    outgoing: Edge,
)
    requires
        frames_valid(ents, r0, fr, path, idx, lay, src, sink),
        fr.len() >= 1,
        fr.len() >= 2 ==> outgoing == cur[path[fr.len() - 2] as int][idx[fr.len() - 1]],
        fr.len() == 1 ==> outgoing == spec_pack(src as u32, Weight::MAX),
    ensures
        ({
            let m = search_frames(ents, fr, path, idx);
            let l = fr.len() as int;
            &&& m.len() == l
            &&& m.last() == (path[l - 1] as int, if l == 1 { -1int } else { idx[l - 1] }, fr[l - 1].1 - ents[path[l - 1] as int].offset)
            &&& (l == 1 <==> m.last().1 < 0)
            &&& l >= 2 ==> m[l - 2].0 == path[l - 2] as int
            &&& (if m.last().1 < 0 { spec_pack(src as u32, Weight::MAX) } else { cur[m[l - 2].0][m.last().1] }) == outgoing
        }),
{
    let l = fr.len() as int;
    if l >= 2 {
        assert(link_ok(ents, r0, fr[l - 2], fr[l - 1], path[l - 2] as int, idx[l - 1], path[l - 1] as int));
    }
}

#[verifier::rlimit(80)]
#[verifier::spinoff_prover]
fn augment_once(
    es: &mut EdgeStorage,
    layer_data: &Array<Weight>,
    stack: &mut Stack<(usize, usize, usize)>,
    src_handle: VHandle,
    sink_handle: VHandle,
    Ghost(cap): Ghost<Seq<Seq<Edge>>>,
    Ghost(s0): Ghost<int>,
) -> (found: bool)
    requires
        old(es).wf(),
        start_ok(cap, old(es).spec_edges(), src_handle as int, sink_handle as int, s0),
        cap.len() <= weight_array_items(*layer_data).len(),
        frame_stack_items(*old(stack)).len() == 0,
        frame_stack_capacity(*old(stack)) >= cap.len(),
    ensures
        final(es).wf(),
        final(es).vertex_entries@ == old(es).vertex_entries@,
        final(es).reserve == old(es).reserve,
        final(es).items().len() == old(es).items().len(),
        frame_stack_items(*final(stack)).len() == 0,
        frame_stack_capacity(*final(stack)) == frame_stack_capacity(*old(stack)),
        !found ==> final(es).spec_edges() == old(es).spec_edges(),
        found ==> residual_ok(final(es).spec_edges(), cap, src_handle as int, sink_handle as int, s0),
        found ==> residual_total(final(es).spec_edges(), sink_handle as int) < residual_total(
            old(es).spec_edges(),
            sink_handle as int,
        ),
        !found ==> !layered_reachable(
            old(es).spec_edges(),
            weight_array_items(*layer_data),
            src_handle as int,
            sink_handle as int,
        ),
        exists|k: nat|
            #[trigger] search_iter(
                old(es).spec_edges(),
                weight_array_items(*layer_data),
                src_handle as int,
                sink_handle as int,
                k,
            ).0.len() == 0 && search_iter(
                old(es).spec_edges(),
                weight_array_items(*layer_data),
                src_handle as int,
                sink_handle as int,
                k,
            ).2 == found && search_iter(
                old(es).spec_edges(),
                weight_array_items(*layer_data),
                src_handle as int,
                sink_handle as int,
                k,
            ).3 == final(es).spec_edges(),
{
    let ghost r0 = es.spec_edges();
    let ghost ents = es.vertex_entries@;
    let ghost lay = weight_array_items(*layer_data);
    let ghost n = cap.len() as int;
    let ghost src = src_handle as int;
    let ghost sink = sink_handle as int;
    let ghost bb: int = es.items().len() + 2int;
    proof {
        es.lemma_shape();
    }
    let root_edge = pack(src_handle, Weight::MAX);
    let src_off = es.edges_index(src_handle);
    let src_len = es.edges_len(src_handle);
    let root_frame = (ROOT_SLOT, src_off, src_off + src_len);
    frame_stack_push(stack, root_frame);
    let mut augmented = false;
    let mut bottleneck: Weight = Weight::MAX;
    let ghost mut path: Seq<u32> = seq![src_handle];
    let ghost mut idx: Seq<int> = seq![0int];
    let ghost mut aug_path: Seq<u32> = Seq::empty();
    let ghost mut aug_idx: Seq<int> = Seq::empty();
    let ghost mut aug_fr: Seq<(usize, usize, usize)> = Seq::empty();
    let ghost mut pos: Seq<(int, int)> = Seq::empty();
    let ghost mut k: int = 0;
    let ghost mut nsu: int = 0;
    let ghost mut steps: nat = 0;
    proof {
        lemma_pack_unpack(src_handle, Weight::MAX);
        assert(frame_stack_items(*stack) =~= seq![root_frame]);
        assert(search_frames(ents, frame_stack_items(*stack), path, idx) =~= seq![(src, -1int, 0int)]);
        assert(r0[src].len() == ents[src].len);
        assert(frame_ok(ents, r0, root_frame, src));
    }
    while frame_stack_len(stack) != 0
        invariant
            es.wf(),
            es.vertex_entries@ == ents,
            es.reserve == old(es).reserve,
            es.items().len() + 2 == bb,
            start_ok(cap, r0, src, sink, s0),
            r0.len() == n,
            n == cap.len(),
            src == src_handle,
            sink == sink_handle,
            lay == weight_array_items(*layer_data),
            n <= lay.len(),
            frame_stack_capacity(*stack) == frame_stack_capacity(*old(stack)),
            frame_stack_capacity(*stack) >= n,
            root_edge == spec_pack(src_handle, Weight::MAX),
            spec_vh(root_edge) == src_handle,
            spec_wgt(root_edge) == Weight::MAX,
            frames_valid(ents, r0, frame_stack_items(*stack), path, idx, lay, src, sink),
            !augmented ==> es.spec_edges() == r0,
            !augmented ==> bottleneck >= 1,
            !augmented ==> forall|j: int|
                1 <= j < path.len() - 1 ==> spec_wgt(#[trigger] r0[path[j - 1] as int][idx[j]]) >= bottleneck,
            !augmented ==> scanned_dead(ents, r0, lay, frame_stack_items(*stack), path, idx, sink),
            !augmented && frame_stack_items(*stack).len() == 0 ==> !layered_reachable(r0, lay, src, sink),
            augmented ==> unwind_ok(
                ents,
                lay,
                cap,
                r0,
                es.spec_edges(),
                aug_fr,
                aug_path,
                aug_idx,
                pos,
                k,
                path.len() as int,
                bottleneck as int,
                nsu,
                src,
                sink,
            ),
            augmented ==> path.len() <= k,
            augmented ==> path == aug_path.take(path.len() as int),
            augmented ==> idx == aug_idx.take(path.len() as int),
            augmented ==> frame_stack_items(*stack) == aug_fr.take(path.len() as int),
            search_iter(r0, lay, src, sink, steps) == (
                search_frames(ents, frame_stack_items(*stack), path, idx),
                bottleneck as int,
                augmented,
                es.spec_edges(),
            ),
        decreases stack_work(frame_stack_items(*stack), n as nat, bb),
    {
        let ghost fr = frame_stack_items(*stack);
        let ghost l = fr.len() as int;
        let ghost st0 = search_iter(r0, lay, src, sink, steps);
        let ghost path0 = path;
        let ghost idx0 = idx;
        proof {
            lemma_search_frames(ents, fr, path0, idx0);
            assert forall|j: int| 0 <= j < path.len() implies #[trigger] path[j] < n by {
                assert(frame_ok(ents, r0, fr[j], path[j] as int));
            }
            lemma_layered_path(path, lay, n);
            assert forall|j: int| 0 <= j < fr.len() implies #[trigger] fr[j].1 <= fr[j].2 by {
                assert(frame_ok(ents, r0, fr[j], path[j] as int));
            }
            lemma_stack_work_nonneg(fr, n as nat, bb);
        }
        let top = match frame_stack_pop(stack) {
            Some(f) => f,
            None => {
                proof {
                    assert(false);
                }
                (0, 0, 0)
            },
        };
        let in_slot = top.0;
        let cursor = top.1;
        let end = top.2;
        let ghost x = path[l - 1] as int;
        proof {
            assert(top == fr[l - 1]);
            assert(frame_ok(ents, r0, fr[l - 1], x));
            if l >= 2 {
                assert(link_ok(ents, r0, fr[l - 2], fr[l - 1], path[l - 2] as int, idx[l - 1], x));
                assert(fr[l - 1].0 != ROOT_SLOT);
            }
            lemma_stack_work_pop(fr, n as nat, bb);
            lemma_frames_pop(ents, r0, fr, path, idx, lay, src, sink);
        }
        let ghost cur = es.spec_edges();
        proof {
            if augmented && l >= 2 {
                lemma_unwind_step(ents, lay, cap, r0, cur, aug_fr, aug_path, aug_idx, pos, k, l, bottleneck as int, nsu, src, sink, s0);
            }
        }
        let outgoing = if in_slot == ROOT_SLOT {
            root_edge
        } else {
            proof {
                let u = path[l - 2] as int;
                assert(cur[u] == es.live(u));
                assert(cur[u][idx[l - 1]] == es.items()[in_slot as int]);
            }
            es.slot(in_slot)
        };
        proof {
            assert(spec_vh(outgoing) == x);
        }
        let current_layer = weight_array_get(layer_data, vhu(outgoing));
        if vh(outgoing) == sink_handle {
            proof {
                lemma_unwind_begin(ents, lay, cap, r0, fr, path, idx, bottleneck as int, src, sink, s0);
                aug_path = path;
                aug_idx = idx;
                aug_fr = fr;
                k = l - 1;
                nsu = 0;
                pos = path_positions(path, idx);
                lemma_unwind_step(ents, lay, cap, r0, cur, aug_fr, aug_path, aug_idx, pos, k, l, bottleneck as int, nsu, src, sink, s0);
            }
            augmented = true;
        }
        if augmented {
            if in_slot != ROOT_SLOT {
                let ghost u = path[l - 2] as int;
                let ghost i = idx[l - 1];
                let ghost old_es = *es;
                let w = wgt(outgoing);
                let reduced = set_wgt(outgoing, w - bottleneck);
                proof {
                    assert(es.items()[in_slot as int] == cur[u][i]);
                }
                es.set_slot(in_slot, reduced);
                proof {
                    EdgeStorage::lemma_set_live_slot(&old_es, es, u, i, reduced);
                    if l - 1 < k {
                        nsu = nsu + 1;
                    }
                }
            } else {
                proof {
                    lemma_unwind_root(ents, lay, cap, r0, cur, aug_fr, aug_path, aug_idx, pos, k, bottleneck as int, nsu, src, sink);
                }
            }
            proof {
                path = path.drop_last();
                idx = idx.drop_last();
                assert(frame_stack_items(*stack) =~= aug_fr.take(path.len() as int));
                assert(path =~= aug_path.take(path.len() as int));
                assert(idx =~= aug_idx.take(path.len() as int));
                assert(search_step(lay, src, sink, st0) == (
                    search_frames(ents, frame_stack_items(*stack), path, idx),
                    bottleneck as int,
                    augmented,
                    es.spec_edges(),
                )) by {
                    reveal(search_step);
                    search_top_facts(ents, r0, cur, fr, path0, idx0, lay, src, sink, outgoing);
                }
                steps = steps + 1;
            }
            continue;
        }
        if wgt(outgoing) < bottleneck {
            bottleneck = wgt(outgoing);
        }
        proof {
            if l >= 2 {
                assert(residual_edge_ok(r0[path[l - 2] as int][idx[l - 1]], cap[path[l - 2] as int][idx[l - 1]], path[l - 2] as int, src, sink, residual_total(r0, sink) - s0));
            }
        }
        if cursor == end {
            proof {
                assert(r0[x].len() == ents[x].len);
                lemma_scanned_pop(ents, r0, lay, fr, path, idx, src, sink);
                path = path.drop_last();
                idx = idx.drop_last();
                assert(search_step(lay, src, sink, st0) == (
                    search_frames(ents, frame_stack_items(*stack), path, idx),
                    bottleneck as int,
                    augmented,
                    es.spec_edges(),
                )) by {
                    reveal(search_step);
                    search_top_facts(ents, r0, cur, fr, path0, idx0, lay, src, sink, outgoing);
                }
                steps = steps + 1;
            }
            continue;
        }
        proof {
            assert(r0[x] == es.live(x));
            assert(r0[x][cursor - ents[x].offset] == es.items()[cursor as int]);
        }
        let next = es.slot(cursor);
        let advanced = (in_slot, cursor + 1, end);
        frame_stack_push(stack, advanced);
        let t = vh(next);
        proof {
            assert(r0[x].len() == ents[x].len);
            assert(r0[x].len() == cap[x].len());
            assert(spec_vh(r0[x][cursor - ents[x].offset]) == spec_vh(cap[x][cursor - ents[x].offset]));
            assert(spec_vh(cap[x][cursor - ents[x].offset]) < n);
            lemma_frames_advance(ents, r0, fr, path, idx, lay, src, sink, advanced);
        }
        let next_layer = weight_array_get(layer_data, t as usize);
        if wgt(next) != 0 && next_layer > current_layer {
            proof {
                assert forall|j: int| 0 <= j < path.push(t).len() implies #[trigger] path.push(t)[j] < n by {
                    if j < l {
                        assert(frame_ok(ents, r0, fr[j], path[j] as int));
                    }
                }
                assert forall|a: int, c: int| 0 <= a < c < path.push(t).len() implies lay[#[trigger] path.push(t)[a] as int] < lay[#[trigger] path.push(t)[c] as int] by {
                    if c < l {
                        assert(lay[path[a] as int] < lay[path[c] as int]);
                    } else if a < l - 1 {
                        assert(lay[path[a] as int] < lay[path[l - 1] as int]);
                    }
                }
                lemma_layered_path(path.push(t), lay, n);
            }
            let off = es.edges_index(t);
            let len = es.edges_len(t);
            let child = (cursor, off, off + len);
            proof {
                assert(r0[t as int].len() == ents[t as int].len);
            }
            frame_stack_push(stack, child);
            proof {
                lemma_scanned_enter(ents, r0, lay, fr, path, idx, sink, advanced, child, t);
                lemma_stack_work_advance(fr, advanced, Some(child), n as nat, bb);
                lemma_frames_push(ents, r0, fr.drop_last().push(advanced), path, idx, lay, src, sink, child, t, cursor - ents[x].offset);
                path = path.push(t);
                idx = idx.push(cursor - ents[x].offset);
                assert(frame_stack_items(*stack) == fr.drop_last().push(advanced).push(child));
                assert(search_step(lay, src, sink, st0) == (
                    search_frames(ents, frame_stack_items(*stack), path, idx),
                    bottleneck as int,
                    augmented,
                    es.spec_edges(),
                )) by {
                    reveal(search_step);
                    search_top_facts(ents, r0, cur, fr, path0, idx0, lay, src, sink, outgoing);
                }
                steps = steps + 1;
            }
        } else {
            proof {
                lemma_scanned_skip(ents, r0, lay, fr, path, idx, sink, advanced);
                lemma_stack_work_advance(fr, advanced, None, n as nat, bb);
                assert(frame_stack_items(*stack) == fr.drop_last().push(advanced));
                assert(search_step(lay, src, sink, st0) == (
                    search_frames(ents, frame_stack_items(*stack), path, idx),
                    bottleneck as int,
                    augmented,
                    es.spec_edges(),
                )) by {
                    reveal(search_step);
                    search_top_facts(ents, r0, cur, fr, path0, idx0, lay, src, sink, outgoing);
                }
                steps = steps + 1;
            }
        }
    }
    proof {
        if augmented {
            lemma_unwind_end(ents, lay, cap, r0, es.spec_edges(), aug_fr, aug_path, aug_idx, pos, k, bottleneck as int, nsu, src, sink, s0);
        }
        assert(search_iter(r0, lay, src, sink, steps).0.len() == 0);
    }
    augmented
}

/// Whether `c` can serve as the capacities of a flow from `src` to `sink`:
/// both are vertices and differ, every edge leads to a vertex, no weight is
/// below 0, an edge from the source straight into the sink has weight 0,
/// and the weights of the edges that do not lead into the sink, together
/// with that of any one edge into the sink, fit in a `Weight`.
pub open spec fn capacities_ok(c: Seq<Seq<Edge>>, src: int, sink: int) -> bool {
    &&& 0 <= src < c.len()
    &&& 0 <= sink < c.len()
    &&& src != sink
    &&& targets_below(c, c.len() as int)
    &&& forall|v: int, i: int| 0 <= v < c.len() && 0 <= i < c[v].len() ==> 0 <= spec_wgt(#[trigger] c[v][i])
    &&& forall|i: int| 0 <= i < c[src].len() && spec_vh(#[trigger] c[src][i]) == sink ==> spec_wgt(c[src][i]) == 0
    &&& residual_total(c, sink) <= Weight::MAX
    &&& forall|v: int, i: int|
        0 <= v < c.len() && 0 <= i < c[v].len() && spec_vh(#[trigger] c[v][i]) == sink ==> residual_total(c, sink)
            + spec_wgt(c[v][i]) <= Weight::MAX
}

/// Whether `f` is a flow from `src` to `sink` within the capacities `c`:
/// the same edges; no flow below 0; no flow above its capacity on an edge
/// that does not lead into the sink; and at every vertex other than the
/// source and the sink as much flows in as flows out.
pub open spec fn is_flow(f: Seq<Seq<Edge>>, c: Seq<Seq<Edge>>, src: int, sink: int) -> bool {
    &&& same_targets(f, c)
    &&& forall|v: int, i: int|
        0 <= v < c.len() && 0 <= i < c[v].len() ==> 0 <= spec_wgt(#[trigger] f[v][i]) && (spec_vh(c[v][i])
            != sink ==> spec_wgt(f[v][i]) <= spec_wgt(c[v][i]))
    &&& forall|v: int| 0 <= v < c.len() && v != src && v != sink ==> #[trigger] inflow(f, v) == outflow(f, v)
}

/// What a flow `f` leaves of the capacities `c`: each edge with its
/// capacity less its flow.
pub open spec fn leftover(f: Seq<Seq<Edge>>, c: Seq<Seq<Edge>>) -> Seq<Seq<Edge>> {
    Seq::new(
        c.len(),
        |v: int|
            Seq::new(
                c[v].len(),
                |i: int| spec_pack(spec_vh(c[v][i]), (spec_wgt(c[v][i]) - spec_wgt(f[v][i])) as i32),
            ),
    )
}

/// The flow on an edge: its capacity less what is left of it.
pub open spec fn flow_edge(residual: Edge, capacity: Edge) -> Edge {
    spec_pack(spec_vh(residual), (spec_wgt(capacity) - spec_wgt(residual)) as i32)
}

/// Capacities are their own residual network, before any flow; and the
/// weight outside the edges into the sink, plus that of any one edge into
/// the sink, fits in a `Weight`.
proof fn lemma_capacities_start(c: Seq<Seq<Edge>>, src: int, sink: int)
    requires
        capacities_ok(c, src, sink),
    ensures
        residual_ok(c, c, src, sink, residual_total(c, sink)),
        residual_total(c, sink) <= Weight::MAX,
        forall|v: int, i: int|
            0 <= v < c.len() && 0 <= i < c[v].len() && spec_vh(#[trigger] c[v][i]) == sink ==> residual_total(
                c,
                sink,
            ) + spec_wgt(c[v][i]) <= Weight::MAX,
{
    let s0 = residual_total(c, sink);
    assert forall|v: int, i: int| 0 <= v < c.len() && 0 <= i < c[v].len() implies residual_edge_ok(
        #[trigger] c[v][i],
        c[v][i],
        v,
        src,
        sink,
        residual_total(c, sink) - s0,
    ) by {}
}

/// Residual weights are never below 0 outside the edges into the sink, so
/// neither is their total.
proof fn lemma_residual_nonneg(r: Seq<Seq<Edge>>, c: Seq<Seq<Edge>>, src: int, sink: int, s0: int)
    requires
        residual_ok(r, c, src, sink, s0),
    ensures
        residual_total(r, sink) >= 0,
        targets_below(c, c.len() as int) ==> targets_below(r, r.len() as int),
{
    assert forall|v: int, j: int| 0 <= v < r.len() && 0 <= j < r[v].len() implies weight_avoiding(sink)(
        #[trigger] r[v][j],
    ) >= 0 by {
        assert(residual_edge_ok(r[v][j], c[v][j], v, src, sink, residual_total(r, sink) - s0));
        assert(spec_vh(r[v][j]) == spec_vh(c[v][j]));
    }
    lemma_graph_sum_bound(r, weight_avoiding(sink), -1, -1);
    if targets_below(c, c.len() as int) {
        assert forall|v: int, k: int| 0 <= v < r.len() && 0 <= k < r[v].len() implies spec_vh(#[trigger] r[v][k])
            < r.len() by {
            assert(spec_vh(r[v][k]) == spec_vh(c[v][k]));
        }
    }
}

/// A residual network turned into flows, edge by edge, is a flow.
proof fn lemma_flow_from_residual(
    f: Seq<Seq<Edge>>,
    r: Seq<Seq<Edge>>,
    c: Seq<Seq<Edge>>,
    src: int,
    sink: int,
    s0: int,
)
    requires
        residual_ok(r, c, src, sink, s0),
        f.len() == c.len(),
        forall|v: int| 0 <= v < c.len() ==> #[trigger] f[v].len() == c[v].len(),
        forall|v: int, i: int|
            0 <= v < c.len() && 0 <= i < c[v].len() ==> #[trigger] f[v][i] == flow_edge(r[v][i], c[v][i]),
        forall|v: int, i: int|
            0 <= v < c.len() && 0 <= i < c[v].len() ==> i32::MIN <= spec_wgt(#[trigger] c[v][i]) - spec_wgt(
                r[v][i],
            ) <= i32::MAX,
    ensures
        is_flow(f, c, src, sink),
{
    let n = c.len() as int;
    assert forall|v: int, i: int| 0 <= v < n && 0 <= i < c[v].len() implies spec_vh(#[trigger] f[v][i])
        == spec_vh(c[v][i]) && spec_wgt(f[v][i]) == spec_wgt(c[v][i]) - spec_wgt(r[v][i]) by {
        lemma_pack_unpack(spec_vh(r[v][i]), (spec_wgt(c[v][i]) - spec_wgt(r[v][i])) as i32);
        assert(spec_vh(r[v][i]) == spec_vh(c[v][i]));
    }
    assert(same_targets(f, c));
    assert forall|v: int, i: int| 0 <= v < n && 0 <= i < c[v].len() implies 0 <= spec_wgt(#[trigger] f[v][i])
        && (spec_vh(c[v][i]) != sink ==> spec_wgt(f[v][i]) <= spec_wgt(c[v][i])) by {
        assert(residual_edge_ok(r[v][i], c[v][i], v, src, sink, residual_total(r, sink) - s0));
        assert(spec_wgt(f[v][i]) == spec_wgt(c[v][i]) - spec_wgt(r[v][i]));
    }
    assert forall|v: int| 0 <= v < n && v != src && v != sink implies #[trigger] inflow(f, v) == outflow(f, v) by {
        assert forall|u: int| 0 <= u < n implies #[trigger] f[u].len() == c[u].len() && f[u].len()
            == r[u].len() by {}
        assert forall|u: int, j: int| 0 <= u < n && 0 <= j < f[u].len() implies weight_into(v)(#[trigger] f[u][j])
            == weight_into(v)(c[u][j]) - weight_into(v)(r[u][j]) by {
            assert(spec_wgt(f[u][j]) == spec_wgt(c[u][j]) - spec_wgt(r[u][j]));
            assert(spec_vh(f[u][j]) == spec_vh(c[u][j]));
            assert(spec_vh(r[u][j]) == spec_vh(c[u][j]));
        }
        lemma_graph_sum_diff(f, c, r, weight_into(v));
        assert forall|j: int| 0 <= j < f[v].len() implies weight_of()(#[trigger] f[v][j]) == weight_of()(c[v][j])
            - weight_of()(r[v][j]) by {
            assert(spec_wgt(f[v][j]) == spec_wgt(c[v][j]) - spec_wgt(r[v][j]));
        }
        lemma_edge_sum_diff(f[v], c[v], r[v], weight_of());
        assert(balance(r, v) == balance(c, v));
    }
}

/// A network prepared for a maximum-flow computation: the vertices of a
/// graph, a working copy of its edges, whose weights are capacities, then
/// residual capacities, then flows, and the layer of every vertex.
pub struct DinicGraph<'a, V> {
    /// The graph's vertices.
    pub vertices: &'a VertexStorage<V>,
    /// The working copy of the graph's edges.
    pub edge_storage: EdgeStorage,
    /// The layer of every vertex, `UNREACHED` for those not layered.
    pub layer_data: Array<Weight>,
}

impl<'a, V> DinicGraph<'a, V> {
    /// Copies `edge_storage`, computes a flow from `src_handle` to
    /// `sink_handle` and leaves in the copy, on every edge, the flow it
    /// carries. The layers are those of the network before any flow, and
    /// what the flow leaves holds no path to the sink whose layers strictly
    /// grow; what it leaves is exactly what the depth-first searches of
    /// `perform_search`, one after another, leave (`searched_out`).
    pub fn from(
        vertices: &'a VertexStorage<V>,
        edge_storage: &EdgeStorage,
        src_handle: VHandle,
        sink_handle: VHandle,
    ) -> (r: Self)
        requires
            edge_storage.wf(),
            capacities_ok(edge_storage.spec_edges(), src_handle as int, sink_handle as int),
            edge_storage.spec_edges().len() <= vertices@.len(),
            vertices@.len() < 0x7FFF_FFF0,
            layout_fits(vertices@.len() as int, 24),
        ensures
            r.vertices == vertices,
            r.edge_storage.wf(),
            r.edge_storage.spec_capacities() == edge_storage.spec_capacities(),
            r.edge_storage.spec_reserve() == edge_storage.spec_reserve(),
            weight_array_items(r.layer_data).len() == vertices@.len(),
            is_flow(
                r.edge_storage.spec_edges(),
                edge_storage.spec_edges(),
                src_handle as int,
                sink_handle as int,
            ),
            levels_from(edge_storage.spec_edges(), weight_array_items(r.layer_data), src_handle as int),
            searched_out(
                edge_storage.spec_edges(),
                leftover(r.edge_storage.spec_edges(), edge_storage.spec_edges()),
                weight_array_items(r.layer_data),
                src_handle as int,
                sink_handle as int,
            ),
            !layered_reachable(
                leftover(r.edge_storage.spec_edges(), edge_storage.spec_edges()),
                weight_array_items(r.layer_data),
                src_handle as int,
                sink_handle as int,
            ),
    {
        let vertices_len = vertices.len();
        let mut dinic_graph = DinicGraph {
            vertices,
            edge_storage: edge_storage.clone(),
            layer_data: weight_array_new_with_default(vertices_len, UNREACHED),
        };
        let ghost c = edge_storage.spec_edges();
        dinic_graph.perform_search(src_handle, sink_handle);
        let ghost r = dinic_graph.edge_storage.spec_edges();
        proof {
            lemma_capacities_start(c, src_handle as int, sink_handle as int);
            let s0 = residual_total(c, sink_handle as int);
            lemma_residual_nonneg(r, c, src_handle as int, sink_handle as int, s0);
            assert forall|v: int, i: int| 0 <= v < c.len() && 0 <= i < c[v].len() implies i32::MIN <= spec_wgt(
                #[trigger] c[v][i],
            ) - spec_wgt(r[v][i]) <= i32::MAX by {
                assert(residual_edge_ok(r[v][i], c[v][i], v, src_handle as int, sink_handle as int, residual_total(r, sink_handle as int) - s0));
                assert(spec_vh(r[v][i]) == spec_vh(c[v][i]));
            }
        }
        dinic_graph.finalize_flow_calc(edge_storage);
        proof {
            let s0 = residual_total(c, sink_handle as int);
            let f = dinic_graph.edge_storage.spec_edges();
            lemma_flow_from_residual(f, r, c, src_handle as int, sink_handle as int, s0);
            assert(leftover(f, c) =~= r) by {
                assert forall|v: int| 0 <= v < c.len() implies #[trigger] leftover(f, c)[v] =~= r[v] by {
                    assert forall|i: int| 0 <= i < c[v].len() implies leftover(f, c)[v][i] == #[trigger] r[v][i] by {
                        assert(residual_edge_ok(r[v][i], c[v][i], v, src_handle as int, sink_handle as int, residual_total(r, sink_handle as int) - s0));
                        assert(spec_vh(r[v][i]) == spec_vh(c[v][i]));
                        assert(f[v][i] == flow_edge(r[v][i], c[v][i]));
                        lemma_pack_unpack(spec_vh(r[v][i]), (spec_wgt(c[v][i]) - spec_wgt(r[v][i])) as i32);
                        lemma_unpack_pack(r[v][i]);
                    }
                }
            }
        }
        dinic_graph
    }

    /// Turns every residual weight into the flow on its edge: the weight of
    /// the same edge in `capacity_edges` less the residual weight.
    fn finalize_flow_calc(&mut self, capacity_edges: &EdgeStorage)
        requires
            old(self).edge_storage.wf(),
            capacity_edges.wf(),
            capacity_edges.vertex_entries@ == old(self).edge_storage.vertex_entries@,
            forall|v: int, i: int|
                0 <= v < capacity_edges.spec_edges().len() && 0 <= i < capacity_edges.spec_edges()[v].len()
                    ==> i32::MIN <= spec_wgt(#[trigger] capacity_edges.spec_edges()[v][i]) - spec_wgt(
                    old(self).edge_storage.spec_edges()[v][i],
                ) <= i32::MAX,
        ensures
            final(self).vertices == old(self).vertices,
            final(self).layer_data == old(self).layer_data,
            final(self).edge_storage.wf(),
            final(self).edge_storage.vertex_entries@ == old(self).edge_storage.vertex_entries@,
            final(self).edge_storage.reserve == old(self).edge_storage.reserve,
            final(self).edge_storage.spec_edges().len() == old(self).edge_storage.spec_edges().len(),
            forall|v: int|
                0 <= v < old(self).edge_storage.spec_edges().len() ==> #[trigger] final(self).edge_storage.spec_edges()[v].len() == old(self).edge_storage.spec_edges()[v].len(),
            forall|v: int, i: int|
                0 <= v < old(self).edge_storage.spec_edges().len() && 0 <= i < old(self).edge_storage.spec_edges()[v].len() ==> #[trigger] final(self).edge_storage.spec_edges()[v][i]
                    == flow_edge(old(self).edge_storage.spec_edges()[v][i], capacity_edges.spec_edges()[v][i]),
    {
        let ghost r = self.edge_storage.spec_edges();
        let ghost c = capacity_edges.spec_edges();
        let ghost ents = self.edge_storage.vertex_entries@;
        let count = self.edge_storage.vertex_count();
        let mut v: usize = 0;
        while v < count
            invariant
                self.edge_storage.wf(),
                capacity_edges.wf(),
                capacity_edges.vertex_entries@ == ents,
                self.edge_storage.vertex_entries@ == ents,
                self.edge_storage.reserve == old(self).edge_storage.reserve,
                self.vertices == old(self).vertices,
                self.layer_data == old(self).layer_data,
                c == capacity_edges.spec_edges(),
                count == r.len(),
                r.len() == c.len(),
                v <= count,
                forall|x: int, i: int|
                    0 <= x < c.len() && 0 <= i < c[x].len() ==> i32::MIN <= spec_wgt(#[trigger] c[x][i])
                        - spec_wgt(r[x][i]) <= i32::MAX,
                self.edge_storage.spec_edges().len() == r.len(),
                forall|x: int| 0 <= x < r.len() ==> #[trigger] self.edge_storage.spec_edges()[x].len() == r[x].len(),
                forall|x: int, i: int|
                    0 <= x < r.len() && 0 <= i < r[x].len() ==> #[trigger] self.edge_storage.spec_edges()[x][i]
                        == if x < v {
                        flow_edge(r[x][i], c[x][i])
                    } else {
                        r[x][i]
                    },
            decreases count - v,
        {
            let off = self.edge_storage.edges_index(v as VHandle);
            let len = self.edge_storage.edges_len(v as VHandle);
            let mut k: usize = 0;
            while k < len
                invariant
                    self.edge_storage.wf(),
                    capacity_edges.wf(),
                    capacity_edges.vertex_entries@ == ents,
                    self.edge_storage.vertex_entries@ == ents,
                    self.edge_storage.reserve == old(self).edge_storage.reserve,
                    self.vertices == old(self).vertices,
                    self.layer_data == old(self).layer_data,
                    c == capacity_edges.spec_edges(),
                    count == r.len(),
                    r.len() == c.len(),
                    v < count,
                    off == ents[v as int].offset,
                    len == r[v as int].len(),
                    len == ents[v as int].len,
                    k <= len,
                    forall|x: int, i: int|
                        0 <= x < c.len() && 0 <= i < c[x].len() ==> i32::MIN <= spec_wgt(#[trigger] c[x][i])
                            - spec_wgt(r[x][i]) <= i32::MAX,
                    self.edge_storage.spec_edges().len() == r.len(),
                    forall|x: int| 0 <= x < r.len() ==> #[trigger] self.edge_storage.spec_edges()[x].len() == r[x].len(),
                    forall|x: int, i: int|
                        0 <= x < r.len() && 0 <= i < r[x].len() ==> #[trigger] self.edge_storage.spec_edges()[x][i]
                            == if x < v || (x == v && i < k) {
                            flow_edge(r[x][i], c[x][i])
                        } else {
                            r[x][i]
                        },
                decreases len - k,
            {
                let ghost cur = self.edge_storage.spec_edges();
                let ghost old_es = self.edge_storage;
                proof {
                    assert(cur[v as int] == self.edge_storage.live(v as int));
                    assert(cur[v as int][k as int] == self.edge_storage.items()[off + k]);
                    assert(c[v as int] == capacity_edges.live(v as int));
                    assert(c[v as int][k as int] == capacity_edges.items()[off + k]);
                    assert(c[v as int].len() == len);
                }
                let dinic_edge = self.edge_storage.slot(off + k);
                let capacity_edge = capacity_edges.slot(off + k);
                let flow = set_wgt(dinic_edge, wgt(capacity_edge) - wgt(dinic_edge));
                self.edge_storage.set_slot(off + k, flow);
                proof {
                    EdgeStorage::lemma_set_live_slot(&old_es, &self.edge_storage, v as int, k as int, flow);
                }
                k = k + 1;
            }
            v = v + 1;
        }
    }

    /// Layers the network from `src_handle` and, while the sink gets a new
    /// layer, keeps lowering the residual weights along paths from the
    /// source to the sink whose layers strictly grow, until no such path
    /// is found. The layers are never reset, so a second layering finds the
    /// sink already layered and the search ends with the first layering.
    /// Each search for a path reads edges in their stored order, depth
    /// first (`search_step`); what the searches leave is pinned by
    /// `searched_out`.
    pub fn perform_search(&mut self, src_handle: VHandle, sink_handle: VHandle)
        requires
            old(self).edge_storage.wf(),
            capacities_ok(old(self).edge_storage.spec_edges(), src_handle as int, sink_handle as int),
            old(self).edge_storage.spec_edges().len() <= old(self).vertices@.len(),
            weight_array_items(old(self).layer_data).len() == old(self).vertices@.len(),
            old(self).vertices@.len() < 0x7FFF_FFF0,
            layout_fits(old(self).vertices@.len() as int, 24),
        ensures
            final(self).vertices == old(self).vertices,
            final(self).edge_storage.wf(),
            final(self).edge_storage.vertex_entries@ == old(self).edge_storage.vertex_entries@,
            final(self).edge_storage.reserve == old(self).edge_storage.reserve,
            weight_array_items(final(self).layer_data).len() == weight_array_items(old(self).layer_data).len(),
            residual_ok(
                final(self).edge_storage.spec_edges(),
                old(self).edge_storage.spec_edges(),
                src_handle as int,
                sink_handle as int,
                residual_total(old(self).edge_storage.spec_edges(), sink_handle as int),
            ),
            levels_from(old(self).edge_storage.spec_edges(), weight_array_items(final(self).layer_data), src_handle as int),
            !layered_reachable(
                final(self).edge_storage.spec_edges(),
                weight_array_items(final(self).layer_data),
                src_handle as int,
                sink_handle as int,
            ),
            searched_out(
                old(self).edge_storage.spec_edges(),
                final(self).edge_storage.spec_edges(),
                weight_array_items(final(self).layer_data),
                src_handle as int,
                sink_handle as int,
            ),
    {
        let ghost c = self.edge_storage.spec_edges();
        let ghost s0 = residual_total(c, sink_handle as int);
        let ghost ents = self.edge_storage.vertex_entries@;
        let ghost src = src_handle as int;
        let ghost sink = sink_handle as int;
        let n = self.vertices.len();
        proof {
            lemma_capacities_start(c, src, sink);
        }
        let mut stack = frame_stack_new(n);
        let mut queue = queue_new_pow2_sized(n);
        weight_array_fill(&mut self.layer_data, UNREACHED);
        let ghost mut first = true;
        let ghost mut mm: nat = 0;
        loop
            invariant_except_break
                first ==> mm == 0,
                !first ==> self.edge_storage.spec_edges() == searches(c, weight_array_items(self.layer_data), src, sink, mm)
                    && searches_found(c, weight_array_items(self.layer_data), src, sink, mm) && !search_result(
                    self.edge_storage.spec_edges(),
                    weight_array_items(self.layer_data),
                    src,
                    sink,
                ).0,
                first ==> self.edge_storage.spec_edges() == c && forall|v: int|
                    0 <= v < n ==> #[trigger] weight_array_items(self.layer_data)[v] == UNREACHED,
                !first ==> levels_from(c, weight_array_items(self.layer_data), src) && weight_array_items(
                    self.layer_data,
                )[sink] != UNREACHED && !layered_reachable(
                    self.edge_storage.spec_edges(),
                    weight_array_items(self.layer_data),
                    src,
                    sink,
                ),
            invariant
                self.edge_storage.wf(),
                self.edge_storage.vertex_entries@ == ents,
                self.edge_storage.reserve == old(self).edge_storage.reserve,
                self.vertices == old(self).vertices,
                n == self.vertices@.len(),
                capacities_ok(c, src, sink),
                s0 == residual_total(c, sink),
                s0 <= Weight::MAX,
                residual_ok(self.edge_storage.spec_edges(), c, src, sink, s0),
                c.len() <= n < 0x7FFF_FFF0,
                weight_array_items(self.layer_data).len() == n,
                queue_items(queue) == Seq::<u32>::empty(),
                queue_capacity(queue) >= n,
                frame_stack_items(stack).len() == 0,
                frame_stack_capacity(stack) == n,
                src == src_handle,
                sink == sink_handle,
            ensures
                levels_from(c, weight_array_items(self.layer_data), src),
                !layered_reachable(self.edge_storage.spec_edges(), weight_array_items(self.layer_data), src, sink),
                self.edge_storage.spec_edges() == searches(c, weight_array_items(self.layer_data), src, sink, mm),
                searches_found(c, weight_array_items(self.layer_data), src, sink, mm),
                weight_array_items(self.layer_data)[sink] != UNREACHED ==> !search_result(
                    self.edge_storage.spec_edges(),
                    weight_array_items(self.layer_data),
                    src,
                    sink,
                ).0,
                weight_array_items(self.layer_data)[sink] == UNREACHED ==> mm == 0,
            decreases (if weight_array_items(self.layer_data)[sink] == UNREACHED {
                1int
            } else {
                0int
            }),
        {
            proof {
                lemma_residual_nonneg(self.edge_storage.spec_edges(), c, src, sink, s0);
            }
            let ghost l0 = weight_array_items(self.layer_data);
            let ghost r = self.edge_storage.spec_edges();
            let levels = mark_levels(src_handle, sink_handle, &self.edge_storage, &mut queue, &mut self.layer_data);
            let ghost l1 = weight_array_items(self.layer_data);
            proof {
                if first {
                    assert(levels_from(c, l1, src));
                } else {
                    lemma_open_self(c, src);
                    lemma_open_in_zero(c, src, src);
                    assert(l0[src] == 0) by {
                        assert(open_distance(c, src, src, l0[src] as int));
                        if l0[src] > 0 {
                            assert(!open_reachable_in(c, src, src, 0));
                        }
                    }
                    assert forall|v: int| 0 <= v < l1.len() implies #[trigger] l1[v] == l0[v] by {
                        if v != src && l0[v] == UNREACHED && l1[v] != UNREACHED {
                            lemma_fresh_path_in_capacities(r, c, l0, src, sink, s0, v);
                            assert(l0[v] != UNREACHED);
                        }
                    }
                    assert(l1 =~= l0);
                }
            }
            if levels.is_err() {
                proof {
                    if first && layered_reachable(r, l1, src, sink) {
                        lemma_layered_is_open(r, l1, src, sink);
                    }
                    if first {
                        assert(l1[sink] == UNREACHED);
                        assert(searches(c, l1, src, sink, 0) == c);
                        assert(searches_found(c, l1, src, sink, 0));
                    } else {
                        assert(l1 =~= l0);
                    }
                }
                break;
            }
            proof {
                assert(first);
                assert(searches(c, l1, src, sink, 0) == c);
            }
            loop
                invariant
                    self.edge_storage.wf(),
                    self.edge_storage.vertex_entries@ == ents,
                    self.edge_storage.reserve == old(self).edge_storage.reserve,
                    self.vertices == old(self).vertices,
                    n == self.vertices@.len(),
                    capacities_ok(c, src, sink),
                    s0 == residual_total(c, sink),
                    s0 <= Weight::MAX,
                    residual_ok(self.edge_storage.spec_edges(), c, src, sink, s0),
                    c.len() <= n < 0x7FFF_FFF0,
                    weight_array_items(self.layer_data).len() == n,
                    weight_array_items(self.layer_data)[sink] != UNREACHED,
                    weight_array_items(self.layer_data) == l1,
                    levels_from(c, l1, src),
                    queue_items(queue) == Seq::<u32>::empty(),
                    queue_capacity(queue) >= n,
                    frame_stack_items(stack).len() == 0,
                    frame_stack_capacity(stack) == n,
                    src == src_handle,
                    sink == sink_handle,
                    self.edge_storage.spec_edges() == searches(c, l1, src, sink, mm),
                    searches_found(c, l1, src, sink, mm),
                ensures
                    !layered_reachable(self.edge_storage.spec_edges(), l1, src, sink),
                    self.edge_storage.spec_edges() == searches(c, l1, src, sink, mm),
                    searches_found(c, l1, src, sink, mm),
                    !search_result(self.edge_storage.spec_edges(), l1, src, sink).0,
                decreases residual_total(self.edge_storage.spec_edges(), sink),
            {
                proof {
                    lemma_residual_nonneg(self.edge_storage.spec_edges(), c, src, sink, s0);
                }
                let ghost e_before = self.edge_storage.spec_edges();
                let found = augment_once(
                    &mut self.edge_storage,
                    &self.layer_data,
                    &mut stack,
                    src_handle,
                    sink_handle,
                    Ghost(c),
                    Ghost(s0),
                );
                proof {
                    let kk = choose|kk: nat|
                        #[trigger] search_iter(e_before, l1, src, sink, kk).0.len() == 0 && search_iter(
                            e_before,
                            l1,
                            src,
                            sink,
                            kk,
                        ).2 == found && search_iter(e_before, l1, src, sink, kk).3 == self.edge_storage.spec_edges();
                    lemma_search_result(e_before, l1, src, sink, kk);
                }
                if !found {
                    break;
                }
                proof {
                    lemma_residual_nonneg(self.edge_storage.spec_edges(), c, src, sink, s0);
                    assert(searches(c, l1, src, sink, mm + 1) == search_result(searches(c, l1, src, sink, mm), l1, src, sink).1);
                    assert forall|j: nat| j < mm + 1 implies #[trigger] search_result(searches(c, l1, src, sink, j), l1, src, sink).0 by {
                        if j < mm {
                            assert(searches_found(c, l1, src, sink, mm));
                        }
                    }
                    mm = mm + 1;
                }
            }
            proof {
                first = false;
            }
        }
    }
}

} // verus!
