//! The operations that the graph, the tree view and the traversals need of
//! an edge store, stated over one abstract model: for every vertex, the
//! sequence of its live (packed) edges and the capacity of its edge block.
use vstd::prelude::*;

use crate::handles::lemma_pack_unpack;
use crate::handles::spec_pack;
use crate::handles::spec_vh;
use crate::handles::types::{Ci, Edge, VHandle, Weight};

verus! {

/// The live edges of vertex `from` after removing the first edge whose
/// target is `to`: that edge is overwritten by the last one and the list
/// shrinks by one. Without such an edge the list is unchanged.
pub open spec fn remove_first_target(edges: Seq<Edge>, to: VHandle) -> Seq<Edge> {
    if exists|i: int| 0 <= i < edges.len() && spec_vh(edges[i]) == to {
        let i = choose|i: int|
            0 <= i < edges.len() && spec_vh(edges[i]) == to && (forall|j: int|
                0 <= j < i ==> spec_vh(edges[j]) != to);
        edges.update(i, edges.last()).drop_last()
    } else {
        edges
    }
}

/// Disconnecting the target of an edge just appended removes that edge
/// again, when no earlier edge led to the same target: connecting and then
/// disconnecting restores the edges.
pub proof fn lemma_disconnect_undoes_connect(edges: Seq<Edge>, to: VHandle, weight: Weight)
    requires
        forall|i: int| 0 <= i < edges.len() ==> spec_vh(#[trigger] edges[i]) != to,
    ensures
        remove_first_target(edges.push(spec_pack(to, weight)), to) == edges,
{
    let pushed = edges.push(spec_pack(to, weight));
    lemma_pack_unpack(to, weight);
    let i0 = edges.len() as int;
    assert(spec_vh(pushed[i0]) == to);
    let i = choose|i: int|
        0 <= i < pushed.len() && spec_vh(pushed[i]) == to && (forall|j: int| 0 <= j < i ==> spec_vh(pushed[j]) != to);
    assert(i == i0) by {
        if i < i0 {
            assert(pushed[i] == edges[i]);
        }
    }
    assert(pushed.update(i, pushed.last()).drop_last() =~= edges);
}

/// Disconnecting removes one edge exactly when some edge leads to the
/// target.
pub proof fn lemma_disconnect_len(edges: Seq<Edge>, to: VHandle)
    ensures
        remove_first_target(edges, to).len() == edges.len() - (if exists|i: int|
            0 <= i < edges.len() && spec_vh(#[trigger] edges[i]) == to {
            1int
        } else {
            0int
        }),
{
    if exists|i: int| 0 <= i < edges.len() && spec_vh(#[trigger] edges[i]) == to {
        let k = choose|i: int| 0 <= i < edges.len() && spec_vh(#[trigger] edges[i]) == to;
        lemma_first_target_exists(edges, to, k);
    }
}

proof fn lemma_first_target_exists(edges: Seq<Edge>, to: VHandle, k: int)
    requires
        0 <= k < edges.len(),
        spec_vh(edges[k]) == to,
    ensures
        exists|i: int|
            0 <= i < edges.len() && spec_vh(edges[i]) == to && (forall|j: int| 0 <= j < i ==> spec_vh(edges[j]) != to),
    decreases k,
{
    if exists|j: int| 0 <= j < k && spec_vh(edges[j]) == to {
        let j = choose|j: int| 0 <= j < k && spec_vh(edges[j]) == to;
        lemma_first_target_exists(edges, to, j);
    } else {
        assert(0 <= k < edges.len() && spec_vh(edges[k]) == to && (forall|j: int| 0 <= j < k ==> spec_vh(edges[j]) != to));
    }
}

/// A store of per-vertex edge blocks.
pub trait EdgeStore: Sized {
    /// The live edges of every vertex, vertex by vertex.
    spec fn spec_edges(&self) -> Seq<Seq<Edge>>;

    /// The capacity of every vertex's edge block.
    spec fn spec_capacities(&self) -> Seq<nat>;

    /// The slots that every new vertex gets on top of those it asks for.
    spec fn spec_reserve(&self) -> nat;

    /// The store's internal invariant.
    spec fn wf(&self) -> bool;

    /// The number of words the store has laid out so far: every block's
    /// slots and, where blocks carry one, their headers.
    spec fn spec_used(&self) -> nat;

    /// The words a block takes besides its slots.
    spec fn spec_header_words(&self) -> nat;

    /// Whether one more vertex asking for `size` slots fits the store's
    /// integer widths.
    spec fn can_create(&self, size: nat) -> bool;

    /// A well-formed store has one capacity per vertex and no vertex holds
    /// more live edges than its capacity.
    proof fn lemma_shape(&self)
        requires
            self.wf(),
        ensures
            self.spec_capacities().len() == self.spec_edges().len(),
            self.spec_edges().len() <= u32::MAX,
            forall|v: int|
                0 <= v < self.spec_edges().len() ==> #[trigger] self.spec_edges()[v].len()
                    <= self.spec_capacities()[v],
    ;

    /// Adds a vertex with no edges and `reserve + size` slots; returns its handle.
    fn create_vertex_entry(&mut self, size: Ci) -> (handle: VHandle)
        requires
            old(self).wf(),
            old(self).can_create(size as nat),
        ensures
            final(self).wf(),
            handle == old(self).spec_edges().len(),
            final(self).spec_edges() == old(self).spec_edges().push(Seq::empty()),
            final(self).spec_capacities() == old(self).spec_capacities().push(
                old(self).spec_reserve() + size as nat,
            ),
            final(self).spec_reserve() == old(self).spec_reserve(),
            final(self).spec_used() == old(self).spec_used() + old(self).spec_header_words()
                + old(self).spec_reserve() + size as nat,
            final(self).spec_header_words() == old(self).spec_header_words(),
    ;

    /// The number of vertices.
    fn vertex_count(&self) -> (n: usize)
        requires
            self.wf(),
        ensures
            n == self.spec_edges().len(),
    ;

    /// The number of live edges of `handle`.
    fn edges_len(&self, handle: VHandle) -> (n: usize)
        requires
            self.wf(),
            handle < self.spec_edges().len(),
        ensures
            n == self.spec_edges()[handle as int].len(),
    ;

    /// The capacity of `handle`'s edge block.
    fn edges_capacity(&self, handle: VHandle) -> (n: usize)
        requires
            self.wf(),
            handle < self.spec_edges().len(),
        ensures
            n == self.spec_capacities()[handle as int],
    ;

    /// The `index`-th live edge of `handle`.
    fn edge_at(&self, handle: VHandle, index: usize) -> (e: Edge)
        requires
            self.wf(),
            handle < self.spec_edges().len(),
            index < self.spec_edges()[handle as int].len(),
        ensures
            e == self.spec_edges()[handle as int][index as int],
    ;

    /// Makes the `index`-th live edge of `handle` point at `target` with weight 0.
    fn set_target(&mut self, handle: VHandle, index: usize, target: VHandle)
        requires
            old(self).wf(),
            handle < old(self).spec_edges().len(),
            index < old(self).spec_edges()[handle as int].len(),
        ensures
            final(self).wf(),
            final(self).spec_edges() == old(self).spec_edges().update(
                handle as int,
                old(self).spec_edges()[handle as int].update(index as int, spec_pack(target, 0)),
            ),
            final(self).spec_capacities() == old(self).spec_capacities(),
            final(self).spec_reserve() == old(self).spec_reserve(),
            final(self).spec_used() == old(self).spec_used(),
            final(self).spec_header_words() == old(self).spec_header_words(),
    ;
}

/// Connecting and disconnecting vertices.
pub trait EdgeConnect: EdgeStore {
    /// Appends an edge `from -> to` of weight 0.
    fn connect(&mut self, from: VHandle, to: VHandle)
        requires
            old(self).wf(),
            from < old(self).spec_edges().len(),
            old(self).spec_edges()[from as int].len() < old(self).spec_capacities()[from as int],
        ensures
            final(self).wf(),
            final(self).spec_edges() == old(self).spec_edges().update(
                from as int,
                old(self).spec_edges()[from as int].push(spec_pack(to, 0)),
            ),
            final(self).spec_capacities() == old(self).spec_capacities(),
            final(self).spec_reserve() == old(self).spec_reserve(),
            final(self).spec_used() == old(self).spec_used(),
            final(self).spec_header_words() == old(self).spec_header_words(),
    ;

    /// Removes the first edge of `from` whose target is `to`, moving the
    /// last edge into its place; does nothing when there is none.
    fn disconnect(&mut self, from: VHandle, to: VHandle)
        requires
            old(self).wf(),
            from < old(self).spec_edges().len(),
        ensures
            final(self).wf(),
            final(self).spec_edges() == old(self).spec_edges().update(
                from as int,
                remove_first_target(old(self).spec_edges()[from as int], to),
            ),
            final(self).spec_capacities() == old(self).spec_capacities(),
            final(self).spec_reserve() == old(self).spec_reserve(),
            final(self).spec_used() == old(self).spec_used(),
            final(self).spec_header_words() == old(self).spec_header_words(),
    ;
}

/// Connecting vertices with weighted edges.
pub trait WeightedEdgeConnect: EdgeConnect {
    /// Appends an edge `from -> to` of weight `weight`.
    fn connect_weighted(&mut self, from: VHandle, to: VHandle, weight: Weight)
        requires
            old(self).wf(),
            from < old(self).spec_edges().len(),
            old(self).spec_edges()[from as int].len() < old(self).spec_capacities()[from as int],
        ensures
            final(self).wf(),
            final(self).spec_edges() == old(self).spec_edges().update(
                from as int,
                old(self).spec_edges()[from as int].push(spec_pack(to, weight)),
            ),
            final(self).spec_capacities() == old(self).spec_capacities(),
            final(self).spec_reserve() == old(self).spec_reserve(),
            final(self).spec_used() == old(self).spec_used(),
            final(self).spec_header_words() == old(self).spec_header_words(),
    ;
}

/// An edge store that can be connected and disconnected.
pub trait EdgeManipulate: EdgeConnect {}

/// An edge store that can also hold weighted edges.
pub trait WeightedEdgeManipulate: EdgeManipulate + WeightedEdgeConnect {}

} // verus!
