//! A graph whose edges carry weights.
use vstd::prelude::*;

use crate::edge_storage::EdgeStorage;
use crate::graph::Graph;
use crate::handles::spec_pack;
use crate::handles::types::{Edge, Slot, VHandle, Weight};
use crate::traits::{EdgeStore, WeightedEdgeConnect, WeightedEdgeManipulate};

verus! {

/// A graph over an edge store that takes weighted edges.
pub struct WeightedGraph<VertexType, EdgeStorageType: WeightedEdgeManipulate> {
    /// The underlying graph.
    pub graph: Graph<VertexType, EdgeStorageType>,
}

impl<VertexType> WeightedGraph<VertexType, EdgeStorage> {
    /// A graph whose size is known ahead: no spare edge slots.
    pub fn new() -> (r: Self)
        ensures
            r.graph.wf(),
            r.graph.vertices@ == Seq::<VertexType>::empty(),
            r.graph.edge_storage.spec_reserve() == 0,
            r.graph.edge_storage.spec_used() == 0,
    {
        WeightedGraph { graph: Graph::<VertexType, EdgeStorage>::new() }
    }

    /// A graph for dynamic use: every vertex gets 50 spare edge slots.
    pub fn new_large() -> (r: Self)
        ensures
            r.graph.wf(),
            r.graph.vertices@ == Seq::<VertexType>::empty(),
            r.graph.edge_storage.spec_reserve() == 50,
            r.graph.edge_storage.spec_used() == 0,
    {
        WeightedGraph { graph: Graph::<VertexType, EdgeStorage>::new_large() }
    }

    /// A graph whose vertices get `reserve` spare edge slots each.
    pub fn with_reserve(reserve: Slot) -> (r: Self)
        ensures
            r.graph.wf(),
            r.graph.vertices@ == Seq::<VertexType>::empty(),
            r.graph.edge_storage.spec_reserve() == reserve,
            r.graph.edge_storage.spec_used() == 0,
    {
        WeightedGraph { graph: Graph::<VertexType, EdgeStorage>::with_reserve(reserve) }
    }
}

impl<VertexType, EdgeStorageType: WeightedEdgeManipulate> WeightedGraph<
    VertexType,
    EdgeStorageType,
> {
    /// Adds a vertex of value `val` with `edge_count` slots beyond the
    /// reserve and an edge `src_vertex -> new vertex` of weight `weight`.
    pub fn create_and_connect_weighted(
        &mut self,
        src_vertex: VHandle,
        val: VertexType,
        weight: Weight,
        edge_count: Slot,
    ) -> (r: VHandle)
        requires
            old(self).graph.wf(),
            old(self).graph.edge_storage.can_create(edge_count as nat),
            src_vertex < old(self).graph.vertices@.len(),
            old(self).graph.spec_edges()[src_vertex as int].len() < old(
                self,
            ).graph.edge_storage.spec_capacities()[src_vertex as int],
        ensures
            final(self).graph.wf(),
            r == old(self).graph.vertices@.len(),
            final(self).graph.vertices@ == old(self).graph.vertices@.push(val),
            final(self).graph.spec_edges() == old(self).graph.spec_edges().update(
                src_vertex as int,
                old(self).graph.spec_edges()[src_vertex as int].push(spec_pack(r, weight)),
            ).push(Seq::empty()),
            final(self).graph.edge_storage.spec_capacities() == old(
                self,
            ).graph.edge_storage.spec_capacities().push(
                old(self).graph.edge_storage.spec_reserve() + edge_count as nat,
            ),
            final(self).graph.edge_storage.spec_reserve() == old(
                self,
            ).graph.edge_storage.spec_reserve(),
            final(self).graph.edge_storage.spec_used() == old(self).graph.edge_storage.spec_used()
                + old(self).graph.edge_storage.spec_header_words()
                + old(self).graph.edge_storage.spec_reserve() + edge_count as nat,
            final(self).graph.edge_storage.spec_header_words() == old(
                self,
            ).graph.edge_storage.spec_header_words(),
    {
        proof {
            self.graph.edge_storage.lemma_shape();
        }
        let new_vertex = self.graph.create(val, edge_count);
        self.graph.edge_storage.connect_weighted(src_vertex, new_vertex, weight);
        proof {
            assert(self.graph.spec_edges() =~= old(self).graph.spec_edges().update(
                src_vertex as int,
                old(self).graph.spec_edges()[src_vertex as int].push(spec_pack(new_vertex, weight)),
            ).push(Seq::empty()));
        }
        new_vertex
    }

    /// [`WeightedGraph::create_and_connect_weighted`] with no slots beyond
    /// the reserve.
    pub fn create_and_connect_leaf_weighted(
        &mut self,
        src_vertex: VHandle,
        val: VertexType,
        weight: Weight,
    ) -> (r: VHandle)
        requires
            old(self).graph.wf(),
            old(self).graph.edge_storage.can_create(0),
            src_vertex < old(self).graph.vertices@.len(),
            old(self).graph.spec_edges()[src_vertex as int].len() < old(
                self,
            ).graph.edge_storage.spec_capacities()[src_vertex as int],
        ensures
            final(self).graph.wf(),
            r == old(self).graph.vertices@.len(),
            final(self).graph.vertices@ == old(self).graph.vertices@.push(val),
            final(self).graph.spec_edges() == old(self).graph.spec_edges().update(
                src_vertex as int,
                old(self).graph.spec_edges()[src_vertex as int].push(spec_pack(r, weight)),
            ).push(Seq::empty()),
            final(self).graph.edge_storage.spec_capacities() == old(
                self,
            ).graph.edge_storage.spec_capacities().push(
                old(self).graph.edge_storage.spec_reserve(),
            ),
            final(self).graph.edge_storage.spec_reserve() == old(
                self,
            ).graph.edge_storage.spec_reserve(),
            final(self).graph.edge_storage.spec_used() == old(self).graph.edge_storage.spec_used()
                + old(self).graph.edge_storage.spec_header_words()
                + old(self).graph.edge_storage.spec_reserve() + 0,
            final(self).graph.edge_storage.spec_header_words() == old(
                self,
            ).graph.edge_storage.spec_header_words(),
    {
        self.create_and_connect_weighted(src_vertex, val, weight, 0)
    }
}

} // verus!
