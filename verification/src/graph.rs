//! A graph: vertex values next to an edge store, created and connected
//! together so that vertex `i`'s value and edge block share handle `i`.
use vstd::prelude::*;

use crate::edge_data::EdgeData;
use crate::edge_storage::EdgeStorage;
use crate::handles::spec_pack;
use crate::handles::types::{Edge, Slot, VHandle};
use crate::traits::{EdgeConnect, EdgeManipulate, EdgeStore};
use crate::vertex_storage::VertexStorage;
use crate::views::tree::Tree;

verus! {

/// Errors of graph lookups.
pub enum Error {
    /// No vertex has the given handle.
    NoHandle,
}

/// Vertex values and an edge store of the same length.
pub struct Graph<VertexType, EdgeStorageType: EdgeManipulate> {
    /// The vertex values.
    pub vertices: VertexStorage<VertexType>,
    /// The edges.
    pub edge_storage: EdgeStorageType,
}

impl<VertexType, EdgeStorageType: EdgeManipulate> Graph<VertexType, EdgeStorageType> {
    /// The graph's invariant: a well-formed edge store with one block per value.
    pub open spec fn wf(&self) -> bool {
        &&& self.edge_storage.wf()
        &&& self.vertices@.len() == self.edge_storage.spec_edges().len()
    }

    /// The live edges of every vertex.
    pub open spec fn spec_edges(&self) -> Seq<Seq<Edge>> {
        self.edge_storage.spec_edges()
    }

    /// Adds a vertex of value `val` whose edge block has `edge_count` slots
    /// beyond the store's reserve; returns its handle.
    pub fn create(&mut self, val: VertexType, edge_count: Slot) -> (r: VHandle)
        requires
            old(self).wf(),
            old(self).edge_storage.can_create(edge_count as nat),
        ensures
            final(self).wf(),
            r == old(self).vertices@.len(),
            final(self).vertices@ == old(self).vertices@.push(val),
            final(self).spec_edges() == old(self).spec_edges().push(Seq::empty()),
            final(self).edge_storage.spec_capacities() == old(
                self,
            ).edge_storage.spec_capacities().push(
                old(self).edge_storage.spec_reserve() + edge_count as nat,
            ),
            final(self).edge_storage.spec_reserve() == old(self).edge_storage.spec_reserve(),
            final(self).edge_storage.spec_used() == old(self).edge_storage.spec_used()
                + old(self).edge_storage.spec_header_words() + old(self).edge_storage.spec_reserve()
                + edge_count as nat,
            final(self).edge_storage.spec_header_words() == old(self).edge_storage.spec_header_words(),
    {
        self.vertices.push(val);
        self.edge_storage.create_vertex_entry(edge_count)
    }

    /// Adds a vertex of value `val` with only the store's reserve of slots.
    pub fn create_leaf(&mut self, val: VertexType) -> (r: VHandle)
        requires
            old(self).wf(),
            old(self).edge_storage.can_create(0),
        ensures
            final(self).wf(),
            r == old(self).vertices@.len(),
            final(self).vertices@ == old(self).vertices@.push(val),
            final(self).spec_edges() == old(self).spec_edges().push(Seq::empty()),
            final(self).edge_storage.spec_capacities() == old(
                self,
            ).edge_storage.spec_capacities().push(old(self).edge_storage.spec_reserve()),
            final(self).edge_storage.spec_reserve() == old(self).edge_storage.spec_reserve(),
            final(self).edge_storage.spec_used() == old(self).edge_storage.spec_used()
                + old(self).edge_storage.spec_header_words() + old(self).edge_storage.spec_reserve()
                + 0,
            final(self).edge_storage.spec_header_words() == old(self).edge_storage.spec_header_words(),
    {
        self.create(val, 0)
    }

    /// Adds a vertex as [`Graph::create`] does and connects `from` to it.
    pub fn create_and_connect(&mut self, from: VHandle, val: VertexType, edge_count: Slot) -> (r:
        VHandle)
        requires
            old(self).wf(),
            old(self).edge_storage.can_create(edge_count as nat),
            from < old(self).vertices@.len(),
            old(self).spec_edges()[from as int].len() < old(
                self,
            ).edge_storage.spec_capacities()[from as int],
        ensures
            final(self).wf(),
            r == old(self).vertices@.len(),
            final(self).vertices@ == old(self).vertices@.push(val),
            final(self).spec_edges() == old(self).spec_edges().update(
                from as int,
                old(self).spec_edges()[from as int].push(spec_pack(r, 0)),
            ).push(Seq::empty()),
            final(self).edge_storage.spec_capacities() == old(
                self,
            ).edge_storage.spec_capacities().push(
                old(self).edge_storage.spec_reserve() + edge_count as nat,
            ),
            final(self).edge_storage.spec_reserve() == old(self).edge_storage.spec_reserve(),
            final(self).edge_storage.spec_used() == old(self).edge_storage.spec_used()
                + old(self).edge_storage.spec_header_words() + old(self).edge_storage.spec_reserve()
                + edge_count as nat,
            final(self).edge_storage.spec_header_words() == old(self).edge_storage.spec_header_words(),
    {
        proof {
            self.edge_storage.lemma_shape();
        }
        let new_vertex = self.create(val, edge_count);
        self.edge_storage.connect(from, new_vertex);
        proof {
            assert(self.spec_edges() =~= old(self).spec_edges().update(
                from as int,
                old(self).spec_edges()[from as int].push(spec_pack(new_vertex, 0)),
            ).push(Seq::empty()));
        }
        new_vertex
    }

    /// [`Graph::create_and_connect`] with no slots beyond the reserve.
    pub fn create_and_connect_0(&mut self, from: VHandle, val: VertexType) -> (r: VHandle)
        requires
            old(self).wf(),
            old(self).edge_storage.can_create(0),
            from < old(self).vertices@.len(),
            old(self).spec_edges()[from as int].len() < old(
                self,
            ).edge_storage.spec_capacities()[from as int],
        ensures
            final(self).wf(),
            r == old(self).vertices@.len(),
            final(self).vertices@ == old(self).vertices@.push(val),
            final(self).spec_edges() == old(self).spec_edges().update(
                from as int,
                old(self).spec_edges()[from as int].push(spec_pack(r, 0)),
            ).push(Seq::empty()),
            final(self).edge_storage.spec_capacities() == old(
                self,
            ).edge_storage.spec_capacities().push(old(self).edge_storage.spec_reserve()),
            final(self).edge_storage.spec_reserve() == old(self).edge_storage.spec_reserve(),
            final(self).edge_storage.spec_used() == old(self).edge_storage.spec_used()
                + old(self).edge_storage.spec_header_words() + old(self).edge_storage.spec_reserve()
                + 0,
            final(self).edge_storage.spec_header_words() == old(self).edge_storage.spec_header_words(),
    {
        self.create_and_connect(from, val, 0)
    }

    /// A tree view over the graph's vertices and edges.
    pub fn tree_view(&mut self) -> (r: Tree<'_, VertexType, EdgeStorageType>)
        ensures
            *r.nodes == old(self).edge_storage,
            *r.values == old(self).vertices,
            final(self).edge_storage == *final(r.nodes),
            final(self).vertices == *final(r.values),
    {
        Tree::new(&mut self.edge_storage, &mut self.vertices)
    }
}

impl<VertexType> Graph<VertexType, EdgeStorage> {
    /// A graph for dynamic use: every vertex gets 50 spare edge slots.
    pub fn new_large() -> (r: Self)
        ensures
            r.wf(),
            r.vertices@ == Seq::<VertexType>::empty(),
            r.edge_storage.spec_reserve() == 50,
            r.edge_storage.spec_used() == 0,
    {
        Graph { edge_storage: EdgeStorage::new_large(), vertices: VertexStorage::new() }
    }

    /// A graph whose vertices get `reserve` spare edge slots each.
    pub fn with_reserve(reserve: Slot) -> (r: Self)
        ensures
            r.wf(),
            r.vertices@ == Seq::<VertexType>::empty(),
            r.edge_storage.spec_reserve() == reserve,
            r.edge_storage.spec_used() == 0,
    {
        Graph { edge_storage: EdgeStorage::with_reserve(reserve), vertices: VertexStorage::new() }
    }

    /// A graph whose size is known ahead: no spare edge slots.
    pub fn new() -> (r: Self)
        ensures
            r.wf(),
            r.vertices@ == Seq::<VertexType>::empty(),
            r.edge_storage.spec_reserve() == 0,
            r.edge_storage.spec_used() == 0,
    {
        Graph { edge_storage: EdgeStorage::new(), vertices: VertexStorage::new() }
    }
}

impl<VertexType> Graph<VertexType, EdgeData> {
    /// A graph over word blocks for dynamic use: every vertex gets 50
    /// spare edge slots.
    pub fn new_large() -> (r: Self)
        ensures
            r.wf(),
            r.vertices@ == Seq::<VertexType>::empty(),
            r.edge_storage.spec_reserve() == 50,
            r.edge_storage.edges@.len() == 0,
    {
        Graph { edge_storage: EdgeData::new_dyn(), vertices: VertexStorage::new() }
    }

    /// A graph over word blocks whose vertices get `reserve` spare edge
    /// slots each.
    pub fn with_reserve(reserve: usize) -> (r: Self)
        ensures
            r.wf(),
            r.vertices@ == Seq::<VertexType>::empty(),
            r.edge_storage.spec_reserve() == reserve,
            r.edge_storage.edges@.len() == 0,
    {
        Graph { edge_storage: EdgeData::with_reserve(reserve), vertices: VertexStorage::new() }
    }

    /// A graph over word blocks whose size is known ahead: no spare edge
    /// slots.
    pub fn new() -> (r: Self)
        ensures
            r.wf(),
            r.vertices@ == Seq::<VertexType>::empty(),
            r.edge_storage.spec_reserve() == 0,
            r.edge_storage.edges@.len() == 0,
    {
        Graph { edge_storage: EdgeData::new(), vertices: VertexStorage::new() }
    }
}

} // verus!
