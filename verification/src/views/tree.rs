//! A tree laid over a graph: the first live edge of every node points at
//! the root of its tree, the second at its parent (`NONE` for a root), and
//! the remaining edges at its children.
use vstd::prelude::*;

use crate::handles::types::{Edge, VHandle};
use crate::handles::{spec_pack, spec_vh, vh, NONE};
use crate::traits::{EdgeConnect, EdgeStore};
use crate::vertex_storage::VertexStorage;

verus! {

/// Edge slot of a node that holds its root.
pub const ROOT_OFFSET: usize = 0;

/// Edge slot of a node that holds its parent.
pub const PARENT_OFFSET: usize = 1;

/// Number of leading edge slots a node uses for its root and parent.
pub const TREE_HEADER_ELEMENTS: usize = 2;

/// A tree view borrowing a graph's edge store and vertex values.
pub struct Tree<'a, VertexType, EdgeStorageType> {
    /// The graph's edges.
    pub nodes: &'a mut EdgeStorageType,
    /// The graph's vertex values.
    pub values: &'a mut VertexStorage<VertexType>,
}

/// Whether `v` is a node of the tree: its block starts with root and parent.
pub open spec fn is_node<E: EdgeStore>(nodes: E, v: int) -> bool {
    0 <= v < nodes.spec_edges().len() && nodes.spec_edges()[v].len() >= TREE_HEADER_ELEMENTS
}

/// The root recorded for node `v`.
pub open spec fn spec_root<E: EdgeStore>(nodes: E, v: int) -> VHandle {
    spec_vh(nodes.spec_edges()[v][ROOT_OFFSET as int])
}

/// The parent recorded for node `v`.
pub open spec fn spec_parent<E: EdgeStore>(nodes: E, v: int) -> VHandle {
    spec_vh(nodes.spec_edges()[v][PARENT_OFFSET as int])
}

/// The child edges of node `v`.
pub open spec fn spec_children<E: EdgeStore>(nodes: E, v: int) -> Seq<Edge> {
    nodes.spec_edges()[v].skip(TREE_HEADER_ELEMENTS as int)
}

/// The edges after `add_child(parent, child)`: `parent` gains an edge to
/// `child`, then `child`'s parent slot is set to `parent`, then its root slot
/// to the root then recorded for `parent`.
pub open spec fn edges_after_add_child(edges: Seq<Seq<Edge>>, parent: int, child: int) -> Seq<
    Seq<Edge>,
> {
    let e1 = edges.update(parent, edges[parent].push(spec_pack(child as u32, 0)));
    let e2 = e1.update(child, e1[child].update(PARENT_OFFSET as int, spec_pack(parent as u32, 0)));
    let root = spec_vh(e2[parent][ROOT_OFFSET as int]);
    e2.update(child, e2[child].update(ROOT_OFFSET as int, spec_pack(root, 0)))
}

impl<'a, VertexType, EdgeStorageType: EdgeStore + EdgeConnect> Tree<
    'a,
    VertexType,
    EdgeStorageType,
> {
    /// The edge store the view reads.
    pub open spec fn store(&self) -> EdgeStorageType {
        *self.nodes
    }

    /// The vertex values the view reads.
    pub open spec fn vals(&self) -> Seq<VertexType> {
        self.values@
    }

    /// The view's invariant: a well-formed store with one block per value.
    pub open spec fn wf(&self) -> bool {
        &&& self.store().wf()
        &&& self.vals().len() == self.store().spec_edges().len()
    }

    /// A view over `edges` and `vertices`.
    pub fn new(edges: &'a mut EdgeStorageType, vertices: &'a mut VertexStorage<VertexType>) -> (r:
        Self)
        ensures
            *r.nodes == *old(edges),
            *r.values == *old(vertices),
            *final(r.nodes) == *final(edges),
            *final(r.values) == *final(vertices),
    {
        Tree { nodes: edges, values: vertices }
    }

    /// The child edges of `parent`.
    pub fn get_children(&self, parent: VHandle) -> (r: Vec<Edge>)
        requires
            self.wf(),
            is_node(self.store(), parent as int),
        ensures
            r@ == spec_children(self.store(), parent as int),
    {
        let len = self.nodes.edges_len(parent);
        let mut out: Vec<Edge> = Vec::new();
        let mut i: usize = TREE_HEADER_ELEMENTS;
        while i < len
            invariant
                self.wf(),
                is_node(self.store(), parent as int),
                len == self.nodes.spec_edges()[parent as int].len(),
                TREE_HEADER_ELEMENTS <= i <= len,
                out@ == self.nodes.spec_edges()[parent as int].subrange(
                    TREE_HEADER_ELEMENTS as int,
                    i as int,
                ),
            decreases len - i,
        {
            out.push(self.nodes.edge_at(parent, i));
            i = i + 1;
        }
        proof {
            assert(out@ =~= spec_children(self.store(), parent as int));
        }
        out
    }

    /// The root recorded for `vertex`.
    pub fn get_root(&self, vertex: VHandle) -> (r: VHandle)
        requires
            self.wf(),
            is_node(self.store(), vertex as int),
        ensures
            r == spec_root(self.store(), vertex as int),
    {
        vh(self.nodes.edge_at(vertex, ROOT_OFFSET))
    }

    /// The parent recorded for `vertex`.
    pub fn get_parent(&self, vertex: VHandle) -> (r: VHandle)
        requires
            self.wf(),
            is_node(self.store(), vertex as int),
        ensures
            r == spec_parent(self.store(), vertex as int),
    {
        vh(self.nodes.edge_at(vertex, PARENT_OFFSET))
    }

    /// Makes `child` a child of `parent`: appends an edge `parent -> child`
    /// and records `parent` and `parent`'s root in `child`.
    pub fn add_child(&mut self, parent: VHandle, child: VHandle)
        requires
            old(self).wf(),
            is_node(old(self).store(), parent as int),
            is_node(old(self).store(), child as int),
            old(self).store().spec_edges()[parent as int].len() < old(
                self,
            ).store().spec_capacities()[parent as int],
        ensures
            final(self).wf(),
            final(self).vals() == old(self).vals(),
            final(self).store().spec_edges() == edges_after_add_child(
                old(self).store().spec_edges(),
                parent as int,
                child as int,
            ),
            final(self).store().spec_capacities() == old(self).store().spec_capacities(),
            final(self).store().spec_reserve() == old(self).store().spec_reserve(),
            final(self).store().spec_used() == old(self).store().spec_used(),
            final(self).store().spec_header_words() == old(self).store().spec_header_words(),
            parent != child ==> {
                &&& spec_parent(final(self).store(), child as int) == parent
                &&& spec_root(final(self).store(), child as int) == spec_root(
                    old(self).store(),
                    parent as int,
                )
                &&& spec_children(final(self).store(), parent as int) == spec_children(
                    old(self).store(),
                    parent as int,
                ).push(spec_pack(child, 0))
            },
    {
        let ghost e0 = self.store().spec_edges();
        self.nodes.connect(parent, child);
        self.nodes.set_target(child, PARENT_OFFSET, parent);
        let root = self.get_root(parent);
        self.nodes.set_target(child, ROOT_OFFSET, root);
        proof {
            let e1 = e0.update(parent as int, e0[parent as int].push(spec_pack(child, 0)));
            if parent != child {
                assert(spec_children(self.store(), parent as int) =~= spec_children(
                    old(self).store(),
                    parent as int,
                ).push(spec_pack(child, 0)));
                crate::handles::lemma_pack_unpack(parent, 0);
            }
        }
    }

    /// Adds a vertex of value `val` with an empty block of the store's
    /// reserve of slots.
    fn create_vertex(&mut self, val: VertexType) -> (r: VHandle)
        requires
            old(self).wf(),
            old(self).store().can_create(0),
        ensures
            final(self).wf(),
            r == old(self).vals().len(),
            final(self).vals() == old(self).vals().push(val),
            final(self).store().spec_edges() == old(self).store().spec_edges().push(Seq::empty()),
            final(self).store().spec_capacities() == old(self).store().spec_capacities().push(
                old(self).store().spec_reserve(),
            ),
            final(self).store().spec_reserve() == old(self).store().spec_reserve(),
            final(self).store().spec_used() == old(self).store().spec_used()
                + old(self).store().spec_header_words() + old(self).store().spec_reserve(),
            final(self).store().spec_header_words() == old(self).store().spec_header_words(),
    {
        self.values.push(val);
        self.nodes.create_vertex_entry(0);
        let vertex = self.values.len() - 1;
        vertex as VHandle
    }

    /// Adds a root node of value `val`: its own root, with parent `NONE`.
    pub fn create_node(&mut self, val: VertexType) -> (r: VHandle)
        requires
            old(self).wf(),
            old(self).store().can_create(0),
            old(self).store().spec_reserve() >= TREE_HEADER_ELEMENTS,
        ensures
            final(self).wf(),
            r == old(self).vals().len(),
            final(self).vals() == old(self).vals().push(val),
            final(self).store().spec_edges() == old(self).store().spec_edges().push(
                seq![spec_pack(r, 0), spec_pack(NONE, 0)],
            ),
            final(self).store().spec_capacities() == old(self).store().spec_capacities().push(
                old(self).store().spec_reserve(),
            ),
            final(self).store().spec_reserve() == old(self).store().spec_reserve(),
            final(self).store().spec_used() == old(self).store().spec_used()
                + old(self).store().spec_header_words() + old(self).store().spec_reserve(),
            final(self).store().spec_header_words() == old(self).store().spec_header_words(),
            is_node(final(self).store(), r as int),
            spec_root(final(self).store(), r as int) == r,
            spec_parent(final(self).store(), r as int) == NONE,
            spec_children(final(self).store(), r as int) == Seq::<Edge>::empty(),
    {
        proof {
            self.store().lemma_shape();
        }
        let vertex = self.create_vertex(val);
        self.nodes.connect(vertex, vertex);
        self.nodes.connect(vertex, NONE);
        proof {
            assert(self.store().spec_edges()[vertex as int] =~= seq![spec_pack(vertex, 0), spec_pack(NONE, 0)]);
            assert(self.store().spec_edges() =~= old(self).store().spec_edges().push(
                seq![spec_pack(vertex, 0), spec_pack(NONE, 0)],
            ));
            crate::handles::lemma_pack_unpack(vertex, 0);
            crate::handles::lemma_pack_unpack(NONE, 0);
            assert(spec_children(self.store(), vertex as int) =~= Seq::<Edge>::empty());
        }
        vertex
    }

    /// Adds a node of value `val` as a child of `parent`.
    pub fn create_child(&mut self, parent: VHandle, val: VertexType) -> (r: VHandle)
        requires
            old(self).wf(),
            old(self).store().can_create(0),
            old(self).store().spec_reserve() >= TREE_HEADER_ELEMENTS,
            is_node(old(self).store(), parent as int),
            old(self).store().spec_edges()[parent as int].len() < old(
                self,
            ).store().spec_capacities()[parent as int],
        ensures
            final(self).wf(),
            r == old(self).vals().len(),
            final(self).vals() == old(self).vals().push(val),
            is_node(final(self).store(), r as int),
            spec_parent(final(self).store(), r as int) == parent,
            spec_root(final(self).store(), r as int) == spec_root(old(self).store(), parent as int),
            spec_children(final(self).store(), r as int) == Seq::<Edge>::empty(),
            spec_children(final(self).store(), parent as int) == spec_children(
                old(self).store(),
                parent as int,
            ).push(spec_pack(r, 0)),
            final(self).store().spec_edges()[parent as int] == old(self).store().spec_edges()[parent as int].push(
                spec_pack(r, 0),
            ),
            spec_parent(final(self).store(), parent as int) == spec_parent(old(self).store(), parent as int),
            spec_root(final(self).store(), parent as int) == spec_root(old(self).store(), parent as int),
            forall|v: int|
                0 <= v < old(self).vals().len() && v != parent ==> #[trigger] final(self).store().spec_edges()[v]
                    == old(self).store().spec_edges()[v],
            final(self).store().spec_capacities() == old(self).store().spec_capacities().push(
                old(self).store().spec_reserve(),
            ),
            final(self).store().spec_reserve() == old(self).store().spec_reserve(),
            final(self).store().spec_used() == old(self).store().spec_used()
                + old(self).store().spec_header_words() + old(self).store().spec_reserve(),
            final(self).store().spec_header_words() == old(self).store().spec_header_words(),
    {
        proof {
            self.store().lemma_shape();
        }
        let child = self.create_node(val);
        proof {
            self.store().lemma_shape();
            assert(self.store().spec_edges()[parent as int] == old(self).store().spec_edges()[parent as int]);
        }
        self.add_child(parent, child);
        proof {
            assert(spec_children(self.store(), child as int) =~= Seq::<Edge>::empty());
            let pe = old(self).store().spec_edges()[parent as int];
            assert(self.store().spec_edges()[parent as int] == pe.push(spec_pack(child, 0)));
            assert(self.store().spec_edges()[parent as int][ROOT_OFFSET as int] == pe[ROOT_OFFSET as int]);
            assert(self.store().spec_edges()[parent as int][PARENT_OFFSET as int] == pe[PARENT_OFFSET as int]);
        }
        child
    }
}

} // verus!
