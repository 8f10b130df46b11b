//! Edge blocks kept side by side in one growable array, with a table that
//! records where each vertex's block starts, how long it is and how many of
//! its slots hold live edges.
use vstd::prelude::*;

use eta_algorithms::data_structs::array::Array;

use crate::containers::{
    edge_array_as_slice, edge_array_capacity, edge_array_clone, edge_array_from_slice, edge_array_get,
    edge_array_items, edge_array_set, layout_fits,
};
use crate::handles::types::{Ci, Edge, VHandle, Weight};
use crate::handles::{pack, spec_pack, spec_vh, vh};
use crate::traits::{
    remove_first_target, EdgeConnect, EdgeManipulate, EdgeStore, WeightedEdgeConnect,
    WeightedEdgeManipulate,
};

verus! {

/// Where a vertex's edge block lies in the edge array.
#[derive(Copy, Clone)]
pub struct VertexEntry {
    /// Live edges in the block.
    pub len: Ci,
    /// Slots in the block.
    pub capacity: Ci,
    /// Index of the block's first slot.
    pub offset: Ci,
}

/// Edge blocks of all vertices in one array.
pub struct EdgeStorage {
    /// Extra slots every new vertex gets.
    pub reserve: Ci,
    /// All slots of all blocks; `None` while no block has a slot.
    pub edges: Option<Array<Edge>>,
    /// One entry per vertex.
    pub vertex_entries: Vec<VertexEntry>,
}

impl EdgeStorage {
    /// The slots of the edge array.
    pub open spec fn items(&self) -> Seq<Edge> {
        match self.edges {
            Some(a) => edge_array_items(a),
            None => Seq::empty(),
        }
    }

    /// The entry of vertex `v`.
    pub open spec fn entry(&self, v: int) -> VertexEntry {
        self.vertex_entries@[v]
    }

    /// The live edges of vertex `v`.
    pub open spec fn live(&self, v: int) -> Seq<Edge> {
        self.items().subrange(
            self.entry(v).offset as int,
            self.entry(v).offset + self.entry(v).len,
        )
    }

    /// The invariant: every block lies inside the array, holds no more live
    /// edges than slots, and no two blocks overlap; sizes fit `Ci`.
    pub open spec fn inv(&self) -> bool {
        let n = self.vertex_entries@.len();
        &&& (self.edges is Some ==> self.items().len() >= 1)
        &&& self.items().len() <= u32::MAX
        &&& layout_fits(self.items().len() as int, 8)
        &&& n <= u32::MAX
        &&& forall|i: int|
            #![trigger self.entry(i)]
            0 <= i < n ==> self.entry(i).len <= self.entry(i).capacity && self.entry(i).offset
                + self.entry(i).capacity <= self.items().len()
        &&& forall|i: int, j: int|
            #![trigger self.entry(i), self.entry(j)]
            0 <= i < j < n ==> self.entry(i).offset + self.entry(i).capacity <= self.entry(
                j,
            ).offset
    }

    /// The invariant holds again after the entries keep their offsets and
    /// capacities, the array keeps its length and each length stays within
    /// its capacity.
    proof fn lemma_inv_same_layout(old_s: &Self, new_s: &Self)
        requires
            old_s.inv(),
            new_s.items().len() == old_s.items().len(),
            new_s.edges is Some <==> old_s.edges is Some,
            new_s.vertex_entries@.len() == old_s.vertex_entries@.len(),
            forall|i: int|
                0 <= i < old_s.vertex_entries@.len() ==> new_s.entry(i).offset == old_s.entry(
                    i,
                ).offset && new_s.entry(i).capacity == old_s.entry(i).capacity && new_s.entry(
                    i,
                ).len <= new_s.entry(i).capacity,
        ensures
            new_s.inv(),
    {
        let n = old_s.vertex_entries@.len();
        assert forall|i: int, j: int| 0 <= i < j < n implies new_s.entry(i).offset + new_s.entry(
            i,
        ).capacity <= new_s.entry(j).offset by {
            assert(old_s.entry(i).offset + old_s.entry(i).capacity <= old_s.entry(j).offset);
        }
        assert forall|i: int| 0 <= i < n implies new_s.entry(i).len <= new_s.entry(i).capacity
            && new_s.entry(i).offset + new_s.entry(i).capacity <= new_s.items().len() by {
            assert(old_s.entry(i).offset + old_s.entry(i).capacity <= old_s.items().len());
        }
    }

    /// Writing the `i`-th live slot of vertex `u` changes exactly that edge
    /// and keeps the invariant.
    pub proof fn lemma_set_live_slot(old_s: &Self, new_s: &Self, u: int, i: int, value: Edge)
        requires
            old_s.inv(),
            0 <= u < old_s.vertex_entries@.len(),
            0 <= i < old_s.entry(u).len,
            new_s.vertex_entries@ == old_s.vertex_entries@,
            new_s.items() == old_s.items().update(old_s.entry(u).offset + i, value),
        ensures
            new_s.inv(),
            new_s.spec_edges() == old_s.spec_edges().update(
                u,
                old_s.spec_edges()[u].update(i, value),
            ),
    {
        let n = old_s.vertex_entries@.len();
        let meta = old_s.entry(u);
        Self::lemma_inv_same_layout(old_s, new_s);
        assert forall|v: int| 0 <= v < n && v != u implies new_s.live(v) == old_s.live(v) by {
            if v < u {
                assert(old_s.entry(v).offset + old_s.entry(v).capacity <= meta.offset);
            } else {
                assert(meta.offset + meta.capacity <= old_s.entry(v).offset);
            }
            assert(new_s.live(v) =~= old_s.live(v));
        }
        assert(new_s.live(u) =~= old_s.live(u).update(i, value));
        assert(new_s.spec_edges() =~= old_s.spec_edges().update(
            u,
            old_s.spec_edges()[u].update(i, value),
        ));
    }

    /// A store for dynamic use: every vertex gets 50 spare slots.
    pub fn new_large() -> (r: Self)
        ensures
            r.wf(),
            r.spec_edges() == Seq::<Seq<Edge>>::empty(),
            r.spec_reserve() == 50,
            r.items().len() == 0,
    {
        let r = EdgeStorage { reserve: 50, edges: None, vertex_entries: Vec::new() };
        assert(r.spec_edges() =~= Seq::<Seq<Edge>>::empty());
        r
    }

    /// A store whose vertices get `capacity` spare slots each.
    pub fn with_reserve(capacity: Ci) -> (r: Self)
        ensures
            r.wf(),
            r.spec_edges() == Seq::<Seq<Edge>>::empty(),
            r.spec_reserve() == capacity,
            r.items().len() == 0,
    {
        let r = EdgeStorage {
            reserve: capacity,
            edges: None,
            vertex_entries: Vec::new(),
        };
        assert(r.spec_edges() =~= Seq::<Seq<Edge>>::empty());
        r
    }

    /// A store for a graph whose size is known ahead: no spare slots.
    pub fn new() -> (r: Self)
        ensures
            r.wf(),
            r.spec_edges() == Seq::<Seq<Edge>>::empty(),
            r.spec_reserve() == 0,
            r.items().len() == 0,
    {
        let r = EdgeStorage { reserve: 0, edges: None, vertex_entries: Vec::new() };
        assert(r.spec_edges() =~= Seq::<Seq<Edge>>::empty());
        r
    }

    /// Index of the first slot of `vertex`'s block.
    pub fn edges_index(&self, vertex: VHandle) -> (r: usize)
        requires
            self.wf(),
            vertex < self.spec_edges().len(),
        ensures
            r == self.entry(vertex as int).offset,
    {
        self.vertex_entries[vertex as usize].offset as usize
    }

    /// The slot at `index` of the edge array.
    pub fn slot(&self, index: usize) -> (r: Edge)
        requires
            index < self.items().len(),
        ensures
            r == self.items()[index as int],
    {
        match &self.edges {
            Some(a) => edge_array_get(a, index),
            None => 0,
        }
    }

    /// Overwrites the slot at `index` of the edge array.
    pub fn set_slot(&mut self, index: usize, value: Edge)
        requires
            index < old(self).items().len(),
        ensures
            final(self).items() == old(self).items().update(index as int, value),
            final(self).vertex_entries == old(self).vertex_entries,
            final(self).reserve == old(self).reserve,
            final(self).edges is Some <==> old(self).edges is Some,
    {
        match &mut self.edges {
            Some(a) => edge_array_set(a, index, value),
            None => {},
        }
    }

    /// The live edges of `vertex`.
    pub fn edges_as_slice(&self, vertex: VHandle) -> (r: &[Edge])
        requires
            self.wf(),
            vertex < self.spec_edges().len(),
        ensures
            r@ == self.spec_edges()[vertex as int],
    {
        let meta = self.vertex_entries[vertex as usize];
        proof {
            assert(self.entry(vertex as int) == meta);
        }
        match &self.edges {
            Some(a) => {
                let all = edge_array_as_slice(a);
                &all[meta.offset as usize..(meta.offset + meta.len) as usize]
            },
            None => {
                assert(self.spec_edges()[vertex as int] =~= Seq::<Edge>::empty());
                &[]
            },
        }
    }

    /// Appends `to` to the live edges of `from`.
    pub fn connect_edges(&mut self, from: VHandle, to: &[Edge])
        requires
            old(self).wf(),
            from < old(self).spec_edges().len(),
            old(self).spec_edges()[from as int].len() + to@.len() <= old(
                self,
            ).spec_capacities()[from as int],
        ensures
            final(self).wf(),
            final(self).spec_edges() == old(self).spec_edges().update(
                from as int,
                old(self).spec_edges()[from as int] + to@,
            ),
            final(self).spec_capacities() == old(self).spec_capacities(),
            final(self).spec_reserve() == old(self).spec_reserve(),
            final(self).items().len() == old(self).items().len(),
    {
        let meta = self.vertex_entries[from as usize];
        let len = meta.len as usize;
        let new_size = len + to.len();
        let off = meta.offset as usize;
        let ghost old_self = *self;
        let mut k: usize = 0;
        while k < to.len()
            invariant
                old_self.wf(),
                meta == old_self.entry(from as int),
                from < old_self.vertex_entries@.len(),
                off == meta.offset,
                len == meta.len,
                new_size == len + to@.len(),
                new_size <= meta.capacity,
                k <= to@.len(),
                self.vertex_entries == old_self.vertex_entries,
                self.reserve == old_self.reserve,
                self.items().len() == old_self.items().len(),
                self.edges is Some <==> old_self.edges is Some,
                forall|p: int|
                    0 <= p < self.items().len() && !(off + len <= p < off + len + k)
                        ==> self.items()[p] == old_self.items()[p],
                forall|q: int| 0 <= q < k ==> self.items()[off + len + q] == to@[q],
            decreases to@.len() - k,
        {
            self.set_slot(off + len + k, to[k]);
            k = k + 1;
        }
        self.vertex_entries.set(
            from as usize,
            VertexEntry { len: new_size as Ci, capacity: meta.capacity, offset: meta.offset },
        );
        proof {
            let n = self.vertex_entries@.len();
            Self::lemma_inv_same_layout(&old_self, self);
            assert forall|v: int| 0 <= v < n && v != from implies self.live(v) == old_self.live(v) by {
                assert(self.entry(v) == old_self.entry(v));
                if v < from {
                    assert(old_self.entry(v).offset + old_self.entry(v).capacity <= meta.offset);
                } else {
                    assert(meta.offset + meta.capacity <= old_self.entry(v).offset);
                }
                assert(self.live(v) =~= old_self.live(v));
            }
            assert(self.live(from as int) =~= old_self.live(from as int) + to@);
            assert(self.spec_edges() =~= old_self.spec_edges().update(
                from as int,
                old_self.spec_edges()[from as int] + to@,
            ));
            assert(self.spec_capacities() =~= old_self.spec_capacities());
        }
    }

    /// All live edges, vertex after vertex. (The store must hold at least
    /// one vertex.)
    pub fn iter(&self) -> (r: Vec<Edge>)
        requires
            self.wf(),
            self.spec_edges().len() > 0,
        ensures
            r@ == self.spec_edges().flatten(),
    {
        let n = self.vertex_entries.len();
        let mut out: Vec<Edge> = Vec::new();
        let mut v: usize = 0;
        while v < n
            invariant
                self.wf(),
                n == self.spec_edges().len(),
                v <= n,
                out@ == self.spec_edges().take(v as int).flatten(),
            decreases n - v,
        {
            let meta = self.vertex_entries[v];
            proof {
                assert(self.entry(v as int) == meta);
            }
            let mut k: usize = meta.offset as usize;
            let end = (meta.offset + meta.len) as usize;
            let ghost start = out@;
            while k < end
                invariant
                    self.wf(),
                    v < n,
                    n == self.spec_edges().len(),
                    meta == self.entry(v as int),
                    meta.offset <= k <= end,
                    end == meta.offset + meta.len,
                    end <= self.items().len(),
                    out@ == start + self.items().subrange(meta.offset as int, k as int),
                decreases end - k,
            {
                out.push(self.slot(k));
                proof {
                    assert(self.items().subrange(meta.offset as int, k + 1) =~= self.items().subrange(
                        meta.offset as int,
                        k as int,
                    ).push(self.items()[k as int]));
                }
                k = k + 1;
            }
            proof {
                assert(self.spec_edges().take(v + 1) =~= self.spec_edges().take(v as int).push(
                    self.spec_edges()[v as int],
                ));
                self.spec_edges().take(v as int).lemma_flatten_push(self.spec_edges()[v as int]);
            }
            v = v + 1;
        }
        proof {
            assert(self.spec_edges().take(n as int) =~= self.spec_edges());
        }
        out
    }

    /// A copy of the store.
    pub fn clone(&self) -> (r: Self)
        requires
            self.wf(),
        ensures
            r.wf(),
            r.spec_edges() == self.spec_edges(),
            r.spec_capacities() == self.spec_capacities(),
            r.spec_reserve() == self.spec_reserve(),
            r.items() == self.items(),
            r.vertex_entries@ == self.vertex_entries@,
    {
        let edges = match &self.edges {
            Some(a) => Some(edge_array_clone(a)),
            None => None,
        };
        let r = EdgeStorage {
            reserve: self.reserve,
            edges,
            vertex_entries: self.vertex_entries.clone(),
        };
        proof {
            assert(r.vertex_entries@ =~= self.vertex_entries@);
            assert forall|i: int| 0 <= i < r.vertex_entries@.len() implies r.entry(i) == self.entry(i) by {}
            assert(r.spec_edges() =~= self.spec_edges());
            assert(r.spec_capacities() =~= self.spec_capacities());
        }
        r
    }
}

impl EdgeStore for EdgeStorage {
    open spec fn spec_edges(&self) -> Seq<Seq<Edge>> {
        Seq::new(self.vertex_entries@.len(), |v: int| self.live(v))
    }

    open spec fn spec_capacities(&self) -> Seq<nat> {
        Seq::new(self.vertex_entries@.len(), |v: int| self.entry(v).capacity as nat)
    }

    open spec fn spec_reserve(&self) -> nat {
        self.reserve as nat
    }

    open spec fn wf(&self) -> bool {
        self.inv()
    }

    open spec fn spec_used(&self) -> nat {
        self.items().len()
    }

    open spec fn spec_header_words(&self) -> nat {
        0
    }

    open spec fn can_create(&self, size: nat) -> bool {
        &&& self.items().len() + self.reserve + size <= u32::MAX
        &&& layout_fits(self.items().len() + self.reserve + size, 8)
        &&& self.vertex_entries@.len() < u32::MAX
    }

    proof fn lemma_shape(&self) {
        assert forall|v: int| 0 <= v < self.spec_edges().len() implies #[trigger] self.spec_edges()[v].len()
            <= self.spec_capacities()[v] by {
            assert(self.entry(v).len <= self.entry(v).capacity);
        }
    }

    fn create_vertex_entry(&mut self, size: Ci) -> (handle: VHandle) {
        let ghost old_self = *self;
        let used: usize = match &self.edges {
            Some(a) => edge_array_capacity(a),
            None => 0,
        };
        let offset = used as Ci;
        let grown: usize = used + (size + self.reserve) as usize;
        if grown > used {
            let mut words: Vec<Edge> = Vec::new();
            let mut k: usize = 0;
            while k < grown
                invariant
                    old_self.inv(),
                    *self == old_self,
                    used == old_self.items().len(),
                    used <= grown,
                    grown == used + old_self.reserve + size,
                    k <= grown,
                    words@.len() == k,
                    forall|p: int| 0 <= p < k && p < used ==> words@[p] == old_self.items()[p],
                decreases grown - k,
            {
                if k < used {
                    words.push(self.slot(k));
                } else {
                    words.push(0);
                }
                k = k + 1;
            }
            self.edges = Some(edge_array_from_slice(words.as_slice()));
        }
        assert(self.items().len() == grown);
        assert(forall|p: int| 0 <= p < used ==> self.items()[p] == old_self.items()[p]);
        assert(self.edges is Some ==> self.items().len() >= 1);
        self.vertex_entries.push(
            VertexEntry { len: 0, capacity: self.reserve + size, offset: offset },
        );
        proof {
            let n = old_self.vertex_entries@.len();
            assert forall|i: int, j: int| 0 <= i < j < n + 1 implies self.entry(i).offset + self.entry(
                i,
            ).capacity <= self.entry(j).offset by {
                assert(self.entry(i) == old_self.entry(i));
                if j < n {
                    assert(old_self.entry(i).offset + old_self.entry(i).capacity <= old_self.entry(j).offset);
                } else {
                    assert(old_self.entry(i).offset + old_self.entry(i).capacity <= old_self.items().len());
                }
            }
            assert forall|i: int| 0 <= i < n + 1 implies self.entry(i).len <= self.entry(i).capacity
                && self.entry(i).offset + self.entry(i).capacity <= self.items().len() by {
                if i < n {
                    assert(self.entry(i) == old_self.entry(i));
                    assert(old_self.entry(i).offset + old_self.entry(i).capacity <= old_self.items().len());
                }
            }
            assert forall|v: int| 0 <= v < n implies #[trigger] self.live(v) == old_self.live(v) by {
                assert(self.entry(v) == old_self.entry(v));
                assert(old_self.entry(v).offset + old_self.entry(v).capacity <= old_self.items().len());
                assert(self.live(v) =~= old_self.live(v));
            }
            assert(self.live(n as int) =~= Seq::<Edge>::empty());
            assert(self.spec_edges() =~= old_self.spec_edges().push(Seq::empty()));
            assert(self.spec_capacities() =~= old_self.spec_capacities().push(
                old_self.spec_reserve() + size as nat,
            ));
        }
        (self.vertex_entries.len() - 1) as VHandle
    }

    fn vertex_count(&self) -> (n: usize) {
        self.vertex_entries.len()
    }

    fn edges_len(&self, handle: VHandle) -> (n: usize) {
        self.vertex_entries[handle as usize].len as usize
    }

    fn edges_capacity(&self, handle: VHandle) -> (n: usize) {
        self.vertex_entries[handle as usize].capacity as usize
    }

    fn edge_at(&self, handle: VHandle, index: usize) -> (e: Edge) {
        let meta = self.vertex_entries[handle as usize];
        proof {
            assert(self.entry(handle as int) == meta);
        }
        self.slot(meta.offset as usize + index)
    }

    fn set_target(&mut self, handle: VHandle, index: usize, target: VHandle) {
        let ghost old_self = *self;
        let meta = self.vertex_entries[handle as usize];
        proof {
            assert(self.entry(handle as int) == meta);
        }
        self.set_slot(meta.offset as usize + index, target as Edge);
        proof {
            let n = self.vertex_entries@.len();
            Self::lemma_inv_same_layout(&old_self, self);
            assert forall|v: int| 0 <= v < n && v != handle implies self.live(v) == old_self.live(v) by {
                if v < handle {
                    assert(old_self.entry(v).offset + old_self.entry(v).capacity <= meta.offset);
                } else {
                    assert(meta.offset + meta.capacity <= old_self.entry(v).offset);
                }
                assert(self.live(v) =~= old_self.live(v));
            }
            assert(self.live(handle as int) =~= old_self.live(handle as int).update(
                index as int,
                spec_pack(target, 0),
            ));
            assert(self.spec_edges() =~= old_self.spec_edges().update(
                handle as int,
                old_self.spec_edges()[handle as int].update(index as int, spec_pack(target, 0)),
            ));
            assert(self.spec_capacities() =~= old_self.spec_capacities());
        }
    }
}

impl EdgeConnect for EdgeStorage {
    fn connect(&mut self, from: VHandle, to: VHandle) {
        let e = pack(to, 0);
        let edges = [e];
        assert(edges@ =~= seq![spec_pack(to, 0)]);
        self.connect_edges(from, &edges);
        assert(old(self).spec_edges()[from as int] + seq![spec_pack(to, 0)]
            =~= old(self).spec_edges()[from as int].push(spec_pack(to, 0)));
    }

    fn disconnect(&mut self, from: VHandle, to: VHandle) {
        let ghost old_self = *self;
        let meta = self.vertex_entries[from as usize];
        proof {
            assert(self.entry(from as int) == meta);
        }
        let off = meta.offset as usize;
        let len = meta.len as usize;
        let mut i: usize = 0;
        while i < len
            invariant
                *self == old_self,
                *old(self) == old_self,
                old_self.wf(),
                from < old_self.vertex_entries@.len(),
                meta == old_self.entry(from as int),
                off == meta.offset,
                len == meta.len,
                i <= len,
                forall|j: int| 0 <= j < i ==> spec_vh(old_self.live(from as int)[j]) != to,
            decreases len - i,
        {
            let e = self.slot(off + i);
            if vh(e) == to {
                let last = self.slot(off + len - 1);
                self.set_slot(off + i, last);
                self.vertex_entries.set(
                    from as usize,
                    VertexEntry { len: (len - 1) as Ci, capacity: meta.capacity, offset: meta.offset },
                );
                proof {
                    let s = old_self.live(from as int);
                    assert(s[i as int] == e);
                    let n = self.vertex_entries@.len();
                    Self::lemma_inv_same_layout(&old_self, self);
                    assert forall|v: int| 0 <= v < n && v != from implies self.live(v) == old_self.live(v) by {
                        if v < from {
                            assert(old_self.entry(v).offset + old_self.entry(v).capacity <= meta.offset);
                        } else {
                            assert(meta.offset + meta.capacity <= old_self.entry(v).offset);
                        }
                        assert(self.live(v) =~= old_self.live(v));
                    }
                    let ci = choose|c: int|
                        0 <= c < s.len() && spec_vh(s[c]) == to && (forall|j: int|
                            0 <= j < c ==> spec_vh(s[j]) != to);
                    assert(ci == i) by {
                        if ci < i {
                        } else if ci > i {
                        }
                    }
                    assert(self.live(from as int) =~= s.update(i as int, s.last()).drop_last());
                    assert(self.spec_edges() =~= old_self.spec_edges().update(
                        from as int,
                        remove_first_target(old_self.spec_edges()[from as int], to),
                    ));
                    assert(self.spec_capacities() =~= old_self.spec_capacities());
                }
                return;
            }
            i = i + 1;
        }
        proof {
            let s = old_self.live(from as int);
            assert(!(exists|c: int| 0 <= c < s.len() && spec_vh(s[c]) == to));
            assert(self.spec_edges() =~= old_self.spec_edges().update(
                from as int,
                remove_first_target(old_self.spec_edges()[from as int], to),
            ));
        }
    }
}

impl WeightedEdgeConnect for EdgeStorage {
    fn connect_weighted(&mut self, from: VHandle, to: VHandle, weight: Weight) {
        let e = pack(to, weight);
        let edges = [e];
        assert(edges@ =~= seq![spec_pack(to, weight)]);
        self.connect_edges(from, &edges);
        assert(old(self).spec_edges()[from as int] + seq![spec_pack(to, weight)]
            =~= old(self).spec_edges()[from as int].push(spec_pack(to, weight)));
    }
}

impl EdgeManipulate for EdgeStorage {}

impl WeightedEdgeManipulate for EdgeStorage {}

} // verus!
