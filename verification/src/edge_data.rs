//! An edge store that keeps every vertex's block in one vector of `MSize`
//! words: a three-word header (visited flag, number of live edges, number
//! of slots) followed by the block's slots, each holding a target vertex.
use vstd::prelude::*;

use crate::graph::Error;
use crate::handles::types::{Ci, Edge, VHandle};
use crate::handles::{lemma_pack_unpack, spec_pack, spec_vh};
use crate::traits::{remove_first_target, EdgeConnect, EdgeManipulate, EdgeStore};

verus! {

/// One word of an edge block.
pub type MSize = u32;

/// Position of the visited flag in a block's header.
const FLAG_OFFSET: usize = 0;

/// Position of the number of live edges in a block's header.
const LEN_OFFSET: usize = 1;

/// Position of the number of slots in a block's header.
const RESERVE_OFFSET: usize = 2;

/// Position of the first slot of a block.
const DATA_START_OFFSET: usize = 3;

/// Bytes in one `MSize` word.
const MSIZE_BYTES: usize = 4;

/// Bytes in a header.
const HEADER_BYTES: usize = 12;

/// The header in front of each vertex's block.
#[derive(Clone, Copy)]
pub struct Header {
    /// The vertex's visited flag.
    pub visited_flag: MSize,
    /// The number of live edges.
    pub len: MSize,
    /// The number of slots.
    pub reserve: MSize,
}

/// Edge blocks with their headers, one after the other in one vector.
pub struct EdgeData {
    /// The value that marks a vertex as visited.
    pub visited_val: MSize,
    /// Extra slots every new vertex gets.
    pub reserve: usize,
    /// All headers and slots.
    pub edges: Vec<MSize>,
    /// Where each vertex's block starts in `edges`.
    pub indices: Vec<MSize>,
}

/// The number of `MSize` words a header takes, its size rounded up to
/// whole words.
pub fn header_size_in_msize_units() -> (r: usize)
    ensures
        r == 3,
{
    let raw_size = HEADER_BYTES;
    let mask = MSIZE_BYTES - 1;
    let rounded = raw_size + mask;
    proof {
        assert(rounded == 15);
        assert((15usize & !3usize) == 12usize) by (bit_vector);
    }
    (rounded & !mask) / MSIZE_BYTES
}

impl Header {
    /// The header of the block that starts at `index`, and the block's live
    /// slots.
    pub fn parse(edges: &Vec<MSize>, index: usize) -> (r: (Header, &[MSize]))
        requires
            index + 3 <= edges@.len() <= usize::MAX,
            index + 3 + edges@[index + 1] <= edges@.len(),
        ensures
            r.0.visited_flag == edges@[index as int],
            r.0.len == edges@[index + 1],
            r.0.reserve == edges@[index + 2],
            r.1@ == edges@.subrange(index + 3, index + 3 + edges@[index + 1]),
    {
        let header = Header {
            visited_flag: edges[index + FLAG_OFFSET],
            len: edges[index + LEN_OFFSET],
            reserve: edges[index + RESERVE_OFFSET],
        };
        let all = edges.as_slice();
        let data = &all[index + DATA_START_OFFSET..index + DATA_START_OFFSET + header.len as usize];
        (header, data)
    }

    /// The header of the block that starts at `index`, and all the block's
    /// slots, to write.
    pub fn parse_mut(edges: &mut Vec<MSize>, index: usize) -> (r: (Header, &mut [MSize]))
        requires
            index + 3 <= old(edges)@.len() <= usize::MAX,
            index + 3 + old(edges)@[index + 2] <= old(edges)@.len(),
        ensures
            r.0.visited_flag == old(edges)@[index as int],
            r.0.len == old(edges)@[index + 1],
            r.0.reserve == old(edges)@[index + 2],
            r.1@ == old(edges)@.subrange(index + 3, index + 3 + old(edges)@[index + 2]),
            final(edges)@ == old(edges)@.subrange(0, index + 3) + final(r.1)@ + old(edges)@.subrange(
                index + 3 + old(edges)@[index + 2],
                old(edges)@.len() as int,
            ),
    {
        let header = Header {
            visited_flag: edges[index + FLAG_OFFSET],
            len: edges[index + LEN_OFFSET],
            reserve: edges[index + RESERVE_OFFSET],
        };
        let start = index + DATA_START_OFFSET;
        let all = edges.as_mut_slice();
        let (_, tail) = all.split_at_mut(start);
        let (data, _) = tail.split_at_mut(header.reserve as usize);
        (header, data)
    }
}

impl EdgeData {
    /// Where the block of vertex `v` starts.
    pub open spec fn off(&self, v: int) -> int {
        self.indices@[v] as int
    }

    /// The number of live edges of vertex `v`, from its header.
    pub open spec fn hdr_len(&self, v: int) -> int {
        self.edges@[self.off(v) + 1] as int
    }

    /// The number of slots of vertex `v`, from its header.
    pub open spec fn hdr_cap(&self, v: int) -> int {
        self.edges@[self.off(v) + 2] as int
    }

    /// All slots of vertex `v`.
    pub open spec fn slots(&self, v: int) -> Seq<MSize> {
        self.edges@.subrange(self.off(v) + 3, self.off(v) + 3 + self.hdr_cap(v))
    }

    /// The invariant: every block, header and slots, lies inside the vector
    /// and holds no more live edges than slots; no two blocks overlap; all
    /// positions fit in an `MSize`.
    pub open spec fn inv(&self) -> bool {
        let n = self.indices@.len();
        &&& self.edges@.len() <= u32::MAX
        &&& n <= u32::MAX
        &&& forall|v: int|
            #![trigger self.indices@[v]]
            0 <= v < n ==> self.off(v) + 3 + self.hdr_cap(v) <= self.edges@.len() && self.hdr_len(v)
                <= self.hdr_cap(v)
        &&& forall|v: int, w: int|
            #![trigger self.indices@[v], self.indices@[w]]
            0 <= v < w < n ==> self.off(v) + 3 + self.hdr_cap(v) <= self.off(w)
    }

    /// A store for dynamic use: every vertex gets 50 spare slots.
    pub fn new_dyn() -> (r: Self)
        ensures
            r.wf(),
            r.spec_edges() == Seq::<Seq<Edge>>::empty(),
            r.spec_reserve() == 50,
            r.edges@.len() == 0,
            r.visited_val == 1,
    {
        let r = EdgeData { visited_val: 1, reserve: 50, edges: Vec::new(), indices: Vec::new() };
        assert(r.spec_edges() =~= Seq::<Seq<Edge>>::empty());
        r
    }

    /// A store whose vertices get `capacity` spare slots each.
    pub fn with_reserve(capacity: usize) -> (r: Self)
        ensures
            r.wf(),
            r.spec_edges() == Seq::<Seq<Edge>>::empty(),
            r.spec_reserve() == capacity,
            r.edges@.len() == 0,
            r.visited_val == 1,
    {
        let r = EdgeData { visited_val: 1, reserve: capacity, edges: Vec::new(), indices: Vec::new() };
        assert(r.spec_edges() =~= Seq::<Seq<Edge>>::empty());
        r
    }

    /// A store for a graph whose size is known ahead: no spare slots.
    pub fn new() -> (r: Self)
        ensures
            r.wf(),
            r.spec_edges() == Seq::<Seq<Edge>>::empty(),
            r.spec_reserve() == 0,
            r.edges@.len() == 0,
            r.visited_val == 1,
    {
        let r = EdgeData { visited_val: 1, reserve: 0, edges: Vec::new(), indices: Vec::new() };
        assert(r.spec_edges() =~= Seq::<Seq<Edge>>::empty());
        r
    }

    /// The invariant holds again after words outside every header and
    /// outside the live edges of every vertex but `u` change, and `u`'s
    /// number of live edges stays within its slots.
    proof fn lemma_inv_keeps(old_s: &Self, new_s: &Self, u: int)
        requires
            old_s.inv(),
            new_s.indices@ == old_s.indices@,
            new_s.edges@.len() == old_s.edges@.len(),
            0 <= u < old_s.indices@.len(),
            forall|v: int|
                0 <= v < old_s.indices@.len() ==> #[trigger] new_s.hdr_cap(v) == old_s.hdr_cap(v),
            forall|v: int|
                0 <= v < old_s.indices@.len() && v != u ==> #[trigger] new_s.hdr_len(v) == old_s.hdr_len(v),
            new_s.hdr_len(u) <= new_s.hdr_cap(u),
        ensures
            new_s.inv(),
    {
        let n = old_s.indices@.len();
        assert forall|v: int| 0 <= v < n implies new_s.off(v) + 3 + new_s.hdr_cap(v) <= new_s.edges@.len()
            && new_s.hdr_len(v) <= new_s.hdr_cap(v) by {
            assert(old_s.off(v) + 3 + old_s.hdr_cap(v) <= old_s.edges@.len());
        }
        assert forall|v: int, w: int| 0 <= v < w < n implies new_s.off(v) + 3 + new_s.hdr_cap(v) <= new_s.off(w) by {
            assert(old_s.off(v) + 3 + old_s.hdr_cap(v) <= old_s.off(w));
        }
    }

    /// A word at `p` of the block of `u` (header or slot) lies outside the
    /// block of every other vertex.
    proof fn lemma_word_owner(&self, u: int, p: int, v: int)
        requires
            self.inv(),
            0 <= u < self.indices@.len(),
            0 <= v < self.indices@.len(),
            u != v,
            self.off(u) <= p < self.off(u) + 3 + self.hdr_cap(u),
        ensures
            p < self.off(v) || self.off(v) + 3 + self.hdr_cap(v) <= p,
    {
        if u < v {
            assert(self.off(u) + 3 + self.hdr_cap(u) <= self.off(v));
        } else {
            assert(self.off(v) + 3 + self.hdr_cap(v) <= self.off(u));
        }
    }

    /// Appends `new_edges` to the live edges of `vertex` (its slots must
    /// hold them all).
    pub fn add_edges(&mut self, vertex: MSize, new_edges: &[MSize])
        requires
            old(self).wf(),
            vertex < old(self).spec_edges().len(),
            old(self).spec_edges()[vertex as int].len() + new_edges@.len() <= old(
                self,
            ).spec_capacities()[vertex as int],
        ensures
            final(self).wf(),
            final(self).spec_edges() == old(self).spec_edges().update(
                vertex as int,
                old(self).spec_edges()[vertex as int] + new_edges@.map_values(|x: MSize| spec_pack(x, 0)),
            ),
            final(self).spec_capacities() == old(self).spec_capacities(),
            final(self).spec_reserve() == old(self).spec_reserve(),
            final(self).indices@ == old(self).indices@,
            final(self).edges@.len() == old(self).edges@.len(),
            final(self).visited_val == old(self).visited_val,
            forall|p: int|
                0 <= p < old(self).edges@.len() && p != old(self).off(vertex as int) + 1 && !(old(self).off(
                    vertex as int,
                ) + 3 + old(self).hdr_len(vertex as int) <= p < old(self).off(vertex as int) + 3 + old(
                    self,
                ).hdr_len(vertex as int) + new_edges@.len()) ==> #[trigger] final(self).edges@[p] == old(
                    self,
                ).edges@[p],
    {
        let ghost old_self = *self;
        let ghost u = vertex as int;
        let len = self.len(vertex) as usize;
        let new_size = len + new_edges.len();
        let index = self.indices[vertex as usize] as usize;
        proof {
            assert(self.off(u) + 3 + self.hdr_cap(u) <= self.edges@.len());
        }
        let mut k: usize = 0;
        while k < new_edges.len()
            invariant
                old_self.inv(),
                0 <= u < old_self.indices@.len(),
                index == old_self.off(u),
                len == old_self.hdr_len(u),
                new_size == len + new_edges@.len(),
                new_size <= old_self.hdr_cap(u),
                index + 3 + old_self.hdr_cap(u) <= old_self.edges@.len(),
                k <= new_edges@.len(),
                self.indices@ == old_self.indices@,
                self.reserve == old_self.reserve,
                self.visited_val == old_self.visited_val,
                self.edges@.len() == old_self.edges@.len(),
                forall|p: int|
                    0 <= p < self.edges@.len() && !(index + 3 + len <= p < index + 3 + len + k) ==> self.edges@[p]
                        == old_self.edges@[p],
                forall|q: int| 0 <= q < k ==> self.edges@[index + 3 + len + q] == new_edges@[q],
            decreases new_edges@.len() - k,
        {
            self.edges.set(index + DATA_START_OFFSET + len + k, new_edges[k]);
            k = k + 1;
        }
        let ghost mid = *self;
        *self.len_mut(vertex) = new_size as MSize;
        proof {
            let n = old_self.indices@.len();
            assert forall|v: int| 0 <= v < n implies #[trigger] self.hdr_cap(v) == old_self.hdr_cap(v) by {
                if v != u {
                    old_self.lemma_word_owner(u, index + 1, v);
                    old_self.lemma_word_owner(v, old_self.off(v) + 2, u);
                }
            }
            assert forall|v: int| 0 <= v < n && v != u implies #[trigger] self.hdr_len(v) == old_self.hdr_len(v) by {
                old_self.lemma_word_owner(u, index + 1, v);
                old_self.lemma_word_owner(v, old_self.off(v) + 1, u);
            }
            Self::lemma_inv_keeps(&old_self, self, u);
            assert forall|v: int| 0 <= v < n && v != u implies #[trigger] self.live(v) == old_self.live(v) by {
                assert forall|q: int| 0 <= q < self.live(v).len() implies self.live(v)[q] == old_self.live(v)[q] by {
                    old_self.lemma_word_owner(v, old_self.off(v) + 3 + q, u);
                }
                assert(self.live(v) =~= old_self.live(v));
            }
            assert(self.live(u) =~= old_self.live(u) + new_edges@.map_values(|x: MSize| spec_pack(x, 0)));
            assert(self.spec_edges() =~= old_self.spec_edges().update(
                u,
                old_self.spec_edges()[u] + new_edges@.map_values(|x: MSize| spec_pack(x, 0)),
            ));
            assert(self.spec_capacities() =~= old_self.spec_capacities());
        }
    }

    /// The length of the vector once a vertex asking for `size` slots has
    /// been added.
    fn calculate_new_edges_size_abs(&self, size: usize) -> (r: usize)
        requires
            self.edges@.len() + self.reserve + 3 + size <= usize::MAX,
        ensures
            r == self.edges@.len() + self.reserve + 3 + size,
    {
        let header_size = header_size_in_msize_units();
        self.edges.len() + self.reserve + header_size + size
    }

    /// Adds a vertex with no edges and `reserve + size` slots; returns its
    /// handle.
    pub fn create_vertex(&mut self, size: usize) -> (r: MSize)
        requires
            old(self).wf(),
            old(self).edges@.len() + old(self).reserve + 3 + size <= u32::MAX,
            old(self).indices@.len() < u32::MAX,
        ensures
            final(self).wf(),
            r == old(self).spec_edges().len(),
            final(self).spec_edges() == old(self).spec_edges().push(Seq::empty()),
            final(self).spec_capacities() == old(self).spec_capacities().push(
                old(self).spec_reserve() + size as nat,
            ),
            final(self).spec_reserve() == old(self).spec_reserve(),
            final(self).edges@.len() == old(self).edges@.len() + old(self).reserve + 3 + size,
    {
        let ghost old_self = *self;
        let offset = self.edges.len() as MSize;
        let val = self.calculate_new_edges_size_abs(size);
        while self.edges.len() < val
            invariant
                old_self.inv(),
                self.indices@ == old_self.indices@,
                self.reserve == old_self.reserve,
                self.visited_val == old_self.visited_val,
                offset == old_self.edges@.len(),
                val == old_self.edges@.len() + old_self.reserve + 3 + size,
                old_self.edges@.len() <= self.edges@.len() <= val,
                self.edges@.subrange(0, offset as int) == old_self.edges@,
                forall|p: int| offset <= p < self.edges@.len() ==> self.edges@[p] == 0,
            decreases val - self.edges@.len(),
        {
            let ghost before = self.edges@;
            self.edges.push(0);
            proof {
                assert(self.edges@.subrange(0, offset as int) =~= before.subrange(0, offset as int));
            }
        }
        *self.reserve_mut_at(offset as usize) = (self.reserve + size) as MSize;
        self.indices.push(offset);
        proof {
            let n = old_self.indices@.len();
            assert forall|v: int| 0 <= v < n implies #[trigger] self.indices@[v] == old_self.indices@[v]
                && self.hdr_cap(v) == old_self.hdr_cap(v) && self.hdr_len(v) == old_self.hdr_len(v) by {
                assert(old_self.off(v) + 3 + old_self.hdr_cap(v) <= old_self.edges@.len());
                assert(self.edges@[old_self.off(v) + 2] == old_self.edges@[old_self.off(v) + 2]);
                assert(self.edges@[old_self.off(v) + 1] == old_self.edges@[old_self.off(v) + 1]);
            }
            assert(self.off(n as int) == offset);
            assert(self.hdr_len(n as int) == 0);
            assert(self.hdr_cap(n as int) == old_self.reserve + size);
            assert forall|v: int| 0 <= v < n + 1 implies self.off(v) + 3 + self.hdr_cap(v) <= self.edges@.len()
                && self.hdr_len(v) <= self.hdr_cap(v) by {
                if v < n {
                    assert(old_self.off(v) + 3 + old_self.hdr_cap(v) <= old_self.edges@.len());
                }
            }
            assert forall|v: int, w: int| 0 <= v < w < n + 1 implies self.off(v) + 3 + self.hdr_cap(v) <= self.off(w) by {
                if w < n {
                    assert(old_self.off(v) + 3 + old_self.hdr_cap(v) <= old_self.off(w));
                } else {
                    assert(old_self.off(v) + 3 + old_self.hdr_cap(v) <= old_self.edges@.len());
                }
            }
            assert forall|v: int| 0 <= v < n implies #[trigger] self.live(v) == old_self.live(v) by {
                assert(old_self.off(v) + 3 + old_self.hdr_cap(v) <= old_self.edges@.len());
                assert forall|q: int| 0 <= q < self.live(v).len() implies self.live(v)[q] == old_self.live(v)[q] by {
                    assert(self.edges@[old_self.off(v) + 3 + q] == old_self.edges@[old_self.off(v) + 3 + q]);
                }
                assert(self.live(v) =~= old_self.live(v));
            }
            assert(self.live(n as int) =~= Seq::<Edge>::empty());
            assert(self.spec_edges() =~= old_self.spec_edges().push(Seq::empty()));
            assert(self.spec_capacities() =~= old_self.spec_capacities().push(
                old_self.spec_reserve() + size as nat,
            ));
        }
        (self.indices.len() - 1) as MSize
    }

    /// Removes the first live edge of `src` to `vertex`, moving the last
    /// live edge into its place; does nothing when there is none.
    pub fn disconnect(&mut self, src: MSize, vertex: MSize)
        requires
            old(self).wf(),
            src < old(self).spec_edges().len(),
        ensures
            final(self).wf(),
            final(self).spec_edges() == old(self).spec_edges().update(
                src as int,
                remove_first_target(old(self).spec_edges()[src as int], vertex),
            ),
            final(self).spec_capacities() == old(self).spec_capacities(),
            final(self).spec_reserve() == old(self).spec_reserve(),
            final(self).indices@ == old(self).indices@,
            final(self).edges@.len() == old(self).edges@.len(),
    {
        let ghost old_self = *self;
        let ghost u = src as int;
        let edges_index = self.indices[src as usize] as usize;
        let len = self.edges[edges_index + LEN_OFFSET] as usize;
        proof {
            assert(old_self.off(u) + 3 + old_self.hdr_cap(u) <= old_self.edges@.len());
        }
        let ghost s = old_self.live(u);
        let mut i: usize = 0;
        while i < len && self.edges[edges_index + DATA_START_OFFSET + i] != vertex
            invariant
                self.edges@ == old_self.edges@,
                self.indices@ == old_self.indices@,
                old_self.inv(),
                0 <= u < old_self.indices@.len(),
                edges_index == old_self.off(u),
                len == old_self.hdr_len(u),
                edges_index + 3 + old_self.hdr_cap(u) <= old_self.edges@.len(),
                s == old_self.live(u),
                i <= len,
                forall|c: int| 0 <= c < i ==> spec_vh(#[trigger] s[c]) != vertex,
            decreases len - i,
        {
            proof {
                lemma_pack_unpack(self.edges@[edges_index + 3 + i], 0);
                assert(s[i as int] == spec_pack(self.edges@[edges_index + 3 + i], 0));
            }
            i = i + 1;
        }
        if i < len {
            let last = self.edges[edges_index + DATA_START_OFFSET + len - 1];
            self.edges.set(edges_index + DATA_START_OFFSET + i, last);
            *self.len_mut(src) = (len - 1) as MSize;
            proof {
                let n = old_self.indices@.len();
                assert forall|v: int| 0 <= v < n implies #[trigger] self.hdr_cap(v) == old_self.hdr_cap(v) by {
                    if v != u {
                        old_self.lemma_word_owner(u, edges_index + 1, v);
                        old_self.lemma_word_owner(u, edges_index + 3 + i, v);
                        old_self.lemma_word_owner(v, old_self.off(v) + 2, u);
                    }
                }
                assert forall|v: int| 0 <= v < n && v != u implies #[trigger] self.hdr_len(v) == old_self.hdr_len(v) by {
                    old_self.lemma_word_owner(u, edges_index + 1, v);
                    old_self.lemma_word_owner(u, edges_index + 3 + i, v);
                    old_self.lemma_word_owner(v, old_self.off(v) + 1, u);
                }
                Self::lemma_inv_keeps(&old_self, self, u);
                assert forall|v: int| 0 <= v < n && v != u implies #[trigger] self.live(v) == old_self.live(v) by {
                    assert forall|q: int| 0 <= q < self.live(v).len() implies self.live(v)[q] == old_self.live(v)[q] by {
                        old_self.lemma_word_owner(v, old_self.off(v) + 3 + q, u);
                    }
                    assert(self.live(v) =~= old_self.live(v));
                }
                lemma_pack_unpack(old_self.edges@[edges_index + 3 + i], 0);
                assert(spec_vh(s[i as int]) == vertex);
                let c = choose|c: int|
                    0 <= c < s.len() && spec_vh(s[c]) == vertex && (forall|j: int| 0 <= j < c ==> spec_vh(s[j]) != vertex);
                assert(c == i);
                assert(self.live(u) =~= s.update(i as int, s.last()).drop_last());
                assert(self.spec_edges() =~= old_self.spec_edges().update(
                    u,
                    remove_first_target(old_self.spec_edges()[u], vertex),
                ));
                assert(self.spec_capacities() =~= old_self.spec_capacities());
            }
        } else {
            proof {
                assert(!(exists|c: int| 0 <= c < s.len() && spec_vh(s[c]) == vertex));
                assert(self.spec_edges() =~= old_self.spec_edges().update(
                    u,
                    remove_first_target(old_self.spec_edges()[u], vertex),
                ));
            }
        }
    }

    /// The live edges of vertex `v`, as edges of weight 0.
    pub open spec fn live(&self, v: int) -> Seq<Edge> {
        Seq::new(self.hdr_len(v) as nat, |q: int| spec_pack(self.edges@[self.off(v) + 3 + q], 0))
    }

    /// The number-of-live-edges word of `vertex`, to write.
    fn len_mut(&mut self, vertex: MSize) -> (r: &mut MSize)
        requires
            vertex < old(self).indices@.len(),
            old(self).off(vertex as int) + 1 < old(self).edges@.len() <= usize::MAX,
        ensures
            *r == old(self).edges@[old(self).off(vertex as int) + 1],
            final(self).edges@ == old(self).edges@.update(old(self).off(vertex as int) + 1, *final(r)),
            final(self).indices@ == old(self).indices@,
            final(self).reserve == old(self).reserve,
            final(self).visited_val == old(self).visited_val,
    {
        let edge_chunk_index = self.indices[vertex as usize] as usize;
        &mut self.edges[edge_chunk_index + LEN_OFFSET]
    }

    /// The number-of-slots word of `vertex`, to write.
    fn reserve_mut(&mut self, vertex: MSize) -> (r: &mut MSize)
        requires
            vertex < old(self).indices@.len(),
            old(self).off(vertex as int) + 2 < old(self).edges@.len() <= usize::MAX,
        ensures
            *r == old(self).edges@[old(self).off(vertex as int) + 2],
            final(self).edges@ == old(self).edges@.update(old(self).off(vertex as int) + 2, *final(r)),
            final(self).indices@ == old(self).indices@,
            final(self).reserve == old(self).reserve,
            final(self).visited_val == old(self).visited_val,
    {
        let edge_chunk_index = self.indices[vertex as usize] as usize;
        self.reserve_mut_at(edge_chunk_index)
    }

    /// The number-of-slots word of the block that starts at `index`, to
    /// write.
    fn reserve_mut_at(&mut self, index: usize) -> (r: &mut MSize)
        requires
            index + 2 < old(self).edges@.len() <= usize::MAX,
        ensures
            *r == old(self).edges@[index + 2],
            final(self).edges@ == old(self).edges@.update(index + 2, *final(r)),
            final(self).indices@ == old(self).indices@,
            final(self).reserve == old(self).reserve,
            final(self).visited_val == old(self).visited_val,
    {
        &mut self.edges[index + RESERVE_OFFSET]
    }

    /// The number of live edges of `vertex`.
    pub fn len(&self, vertex: MSize) -> (r: MSize)
        requires
            self.wf(),
            vertex < self.spec_edges().len(),
        ensures
            r == self.spec_edges()[vertex as int].len(),
    {
        proof {
            assert(self.off(vertex as int) + 3 + self.hdr_cap(vertex as int) <= self.edges@.len());
        }
        self.edges[self.indices[vertex as usize] as usize + LEN_OFFSET]
    }

    /// Writes `val` into slot `edge` of `src`.
    pub fn set(&mut self, src: MSize, val: MSize, edge: usize)
        requires
            old(self).wf(),
            src < old(self).spec_edges().len(),
            edge < old(self).spec_capacities()[src as int],
        ensures
            final(self).wf(),
            final(self).slots(src as int) == old(self).slots(src as int).update(edge as int, val),
            final(self).spec_edges() == (if edge < old(self).spec_edges()[src as int].len() {
                old(self).spec_edges().update(
                    src as int,
                    old(self).spec_edges()[src as int].update(edge as int, spec_pack(val, 0)),
                )
            } else {
                old(self).spec_edges()
            }),
            final(self).spec_capacities() == old(self).spec_capacities(),
            final(self).spec_reserve() == old(self).spec_reserve(),
            final(self).indices@ == old(self).indices@,
            final(self).edges@.len() == old(self).edges@.len(),
            final(self).visited_val == old(self).visited_val,
            final(self).edges@ == old(self).edges@.update(old(self).off(src as int) + 3 + edge, val),
    {
        let ghost old_self = *self;
        let ghost u = src as int;
        let index = self.indices[src as usize] as usize;
        proof {
            assert(self.off(u) + 3 + self.hdr_cap(u) <= self.edges@.len());
        }
        self.edges.set(index + DATA_START_OFFSET + edge, val);
        proof {
            let n = old_self.indices@.len();
            let p = index + 3 + edge;
            assert forall|v: int| 0 <= v < n implies #[trigger] self.hdr_cap(v) == old_self.hdr_cap(v) by {
                if v != u {
                    old_self.lemma_word_owner(u, p, v);
                    old_self.lemma_word_owner(v, old_self.off(v) + 2, u);
                }
            }
            assert forall|v: int| 0 <= v < n && v != u implies #[trigger] self.hdr_len(v) == old_self.hdr_len(v) by {
                old_self.lemma_word_owner(u, p, v);
                old_self.lemma_word_owner(v, old_self.off(v) + 1, u);
            }
            assert(self.hdr_len(u) == old_self.hdr_len(u));
            Self::lemma_inv_keeps(&old_self, self, u);
            assert forall|v: int| 0 <= v < n && v != u implies #[trigger] self.live(v) == old_self.live(v) by {
                assert forall|q: int| 0 <= q < self.live(v).len() implies self.live(v)[q] == old_self.live(v)[q] by {
                    old_self.lemma_word_owner(v, old_self.off(v) + 3 + q, u);
                }
                assert(self.live(v) =~= old_self.live(v));
            }
            assert(self.slots(u) =~= old_self.slots(u).update(edge as int, val));
            if edge < old_self.hdr_len(u) {
                assert(self.live(u) =~= old_self.live(u).update(edge as int, spec_pack(val, 0)));
                assert(self.spec_edges() =~= old_self.spec_edges().update(
                    u,
                    old_self.spec_edges()[u].update(edge as int, spec_pack(val, 0)),
                ));
            } else {
                assert(self.live(u) =~= old_self.live(u));
                assert(self.spec_edges() =~= old_self.spec_edges());
            }
            assert(self.spec_capacities() =~= old_self.spec_capacities());
        }
    }

    /// The word at slot `edge` of `vertex`'s block (the store does not
    /// check `edge` against the block's size).
    pub fn get(&self, vertex: MSize, edge: usize) -> (r: MSize)
        requires
            vertex < self.indices@.len(),
            self.off(vertex as int) + edge + 3 < self.edges@.len() <= usize::MAX,
        ensures
            r == self.edges@[self.off(vertex as int) + 3 + edge],
    {
        self.edges[self.indices[vertex as usize] as usize + edge + header_size_in_msize_units()]
    }

    /// Appends an edge `from -> to`.
    pub fn connect(&mut self, from: MSize, to: MSize)
        requires
            old(self).wf(),
            from < old(self).spec_edges().len(),
            old(self).spec_edges()[from as int].len() < old(self).spec_capacities()[from as int],
        ensures
            final(self).wf(),
            final(self).spec_edges() == old(self).spec_edges().update(
                from as int,
                old(self).spec_edges()[from as int].push(spec_pack(to, 0)),
            ),
            final(self).spec_capacities() == old(self).spec_capacities(),
            final(self).spec_reserve() == old(self).spec_reserve(),
            final(self).indices@ == old(self).indices@,
            final(self).edges@.len() == old(self).edges@.len(),
            final(self).visited_val == old(self).visited_val,
            forall|p: int|
                0 <= p < old(self).edges@.len() && p != old(self).off(from as int) + 1 && p != old(self).off(
                    from as int,
                ) + 3 + old(self).hdr_len(from as int) ==> #[trigger] final(self).edges@[p] == old(self).edges@[p],
    {
        let one = [to];
        self.add_edges(from, &one);
        assert(one@.map_values(|x: MSize| spec_pack(x, 0)) =~= seq![spec_pack(to, 0)]);
        assert(old(self).spec_edges()[from as int] + seq![spec_pack(to, 0)] =~= old(
            self,
        ).spec_edges()[from as int].push(spec_pack(to, 0)));
    }

    /// The number of words of the vector (headers and slots of all blocks).
    pub fn capacity(&self) -> (r: usize)
        ensures
            r == self.edges@.len(),
    {
        self.edges.len()
    }

    /// The number of slots of `vertex`.
    pub fn reserve(&self, vertex: MSize) -> (r: MSize)
        requires
            self.wf(),
            vertex < self.spec_edges().len(),
        ensures
            r == self.spec_capacities()[vertex as int],
    {
        proof {
            assert(self.off(vertex as int) + 3 + self.hdr_cap(vertex as int) <= self.edges@.len());
        }
        self.edges[self.indices[vertex as usize] as usize + RESERVE_OFFSET]
    }

    /// The visited flag of `vertex`.
    pub fn visited_flag(&self, vertex: MSize) -> (r: MSize)
        requires
            self.wf(),
            vertex < self.spec_edges().len(),
        ensures
            r == self.edges@[self.off(vertex as int)],
    {
        proof {
            assert(self.off(vertex as int) + 3 + self.hdr_cap(vertex as int) <= self.edges@.len());
        }
        let edge_chunk_index = self.indices[vertex as usize] as usize;
        self.edges[edge_chunk_index + FLAG_OFFSET]
    }

    /// Raises the visited flag of `vertex` by one.
    pub fn inc_visited_flag(&mut self, vertex: MSize)
        requires
            old(self).wf(),
            vertex < old(self).spec_edges().len(),
            old(self).edges@[old(self).off(vertex as int)] < MSize::MAX,
        ensures
            final(self).wf(),
            final(self).edges@ == old(self).edges@.update(
                old(self).off(vertex as int),
                (old(self).edges@[old(self).off(vertex as int)] + 1) as MSize,
            ),
            final(self).spec_edges() == old(self).spec_edges(),
            final(self).spec_capacities() == old(self).spec_capacities(),
            final(self).indices@ == old(self).indices@,
    {
        let ghost old_self = *self;
        let edge_chunk_index = self.indices[vertex as usize] as usize;
        proof {
            assert(self.off(vertex as int) + 3 + self.hdr_cap(vertex as int) <= self.edges@.len());
        }
        let flag = self.edges[edge_chunk_index + FLAG_OFFSET];
        self.edges.set(edge_chunk_index + FLAG_OFFSET, flag + 1);
        proof {
            old_self.lemma_flag_write(self, vertex as int);
        }
    }

    /// Sets the visited flag of `vertex` to `val`.
    pub fn set_visited_flag(&mut self, vertex: MSize, val: MSize)
        requires
            old(self).wf(),
            vertex < old(self).spec_edges().len(),
        ensures
            final(self).wf(),
            final(self).edges@ == old(self).edges@.update(old(self).off(vertex as int), val),
            final(self).spec_edges() == old(self).spec_edges(),
            final(self).spec_capacities() == old(self).spec_capacities(),
            final(self).indices@ == old(self).indices@,
    {
        let ghost old_self = *self;
        let edge_chunk_index = self.indices[vertex as usize] as usize;
        proof {
            assert(self.off(vertex as int) + 3 + self.hdr_cap(vertex as int) <= self.edges@.len());
        }
        self.edges.set(edge_chunk_index + FLAG_OFFSET, val);
        proof {
            old_self.lemma_flag_write(self, vertex as int);
        }
    }

    /// Writing a vertex's visited flag changes no edge, no size and no
    /// offset.
    proof fn lemma_flag_write(&self, new_s: &Self, u: int)
        requires
            self.inv(),
            0 <= u < self.indices@.len(),
            new_s.indices@ == self.indices@,
            new_s.reserve == self.reserve,
            exists|val: MSize| new_s.edges@ == #[trigger] self.edges@.update(self.off(u), val),
        ensures
            new_s.inv(),
            new_s.spec_edges() == self.spec_edges(),
            new_s.spec_capacities() == self.spec_capacities(),
    {
        let n = self.indices@.len();
        let p = self.off(u);
        assert forall|v: int| 0 <= v < n implies #[trigger] new_s.hdr_cap(v) == self.hdr_cap(v) && new_s.hdr_len(v)
            == self.hdr_len(v) by {
            if v != u {
                self.lemma_word_owner(u, p, v);
                self.lemma_word_owner(v, self.off(v) + 2, u);
                self.lemma_word_owner(v, self.off(v) + 1, u);
            }
        }
        Self::lemma_inv_keeps(self, new_s, u);
        assert forall|v: int| 0 <= v < n implies #[trigger] new_s.live(v) == self.live(v) by {
            assert forall|q: int| 0 <= q < new_s.live(v).len() implies new_s.live(v)[q] == self.live(v)[q] by {
                if v != u {
                    self.lemma_word_owner(v, self.off(v) + 3 + q, u);
                }
            }
            assert(new_s.live(v) =~= self.live(v));
        }
        assert(new_s.spec_edges() =~= self.spec_edges());
        assert(new_s.spec_capacities() =~= self.spec_capacities());
    }

    /// The live edges of `vertex`; `Err(NoHandle)` when `vertex` is past
    /// the number of vertices.
    pub fn edges_header(&self, vertex: MSize) -> (r: Result<&[MSize], Error>)
        requires
            self.wf(),
            vertex as int != self.indices@.len(),
        ensures
            vertex as int > self.indices@.len() ==> r is Err,
            vertex < self.indices@.len() ==> r is Ok && r->Ok_0@.map_values(|x: MSize| spec_pack(x, 0))
                == self.spec_edges()[vertex as int],
    {
        let uvertex = vertex as usize;
        if uvertex > self.indices.len() {
            return Err(Error::NoHandle);
        }
        proof {
            assert(self.off(vertex as int) + 3 + self.hdr_cap(vertex as int) <= self.edges@.len());
        }
        let (_, data) = Header::parse(&self.edges, self.indices[uvertex] as usize);
        proof {
            assert(data@.map_values(|x: MSize| spec_pack(x, 0)) =~= self.live(vertex as int));
        }
        Ok(data)
    }

    /// All slots of `vertex`, to write; `Err(NoHandle)` when `vertex` is
    /// past the number of vertices.
    pub fn edges_header_mut(&mut self, vertex: MSize) -> (r: Result<&mut [MSize], Error>)
        requires
            old(self).wf(),
            vertex as int != old(self).indices@.len(),
        ensures
            vertex as int > old(self).indices@.len() ==> r is Err && *final(self) == *old(self),
            vertex < old(self).indices@.len() ==> r is Ok && r->Ok_0@ == old(self).slots(vertex as int),
            r is Ok ==> final(self).edges@ == old(self).edges@.subrange(0, old(self).off(vertex as int) + 3)
                + final(r->Ok_0)@ + old(self).edges@.subrange(
                old(self).off(vertex as int) + 3 + old(self).hdr_cap(vertex as int),
                old(self).edges@.len() as int,
            ),
            final(self).indices@ == old(self).indices@,
    {
        let uvertex = vertex as usize;
        if uvertex > self.indices.len() {
            return Err(Error::NoHandle);
        }
        proof {
            assert(self.off(vertex as int) + 3 + self.hdr_cap(vertex as int) <= self.edges@.len());
        }
        let index = self.indices[uvertex] as usize;
        let (_, data) = Header::parse_mut(&mut self.edges, index);
        Ok(data)
    }

    /// The live edges of `vertex`.
    pub fn edges(&self, vertex: MSize) -> (r: &[MSize])
        requires
            self.wf(),
            vertex < self.spec_edges().len(),
        ensures
            r@.map_values(|x: MSize| spec_pack(x, 0)) == self.spec_edges()[vertex as int],
            r@.len() == self.spec_edges()[vertex as int].len(),
    {
        proof {
            assert(self.off(vertex as int) + 3 + self.hdr_cap(vertex as int) <= self.edges@.len());
        }
        let edge_chunk_index = self.indices[vertex as usize] as usize;
        let len = self.edges[edge_chunk_index + LEN_OFFSET] as usize;
        let all = self.edges.as_slice();
        let data = &all[edge_chunk_index + DATA_START_OFFSET..edge_chunk_index + DATA_START_OFFSET + len];
        proof {
            assert(data@.map_values(|x: MSize| spec_pack(x, 0)) =~= self.live(vertex as int));
        }
        data
    }

    /// All slots of `vertex`, to write.
    pub fn edges_mut(&mut self, vertex: MSize) -> (r: &mut [MSize])
        requires
            old(self).wf(),
            vertex < old(self).spec_edges().len(),
        ensures
            r@ == old(self).slots(vertex as int),
            final(self).edges@ == old(self).edges@.subrange(0, old(self).off(vertex as int) + 3)
                + final(r)@ + old(self).edges@.subrange(
                old(self).off(vertex as int) + 3 + old(self).hdr_cap(vertex as int),
                old(self).edges@.len() as int,
            ),
            final(self).indices@ == old(self).indices@,
    {
        proof {
            assert(self.off(vertex as int) + 3 + self.hdr_cap(vertex as int) <= self.edges@.len());
        }
        let edge_chunk_index = self.indices[vertex as usize] as usize;
        let reserve = self.edges[edge_chunk_index + RESERVE_OFFSET] as usize;
        let start = edge_chunk_index + DATA_START_OFFSET;
        let all = self.edges.as_mut_slice();
        let (_, tail) = all.split_at_mut(start);
        let (data, _) = tail.split_at_mut(reserve);
        data
    }
}

impl EdgeStore for EdgeData {
    open spec fn spec_edges(&self) -> Seq<Seq<Edge>> {
        Seq::new(self.indices@.len(), |v: int| self.live(v))
    }

    open spec fn spec_capacities(&self) -> Seq<nat> {
        Seq::new(self.indices@.len(), |v: int| self.hdr_cap(v) as nat)
    }

    open spec fn spec_reserve(&self) -> nat {
        self.reserve as nat
    }

    open spec fn wf(&self) -> bool {
        self.inv()
    }

    open spec fn spec_used(&self) -> nat {
        self.edges@.len()
    }

    open spec fn spec_header_words(&self) -> nat {
        3
    }

    open spec fn can_create(&self, size: nat) -> bool {
        &&& self.edges@.len() + self.reserve + 3 + size <= u32::MAX
        &&& self.indices@.len() < u32::MAX
    }

    proof fn lemma_shape(&self) {
        assert forall|v: int| 0 <= v < self.spec_edges().len() implies #[trigger] self.spec_edges()[v].len()
            <= self.spec_capacities()[v] by {
            assert(self.hdr_len(v) <= self.hdr_cap(v));
        }
    }

    fn create_vertex_entry(&mut self, size: Ci) -> (handle: VHandle) {
        self.create_vertex(size as usize)
    }

    fn vertex_count(&self) -> (n: usize) {
        self.indices.len()
    }

    fn edges_len(&self, handle: VHandle) -> (n: usize) {
        self.len(handle) as usize
    }

    fn edges_capacity(&self, handle: VHandle) -> (n: usize) {
        self.reserve(handle) as usize
    }

    fn edge_at(&self, handle: VHandle, index: usize) -> (e: Edge) {
        proof {
            assert(self.off(handle as int) + 3 + self.hdr_cap(handle as int) <= self.edges@.len());
            assert(self.hdr_len(handle as int) <= self.hdr_cap(handle as int));
        }
        self.get(handle, index) as Edge
    }

    fn set_target(&mut self, handle: VHandle, index: usize, target: VHandle) {
        proof {
            assert(old(self).hdr_len(handle as int) <= old(self).hdr_cap(handle as int));
        }
        self.set(handle, target, index);
    }
}

impl EdgeConnect for EdgeData {
    fn connect(&mut self, from: VHandle, to: VHandle) {
        EdgeData::connect(self, from, to);
    }

    fn disconnect(&mut self, from: VHandle, to: VHandle) {
        EdgeData::disconnect(self, from, to);
    }
}

impl EdgeManipulate for EdgeData {}

} // verus!
