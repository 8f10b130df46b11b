//! A plain adjacency-list graph over `usize` words: every vertex owns a
//! block of one header word (its number of edges) followed by a fixed
//! number of edge slots, all in one vector.
use vstd::prelude::*;

verus! {

/// Edge blocks and where they start.
pub struct EdgeData {
    /// Headers and slots of all blocks.
    pub edges: Vec<usize>,
    /// Where each vertex's block starts.
    pub indices: Vec<usize>,
}

/// Vertex values and their edge blocks.
pub struct Graph<T> {
    /// The number of edge slots every vertex gets.
    pub edge_capacity: usize,
    /// The vertex values.
    pub vertices: Vec<T>,
    /// Headers and slots of all blocks.
    pub edges: Vec<usize>,
    /// Where each vertex's block starts.
    pub indices: Vec<usize>,
}

/// Errors of edge lookups.
pub enum Error {
    /// The requested edges do not exist.
    NoHandle,
}

/// The number of words a block's header takes.
fn header_element_offset() -> (r: usize)
    ensures
        r == 1,
{
    1
}

impl<T> Graph<T> {
    /// The number of edge slots every vertex gets.
    pub open spec fn slots_per_vertex(&self) -> nat {
        self.edge_capacity as nat
    }

    /// Where the block of vertex `v` starts.
    pub open spec fn off(&self, v: int) -> int {
        self.indices@[v] as int
    }

    /// The number of edges of vertex `v`, from its header.
    pub open spec fn hdr_len(&self, v: int) -> int {
        self.edges@[self.off(v)] as int
    }

    /// The edges of vertex `v`.
    pub open spec fn edges_of(&self, v: int) -> Seq<usize> {
        self.edges@.subrange(self.off(v) + 1, self.off(v) + 1 + self.hdr_len(v))
    }

    /// The edges of every vertex.
    pub open spec fn spec_edges(&self) -> Seq<Seq<usize>> {
        Seq::new(self.indices@.len(), |v: int| self.edges_of(v))
    }

    /// The invariant: one block per vertex value; every block lies inside
    /// the vector and holds no more edges than slots; no two blocks
    /// overlap.
    pub open spec fn wf(&self) -> bool {
        let n = self.indices@.len();
        let c = self.edge_capacity as int;
        &&& self.vertices@.len() == n
        &&& self.edges@.len() <= usize::MAX
        &&& forall|v: int|
            #![trigger self.indices@[v]]
            0 <= v < n ==> self.off(v) + 1 + c <= self.edges@.len() && self.hdr_len(v) <= c
        &&& forall|v: int, w: int|
            #![trigger self.indices@[v], self.indices@[w]]
            0 <= v < w < n ==> self.off(v) + 1 + c <= self.off(w)
    }

    /// A graph with 10 edge slots per vertex.
    pub fn new() -> (r: Self)
        ensures
            r.wf(),
            r.slots_per_vertex() == 10,
            r.vertices@ == Seq::<T>::empty(),
            r.spec_edges() == Seq::<Seq<usize>>::empty(),
            r.edges@.len() == 0,
    {
        let r = Graph { edge_capacity: 10, vertices: Vec::new(), edges: Vec::new(), indices: Vec::new() };
        assert(r.spec_edges() =~= Seq::<Seq<usize>>::empty());
        r
    }

    /// A word at `p` of the block of `u` lies outside the block of every
    /// other vertex.
    proof fn lemma_word_owner(&self, u: int, p: int, v: int)
        requires
            self.wf(),
            0 <= u < self.indices@.len(),
            0 <= v < self.indices@.len(),
            u != v,
            self.off(u) <= p < self.off(u) + 1 + self.edge_capacity,
        ensures
            p < self.off(v) || self.off(v) + 1 + self.edge_capacity <= p,
    {
        if u < v {
            assert(self.off(u) + 1 + self.edge_capacity <= self.off(v));
        } else {
            assert(self.off(v) + 1 + self.edge_capacity <= self.off(u));
        }
    }
}

/// The length of the vector once one more vertex has been added.
fn calculate_new_edges_size<T>(graph: &Graph<T>) -> (r: usize)
    requires
        graph.edges@.len() + graph.slots_per_vertex() + 1 <= usize::MAX,
    ensures
        r == graph.edges@.len() + graph.slots_per_vertex() + 1,
{
    graph.edges.len() + graph.edge_capacity + header_element_offset()
}

/// The number of edges of `vertex`.
pub fn edges_len<T>(graph: &Graph<T>, vertex: usize) -> (r: usize)
    requires
        graph.wf(),
        vertex < graph.spec_edges().len(),
    ensures
        r == graph.spec_edges()[vertex as int].len(),
{
    proof {
        reveal_wf_block(graph, vertex as int);
    }
    graph.edges[graph.indices[vertex]]
}

/// What the invariant says of the block of `v`.
proof fn reveal_wf_block<T>(graph: &Graph<T>, v: int)
    requires
        graph.wf(),
        0 <= v < graph.indices@.len(),
    ensures
        graph.off(v) + 1 + graph.slots_per_vertex() <= graph.edges@.len(),
        graph.hdr_len(v) <= graph.slots_per_vertex(),
        graph.vertices@.len() == graph.indices@.len(),
        graph.edges@.len() <= usize::MAX,
{
}

/// The number of words of the vector.
pub fn edges_capacity<T>(graph: &Graph<T>) -> (r: usize)
    ensures
        r == graph.edges@.len(),
{
    graph.edges.len()
}

/// Appends an edge `from -> to`.
pub fn connect<T>(graph: &mut Graph<T>, from: usize, to: usize)
    requires
        old(graph).wf(),
        from < old(graph).spec_edges().len(),
        old(graph).spec_edges()[from as int].len() < old(graph).slots_per_vertex(),
    ensures
        final(graph).wf(),
        final(graph).spec_edges() == old(graph).spec_edges().update(
            from as int,
            old(graph).spec_edges()[from as int].push(to),
        ),
        final(graph).vertices == old(graph).vertices,
        final(graph).slots_per_vertex() == old(graph).slots_per_vertex(),
        final(graph).edges@.len() == old(graph).edges@.len(),
        final(graph).indices@ == old(graph).indices@,
        forall|p: int|
            0 <= p < old(graph).edges@.len() && p != old(graph).off(from as int) && p != old(graph).off(
                from as int,
            ) + 1 + old(graph).hdr_len(from as int) ==> final(graph).edges@[p] == old(graph).edges@[p],
{
    let one = [to];
    add_edges(graph, from, &one);
    assert(old(graph).spec_edges()[from as int] + one@ =~= old(graph).spec_edges()[from as int].push(to));
}

/// Adds a vertex of value `val` with no edges; returns its handle.
pub fn create<T>(graph: &mut Graph<T>, val: T) -> (r: usize)
    requires
        old(graph).wf(),
        old(graph).edges@.len() + old(graph).slots_per_vertex() + 1 <= usize::MAX,
    ensures
        final(graph).wf(),
        r == old(graph).vertices@.len(),
        final(graph).vertices@ == old(graph).vertices@.push(val),
        final(graph).spec_edges() == old(graph).spec_edges().push(Seq::empty()),
        final(graph).slots_per_vertex() == old(graph).slots_per_vertex(),
        final(graph).edges@.len() == old(graph).edges@.len() + old(graph).slots_per_vertex() + 1,
        final(graph).indices@ == old(graph).indices@.push(old(graph).edges@.len() as usize),
        final(graph).edges@.subrange(0, old(graph).edges@.len() as int) == old(graph).edges@,
{
    let ghost old_g = *graph;
    let new_data_index = graph.edges.len();
    graph.vertices.push(val);
    let target = calculate_new_edges_size(graph);
    while graph.edges.len() < target
        invariant
            graph.edge_capacity == old_g.edge_capacity,
            graph.indices@ == old_g.indices@,
            graph.vertices@ == old_g.vertices@.push(val),
            new_data_index == old_g.edges@.len(),
            target == old_g.edges@.len() + old_g.edge_capacity + 1,
            old_g.edges@.len() <= graph.edges@.len() <= target,
            graph.edges@.subrange(0, new_data_index as int) == old_g.edges@,
            forall|p: int| new_data_index <= p < graph.edges@.len() ==> graph.edges@[p] == 0,
        decreases target - graph.edges@.len(),
    {
        let ghost before = graph.edges@;
        graph.edges.push(0);
        proof {
            assert(graph.edges@.subrange(0, new_data_index as int) =~= before.subrange(0, new_data_index as int));
        }
    }
    graph.edges.set(new_data_index, 0);
    graph.indices.push(new_data_index);
    proof {
        let n = old_g.indices@.len();
        let c = old_g.edge_capacity as int;
        assert(old_g.wf());
        assert forall|v: int| 0 <= v < n implies #[trigger] graph.indices@[v] == old_g.indices@[v] && graph.hdr_len(v)
            == old_g.hdr_len(v) by {
            assert(old_g.off(v) + 1 + c <= old_g.edges@.len());
            assert(graph.edges@[old_g.off(v)] == old_g.edges@[old_g.off(v)]);
        }
        assert(graph.off(n as int) == new_data_index);
        assert(graph.hdr_len(n as int) == 0);
        assert forall|v: int| 0 <= v < n + 1 implies graph.off(v) + 1 + c <= graph.edges@.len() && graph.hdr_len(v) <= c by {
            if v < n {
                assert(old_g.off(v) + 1 + c <= old_g.edges@.len());
            }
        }
        assert forall|v: int, w: int| 0 <= v < w < n + 1 implies graph.off(v) + 1 + c <= graph.off(w) by {
            if w < n {
                assert(old_g.off(v) + 1 + c <= old_g.off(w));
            } else {
                assert(old_g.off(v) + 1 + c <= old_g.edges@.len());
            }
        }
        assert(graph.wf());
        assert forall|v: int| 0 <= v < n implies #[trigger] graph.edges_of(v) == old_g.edges_of(v) by {
            assert(old_g.off(v) + 1 + c <= old_g.edges@.len());
            assert(graph.edges_of(v) =~= old_g.edges_of(v));
        }
        assert(graph.edges_of(n as int) =~= Seq::<usize>::empty());
        assert(graph.spec_edges() =~= old_g.spec_edges().push(Seq::empty()));
    }
    graph.vertices.len() - 1
}

/// Adds a vertex of value `val` and connects `src_vertex` to it; returns
/// the new vertex's handle.
pub fn create_and_connect<T>(graph: &mut Graph<T>, src_vertex: usize, val: T) -> (r: usize)
    requires
        old(graph).wf(),
        old(graph).edges@.len() + old(graph).slots_per_vertex() + 1 <= usize::MAX,
        src_vertex < old(graph).spec_edges().len(),
        old(graph).spec_edges()[src_vertex as int].len() < old(graph).slots_per_vertex(),
    ensures
        final(graph).wf(),
        r == old(graph).vertices@.len(),
        final(graph).vertices@ == old(graph).vertices@.push(val),
        final(graph).spec_edges() == old(graph).spec_edges().update(
            src_vertex as int,
            old(graph).spec_edges()[src_vertex as int].push(r),
        ).push(Seq::empty()),
        final(graph).slots_per_vertex() == old(graph).slots_per_vertex(),
        final(graph).edges@.len() == old(graph).edges@.len() + old(graph).slots_per_vertex() + 1,
        final(graph).indices@ == old(graph).indices@.push(old(graph).edges@.len() as usize),
{
    let new_vertex = create(graph, val);
    connect(graph, src_vertex, new_vertex);
    proof {
        assert(old(graph).spec_edges().push(Seq::empty()).update(
            src_vertex as int,
            old(graph).spec_edges()[src_vertex as int].push(new_vertex),
        ) =~= old(graph).spec_edges().update(
            src_vertex as int,
            old(graph).spec_edges()[src_vertex as int].push(new_vertex),
        ).push(Seq::empty()));
    }
    new_vertex
}

/// The value of `vertex`.
pub fn value<T>(vertices: &Vec<T>, vertex: usize) -> (r: &T)
    requires
        vertex < vertices@.len(),
    ensures
        *r == vertices@[vertex as int],
{
    &vertices[vertex]
}

/// The value of `vertex`, to write.
pub fn value_mut<T>(vertices: &mut Vec<T>, vertex: usize) -> (r: &mut T)
    requires
        vertex < old(vertices)@.len(),
    ensures
        *r == old(vertices)@[vertex as int],
        final(vertices)@ == old(vertices)@.update(vertex as int, *final(r)),
{
    &mut vertices[vertex]
}

/// The edges of `vertex` from position `offset` on; `Err(NoHandle)` when
/// `offset` is not below the vertex's number of edges.
pub fn edges<'a>(indices: &Vec<usize>, words: &'a Vec<usize>, vertex: usize, offset: usize) -> (r: Result<
    &'a [usize],
    Error,
>)
    requires
        vertex < indices@.len(),
        indices@[vertex as int] < words@.len() <= usize::MAX,
        offset < words@[indices@[vertex as int] as int] ==> indices@[vertex as int] + 1 + words@[indices@[vertex as int] as int]
            <= words@.len(),
    ensures
        r is Err <==> offset >= words@[indices@[vertex as int] as int],
        r matches Ok(s) ==> s@ == words@.subrange(
            indices@[vertex as int] + 1 + offset,
            indices@[vertex as int] + 1 + words@[indices@[vertex as int] as int],
        ),
{
    let edge = indices[vertex];
    let size = words[edge];
    if offset >= size {
        return Err(Error::NoHandle);
    }
    let all = words.as_slice();
    Ok(&all[edge + header_element_offset() + offset..edge + size + header_element_offset()])
}

/// Appends `edge` to the edges of `vertex` (its slots must hold them all).
pub fn add_edges<T>(graph: &mut Graph<T>, vertex: usize, edge: &[usize])
    requires
        old(graph).wf(),
        vertex < old(graph).spec_edges().len(),
        old(graph).spec_edges()[vertex as int].len() + edge@.len() <= old(graph).slots_per_vertex(),
    ensures
        final(graph).wf(),
        final(graph).spec_edges() == old(graph).spec_edges().update(
            vertex as int,
            old(graph).spec_edges()[vertex as int] + edge@,
        ),
        final(graph).vertices == old(graph).vertices,
        final(graph).slots_per_vertex() == old(graph).slots_per_vertex(),
        final(graph).edges@.len() == old(graph).edges@.len(),
        final(graph).indices@ == old(graph).indices@,
        forall|p: int|
            0 <= p < old(graph).edges@.len() && p != old(graph).off(vertex as int) && !(old(graph).off(
                vertex as int,
            ) + 1 + old(graph).hdr_len(vertex as int) <= p < old(graph).off(vertex as int) + 1 + old(
                graph,
            ).hdr_len(vertex as int) + edge@.len()) ==> final(graph).edges@[p] == old(graph).edges@[p],
{
    let ghost old_g = *graph;
    let ghost u = vertex as int;
    let data_offset = graph.indices[vertex];
    proof {
        reveal_wf_block(graph, u);
    }
    let head = graph.edges[data_offset];
    let start = data_offset + header_element_offset() + head;
    let mut k: usize = 0;
    while k < edge.len()
        invariant
            old_g.wf(),
            0 <= u < old_g.indices@.len(),
            data_offset == old_g.off(u),
            head == old_g.hdr_len(u),
            start == data_offset + 1 + head,
            head + edge@.len() <= old_g.edge_capacity,
            data_offset + 1 + old_g.edge_capacity <= old_g.edges@.len(),
            old_g.edges@.len() <= usize::MAX,
            k <= edge@.len(),
            graph.edge_capacity == old_g.edge_capacity,
            graph.indices@ == old_g.indices@,
            graph.vertices == old_g.vertices,
            graph.edges@.len() == old_g.edges@.len(),
            forall|p: int|
                0 <= p < graph.edges@.len() && !(start <= p < start + k) ==> graph.edges@[p] == old_g.edges@[p],
            forall|q: int| 0 <= q < k ==> graph.edges@[start + q] == edge@[q],
        decreases edge@.len() - k,
    {
        graph.edges.set(start + k, edge[k]);
        k = k + 1;
    }
    graph.edges.set(data_offset, head + edge.len());
    proof {
        let n = old_g.indices@.len();
        let c = old_g.edge_capacity as int;
        assert forall|v: int| 0 <= v < n && v != u implies #[trigger] graph.indices@[v] == old_g.indices@[v]
            && graph.hdr_len(v) == old_g.hdr_len(v) by {
            old_g.lemma_word_owner(u, data_offset as int, v);
            old_g.lemma_word_owner(v, old_g.off(v), u);
        }
        assert forall|v: int| 0 <= v < n implies graph.off(v) + 1 + c <= graph.edges@.len() && graph.hdr_len(v) <= c by {
            assert(old_g.off(v) + 1 + c <= old_g.edges@.len());
        }
        assert forall|v: int, w: int| 0 <= v < w < n implies graph.off(v) + 1 + c <= graph.off(w) by {
            assert(old_g.off(v) + 1 + c <= old_g.off(w));
        }
        assert(graph.wf());
        assert forall|v: int| 0 <= v < n && v != u implies #[trigger] graph.edges_of(v) == old_g.edges_of(v) by {
            assert forall|q: int| 0 <= q < graph.edges_of(v).len() implies graph.edges_of(v)[q] == old_g.edges_of(v)[q] by {
                old_g.lemma_word_owner(v, old_g.off(v) + 1 + q, u);
            }
            assert(graph.edges_of(v) =~= old_g.edges_of(v));
        }
        assert(graph.edges_of(u) =~= old_g.edges_of(u) + edge@);
        assert(graph.spec_edges() =~= old_g.spec_edges().update(u, old_g.spec_edges()[u] + edge@));
    }
}

} // verus!
