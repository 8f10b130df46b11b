//! Sums over the edges of a store, read as a flow network whose edge
//! weights are capacities, residual capacities or flows.
use vstd::prelude::*;

use crate::handles::types::Edge;
use crate::handles::{spec_vh, spec_wgt};

verus! {

/// The sum of `f` over the edges of `s`.
pub open spec fn edge_sum(s: Seq<Edge>, f: spec_fn(Edge) -> int) -> int
    decreases s.len(),
{
    if s.len() == 0 {
        0
    } else {
        edge_sum(s.drop_last(), f) + f(s.last())
    }
}

/// The sum of `f` over the live edges of every vertex.
pub open spec fn graph_sum(edges: Seq<Seq<Edge>>, f: spec_fn(Edge) -> int) -> int
    decreases edges.len(),
{
    if edges.len() == 0 {
        0
    } else {
        graph_sum(edges.drop_last(), f) + edge_sum(edges.last(), f)
    }
}

/// The weight of an edge.
pub open spec fn weight_of() -> spec_fn(Edge) -> int {
    |e: Edge| spec_wgt(e) as int
}

/// The weight of an edge if it leads into `v`, else 0.
pub open spec fn weight_into(v: int) -> spec_fn(Edge) -> int {
    |e: Edge|
        if spec_vh(e) == v {
            spec_wgt(e) as int
        } else {
            0
        }
}

/// The weight of an edge unless it leads into `sink`, else 0.
pub open spec fn weight_avoiding(sink: int) -> spec_fn(Edge) -> int {
    |e: Edge|
        if spec_vh(e) == sink {
            0
        } else {
            spec_wgt(e) as int
        }
}

/// The total weight of the edges that lead into `v`.
pub open spec fn inflow(edges: Seq<Seq<Edge>>, v: int) -> int {
    graph_sum(edges, weight_into(v))
}

/// The total weight of the edges of `v`.
pub open spec fn outflow(edges: Seq<Seq<Edge>>, v: int) -> int {
    edge_sum(edges[v], weight_of())
}

/// What flows into `v` less what flows out of it.
pub open spec fn balance(edges: Seq<Seq<Edge>>, v: int) -> int {
    inflow(edges, v) - outflow(edges, v)
}

/// The total weight of the edges that do not lead into `sink`.
pub open spec fn residual_total(edges: Seq<Seq<Edge>>, sink: int) -> int {
    graph_sum(edges, weight_avoiding(sink))
}

/// Whether `r` has the vertices, the edge counts and the edge targets of `c`.
pub open spec fn same_targets(r: Seq<Seq<Edge>>, c: Seq<Seq<Edge>>) -> bool {
    &&& r.len() == c.len()
    &&& forall|v: int| 0 <= v < c.len() ==> #[trigger] r[v].len() == c[v].len()
    &&& forall|v: int, i: int|
        0 <= v < c.len() && 0 <= i < c[v].len() ==> spec_vh(#[trigger] r[v][i]) == spec_vh(c[v][i])
}

/// Replacing one edge changes the sum by the difference of its terms.
pub proof fn lemma_edge_sum_update(s: Seq<Edge>, i: int, e: Edge, f: spec_fn(Edge) -> int)
    requires
        0 <= i < s.len(),
    ensures
        edge_sum(s.update(i, e), f) == edge_sum(s, f) - f(s[i]) + f(e),
    decreases s.len(),
{
    let t = s.update(i, e);
    if i < s.len() - 1 {
        assert(t.drop_last() =~= s.drop_last().update(i, e));
        lemma_edge_sum_update(s.drop_last(), i, e, f);
    } else {
        assert(t.drop_last() =~= s.drop_last());
    }
}

/// Replacing the edges of one vertex changes the sum by the difference of
/// their sums.
pub proof fn lemma_graph_sum_update(edges: Seq<Seq<Edge>>, u: int, s: Seq<Edge>, f: spec_fn(Edge) -> int)
    requires
        0 <= u < edges.len(),
    ensures
        graph_sum(edges.update(u, s), f) == graph_sum(edges, f) - edge_sum(edges[u], f) + edge_sum(
            s,
            f,
        ),
    decreases edges.len(),
{
    let t = edges.update(u, s);
    if u < edges.len() - 1 {
        assert(t.drop_last() =~= edges.drop_last().update(u, s));
        lemma_graph_sum_update(edges.drop_last(), u, s, f);
    } else {
        assert(t.drop_last() =~= edges.drop_last());
    }
}

/// Replacing one edge of one vertex changes the sum by the difference of
/// its terms.
pub proof fn lemma_graph_sum_update_edge(
    edges: Seq<Seq<Edge>>,
    u: int,
    i: int,
    e: Edge,
    f: spec_fn(Edge) -> int,
)
    requires
        0 <= u < edges.len(),
        0 <= i < edges[u].len(),
    ensures
        graph_sum(edges.update(u, edges[u].update(i, e)), f) == graph_sum(edges, f) - f(
            edges[u][i],
        ) + f(e),
{
    lemma_graph_sum_update(edges, u, edges[u].update(i, e), f);
    lemma_edge_sum_update(edges[u], i, e, f);
}

/// A sum of terms that are all at least 0 is at least each of them.
pub proof fn lemma_edge_sum_bound(s: Seq<Edge>, f: spec_fn(Edge) -> int, i: int)
    requires
        forall|j: int| 0 <= j < s.len() ==> f(#[trigger] s[j]) >= 0,
    ensures
        edge_sum(s, f) >= 0,
        0 <= i < s.len() ==> edge_sum(s, f) >= f(s[i]),
    decreases s.len(),
{
    if s.len() > 0 {
        assert forall|j: int| 0 <= j < s.drop_last().len() implies f(#[trigger] s.drop_last()[j]) >= 0 by {
            assert(s.drop_last()[j] == s[j]);
        }
        if 0 <= i < s.len() - 1 {
            lemma_edge_sum_bound(s.drop_last(), f, i);
            assert(s.drop_last()[i] == s[i]);
        } else {
            lemma_edge_sum_bound(s.drop_last(), f, -1);
        }
        assert(f(s.last()) >= 0);
    }
}

/// A sum over the whole graph of terms that are all at least 0 is at least
/// each of them.
pub proof fn lemma_graph_sum_bound(edges: Seq<Seq<Edge>>, f: spec_fn(Edge) -> int, u: int, i: int)
    requires
        forall|v: int, j: int| 0 <= v < edges.len() && 0 <= j < edges[v].len() ==> f(#[trigger] edges[v][j]) >= 0,
    ensures
        graph_sum(edges, f) >= 0,
        0 <= u < edges.len() && 0 <= i < edges[u].len() ==> graph_sum(edges, f) >= f(edges[u][i]),
    decreases edges.len(),
{
    if edges.len() > 0 {
        let d = edges.drop_last();
        let l = edges.len() - 1;
        assert forall|v: int, j: int| 0 <= v < d.len() && 0 <= j < d[v].len() implies f(#[trigger] d[v][j]) >= 0 by {
            assert(d[v] == edges[v]);
        }
        assert forall|j: int| 0 <= j < edges[l].len() implies f(#[trigger] edges[l][j]) >= 0 by {}
        if 0 <= u < l {
            lemma_graph_sum_bound(d, f, u, i);
            assert(d[u] == edges[u]);
            lemma_edge_sum_bound(edges[l], f, -1);
        } else if u == l {
            lemma_graph_sum_bound(d, f, -1, -1);
            lemma_edge_sum_bound(edges[l], f, i);
        } else {
            lemma_graph_sum_bound(d, f, -1, -1);
            lemma_edge_sum_bound(edges[l], f, -1);
        }
    }
}

/// Sums are linear: where every term of `a` is the term of `b` less the
/// term of `c`, edge by edge, the sums differ in the same way.
pub proof fn lemma_edge_sum_diff(
    a: Seq<Edge>,
    b: Seq<Edge>,
    c: Seq<Edge>,
    f: spec_fn(Edge) -> int,
)
    requires
        a.len() == b.len(),
        b.len() == c.len(),
        forall|j: int| 0 <= j < a.len() ==> f(#[trigger] a[j]) == f(b[j]) - f(c[j]),
    ensures
        edge_sum(a, f) == edge_sum(b, f) - edge_sum(c, f),
    decreases a.len(),
{
    if a.len() > 0 {
        let l = a.len() - 1;
        assert(f(a[l]) == f(b[l]) - f(c[l]));
        assert forall|j: int| 0 <= j < a.drop_last().len() implies f(#[trigger] a.drop_last()[j]) == f(
            b.drop_last()[j],
        ) - f(c.drop_last()[j]) by {
            assert(a.drop_last()[j] == a[j]);
            assert(b.drop_last()[j] == b[j]);
            assert(c.drop_last()[j] == c[j]);
        }
        lemma_edge_sum_diff(a.drop_last(), b.drop_last(), c.drop_last(), f);
    }
}

/// The linearity of sums, over the whole graph.
pub proof fn lemma_graph_sum_diff(
    a: Seq<Seq<Edge>>,
    b: Seq<Seq<Edge>>,
    c: Seq<Seq<Edge>>,
    f: spec_fn(Edge) -> int,
)
    requires
        a.len() == b.len(),
        b.len() == c.len(),
        forall|v: int| 0 <= v < a.len() ==> #[trigger] a[v].len() == b[v].len() && a[v].len() == c[v].len(),
        forall|v: int, j: int|
            0 <= v < a.len() && 0 <= j < a[v].len() ==> f(#[trigger] a[v][j]) == f(b[v][j]) - f(c[v][j]),
    ensures
        graph_sum(a, f) == graph_sum(b, f) - graph_sum(c, f),
    decreases a.len(),
{
    if a.len() > 0 {
        let l = a.len() - 1;
        assert(a[l].len() == b[l].len() && a[l].len() == c[l].len());
        assert forall|j: int| 0 <= j < a[l].len() implies f(#[trigger] a[l][j]) == f(b[l][j]) - f(
            c[l][j],
        ) by {}
        lemma_edge_sum_diff(a[l], b[l], c[l], f);
        let (da, db, dc) = (a.drop_last(), b.drop_last(), c.drop_last());
        assert forall|v: int| 0 <= v < da.len() implies #[trigger] da[v].len() == db[v].len() && da[v].len()
            == dc[v].len() by {
            assert(da[v] == a[v] && db[v] == b[v] && dc[v] == c[v]);
        }
        assert forall|v: int, j: int| 0 <= v < da.len() && 0 <= j < da[v].len() implies f(
            #[trigger] da[v][j],
        ) == f(db[v][j]) - f(dc[v][j]) by {
            assert(da[v] == a[v] && db[v] == b[v] && dc[v] == c[v]);
        }
        lemma_graph_sum_diff(da, db, dc, f);
    }
}

/// Lowering the weight of one edge `u -> t` by `d` lowers what flows into
/// `t` and what flows out of `u` by `d`, and leaves every other vertex's
/// inflow and outflow as they were.
pub proof fn lemma_flows_after_update(edges: Seq<Seq<Edge>>, u: int, i: int, e: Edge)
    requires
        0 <= u < edges.len(),
        0 <= i < edges[u].len(),
        spec_vh(e) == spec_vh(edges[u][i]),
    ensures
        ({
            let r = edges.update(u, edges[u].update(i, e));
            let t = spec_vh(e) as int;
            let d = spec_wgt(e) - spec_wgt(edges[u][i]);
            &&& forall|x: int| #[trigger] inflow(r, x) == inflow(edges, x) + (if x == t { d } else { 0 })
            &&& forall|x: int|
                0 <= x < edges.len() ==> #[trigger] outflow(r, x) == outflow(edges, x) + (if x == u {
                    d
                } else {
                    0
                })
        }),
{
    let r = edges.update(u, edges[u].update(i, e));
    assert forall|x: int| #[trigger] inflow(r, x) == inflow(edges, x) + (if x == spec_vh(e) as int {
        spec_wgt(e) - spec_wgt(edges[u][i])
    } else {
        0
    }) by {
        lemma_graph_sum_update_edge(edges, u, i, e, weight_into(x));
    }
    assert forall|x: int| 0 <= x < edges.len() implies #[trigger] outflow(r, x) == outflow(edges, x) + (
    if x == u {
        spec_wgt(e) - spec_wgt(edges[u][i])
    } else {
        0
    }) by {
        if x == u {
            lemma_edge_sum_update(edges[u], i, e, weight_of());
        } else {
            assert(r[x] == edges[x]);
        }
    }
}

} // verus!
