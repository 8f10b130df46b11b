//! Paths and reachability over the abstract edge model of a store.
use vstd::prelude::*;

use crate::handles::spec_vh;
use crate::handles::types::Edge;

verus! {

/// Whether vertex `u` has a live edge whose target is `v`.
pub open spec fn has_edge(edges: Seq<Seq<Edge>>, u: int, v: int) -> bool {
    0 <= u < edges.len() && exists|k: int|
        0 <= k < edges[u].len() && spec_vh(#[trigger] edges[u][k]) == v
}

/// Whether `p` is a path: each vertex has an edge to the next.
pub open spec fn is_path(edges: Seq<Seq<Edge>>, p: Seq<int>) -> bool {
    &&& p.len() >= 1
    &&& forall|i: int| 0 <= i < p.len() - 1 ==> #[trigger] has_edge(edges, p[i], p[i + 1])
}

/// Whether a path leads from `from` to `to`.
pub open spec fn reachable(edges: Seq<Seq<Edge>>, from: int, to: int) -> bool {
    exists|p: Seq<int>| #[trigger] is_path(edges, p) && p[0] == from && p.last() == to
}

/// Whether every live edge points at a vertex below `count`.
pub open spec fn targets_below(edges: Seq<Seq<Edge>>, count: int) -> bool {
    forall|v: int, k: int|
        0 <= v < edges.len() && 0 <= k < edges[v].len() ==> spec_vh(#[trigger] edges[v][k]) < count
}

/// Every vertex reaches itself.
pub proof fn lemma_reachable_self(edges: Seq<Seq<Edge>>, v: int)
    ensures
        reachable(edges, v, v),
{
    let p = seq![v];
    assert(is_path(edges, p));
}

/// A path to `u` followed by an edge `u -> v` is a path to `v`.
pub proof fn lemma_reachable_step(edges: Seq<Seq<Edge>>, from: int, u: int, k: int)
    requires
        reachable(edges, from, u),
        0 <= u < edges.len(),
        0 <= k < edges[u].len(),
    ensures
        reachable(edges, from, spec_vh(edges[u][k]) as int),
{
    let p = choose|p: Seq<int>| #[trigger] is_path(edges, p) && p[0] == from && p.last() == u;
    let v = spec_vh(edges[u][k]) as int;
    let q = p.push(v);
    assert(has_edge(edges, u, v));
    assert forall|i: int| 0 <= i < q.len() - 1 implies #[trigger] has_edge(edges, q[i], q[i + 1]) by {
        if i < p.len() - 1 {
            assert(q[i] == p[i] && q[i + 1] == p[i + 1]);
        } else {
            assert(q[i] == u && q[i + 1] == v);
        }
    }
    assert(is_path(edges, q));
}

/// The vertex at position `i` of a path from `p[0]` is reachable from `p[0]`.
pub proof fn lemma_reachable_prefix(edges: Seq<Seq<Edge>>, p: Seq<int>, i: int)
    requires
        is_path(edges, p),
        0 <= i < p.len(),
    ensures
        reachable(edges, p[0], p[i]),
{
    let q = p.take(i + 1);
    assert forall|k: int| 0 <= k < q.len() - 1 implies #[trigger] has_edge(edges, q[k], q[k + 1]) by {
        assert(q[k] == p[k] && q[k + 1] == p[k + 1]);
    }
    assert(is_path(edges, q));
    assert(q.last() == p[i]);
}

/// Whether a walk of at least one edge leads from `from` to `to` with every
/// vertex after the first other than vertex 0.
pub open spec fn reachable_avoiding_zero(edges: Seq<Seq<Edge>>, from: int, to: int) -> bool {
    exists|p: Seq<int>|
        #[trigger] is_path(edges, p) && p.len() >= 2 && p[0] == from && p.last() == to && forall|i: int|
            1 <= i < p.len() ==> p[i] != 0
}

/// An edge `from -> v` with `v` other than 0 is such a walk; so is such a
/// walk to `u` followed by an edge `u -> v` with `v` other than 0.
pub proof fn lemma_avoiding_zero_step(edges: Seq<Seq<Edge>>, from: int, u: int, k: int)
    requires
        u == from || reachable_avoiding_zero(edges, from, u),
        0 <= u < edges.len(),
        0 <= k < edges[u].len(),
        spec_vh(edges[u][k]) != 0,
    ensures
        reachable_avoiding_zero(edges, from, spec_vh(edges[u][k]) as int),
{
    let v = spec_vh(edges[u][k]) as int;
    assert(has_edge(edges, u, v));
    let p = if reachable_avoiding_zero(edges, from, u) {
        choose|p: Seq<int>|
            #[trigger] is_path(edges, p) && p.len() >= 2 && p[0] == from && p.last() == u && forall|i: int|
                1 <= i < p.len() ==> p[i] != 0
    } else {
        seq![from]
    };
    let q = p.push(v);
    assert forall|i: int| 0 <= i < q.len() - 1 implies #[trigger] has_edge(edges, q[i], q[i + 1]) by {
        if i < p.len() - 1 {
            assert(q[i] == p[i] && q[i + 1] == p[i + 1]);
        } else {
            assert(q[i] == u && q[i + 1] == v);
        }
    }
    assert forall|i: int| 1 <= i < q.len() implies q[i] != 0 by {
        if i < p.len() {
            assert(q[i] == p[i]);
        }
    }
    assert(is_path(edges, q) && q.len() >= 2 && q[0] == from && q.last() == v);
}

/// Every vertex after the first of a walk that avoids vertex 0 lies in a
/// set that holds the targets other than 0 of the edges of the walk's first
/// vertex and of every vertex of the set.
pub proof fn lemma_avoiding_zero_closed(edges: Seq<Seq<Edge>>, s: Set<int>, from: int, to: int)
    requires
        reachable_avoiding_zero(edges, from, to),
        forall|w: int| #[trigger] has_edge(edges, from, w) && w != 0 ==> s.contains(w),
        forall|u: int, w: int| s.contains(u) && #[trigger] has_edge(edges, u, w) && w != 0 ==> s.contains(w),
    ensures
        s.contains(to),
{
    let p = choose|p: Seq<int>|
        #[trigger] is_path(edges, p) && p.len() >= 2 && p[0] == from && p.last() == to && forall|i: int|
            1 <= i < p.len() ==> p[i] != 0;
    lemma_avoiding_zero_walk(edges, s, p, p.len() - 1);
    assert(p[p.len() - 1] == p.last());
}

proof fn lemma_avoiding_zero_walk(edges: Seq<Seq<Edge>>, s: Set<int>, p: Seq<int>, i: int)
    requires
        is_path(edges, p),
        1 <= i < p.len(),
        forall|j: int| 1 <= j < p.len() ==> p[j] != 0,
        forall|w: int| #[trigger] has_edge(edges, p[0], w) && w != 0 ==> s.contains(w),
        forall|u: int, w: int| s.contains(u) && #[trigger] has_edge(edges, u, w) && w != 0 ==> s.contains(w),
    ensures
        s.contains(p[i]),
    decreases i,
{
    let z = i - 1;
    assert(has_edge(edges, p[z], p[z + 1]));
    if i > 1 {
        lemma_avoiding_zero_walk(edges, s, p, i - 1);
    }
}

/// Every vertex of a path that starts inside a set closed under edges lies
/// inside the set.
proof fn lemma_closed_holds_path(edges: Seq<Seq<Edge>>, s: Set<int>, p: Seq<int>, i: int)
    requires
        is_path(edges, p),
        s.contains(p[0]),
        forall|u: int, v: int| s.contains(u) && #[trigger] has_edge(edges, u, v) ==> s.contains(v),
        0 <= i < p.len(),
    ensures
        s.contains(p[i]),
    decreases i,
{
    if i > 0 {
        lemma_closed_holds_path(edges, s, p, i - 1);
        let j = i - 1;
        assert(has_edge(edges, p[j], p[j + 1]));
        assert(p[j + 1] == p[i]);
    }
}

/// A set that holds `from` and is closed under edges holds every vertex
/// reachable from `from`.
pub proof fn lemma_closed_holds_reachable(edges: Seq<Seq<Edge>>, s: Set<int>, from: int, to: int)
    requires
        s.contains(from),
        forall|u: int, v: int| s.contains(u) && #[trigger] has_edge(edges, u, v) ==> s.contains(v),
        reachable(edges, from, to),
    ensures
        s.contains(to),
{
    let p = choose|p: Seq<int>| #[trigger] is_path(edges, p) && p[0] == from && p.last() == to;
    lemma_closed_holds_path(edges, s, p, p.len() - 1);
}

/// Whether a path of exactly `k` edges leads from `from` to `to`.
pub open spec fn reachable_in(edges: Seq<Seq<Edge>>, from: int, to: int, k: int) -> bool {
    exists|p: Seq<int>| #[trigger] is_path(edges, p) && p[0] == from && p.last() == to && p.len() == k + 1
}

/// Whether `d` is the least number of edges on a path from `from` to `to`.
pub open spec fn hop_distance(edges: Seq<Seq<Edge>>, from: int, to: int, d: int) -> bool {
    &&& reachable_in(edges, from, to, d)
    &&& forall|m: int| 0 <= m < d ==> !#[trigger] reachable_in(edges, from, to, m)
}

/// Only `from` is reached by a path without edges.
pub proof fn lemma_reachable_in_zero(edges: Seq<Seq<Edge>>, from: int, to: int)
    ensures
        reachable_in(edges, from, to, 0) <==> to == from,
{
    if to == from {
        assert(is_path(edges, seq![from]));
    }
}

/// A path of `k` edges to `u` followed by an edge of `u` is a path of
/// `k + 1` edges to that edge's target.
pub proof fn lemma_reachable_in_step(edges: Seq<Seq<Edge>>, from: int, u: int, k: int, i: int)
    requires
        reachable_in(edges, from, u, k),
        0 <= u < edges.len(),
        0 <= i < edges[u].len(),
    ensures
        reachable_in(edges, from, spec_vh(edges[u][i]) as int, k + 1),
{
    let p = choose|p: Seq<int>| #[trigger] is_path(edges, p) && p[0] == from && p.last() == u && p.len() == k + 1;
    let v = spec_vh(edges[u][i]) as int;
    let q = p.push(v);
    assert(has_edge(edges, u, v));
    assert forall|j: int| 0 <= j < q.len() - 1 implies #[trigger] has_edge(edges, q[j], q[j + 1]) by {
        if j < p.len() - 1 {
            assert(q[j] == p[j] && q[j + 1] == p[j + 1]);
        } else {
            assert(q[j] == u && q[j + 1] == v);
        }
    }
    assert(is_path(edges, q));
}

/// The last edge of a path of `k >= 1` edges leaves a vertex reached by a
/// path of `k - 1` edges.
pub proof fn lemma_reachable_in_last_edge(edges: Seq<Seq<Edge>>, from: int, to: int, k: int) -> (w: int)
    requires
        reachable_in(edges, from, to, k),
        k >= 1,
    ensures
        reachable_in(edges, from, w, k - 1),
        has_edge(edges, w, to),
{
    let p = choose|p: Seq<int>| #[trigger] is_path(edges, p) && p[0] == from && p.last() == to && p.len() == k + 1;
    let q = p.drop_last();
    assert forall|j: int| 0 <= j < q.len() - 1 implies #[trigger] has_edge(edges, q[j], q[j + 1]) by {
        assert(q[j] == p[j] && q[j + 1] == p[j + 1]);
    }
    assert(is_path(edges, q));
    let j = k - 1;
    assert(has_edge(edges, p[j], p[j + 1]));
    assert(p[j + 1] == to);
    p[j]
}

/// A path of `k` edges has a prefix of any `m <= k` edges.
pub proof fn lemma_reachable_in_prefix(edges: Seq<Seq<Edge>>, from: int, to: int, k: int, m: int)
    requires
        reachable_in(edges, from, to, k),
        0 <= m <= k,
    ensures
        exists|y: int| #[trigger] reachable_in(edges, from, y, m),
{
    let p = choose|p: Seq<int>| #[trigger] is_path(edges, p) && p[0] == from && p.last() == to && p.len() == k + 1;
    let q = p.take(m + 1);
    assert forall|j: int| 0 <= j < q.len() - 1 implies #[trigger] has_edge(edges, q[j], q[j + 1]) by {
        assert(q[j] == p[j] && q[j + 1] == p[j + 1]);
    }
    assert(is_path(edges, q));
    assert(reachable_in(edges, from, q.last(), m));
}

/// Whether a walk of exactly `k >= 1` edges leads from `from` to `to` with
/// every vertex after the first other than vertex 0.
pub open spec fn reachable_in_avoiding_zero(edges: Seq<Seq<Edge>>, from: int, to: int, k: int) -> bool {
    k >= 1 && exists|p: Seq<int>|
        #[trigger] is_path(edges, p) && p[0] == from && p.last() == to && p.len() == k + 1 && forall|i: int|
            1 <= i < p.len() ==> p[i] != 0
}

/// Whether `d` is the least number of edges of such a walk.
pub open spec fn hop_distance_avoiding_zero(edges: Seq<Seq<Edge>>, from: int, to: int, d: int) -> bool {
    &&& reachable_in_avoiding_zero(edges, from, to, d)
    &&& forall|m: int| 1 <= m < d ==> !#[trigger] reachable_in_avoiding_zero(edges, from, to, m)
}

/// Such a walk of `k` edges to `u` (or `u` itself, with `k` 0) followed by
/// an edge of `u` to a vertex other than 0 is such a walk of `k + 1` edges.
pub proof fn lemma_avoiding_zero_in_step(edges: Seq<Seq<Edge>>, from: int, u: int, k: int, i: int)
    requires
        (u == from && k == 0) || reachable_in_avoiding_zero(edges, from, u, k),
        0 <= u < edges.len(),
        0 <= i < edges[u].len(),
        spec_vh(edges[u][i]) != 0,
    ensures
        reachable_in_avoiding_zero(edges, from, spec_vh(edges[u][i]) as int, k + 1),
{
    let v = spec_vh(edges[u][i]) as int;
    assert(has_edge(edges, u, v));
    let p = if k == 0 {
        seq![from]
    } else {
        choose|p: Seq<int>|
            #[trigger] is_path(edges, p) && p[0] == from && p.last() == u && p.len() == k + 1 && forall|i: int|
                1 <= i < p.len() ==> p[i] != 0
    };
    if k == 0 {
        assert(reachable_in_avoiding_zero(edges, from, u, k) ==> k >= 1);
    }
    assert(p.len() == k + 1 && p[0] == from && p.last() == u);
    let q = p.push(v);
    assert forall|j: int| 0 <= j < q.len() - 1 implies #[trigger] has_edge(edges, q[j], q[j + 1]) by {
        if j < p.len() - 1 {
            assert(q[j] == p[j] && q[j + 1] == p[j + 1]);
        } else {
            assert(q[j] == u && q[j + 1] == v);
        }
    }
    assert forall|j: int| 1 <= j < q.len() implies q[j] != 0 by {
        if j < p.len() {
            assert(q[j] == p[j]);
        }
    }
    assert(is_path(edges, q) && q[0] == from && q.last() == v && q.len() == k + 2);
}

/// The last edge of such a walk of `k >= 2` edges leaves a vertex other
/// than 0 reached by such a walk of `k - 1` edges; one of a single edge
/// leaves `from`.
pub proof fn lemma_avoiding_zero_last_edge(edges: Seq<Seq<Edge>>, from: int, to: int, k: int) -> (w: int)
    requires
        reachable_in_avoiding_zero(edges, from, to, k),
    ensures
        has_edge(edges, w, to),
        to != 0,
        k == 1 ==> w == from,
        k >= 2 ==> w != 0 && reachable_in_avoiding_zero(edges, from, w, k - 1),
{
    let p = choose|p: Seq<int>|
        #[trigger] is_path(edges, p) && p[0] == from && p.last() == to && p.len() == k + 1 && forall|i: int|
            1 <= i < p.len() ==> p[i] != 0;
    let q = p.drop_last();
    assert forall|j: int| 0 <= j < q.len() - 1 implies #[trigger] has_edge(edges, q[j], q[j + 1]) by {
        assert(q[j] == p[j] && q[j + 1] == p[j + 1]);
    }
    assert forall|j: int| 1 <= j < q.len() implies q[j] != 0 by {
        assert(q[j] == p[j]);
    }
    assert(is_path(edges, q));
    let j = k - 1;
    assert(has_edge(edges, p[j], p[j + 1]));
    assert(p[j + 1] == to);
    assert(p[p.len() - 1] == to);
    if k >= 2 {
        assert(q.last() == p[j]);
        assert(p[j] != 0);
    }
    p[j]
}

/// A sequence of distinct handles below `bound` has at most `bound` items.
pub proof fn lemma_distinct_below(s: Seq<u32>, bound: int)
    requires
        bound >= 0,
        s.no_duplicates(),
        forall|i: int| 0 <= i < s.len() ==> #[trigger] s[i] < bound,
    ensures
        s.len() <= bound,
{
    let m = s.map_values(|x: u32| x as int);
    assert(m.no_duplicates()) by {
        assert forall|i: int, j: int| 0 <= i < m.len() && 0 <= j < m.len() && i != j implies m[i] != m[j] by {
            assert(s[i] != s[j]);
        }
    }
    m.unique_seq_to_set();
    vstd::set_lib::lemma_int_range(0, bound);
    assert(m.to_set().subset_of(vstd::set_lib::set_int_range(0, bound))) by {
        assert forall|x: int| m.to_set().contains(x) implies vstd::set_lib::set_int_range(0, bound).contains(x) by {
            let i = choose|i: int| 0 <= i < m.len() && m[i] == x;
            assert(s[i] < bound);
        }
    }
    vstd::set_lib::lemma_len_subset(m.to_set(), vstd::set_lib::set_int_range(0, bound));
}

} // verus!
