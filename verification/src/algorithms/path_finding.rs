//! Best-first path search (A*, and Dijkstra's algorithm as A* without a
//! heuristic) over an edge store whose weights are step costs.
use vstd::prelude::*;

use eta_algorithms::data_structs::array::Array;
use eta_algorithms::data_structs::stack::Stack;

use crate::algorithms::general::{lemma_max_degree, lemma_power_positive, max_degree, power};
use crate::containers::{
    handle_stack_capacity, handle_stack_items, handle_stack_new, handle_stack_push, layout_fits,
    pair_array_capacity, pair_array_get, pair_array_items, pair_array_new_with_default,
    pair_array_set,
};
use crate::handles::types::{Edge, VHandle, Weight};
use crate::handles::{spec_vh, spec_wgt, vh, wgt};
use crate::paths::{has_edge, is_path, lemma_closed_holds_reachable, lemma_distinct_below, reachable, targets_below};
use crate::traits::EdgeStore;

verus! {

/// An entry of the exploration list: a vertex and the score it was reached
/// with.
#[derive(Clone, Copy)]
pub struct MinHeapPair {
    /// The vertex to explore.
    pub vertex: VHandle,
    /// Its score: the cost of the way it was reached plus the heuristic.
    pub f_score: Weight,
}

impl MinHeapPair {
    /// The entry for `vertex` reached with score `f_score`.
    pub fn new(vertex: VHandle, f_score: Weight) -> (r: Self)
        ensures
            r.vertex == vertex,
            r.f_score == f_score,
    {
        MinHeapPair { vertex, f_score }
    }
}

/// The largest cost of one step (an edge's weight plus the heuristic) for
/// which no score of a search over `count` vertices overflows.
pub open spec fn cost_bound(count: int) -> int {
    (Weight::MAX as int) / (count + 1)
}

/// Whether every step along an edge of `edges` costs between 1 and
/// `cost_bound(count)`, with a heuristic `h` that is never below 0.
pub open spec fn steps_ok<H: Fn(VHandle, Edge) -> Weight>(edges: Seq<Seq<Edge>>, h: H, count: int) -> bool {
    forall|v: int, i: int, r: Weight|
        0 <= v < edges.len() && 0 <= i < edges[v].len() && #[trigger] h.ensures((v as u32, edges[v][i]), r)
            ==> 0 <= r && 1 <= spec_wgt(edges[v][i]) + r <= cost_bound(count)
}

/// Whether `s`, read from its end to its start, leads along edges from
/// `start` to `goal`.
pub open spec fn is_route(edges: Seq<Seq<Edge>>, s: Seq<u32>, start: int, goal: int) -> bool {
    &&& s.len() >= 1
    &&& s[0] as int == goal
    &&& s.last() as int == start
    &&& forall|j: int| 0 <= j < s.len() - 1 ==> #[trigger] has_edge(edges, s[j + 1] as int, s[j] as int)
}

/// Whether `s` follows the recorded predecessors in `paths` from `goal`
/// back to `start`, stopping at the first `start`.
pub open spec fn follows_parents(paths: Seq<(u32, i32)>, s: Seq<u32>, start: int, goal: int) -> bool {
    &&& s.len() >= 1
    &&& s[0] as int == goal
    &&& s.last() as int == start
    &&& forall|j: int|
        0 <= j < s.len() - 1 ==> #[trigger] s[j] as int != start && s[j + 1] == paths[s[j] as int].0
}

/// Whether the recorded predecessors lead back towards `start`: every
/// vertex other than `start` with a score has a predecessor below
/// `paths.len()` that is `start` or has a smaller score, and no score is
/// below 0.
pub open spec fn parents_ok(paths: Seq<(u32, i32)>, start: int) -> bool {
    forall|v: int|
        0 <= v < paths.len() && #[trigger] paths[v].1 != Weight::MAX ==> {
            let p = paths[v].0 as int;
            &&& 0 <= paths[v].1
            &&& v != start ==> 0 <= p < paths.len() && (p == start || (paths[p].1 != Weight::MAX
                && paths[p].1 < paths[v].1))
        }
}

/// A route read backwards is a path, so its goal is reachable from its
/// start.
proof fn lemma_route_reachable(edges: Seq<Seq<Edge>>, s: Seq<u32>, start: int, goal: int)
    requires
        is_route(edges, s, start, goal),
    ensures
        reachable(edges, start, goal),
{
    let p = Seq::new(s.len(), |j: int| s[s.len() - 1 - j] as int);
    assert forall|j: int| 0 <= j < p.len() - 1 implies #[trigger] has_edge(edges, p[j], p[j + 1]) by {
        let m = s.len() - 2 - j;
        assert(has_edge(edges, s[m + 1] as int, s[m] as int));
    }
    assert(is_path(edges, p));
    assert(p[0] == start && p.last() == goal);
}

/// The recorded predecessors from `goal` back to `start`, bottom first.
/// The stack holds at most as many vertices as `paths` has slots.
#[verifier::rlimit(100)]
#[verifier::spinoff_prover]
fn reconstruct_path(paths: &Array<(u32, i32)>, start: VHandle, goal: VHandle) -> (r: Stack<VHandle>)
    requires
        parents_ok(pair_array_items(*paths), start as int),
        goal < pair_array_items(*paths).len(),
        goal == start || pair_array_items(*paths)[goal as int].1 != Weight::MAX,
        layout_fits(pair_array_items(*paths).len() as int, 4),
    ensures
        follows_parents(pair_array_items(*paths), handle_stack_items(r), start as int, goal as int),
        handle_stack_items(r).len() <= pair_array_items(*paths).len(),
{
    let ghost fs = pair_array_items(*paths);
    let ghost n = fs.len() as int;
    let mut path = handle_stack_new(pair_array_capacity(paths));
    let mut current = goal;
    handle_stack_push(&mut path, current);
    proof {
        assert(handle_stack_items(path) =~= seq![goal]);
    }
    while current != start
        invariant
            fs == pair_array_items(*paths),
            n == fs.len(),
            parents_ok(fs, start as int),
            current < n,
            current == start || fs[current as int].1 != Weight::MAX,
            handle_stack_capacity(path) == n,
            handle_stack_items(path).len() >= 1,
            handle_stack_items(path).len() <= n,
            handle_stack_items(path)[0] == goal,
            handle_stack_items(path).last() == current,
            forall|j: int| 0 <= j < handle_stack_items(path).len() ==> #[trigger] handle_stack_items(path)[j] < n,
            forall|j: int|
                0 <= j < handle_stack_items(path).len() - 1 ==> #[trigger] handle_stack_items(path)[j] as int
                    != start as int && handle_stack_items(path)[j + 1] == fs[handle_stack_items(path)[j] as int].0,
            forall|a: int, c: int|
                0 <= a < c < handle_stack_items(path).len() && handle_stack_items(path)[c] != start ==> fs[
                #[trigger] handle_stack_items(path)[c] as int].1 < fs[#[trigger] handle_stack_items(path)[a] as int].1,
            forall|j: int|
                0 <= j < handle_stack_items(path).len() ==> fs[#[trigger] handle_stack_items(path)[j] as int].1
                    != Weight::MAX || handle_stack_items(path)[j] == start,
        decreases (if current == start {
            0
        } else {
            fs[current as int].1 + 1
        }),
    {
        let ghost s = handle_stack_items(path);
        let prev = pair_array_get(paths, current as usize).0;
        proof {
            let t = s.push(prev);
            assert forall|a: int, c: int| 0 <= a < t.len() && 0 <= c < t.len() && a != c implies t[a] != t[c] by {
                if a < c {
                    if c < s.len() {
                        if s[c] != start {
                            assert(fs[s[c] as int].1 < fs[s[a] as int].1);
                        } else {
                            assert(c == s.len() - 1);
                        }
                    } else if prev != start {
                        if a < s.len() - 1 {
                            assert(fs[s[s.len() - 1] as int].1 < fs[s[a] as int].1);
                        }
                    } else {
                        if a < s.len() - 1 {
                            assert(s[a] as int != start as int);
                        }
                    }
                } else {
                    if a < s.len() {
                        if s[a] != start {
                            assert(fs[s[a] as int].1 < fs[s[c] as int].1);
                        } else {
                            assert(a == s.len() - 1);
                        }
                    } else if prev != start {
                        if c < s.len() - 1 {
                            assert(fs[s[s.len() - 1] as int].1 < fs[s[c] as int].1);
                        }
                    } else {
                        if c < s.len() - 1 {
                            assert(s[c] as int != start as int);
                        }
                    }
                }
            }
            assert forall|j: int| 0 <= j < t.len() implies #[trigger] t[j] < n by {}
            lemma_distinct_below(t, n);
        }
        handle_stack_push(&mut path, prev);
        proof {
            let t = handle_stack_items(path);
            assert(t == s.push(prev));
            assert forall|a: int, c: int|
                0 <= a < c < t.len() && t[c] != start implies fs[#[trigger] t[c] as int].1 < fs[#[trigger] t[a] as int].1 by {
                if c == t.len() - 1 {
                    if a < s.len() - 1 {
                        assert(fs[s[s.len() - 1] as int].1 < fs[s[a] as int].1);
                    }
                } else {
                    assert(t[a] == s[a] && t[c] == s[c]);
                }
            }
        }
        current = prev;
    }
    path
}

/// The number of vertices that have a score.
spec fn count_scored(fs: Seq<(u32, i32)>) -> nat
    decreases fs.len(),
{
    if fs.len() == 0 {
        0
    } else {
        count_scored(fs.drop_last()) + (if fs.last().1 != Weight::MAX {
            1nat
        } else {
            0nat
        })
    }
}

proof fn lemma_count_scored_update(fs: Seq<(u32, i32)>, i: int, val: (u32, i32))
    requires
        0 <= i < fs.len(),
    ensures
        count_scored(fs.update(i, val)) == count_scored(fs) - (if fs[i].1 != Weight::MAX {
            1int
        } else {
            0int
        }) + (if val.1 != Weight::MAX {
            1int
        } else {
            0int
        }),
        count_scored(fs) <= fs.len(),
    decreases fs.len(),
{
    let t = fs.update(i, val);
    if i < fs.len() - 1 {
        assert(t.drop_last() =~= fs.drop_last().update(i, val));
        lemma_count_scored_update(fs.drop_last(), i, val);
    } else {
        assert(t.drop_last() =~= fs.drop_last());
        if fs.len() > 1 {
            lemma_count_scored_update(fs.drop_last(), 0, fs[0]);
        }
    }
}

/// A vertex is in scope once it is the start or has a score.
spec fn in_scope(fs: Seq<(u32, i32)>, start: int, v: int) -> bool {
    v == start || (0 <= v < fs.len() && fs[v].1 != Weight::MAX)
}

/// Whether the exploration list holds an entry for `v`.
spec fn listed(h: Seq<MinHeapPair>, v: int) -> bool {
    exists|j: int| 0 <= j < h.len() && #[trigger] h[j].vertex as int == v
}

/// A bound on the work left: every entry weighs `base` to the power of how
/// far its score is below `top`.
spec fn heap_potential(h: Seq<MinHeapPair>, base: int, top: int) -> int
    decreases h.len(),
{
    if h.len() == 0 {
        0
    } else {
        heap_potential(h.drop_last(), base, top) + power(base, (top - h.last().f_score) as nat)
    }
}

proof fn lemma_heap_potential_remove(h: Seq<MinHeapPair>, i: int, base: int, top: int)
    requires
        0 <= i < h.len(),
    ensures
        heap_potential(h.remove(i), base, top) == heap_potential(h, base, top) - power(
            base,
            (top - h[i].f_score) as nat,
        ),
    decreases h.len(),
{
    let r = h.remove(i);
    if i < h.len() - 1 {
        assert(r.drop_last() =~= h.drop_last().remove(i));
        assert(r.last() == h.last());
        lemma_heap_potential_remove(h.drop_last(), i, base, top);
    } else {
        assert(r =~= h.drop_last());
    }
}

proof fn lemma_heap_potential_nonneg(h: Seq<MinHeapPair>, base: int, top: int)
    requires
        base >= 1,
    ensures
        heap_potential(h, base, top) >= 0,
    decreases h.len(),
{
    if h.len() > 0 {
        lemma_heap_potential_nonneg(h.drop_last(), base, top);
        lemma_power_positive(base, (top - h.last().f_score) as nat);
    }
}

proof fn lemma_power_mono(b: int, e1: nat, e2: nat)
    requires
        b >= 1,
        e1 <= e2,
    ensures
        power(b, e1) <= power(b, e2),
    decreases e2,
{
    if e1 < e2 {
        lemma_power_mono(b, e1, (e2 - 1) as nat);
        lemma_power_positive(b, (e2 - 1) as nat);
        assert(power(b, (e2 - 1) as nat) <= b * power(b, (e2 - 1) as nat)) by (nonlinear_arith)
            requires
                b >= 1,
                power(b, (e2 - 1) as nat) >= 1,
        ;
    }
}

/// What the search keeps of its scores: predecessors lead back towards
/// the start, every score is at most `kk` per scored vertex, and every
/// scored vertex other than the start was reached along an edge from its
/// predecessor.
spec fn scores_ok(edges: Seq<Seq<Edge>>, fs: Seq<(u32, i32)>, start: int, kk: int) -> bool {
    &&& parents_ok(fs, start)
    &&& forall|v: int| 0 <= v < fs.len() && #[trigger] fs[v].1 != Weight::MAX ==> fs[v].1 <= kk * count_scored(fs)
    &&& forall|v: int|
        0 <= v < fs.len() && v != start && #[trigger] fs[v].1 != Weight::MAX ==> has_edge(
            edges,
            fs[v].0 as int,
            v,
        )
}

/// What the search keeps of its exploration list: every entry names a
/// vertex of the store, its score is at most `kk` per scored vertex, and the
/// entry's vertex is the start or has a score no larger.
spec fn list_ok(
    edges: Seq<Seq<Edge>>,
    fs: Seq<(u32, i32)>,
    h: Seq<MinHeapPair>,
    start: int,
    kk: int,
) -> bool {
    forall|j: int|
        0 <= j < h.len() ==> {
            let e = #[trigger] h[j];
            &&& (e.vertex as int) < edges.len()
            &&& 0 <= e.f_score <= kk * count_scored(fs)
            &&& (e.vertex as int == start || (fs[e.vertex as int].1 != Weight::MAX && fs[e.vertex as int].1
                <= e.f_score))
        }
}

/// Every vertex in scope has been explored or waits in the list.
spec fn covered(fs: Seq<(u32, i32)>, h: Seq<MinHeapPair>, popped: Set<int>, start: int) -> bool {
    forall|v: int| #[trigger] in_scope(fs, start, v) ==> popped.contains(v) || listed(h, v)
}

/// Every explored vertex but `except` has all its targets in scope.
spec fn closed_except(
    edges: Seq<Seq<Edge>>,
    fs: Seq<(u32, i32)>,
    popped: Set<int>,
    start: int,
    except: int,
) -> bool {
    forall|u: int|
        #[trigger] popped.contains(u) && u != except ==> 0 <= u < edges.len() && forall|i: int|
            0 <= i < edges[u].len() ==> in_scope(fs, start, spec_vh(#[trigger] edges[u][i]) as int)
}

/// Following recorded predecessors from a scored goal gives a route.
proof fn lemma_route_from_parents(
    edges: Seq<Seq<Edge>>,
    fs: Seq<(u32, i32)>,
    s: Seq<u32>,
    start: int,
    goal: int,
    kk: int,
)
    requires
        scores_ok(edges, fs, start, kk),
        follows_parents(fs, s, start, goal),
        0 <= goal < fs.len(),
        goal == start || fs[goal].1 != Weight::MAX,
    ensures
        is_route(edges, s, start, goal),
{
    lemma_parents_scored(fs, s, start, goal, s.len() - 1);
    assert forall|j: int| 0 <= j < s.len() - 1 implies #[trigger] has_edge(edges, s[j + 1] as int, s[j] as int) by {
        lemma_parents_scored(fs, s, start, goal, j);
        assert(s[j] as int != start);
    }
}

proof fn lemma_parents_scored(fs: Seq<(u32, i32)>, s: Seq<u32>, start: int, goal: int, j: int)
    requires
        parents_ok(fs, start),
        follows_parents(fs, s, start, goal),
        0 <= goal < fs.len(),
        goal == start || fs[goal].1 != Weight::MAX,
        0 <= j < s.len(),
    ensures
        0 <= s[j] < fs.len(),
        s[j] as int == start || fs[s[j] as int].1 != Weight::MAX,
    decreases j,
{
    if j > 0 {
        lemma_parents_scored(fs, s, start, goal, j - 1);
        assert(s[j - 1] as int != start && s[j] == fs[s[j - 1] as int].0);
    }
}

/// Recording a better (or equal) score `newf` for `t`, reached from `u`
/// with score `p`: the score stays within the bounds and the count of
/// scored vertices grows by one if `t` had none.
proof fn lemma_relax_counts(fs: Seq<(u32, i32)>, kk: int, n: int, u: u32, p: int, t: u32, newf: i32)
    requires
        fs.len() == n,
        kk >= 0,
        kk * (n + 1) <= Weight::MAX,
        (t as int) < n,
        0 <= p <= kk * count_scored(fs),
        p + 1 <= newf <= p + kk,
        newf <= fs[t as int].1,
        fs[t as int].1 != Weight::MAX ==> fs[t as int].1 <= kk * count_scored(fs),
    ensures
        ({
            let fs2 = fs.update(t as int, (u, newf));
            &&& newf <= kk * n
            &&& newf < Weight::MAX
            &&& count_scored(fs2) <= n
            &&& count_scored(fs2) == count_scored(fs) + (if fs[t as int].1 != Weight::MAX { 0int } else { 1int })
            &&& newf <= kk * count_scored(fs2)
            &&& kk * count_scored(fs) <= kk * count_scored(fs2)
        }),
{
    let fs2 = fs.update(t as int, (u, newf));
    let was = fs[t as int].1 != Weight::MAX;
    lemma_count_scored_update(fs, t as int, (u, newf));
    lemma_count_scored_update(fs2, t as int, (u, newf));
    assert(kk * n < Weight::MAX || kk == 0) by (nonlinear_arith)
        requires
            kk * (n + 1) <= Weight::MAX,
            kk >= 0,
    ;
    if !was {
        lemma_count_scored_update(fs, t as int, (0u32, 0i32));
        lemma_count_scored_update(fs.update(t as int, (0u32, 0i32)), t as int, (0u32, 0i32));
        assert(count_scored(fs) + 1 <= n);
        assert(kk * count_scored(fs) + kk <= kk * n) by (nonlinear_arith)
            requires
                count_scored(fs) + 1 <= n,
                kk >= 0,
        ;
        assert(kk * count_scored(fs2) == kk * count_scored(fs) + kk) by (nonlinear_arith)
            requires
                count_scored(fs2) == count_scored(fs) + 1,
        ;
    } else {
        assert(kk * count_scored(fs) <= kk * n) by (nonlinear_arith)
            requires
                count_scored(fs) <= n,
                kk >= 0,
        ;
    }
}

/// Recording the score keeps what the search knows of its scores.
proof fn lemma_relax_scores(
    edges: Seq<Seq<Edge>>,
    fs: Seq<(u32, i32)>,
    st: int,
    kk: int,
    u: u32,
    p: int,
    t: u32,
    newf: i32,
)
    requires
        scores_ok(edges, fs, st, kk),
        (u as int) < fs.len(),
        (t as int) < fs.len(),
        has_edge(edges, u as int, t as int),
        u as int == st || (fs[u as int].1 != Weight::MAX && fs[u as int].1 <= p),
        p + 1 <= newf < Weight::MAX,
        0 <= newf,
        newf <= fs[t as int].1,
        newf <= kk * count_scored(fs.update(t as int, (u, newf))),
        kk * count_scored(fs) <= kk * count_scored(fs.update(t as int, (u, newf))),
    ensures
        scores_ok(edges, fs.update(t as int, (u, newf)), st, kk),
{
    let fs2 = fs.update(t as int, (u, newf));
    assert(fs2[t as int] == (u, newf));
    assert forall|v: int| 0 <= v < fs2.len() && #[trigger] fs2[v].1 != Weight::MAX implies {
        let pp = fs2[v].0 as int;
        &&& 0 <= fs2[v].1
        &&& v != st ==> 0 <= pp < fs2.len() && (pp == st || (fs2[pp].1 != Weight::MAX && fs2[pp].1 < fs2[v].1))
    } by {
        if v != t as int {
            assert(fs2[v] == fs[v]);
            assert(fs[v].1 != Weight::MAX);
        }
    }
    assert forall|v: int| 0 <= v < fs2.len() && #[trigger] fs2[v].1 != Weight::MAX implies fs2[v].1 <= kk
        * count_scored(fs2) by {
        if v != t as int {
            assert(fs2[v] == fs[v]);
            assert(fs[v].1 != Weight::MAX);
        }
    }
    assert forall|v: int| 0 <= v < fs2.len() && v != st && #[trigger] fs2[v].1 != Weight::MAX implies has_edge(
        edges,
        fs2[v].0 as int,
        v,
    ) by {
        if v != t as int {
            assert(fs2[v] == fs[v]);
            assert(fs[v].1 != Weight::MAX);
        }
    }
}

/// Recording the score and listing `t` keeps what the search knows of its
/// list, of what it covers and of the explored vertices' targets.
proof fn lemma_relax_list(
    edges: Seq<Seq<Edge>>,
    fs: Seq<(u32, i32)>,
    h: Seq<MinHeapPair>,
    popped: Set<int>,
    st: int,
    kk: int,
    u: u32,
    t: u32,
    newf: i32,
)
    requires
        list_ok(edges, fs, h, st, kk),
        covered(fs, h, popped, st),
        closed_except(edges, fs, popped, st, u as int),
        fs.len() >= edges.len(),
        (t as int) < edges.len(),
        0 <= newf < Weight::MAX,
        newf <= fs[t as int].1,
        newf <= kk * count_scored(fs.update(t as int, (u, newf))),
        kk * count_scored(fs) <= kk * count_scored(fs.update(t as int, (u, newf))),
    ensures
        ({
            let fs2 = fs.update(t as int, (u, newf));
            let h2 = h.push(MinHeapPair { vertex: t, f_score: newf });
            &&& list_ok(edges, fs2, h2, st, kk)
            &&& covered(fs2, h2, popped, st)
            &&& closed_except(edges, fs2, popped, st, u as int)
            &&& forall|x: int| in_scope(fs, st, x) ==> #[trigger] in_scope(fs2, st, x)
            &&& in_scope(fs2, st, t as int)
        }),
{
    let fs2 = fs.update(t as int, (u, newf));
    let h2 = h.push(MinHeapPair { vertex: t, f_score: newf });
    assert(fs2[t as int] == (u, newf));
    assert forall|j: int| 0 <= j < h2.len() implies {
        let e = #[trigger] h2[j];
        &&& (e.vertex as int) < edges.len()
        &&& 0 <= e.f_score <= kk * count_scored(fs2)
        &&& (e.vertex as int == st || (fs2[e.vertex as int].1 != Weight::MAX && fs2[e.vertex as int].1 <= e.f_score))
    } by {
        if j < h.len() {
            assert(h2[j] == h[j]);
            let e = h[j];
            if e.vertex != t {
                assert(fs2[e.vertex as int] == fs[e.vertex as int]);
            }
        }
    }
    assert forall|x: int| in_scope(fs, st, x) implies #[trigger] in_scope(fs2, st, x) by {
        if x != t as int && x != st {
            assert(fs2[x] == fs[x]);
        }
    }
    assert forall|v: int| #[trigger] in_scope(fs2, st, v) implies popped.contains(v) || listed(h2, v) by {
        if v == t as int {
            assert(h2[h.len() as int].vertex as int == v);
        } else {
            if v != st {
                assert(fs2[v] == fs[v]);
            }
            assert(in_scope(fs, st, v));
            if !popped.contains(v) {
                assert(listed(h, v));
                let j = choose|j: int| 0 <= j < h.len() && #[trigger] h[j].vertex as int == v;
                assert(h2[j] == h[j]);
            }
        }
    }
    assert forall|uu: int| #[trigger] popped.contains(uu) && uu != u as int implies 0 <= uu < edges.len() && forall|i: int|
        0 <= i < edges[uu].len() ==> in_scope(fs2, st, spec_vh(#[trigger] edges[uu][i]) as int) by {
        assert forall|i: int| 0 <= i < edges[uu].len() implies in_scope(fs2, st, spec_vh(#[trigger] edges[uu][i]) as int) by {
            assert(in_scope(fs, st, spec_vh(edges[uu][i]) as int));
        }
    }
}

/// The cost of a step that is the edge's weight.
pub open spec fn step_weight() -> spec_fn(int, Edge) -> int {
    |v: int, e: Edge| spec_wgt(e) as int
}

/// Whether no step along an edge of `edges` costs less than 0.
pub open spec fn costs_nonneg(edges: Seq<Seq<Edge>>, cost: spec_fn(int, Edge) -> int) -> bool {
    forall|v: int, i: int| 0 <= v < edges.len() && 0 <= i < edges[v].len() ==> 0 <= cost(v, #[trigger] edges[v][i])
}

/// Whether `cost` prices each step from `v` along `e` as the edge's weight
/// plus any answer the heuristic `h` gives for that step, and no step of
/// `edges` below 0.
pub open spec fn costs_match<H: Fn(VHandle, Edge) -> Weight>(
    h: H,
    edges: Seq<Seq<Edge>>,
    cost: spec_fn(int, Edge) -> int,
) -> bool {
    &&& forall|v: VHandle, e: Edge, r: Weight| #[trigger] h.ensures((v, e), r) ==> cost(v as int, e) == spec_wgt(e) + r
    &&& costs_nonneg(edges, cost)
}

/// Whether `vs` is a walk whose step `j` takes the live edge `ix[j]` of
/// `vs[j]`, which leads to `vs[j + 1]`.
pub open spec fn is_walk(edges: Seq<Seq<Edge>>, vs: Seq<int>, ix: Seq<int>) -> bool {
    &&& vs.len() >= 1
    &&& ix.len() == vs.len() - 1
    &&& forall|j: int|
        0 <= j < ix.len() ==> 0 <= #[trigger] vs[j] < edges.len() && 0 <= ix[j] < edges[vs[j]].len()
            && spec_vh(edges[vs[j]][ix[j]]) as int == vs[j + 1]
}

/// The total cost of the first `k` steps of a walk.
pub open spec fn walk_cost(
    edges: Seq<Seq<Edge>>,
    cost: spec_fn(int, Edge) -> int,
    vs: Seq<int>,
    ix: Seq<int>,
    k: int,
) -> int
    decreases k,
{
    if k <= 0 {
        0
    } else {
        walk_cost(edges, cost, vs, ix, k - 1) + cost(vs[k - 1], edges[vs[k - 1]][ix[k - 1]])
    }
}

/// Whether the route `s` (goal first, start last) enters `s[j]` by the
/// live edge `ix[j]` of `s[j + 1]`.
pub open spec fn route_steps(edges: Seq<Seq<Edge>>, s: Seq<u32>, ix: Seq<int>) -> bool {
    &&& s.len() >= 1
    &&& ix.len() == s.len() - 1
    &&& forall|j: int|
        0 <= j < ix.len() ==> (s[j + 1] as int) < edges.len() && 0 <= #[trigger] ix[j] < edges[s[j + 1] as int].len()
            && spec_vh(edges[s[j + 1] as int][ix[j]]) == s[j]
}

/// The total cost of the steps of a route from position `from` on.
pub open spec fn route_cost(
    edges: Seq<Seq<Edge>>,
    cost: spec_fn(int, Edge) -> int,
    s: Seq<u32>,
    ix: Seq<int>,
    from: int,
) -> int
    decreases s.len() - from,
{
    if from < 0 || from >= s.len() - 1 {
        0
    } else {
        cost(s[from + 1] as int, edges[s[from + 1] as int][ix[from]]) + route_cost(edges, cost, s, ix, from + 1)
    }
}

/// Whether the route `s` from `start` to `goal` costs no more than any
/// walk from `start` to `goal`, each step priced by `cost`.
pub open spec fn is_cheapest_route(
    edges: Seq<Seq<Edge>>,
    cost: spec_fn(int, Edge) -> int,
    s: Seq<u32>,
    start: int,
    goal: int,
) -> bool {
    exists|ix: Seq<int>|
        #[trigger] route_steps(edges, s, ix) && forall|vs: Seq<int>, wx: Seq<int>|
            #[trigger] is_walk(edges, vs, wx) && vs[0] == start && vs.last() == goal ==> route_cost(edges, cost, s, ix, 0)
                <= walk_cost(edges, cost, vs, wx, wx.len() as int)
}

/// Whether the list holds an entry for `v` of score `f`.
spec fn listed_at(h: Seq<MinHeapPair>, v: int, f: int) -> bool {
    exists|j: int| 0 <= j < h.len() && #[trigger] h[j].vertex as int == v && h[j].f_score == f
}

/// The score a route from the start has reached `v` with: 0 at the start.
spec fn score_or_zero(fs: Seq<(u32, i32)>, start: int, v: int) -> int {
    if v == start {
        0
    } else {
        fs[v].1 as int
    }
}

/// Whether the live edge `i` of the recorded predecessor of `v` leads to
/// `v` and weighs no more than the difference of their scores.
spec fn parent_step(
    edges: Seq<Seq<Edge>>,
    cost: spec_fn(int, Edge) -> int,
    fs: Seq<(u32, i32)>,
    start: int,
    v: int,
    i: int,
) -> bool {
    let u = fs[v].0 as int;
    &&& 0 <= u < edges.len()
    &&& 0 <= i < edges[u].len()
    &&& spec_vh(edges[u][i]) as int == v
    &&& fs[v].1 >= score_or_zero(fs, start, u) + cost(u, edges[u][i])
}

/// Every scored vertex but the start has such an edge from its predecessor.
spec fn parent_steps_ok(
    edges: Seq<Seq<Edge>>,
    cost: spec_fn(int, Edge) -> int,
    fs: Seq<(u32, i32)>,
    start: int,
) -> bool {
    forall|v: int|
        0 <= v < fs.len() && v != start && #[trigger] fs[v].1 != Weight::MAX ==> exists|i: int|
            #[trigger] parent_step(edges, cost, fs, start, v, i)
}

/// The edge of the recorded predecessor of `v` that leads to it.
spec fn pick_step(
    edges: Seq<Seq<Edge>>,
    cost: spec_fn(int, Edge) -> int,
    fs: Seq<(u32, i32)>,
    start: int,
    v: int,
) -> int {
    choose|i: int| #[trigger] parent_step(edges, cost, fs, start, v, i)
}

/// Whether the targets of the first `k` edges of `x` have scores, each at
/// most `c` plus the edge's weight.
spec fn relaxed(
    edges: Seq<Seq<Edge>>,
    cost: spec_fn(int, Edge) -> int,
    fs: Seq<(u32, i32)>,
    x: int,
    c: int,
    k: int,
) -> bool {
    forall|j: int|
        0 <= j < k ==> {
            let y = spec_vh(#[trigger] edges[x][j]) as int;
            &&& fs[y].1 != Weight::MAX
            &&& fs[y].1 <= c + cost(x, edges[x][j])
        }
}

/// Whether `fs2` keeps every score of `fs`, each no larger than before.
spec fn lowered(fs: Seq<(u32, i32)>, fs2: Seq<(u32, i32)>) -> bool {
    &&& fs2.len() == fs.len()
    &&& forall|y: int|
        0 <= y < fs.len() && fs[y].1 != Weight::MAX ==> #[trigger] fs2[y].1 != Weight::MAX && fs2[y].1 <= fs[y].1
}

/// What the search keeps true for shortest routes: `pv` holds the lowest
/// score each explored vertex was taken from the list with, and the
/// targets of every explored vertex but `except` are relaxed from it; every
/// scored vertex waits in the list with its score or was explored with a
/// score no larger; the start waits with score 0 or was explored with
/// score 0; and predecessors are reached by steps that fit the scores.
spec fn shortest_ok(
    edges: Seq<Seq<Edge>>,
    cost: spec_fn(int, Edge) -> int,
    fs: Seq<(u32, i32)>,
    h: Seq<MinHeapPair>,
    popped: Set<int>,
    pv: Seq<int>,
    start: int,
    except: int,
) -> bool {
    &&& pv.len() == fs.len()
    &&& forall|x: int|
        #[trigger] popped.contains(x) ==> 0 <= x < edges.len() && (x != except ==> relaxed(
            edges,
            cost,
            fs,
            x,
            pv[x],
            edges[x].len() as int,
        ))
    &&& forall|y: int|
        0 <= y < fs.len() && #[trigger] fs[y].1 != Weight::MAX ==> listed_at(h, y, fs[y].1 as int) || (
        popped.contains(y) && pv[y] <= fs[y].1)
    &&& listed_at(h, start, 0) || (popped.contains(start) && pv[start] <= 0)
    &&& parent_steps_ok(edges, cost, fs, start)
}

/// Along any walk from the start to a vertex not yet explored, some entry
/// of the list has a score no larger than the walk's weight.
proof fn lemma_frontier(
    edges: Seq<Seq<Edge>>,
    cost: spec_fn(int, Edge) -> int,
    fs: Seq<(u32, i32)>,
    h: Seq<MinHeapPair>,
    popped: Set<int>,
    pv: Seq<int>,
    start: int,
    vs: Seq<int>,
    wx: Seq<int>,
)
    requires
        shortest_ok(edges, cost, fs, h, popped, pv, start, -1),
        costs_nonneg(edges, cost),
        targets_below(edges, edges.len() as int),
        edges.len() <= fs.len(),
        is_walk(edges, vs, wx),
        vs[0] == start,
        !popped.contains(vs.last()),
    ensures
        exists|j: int| 0 <= j < h.len() && #[trigger] h[j].f_score <= walk_cost(edges, cost, vs, wx, wx.len() as int),
{
    lemma_frontier_prefix(edges, cost, fs, h, popped, pv, start, vs, wx, wx.len() as int);
}

proof fn lemma_frontier_prefix(
    edges: Seq<Seq<Edge>>,
    cost: spec_fn(int, Edge) -> int,
    fs: Seq<(u32, i32)>,
    h: Seq<MinHeapPair>,
    popped: Set<int>,
    pv: Seq<int>,
    start: int,
    vs: Seq<int>,
    wx: Seq<int>,
    k: int,
)
    requires
        shortest_ok(edges, cost, fs, h, popped, pv, start, -1),
        costs_nonneg(edges, cost),
        targets_below(edges, edges.len() as int),
        edges.len() <= fs.len(),
        is_walk(edges, vs, wx),
        vs[0] == start,
        0 <= k <= wx.len(),
    ensures
        (popped.contains(vs[k]) && pv[vs[k]] <= walk_cost(edges, cost, vs, wx, k)) || exists|j: int|
            0 <= j < h.len() && #[trigger] h[j].f_score <= walk_cost(edges, cost, vs, wx, k),
    decreases k,
{
    if k == 0 {
        if listed_at(h, start, 0) {
            let j = choose|j: int| 0 <= j < h.len() && #[trigger] h[j].vertex as int == start && h[j].f_score == 0;
            assert(h[j].f_score <= walk_cost(edges, cost, vs, wx, 0));
        }
    } else {
        lemma_frontier_prefix(edges, cost, fs, h, popped, pv, start, vs, wx, k - 1);
        let x = vs[k - 1];
        let i = wx[k - 1];
        let y = vs[k];
        assert(0 <= x < edges.len() && 0 <= i < edges[x].len() && spec_vh(edges[x][i]) as int == y);
        let w = cost(x, edges[x][i]);
        assert(w >= 0);
        let c0 = walk_cost(edges, cost, vs, wx, k - 1);
        let c1 = walk_cost(edges, cost, vs, wx, k);
        assert(c1 == c0 + w);
        if popped.contains(x) && pv[x] <= c0 {
            assert(relaxed(edges, cost, fs, x, pv[x], edges[x].len() as int));
            assert(fs[y].1 != Weight::MAX && fs[y].1 <= pv[x] + cost(x, edges[x][i]));
            assert(0 <= y < fs.len());
            if listed_at(h, y, fs[y].1 as int) {
                let j = choose|j: int| 0 <= j < h.len() && #[trigger] h[j].vertex as int == y && h[j].f_score == fs[y].1;
                assert(h[j].f_score <= c1);
            }
        } else {
            let j = choose|j: int| 0 <= j < h.len() && #[trigger] h[j].f_score <= c0;
            assert(h[j].f_score <= c1);
        }
    }
}

/// The predecessors recorded from `goal` back to `start` give a route
/// whose cost is at most the goal's score (0 when the goal is the start).
proof fn lemma_route_cost(
    edges: Seq<Seq<Edge>>,
    cost: spec_fn(int, Edge) -> int,
    fs: Seq<(u32, i32)>,
    s: Seq<u32>,
    start: int,
    goal: int,
    kk: int,
) -> (ix: Seq<int>)
    requires
        scores_ok(edges, fs, start, kk),
        parent_steps_ok(edges, cost, fs, start),
        follows_parents(fs, s, start, goal),
        0 <= goal < fs.len(),
        goal == start || fs[goal].1 != Weight::MAX,
    ensures
        route_steps(edges, s, ix),
        route_cost(edges, cost, s, ix, 0) <= score_or_zero(fs, start, goal),
{
    let ix = Seq::new((s.len() - 1) as nat, |q: int| pick_step(edges, cost, fs, start, s[q] as int));
    assert forall|j: int| 0 <= j < ix.len() implies (s[j + 1] as int) < edges.len() && 0 <= #[trigger] ix[j]
        < edges[s[j + 1] as int].len() && spec_vh(edges[s[j + 1] as int][ix[j]]) == s[j] by {
        lemma_parents_scored(fs, s, start, goal, j);
        let v = s[j] as int;
        assert(v != start && s[j + 1] == fs[v].0);
        assert(has_edge(edges, fs[v].0 as int, v));
        assert(exists|i: int| #[trigger] parent_step(edges, cost, fs, start, v, i));
        assert(parent_step(edges, cost, fs, start, v, ix[j]));
    }
    lemma_route_bound(edges, cost, fs, s, start, goal, kk, ix, 0);
    ix
}

proof fn lemma_route_bound(
    edges: Seq<Seq<Edge>>,
    cost: spec_fn(int, Edge) -> int,
    fs: Seq<(u32, i32)>,
    s: Seq<u32>,
    start: int,
    goal: int,
    kk: int,
    ix: Seq<int>,
    j: int,
)
    requires
        scores_ok(edges, fs, start, kk),
        parent_steps_ok(edges, cost, fs, start),
        follows_parents(fs, s, start, goal),
        0 <= goal < fs.len(),
        goal == start || fs[goal].1 != Weight::MAX,
        ix.len() == s.len() - 1,
        forall|q: int| 0 <= q < ix.len() ==> #[trigger] ix[q] == pick_step(edges, cost, fs, start, s[q] as int),
        0 <= j < s.len(),
    ensures
        route_cost(edges, cost, s, ix, j) <= score_or_zero(fs, start, s[j] as int),
    decreases s.len() - j,
{
    if j < s.len() - 1 {
        lemma_route_bound(edges, cost, fs, s, start, goal, kk, ix, j + 1);
        lemma_parents_scored(fs, s, start, goal, j);
        let v = s[j] as int;
        assert(v != start && s[j + 1] == fs[v].0);
        assert(exists|i: int| #[trigger] parent_step(edges, cost, fs, start, v, i));
        assert(parent_step(edges, cost, fs, start, v, ix[j]));
    }
}

/// A lowered score table keeps every relaxed edge relaxed.
proof fn lemma_relaxed_lowered(
    edges: Seq<Seq<Edge>>,
    cost: spec_fn(int, Edge) -> int,
    fs: Seq<(u32, i32)>,
    fs2: Seq<(u32, i32)>,
    x: int,
    c: int,
    k: int,
)
    requires
        relaxed(edges, cost, fs, x, c, k),
        lowered(fs, fs2),
        0 <= x < edges.len(),
        k <= edges[x].len(),
        targets_below(edges, fs.len() as int),
    ensures
        relaxed(edges, cost, fs2, x, c, k),
{
    assert forall|j: int| 0 <= j < k implies {
        let y = spec_vh(#[trigger] edges[x][j]) as int;
        &&& fs2[y].1 != Weight::MAX
        &&& fs2[y].1 <= c + cost(x, edges[x][j])
    } by {
        let y = spec_vh(edges[x][j]) as int;
        assert(fs[y].1 != Weight::MAX);
        assert(fs2[y].1 != Weight::MAX);
    }
}

/// Taking entry `i` (vertex `u`, score `p`) from the list: `u` counts as
/// explored, with the lowest score it was taken with.
proof fn lemma_shortest_pop(
    edges: Seq<Seq<Edge>>,
    cost: spec_fn(int, Edge) -> int,
    fs: Seq<(u32, i32)>,
    h: Seq<MinHeapPair>,
    popped: Set<int>,
    pv: Seq<int>,
    start: int,
    i: int,
)
    requires
        shortest_ok(edges, cost, fs, h, popped, pv, start, -1),
        0 <= i < h.len(),
        (h[i].vertex as int) < edges.len(),
        edges.len() <= fs.len(),
    ensures
        ({
            let u = h[i].vertex as int;
            let p = h[i].f_score as int;
            let pv1 = if popped.contains(u) && pv[u] < p { pv } else { pv.update(u, p) };
            &&& shortest_ok(edges, cost, fs, h.remove(i), popped.insert(u), pv1, start, u)
            &&& pv1[u] <= p
            &&& pv1[u] < p ==> relaxed(edges, cost, fs, u, pv1[u], edges[u].len() as int)
        }),
{
    let u = h[i].vertex as int;
    let p = h[i].f_score as int;
    let pv1 = if popped.contains(u) && pv[u] < p { pv } else { pv.update(u, p) };
    let h1 = h.remove(i);
    let popped1 = popped.insert(u);
    assert forall|x: int| #[trigger] popped1.contains(x) implies 0 <= x < edges.len() && (x != u ==> relaxed(
        edges,
        cost,
        fs,
        x,
        pv1[x],
        edges[x].len() as int,
    )) by {
        if x != u {
            assert(popped.contains(x));
            assert(pv1[x] == pv[x]);
        }
    }
    assert forall|y: int|
        0 <= y < fs.len() && #[trigger] fs[y].1 != Weight::MAX implies listed_at(h1, y, fs[y].1 as int) || (
        popped1.contains(y) && pv1[y] <= fs[y].1) by {
        if listed_at(h, y, fs[y].1 as int) {
            let j = choose|j: int| 0 <= j < h.len() && #[trigger] h[j].vertex as int == y && h[j].f_score == fs[y].1;
            if j < i {
                assert(h1[j] == h[j]);
            } else if j > i {
                assert(h1[j - 1] == h[j]);
            }
        } else {
            if y != u {
                assert(pv1[y] == pv[y]);
            }
        }
    }
    if listed_at(h, start, 0) {
        let j = choose|j: int| 0 <= j < h.len() && #[trigger] h[j].vertex as int == start && h[j].f_score == 0;
        if j < i {
            assert(h1[j] == h[j]);
        } else if j > i {
            assert(h1[j - 1] == h[j]);
        }
    } else if start != u {
        assert(pv1[start] == pv[start]);
    }
}

/// Recording score `newf` for `t`, reached from `u` (taken with score `p`)
/// by edge `k`, keeps what the search knows of shortest routes and relaxes
/// that edge.
proof fn lemma_shortest_relax(
    edges: Seq<Seq<Edge>>,
    cost: spec_fn(int, Edge) -> int,
    fs: Seq<(u32, i32)>,
    h: Seq<MinHeapPair>,
    popped: Set<int>,
    pv: Seq<int>,
    start: int,
    u: u32,
    p: int,
    k: int,
    newf: i32,
)
    requires
        shortest_ok(edges, cost, fs, h, popped, pv, start, u as int),
        relaxed(edges, cost, fs, u as int, p, k),
        pv[u as int] < p ==> relaxed(edges, cost, fs, u as int, pv[u as int], edges[u as int].len() as int),
        targets_below(edges, edges.len() as int),
        edges.len() <= fs.len(),
        (u as int) < edges.len(),
        0 <= k < edges[u as int].len(),
        0 <= p,
        u as int == start || fs[u as int].1 <= p,
        cost(u as int, edges[u as int][k]) >= 1,
        newf == p + cost(u as int, edges[u as int][k]),
        newf <= fs[spec_vh(edges[u as int][k]) as int].1,
        newf < Weight::MAX,
    ensures
        ({
            let t = spec_vh(edges[u as int][k]);
            let fs2 = fs.update(t as int, (u, newf));
            let h2 = h.push(MinHeapPair { vertex: t, f_score: newf });
            &&& shortest_ok(edges, cost, fs2, h2, popped, pv, start, u as int)
            &&& relaxed(edges, cost, fs2, u as int, p, k + 1)
            &&& pv[u as int] < p ==> relaxed(edges, cost, fs2, u as int, pv[u as int], edges[u as int].len() as int)
        }),
{
    let t = spec_vh(edges[u as int][k]);
    let fs2 = fs.update(t as int, (u, newf));
    let h2 = h.push(MinHeapPair { vertex: t, f_score: newf });
    assert(fs2[t as int] == (u, newf));
    assert(lowered(fs, fs2)) by {
        assert forall|y: int| 0 <= y < fs.len() && fs[y].1 != Weight::MAX implies #[trigger] fs2[y].1 != Weight::MAX
            && fs2[y].1 <= fs[y].1 by {
            if y != t as int {
                assert(fs2[y] == fs[y]);
            }
        }
    }
    assert forall|x: int| #[trigger] popped.contains(x) implies 0 <= x < edges.len() && (x != u as int ==> relaxed(
        edges,
        cost,
        fs2,
        x,
        pv[x],
        edges[x].len() as int,
    )) by {
        if x != u as int {
            assert(relaxed(edges, cost, fs, x, pv[x], edges[x].len() as int));
            assert forall|j: int| 0 <= j < edges[x].len() implies {
                let y = spec_vh(#[trigger] edges[x][j]) as int;
                &&& fs2[y].1 != Weight::MAX
                &&& fs2[y].1 <= pv[x] + cost(x, edges[x][j])
            } by {
                let y = spec_vh(edges[x][j]) as int;
                assert(fs[y].1 != Weight::MAX);
                if y != t as int {
                    assert(fs2[y] == fs[y]);
                }
            }
        }
    }
    assert(h2[h.len() as int].vertex == t && h2[h.len() as int].f_score == newf);
    assert forall|y: int|
        0 <= y < fs2.len() && #[trigger] fs2[y].1 != Weight::MAX implies listed_at(h2, y, fs2[y].1 as int) || (
        popped.contains(y) && pv[y] <= fs2[y].1) by {
        if y != t as int {
            assert(fs2[y] == fs[y]);
            assert(fs[y].1 != Weight::MAX);
            if listed_at(h, y, fs[y].1 as int) {
                let j = choose|j: int| 0 <= j < h.len() && #[trigger] h[j].vertex as int == y && h[j].f_score == fs[y].1;
                assert(h2[j] == h[j]);
            }
        }
    }
    if listed_at(h, start, 0) {
        let j = choose|j: int| 0 <= j < h.len() && #[trigger] h[j].vertex as int == start && h[j].f_score == 0;
        assert(h2[j] == h[j]);
    }
    assert forall|v: int| 0 <= v < fs2.len() && v != start && #[trigger] fs2[v].1 != Weight::MAX implies exists|i: int|
        #[trigger] parent_step(edges, cost, fs2, start, v, i) by {
        if v == t as int {
            if u as int != start {
                assert(u != t);
                assert(fs2[u as int] == fs[u as int]);
            }
            assert(parent_step(edges, cost, fs2, start, v, k));
        } else {
            assert(fs2[v] == fs[v]);
            assert(fs[v].1 != Weight::MAX);
            let i = choose|i: int| #[trigger] parent_step(edges, cost, fs, start, v, i);
            let pu = fs[v].0 as int;
            if pu != start && pu != t as int {
                assert(fs2[pu] == fs[pu]);
            }
            assert(parent_step(edges, cost, fs2, start, v, i));
        }
    }
    lemma_relaxed_lowered(edges, cost, fs, fs2, u as int, p, k);
    if pv[u as int] < p {
        lemma_relaxed_lowered(edges, cost, fs, fs2, u as int, pv[u as int], edges[u as int].len() as int);
    }
}

/// One more edge of `x` relaxed.
proof fn lemma_relaxed_extend(
    edges: Seq<Seq<Edge>>,
    cost: spec_fn(int, Edge) -> int,
    fs: Seq<(u32, i32)>,
    x: int,
    c: int,
    k: int,
)
    requires
        relaxed(edges, cost, fs, x, c, k),
        fs[spec_vh(edges[x][k]) as int].1 != Weight::MAX,
        fs[spec_vh(edges[x][k]) as int].1 <= c + cost(x, edges[x][k]),
    ensures
        relaxed(edges, cost, fs, x, c, k + 1),
{
}

/// Once every edge of `u` is relaxed, `u` is explored like the others.
proof fn lemma_shortest_close(
    edges: Seq<Seq<Edge>>,
    cost: spec_fn(int, Edge) -> int,
    fs: Seq<(u32, i32)>,
    h: Seq<MinHeapPair>,
    popped: Set<int>,
    pv: Seq<int>,
    start: int,
    u: int,
    p: int,
)
    requires
        shortest_ok(edges, cost, fs, h, popped, pv, start, u),
        relaxed(edges, cost, fs, u, p, edges[u].len() as int),
        pv[u] <= p,
        pv[u] < p ==> relaxed(edges, cost, fs, u, pv[u], edges[u].len() as int),
    ensures
        shortest_ok(edges, cost, fs, h, popped, pv, start, -1),
{
    assert forall|x: int| #[trigger] popped.contains(x) implies 0 <= x < edges.len() && (x != -1 ==> relaxed(
        edges,
        cost,
        fs,
        x,
        pv[x],
        edges[x].len() as int,
    )) by {
        if x == u && pv[u] == p {
            assert(relaxed(edges, cost, fs, u, p, edges[u].len() as int));
        }
    }
}

/// When the goal is taken from the list first, the route along its
/// recorded predecessors weighs no more than any walk to it.
proof fn lemma_shortest_goal(
    edges: Seq<Seq<Edge>>,
    cost: spec_fn(int, Edge) -> int,
    fs: Seq<(u32, i32)>,
    h: Seq<MinHeapPair>,
    popped: Set<int>,
    pv: Seq<int>,
    start: int,
    goal: int,
    kk: int,
    i: int,
    s: Seq<u32>,
)
    requires
        shortest_ok(edges, cost, fs, h, popped, pv, start, -1),
        scores_ok(edges, fs, start, kk),
        list_ok(edges, fs, h, start, kk),
        costs_nonneg(edges, cost),
        targets_below(edges, edges.len() as int),
        edges.len() <= fs.len(),
        !popped.contains(goal),
        0 <= i < h.len(),
        h[i].vertex as int == goal,
        forall|j: int| 0 <= j < h.len() ==> h[i].f_score <= #[trigger] h[j].f_score,
        follows_parents(fs, s, start, goal),
        0 <= goal < fs.len(),
        goal == start || fs[goal].1 != Weight::MAX,
    ensures
        is_cheapest_route(edges, cost, s, start, goal),
{
    let ix = lemma_route_cost(edges, cost, fs, s, start, goal, kk);
    assert forall|vs: Seq<int>, wx: Seq<int>|
        #[trigger] is_walk(edges, vs, wx) && vs[0] == start && vs.last() == goal implies route_cost(edges, cost, s, ix, 0)
            <= walk_cost(edges, cost, vs, wx, wx.len() as int) by {
        lemma_frontier(edges, cost, fs, h, popped, pv, start, vs, wx);
        let j = choose|j: int| 0 <= j < h.len() && #[trigger] h[j].f_score <= walk_cost(edges, cost, vs, wx, wx.len() as int);
        assert(h[i].f_score <= h[j].f_score);
    }
}

/// The index of an entry of smallest score.
fn min_index(list: &Vec<MinHeapPair>) -> (i: usize)
    requires
        list.len() > 0,
    ensures
        i < list.len(),
        forall|j: int| 0 <= j < list.len() ==> list[i as int].f_score <= #[trigger] list[j].f_score,
{
    let mut best: usize = 0;
    let mut j: usize = 1;
    while j < list.len()
        invariant
            best < list.len(),
            1 <= j <= list.len(),
            forall|q: int| 0 <= q < j ==> list[best as int].f_score <= #[trigger] list[q].f_score,
        decreases list.len() - j,
    {
        if list[j].f_score < list[best].f_score {
            best = j;
        }
        j = j + 1;
    }
    best
}

/// A* search from `start` to `goal`: explores the vertex of smallest score
/// first, where a vertex's score is the cost of the way it was reached,
/// step by step the edge's weight plus `h_score` of the step. Returns the
/// route found, goal at the bottom of the stack and start on top, or `None`
/// when the goal cannot be reached. The route found is a cheapest one when
/// each step is priced as its weight plus the heuristic's answer for it.
pub fn a_star<Edges, Heuristic>(
    edge_storage: &Edges,
    start: VHandle,
    goal: VHandle,
    vertices_count: usize,
    h_score: Heuristic,
) -> (r: Option<Stack<VHandle>>)
    where
        Edges: EdgeStore,
        Heuristic: Fn(VHandle, Edge) -> Weight,
    requires
        edge_storage.wf(),
        start < edge_storage.spec_edges().len(),
        targets_below(edge_storage.spec_edges(), edge_storage.spec_edges().len() as int),
        edge_storage.spec_edges().len() <= vertices_count,
        layout_fits(vertices_count as int, 8),
        forall|v: VHandle, e: Edge| #[trigger] h_score.requires((v, e)),
        steps_ok(edge_storage.spec_edges(), h_score, vertices_count as int),
    ensures
        (r is Some) <==> reachable(edge_storage.spec_edges(), start as int, goal as int),
        r matches Some(st) ==> is_route(edge_storage.spec_edges(), handle_stack_items(st), start as int, goal as int)
            && handle_stack_items(st).len() <= vertices_count,
        forall|cost: spec_fn(int, Edge) -> int|
            #[trigger] costs_match(h_score, edge_storage.spec_edges(), cost) ==> (r matches Some(st)
                ==> is_cheapest_route(edge_storage.spec_edges(), cost, handle_stack_items(st), start as int, goal as int)),
{
    let ghost edges = edge_storage.spec_edges();
    let ghost nv = edges.len() as int;
    let ghost n = vertices_count as int;
    let ghost kk = cost_bound(n);
    let ghost top = kk * n;
    let ghost base: int = max_degree(edges) + 1int;
    let ghost st = start as int;
    proof {
        assert(kk * (n + 1) <= Weight::MAX) by (nonlinear_arith)
            requires
                kk == (Weight::MAX as int) / (n + 1),
                n >= 0,
        ;
        assert(kk >= 0);
    }
    let mut explore_list: Vec<MinHeapPair> = Vec::new();
    let mut f_scores = pair_array_new_with_default(vertices_count, (0, Weight::MAX));
    explore_list.push(MinHeapPair::new(start, 0));
    let ghost mut popped: Set<int> = Set::empty();
    let ghost mut pv: Seq<int> = Seq::new(n as nat, |q: int| 0int);
    proof {
        let fs = pair_array_items(f_scores);
        assert(count_scored(fs) == 0) by {
            lemma_count_scored_zero(fs);
        }
        assert(explore_list@[0].vertex as int == st && explore_list@[0].f_score == 0);
        assert(listed_at(explore_list@, st, 0));
        assert forall|c: spec_fn(int, Edge) -> int| #[trigger] costs_match(h_score, edges, c) implies shortest_ok(
            edges,
            c,
            fs,
            explore_list@,
            popped,
            pv,
            st,
            -1,
        ) by {}
        assert(listed(explore_list@, st)) by {
            assert(explore_list@[0].vertex as int == st);
        }
    }
    while explore_list.len() > 0
        invariant
            edge_storage.wf(),
            edges == edge_storage.spec_edges(),
            nv == edges.len(),
            0 <= st < nv,
            st == start,
            targets_below(edges, nv),
            nv <= n,
            n == vertices_count,
            layout_fits(n, 8),
            forall|v: VHandle, e: Edge| #[trigger] h_score.requires((v, e)),
            steps_ok(edges, h_score, n),
            kk == cost_bound(n),
            kk >= 0,
            kk * (n + 1) <= Weight::MAX,
            top == kk * n,
            base == max_degree(edges) + 1,
            pair_array_items(f_scores).len() == n,
            scores_ok(edges, pair_array_items(f_scores), st, kk),
            list_ok(edges, pair_array_items(f_scores), explore_list@, st, kk),
            covered(pair_array_items(f_scores), explore_list@, popped, st),
            closed_except(edges, pair_array_items(f_scores), popped, st, -1),
            forall|x: int| #[trigger] popped.contains(x) ==> 0 <= x,
            !popped.contains(goal as int),
            pv.len() == n,
            forall|c: spec_fn(int, Edge) -> int|
                #[trigger] costs_match(h_score, edges, c) ==> shortest_ok(
                    edges,
                    c,
                    pair_array_items(f_scores),
                    explore_list@,
                    popped,
                    pv,
                    st,
                    -1,
                ),
        decreases heap_potential(explore_list@, base, top),
    {
        let ghost fs0 = pair_array_items(f_scores);
        let ghost h0 = explore_list@;
        let i = min_index(&explore_list);
        let current = explore_list.remove(i);
        let u = current.vertex;
        let p = current.f_score;
        let ghost h1 = explore_list@;
        proof {
            assert(h1 == h0.remove(i as int));
            assert(current == h0[i as int]);
            lemma_count_scored_update(fs0, 0, fs0[0]);
            assert(kk * count_scored(fs0) <= kk * n) by (nonlinear_arith)
                requires
                    count_scored(fs0) <= n,
                    kk >= 0,
            ;
            lemma_heap_potential_remove(h0, i as int, base, top);
        }
        if u == goal {
            let path = reconstruct_path(&f_scores, start, goal);
            proof {
                lemma_route_from_parents(edges, fs0, handle_stack_items(path), st, goal as int, kk);
                lemma_route_reachable(edges, handle_stack_items(path), st, goal as int);
                assert forall|c: spec_fn(int, Edge) -> int| #[trigger] costs_match(h_score, edges, c) implies is_cheapest_route(
                    edges,
                    c,
                    handle_stack_items(path),
                    st,
                    goal as int,
                ) by {
                    lemma_shortest_goal(edges, c, fs0, h0, popped, pv, st, goal as int, kk, i as int, handle_stack_items(path));
                }
            }
            return Some(path);
        }
        let ghost old_popped = popped;
        let ghost popped1 = popped.insert(u as int);
        proof {
            let pv1 = if popped.contains(u as int) && pv[u as int] < p { pv } else { pv.update(u as int, p as int) };
            assert forall|c: spec_fn(int, Edge) -> int| #[trigger] costs_match(h_score, edges, c) implies shortest_ok(
                edges,
                c,
                fs0,
                h1,
                popped1,
                pv1,
                st,
                u as int,
            ) && (pv1[u as int] < p ==> relaxed(edges, c, fs0, u as int, pv1[u as int], edges[u as int].len() as int)) by {
                lemma_shortest_pop(edges, c, fs0, h0, popped, pv, st, i as int);
            }
            pv = pv1;
            popped = popped1;
            assert forall|v: int| #[trigger] in_scope(fs0, st, v) implies popped.contains(v) || listed(h1, v) by {
                if !popped1.contains(v) {
                    assert(listed(h0, v));
                    let j = choose|j: int| 0 <= j < h0.len() && #[trigger] h0[j].vertex as int == v;
                    if j < i {
                        assert(h1[j] == h0[j]);
                    } else if j > i {
                        assert(h1[j - 1] == h0[j]);
                    }
                }
            }
            assert forall|j: int| 0 <= j < h1.len() implies {
                let e = #[trigger] h1[j];
                &&& (e.vertex as int) < edges.len()
                &&& 0 <= e.f_score <= kk * count_scored(fs0)
                &&& (e.vertex as int == st || (fs0[e.vertex as int].1 != Weight::MAX && fs0[e.vertex as int].1
                    <= e.f_score))
            } by {
                if j < i {
                    assert(h1[j] == h0[j]);
                } else {
                    assert(h1[j] == h0[j + 1]);
                }
            }
        }
        proof {
            assert forall|uu: int| #[trigger] popped.contains(uu) && uu != u as int implies 0 <= uu < edges.len() && forall|ii: int|
                0 <= ii < edges[uu].len() ==> in_scope(fs0, st, spec_vh(#[trigger] edges[uu][ii]) as int) by {
                assert(popped1.contains(uu));
                assert(old_popped.contains(uu));
            }
        }
        let deg = edge_storage.edges_len(u);
        let ghost p0 = heap_potential(h1, base, top);
        let ghost q = power(base, (top - p - 1) as nat);
        let ghost mut pushes: int = 0;
        proof {
            lemma_max_degree(edges, u as int);
            lemma_power_positive(base, (top - p - 1) as nat);
        }
        let mut k: usize = 0;
        while k < deg
            invariant
                edge_storage.wf(),
                edges == edge_storage.spec_edges(),
                nv == edges.len(),
                0 <= st < nv,
                st == start,
                targets_below(edges, nv),
                nv <= n,
                n == vertices_count,
                forall|v: VHandle, e: Edge| #[trigger] h_score.requires((v, e)),
                steps_ok(edges, h_score, n),
                kk >= 0,
                kk * (n + 1) <= Weight::MAX,
                top == kk * n,
                base == max_degree(edges) + 1,
                (u as int) < nv,
                deg == edges[u as int].len(),
                deg < base,
                k <= deg,
                0 <= p <= kk * count_scored(pair_array_items(f_scores)),
                p <= top,
                u as int == st || (pair_array_items(f_scores)[u as int].1 != Weight::MAX
                    && pair_array_items(f_scores)[u as int].1 <= p),
                pair_array_items(f_scores).len() == n,
                scores_ok(edges, pair_array_items(f_scores), st, kk),
                list_ok(edges, pair_array_items(f_scores), explore_list@, st, kk),
                covered(pair_array_items(f_scores), explore_list@, popped, st),
                closed_except(edges, pair_array_items(f_scores), popped, st, u as int),
                forall|x: int| #[trigger] popped.contains(x) ==> 0 <= x,
                kk == cost_bound(n),
                popped.contains(u as int),
                !popped.contains(goal as int),
                forall|j: int|
                    0 <= j < k ==> in_scope(pair_array_items(f_scores), st, spec_vh(#[trigger] edges[u as int][j]) as int),
                q == power(base, (top - p - 1) as nat),
                q >= 1,
                0 <= pushes <= k,
                pushes > 0 ==> p < top,
                heap_potential(explore_list@, base, top) <= p0 + pushes * q,
                pv.len() == n,
                pv[u as int] <= p,
                forall|c: spec_fn(int, Edge) -> int|
                    #[trigger] costs_match(h_score, edges, c) ==> shortest_ok(
                        edges,
                        c,
                        pair_array_items(f_scores),
                        explore_list@,
                        popped,
                        pv,
                        st,
                        u as int,
                    ) && relaxed(edges, c, pair_array_items(f_scores), u as int, p as int, k as int) && (pv[u as int]
                        < p ==> relaxed(edges, c, pair_array_items(f_scores), u as int, pv[u as int], deg as int)),
            decreases deg - k,
        {
            let ghost fs = pair_array_items(f_scores);
            let ghost h = explore_list@;
            let neighbor = edge_storage.edge_at(u, k);
            let hval = h_score(u, neighbor);
            proof {
                assert(h_score.ensures((u, neighbor), hval));
                assert(h_score.ensures(((u as int) as u32, edges[u as int][k as int]), hval));
                assert(0 <= hval && 1 <= spec_wgt(edges[u as int][k as int]) + hval <= kk);
                lemma_count_scored_update(fs, 0, fs[0]);
                assert(kk * count_scored(fs) + kk <= kk * (n + 1)) by (nonlinear_arith)
                    requires
                        count_scored(fs) <= n,
                        kk >= 0,
                ;
            }
            let neighbor_f_score = wgt(neighbor) + p + hval;
            let t = vh(neighbor);
            proof {
                assert(spec_vh(edges[u as int][k as int]) < nv);
            }
            let recorded = pair_array_get(&f_scores, t as usize);
            if recorded.1 < neighbor_f_score {
                proof {
                    assert forall|c: spec_fn(int, Edge) -> int| #[trigger] costs_match(h_score, edges, c) implies relaxed(
                        edges,
                        c,
                        fs,
                        u as int,
                        p as int,
                        k as int + 1,
                    ) by {
                        assert(c(u as int, edges[u as int][k as int]) == spec_wgt(edges[u as int][k as int]) + hval);
                        lemma_relaxed_extend(edges, c, fs, u as int, p as int, k as int);
                    }
                }
            } else {
                let entry = MinHeapPair::new(t, neighbor_f_score);
                explore_list.push(entry);
                pair_array_set(&mut f_scores, t as usize, (u, neighbor_f_score));
                proof {
                    lemma_relax_counts(fs, kk, n, u, p as int, t, neighbor_f_score);
                    assert forall|c: spec_fn(int, Edge) -> int| #[trigger] costs_match(h_score, edges, c) implies ({
                        let fs2 = fs.update(t as int, (u, neighbor_f_score));
                        let h2 = h.push(MinHeapPair { vertex: t, f_score: neighbor_f_score });
                        &&& shortest_ok(edges, c, fs2, h2, popped, pv, st, u as int)
                        &&& relaxed(edges, c, fs2, u as int, p as int, k as int + 1)
                        &&& pv[u as int] < p ==> relaxed(edges, c, fs2, u as int, pv[u as int], edges[u as int].len() as int)
                    }) by {
                        assert(c(u as int, edges[u as int][k as int]) == spec_wgt(edges[u as int][k as int]) + hval);
                        lemma_shortest_relax(edges, c, fs, h, popped, pv, st, u, p as int, k as int, neighbor_f_score);
                    }
                    lemma_relax_scores(edges, fs, st, kk, u, p as int, t, neighbor_f_score);
                    lemma_relax_list(edges, fs, h, popped, st, kk, u, t, neighbor_f_score);
                    let fs2 = pair_array_items(f_scores);
                    assert(fs2 == fs.update(t as int, (u, neighbor_f_score)));
                    assert(explore_list@ == h.push(MinHeapPair { vertex: t, f_score: neighbor_f_score }));
                    if u as int != st && u != t {
                        assert(fs2[u as int] == fs[u as int]);
                    }
                    lemma_power_mono(base, (top - neighbor_f_score) as nat, (top - p - 1) as nat);
                    assert(explore_list@.drop_last() =~= h);
                    assert(pushes * q + q == (pushes + 1) * q) by (nonlinear_arith);
                    pushes = pushes + 1;
                }
            }
            proof {
                assert(in_scope(pair_array_items(f_scores), st, spec_vh(edges[u as int][k as int]) as int));
            }
            k = k + 1;
        }
        proof {
            let fs = pair_array_items(f_scores);
            assert forall|uu: int| #[trigger] popped.contains(uu) && uu != -1 implies 0 <= uu < edges.len() && forall|i: int|
                0 <= i < edges[uu].len() ==> in_scope(fs, st, spec_vh(#[trigger] edges[uu][i]) as int) by {
                if uu != u as int {
                    assert(popped.contains(uu) && uu != u as int);
                }
            }
            assert forall|c: spec_fn(int, Edge) -> int| #[trigger] costs_match(h_score, edges, c) implies shortest_ok(
                edges,
                c,
                fs,
                explore_list@,
                popped,
                pv,
                st,
                -1,
            ) by {
                lemma_shortest_close(edges, c, fs, explore_list@, popped, pv, st, u as int, p as int);
            }
            lemma_heap_potential_nonneg(explore_list@, base, top);
            lemma_power_positive(base, (top - p) as nat);
            if pushes > 0 {
                assert(power(base, (top - p) as nat) == base * q);
                assert(pushes * q < base * q) by (nonlinear_arith)
                    requires
                        pushes < base,
                        q >= 1,
                ;
            }
        }
    }
    proof {
        let fs = pair_array_items(f_scores);
        assert forall|uu: int, w: int| popped.contains(uu) && #[trigger] has_edge(edges, uu, w) implies popped.contains(w) by {
            let kq = choose|kq: int| 0 <= kq < edges[uu].len() && spec_vh(#[trigger] edges[uu][kq]) == w;
            assert(in_scope(fs, st, w));
            if !popped.contains(w) {
                assert(listed(explore_list@, w));
            }
        }
        assert(in_scope(fs, st, st));
        if reachable(edges, st, goal as int) {
            lemma_closed_holds_reachable(edges, popped, st, goal as int);
        }
    }
    None
}

proof fn lemma_count_scored_zero(fs: Seq<(u32, i32)>)
    requires
        forall|j: int| 0 <= j < fs.len() ==> #[trigger] fs[j].1 == Weight::MAX,
    ensures
        count_scored(fs) == 0,
    decreases fs.len(),
{
    if fs.len() > 0 {
        assert forall|j: int| 0 <= j < fs.drop_last().len() implies #[trigger] fs.drop_last()[j].1 == Weight::MAX by {
            assert(fs.drop_last()[j] == fs[j]);
        }
        lemma_count_scored_zero(fs.drop_last());
    }
}

/// Dijkstra's algorithm: A* without a heuristic, so that a vertex's score
/// is the weight of the way it was reached, and the route found is one of
/// least total weight.
pub fn dijkstra<Edges>(edge_storage: &Edges, start: VHandle, goal: VHandle, vertices_count: usize) -> (r: Option<
    Stack<VHandle>,
>)
    where
        Edges: EdgeStore,
    requires
        edge_storage.wf(),
        start < edge_storage.spec_edges().len(),
        targets_below(edge_storage.spec_edges(), edge_storage.spec_edges().len() as int),
        edge_storage.spec_edges().len() <= vertices_count,
        layout_fits(vertices_count as int, 8),
        forall|v: int, i: int|
            0 <= v < edge_storage.spec_edges().len() && 0 <= i < edge_storage.spec_edges()[v].len() ==> 1
                <= spec_wgt(#[trigger] edge_storage.spec_edges()[v][i]) <= cost_bound(vertices_count as int),
    ensures
        (r is Some) <==> reachable(edge_storage.spec_edges(), start as int, goal as int),
        r matches Some(st) ==> is_route(edge_storage.spec_edges(), handle_stack_items(st), start as int, goal as int)
            && handle_stack_items(st).len() <= vertices_count,
        r matches Some(st) ==> is_cheapest_route(
            edge_storage.spec_edges(),
            step_weight(),
            handle_stack_items(st),
            start as int,
            goal as int,
        ),
{
    let no_heuristic = |_v: VHandle, _e: Edge| -> (r: Weight)
        ensures
            r == 0,
        { 0 };
    assert(costs_match(no_heuristic, edge_storage.spec_edges(), step_weight()));
    a_star(edge_storage, start, goal, vertices_count, no_heuristic)
}

} // verus!
