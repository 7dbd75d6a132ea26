//! Walks, distances and route counts in a directed graph.
//!
//! A graph is given by its adjacency: for each vertex, the list of the vertices
//! it links to, in order and with repetitions. This module is purely
//! mathematical; it is what the contracts of the searches speak of.

use vstd::prelude::*;

verus! {

/// For each vertex the vertices it links to.
pub type Adj = Seq<Seq<u32>>;

/// A set of vertices, as a predicate.
pub type Allowed = spec_fn(u32) -> bool;

/// `u` links to `v`.
pub open spec fn edge(adj: Adj, u: u32, v: u32) -> bool {
    u < adj.len() && adj[u as int].contains(v)
}

/// Every link leads to a vertex of the graph.
pub open spec fn closed_under_links(adj: Adj) -> bool {
    forall|u: int, i: int|
        #![trigger adj[u][i]]
        0 <= u < adj.len() && 0 <= i < adj[u].len() ==> adj[u][i] < adj.len()
}

/// `rev` holds the links of `fwd` turned round.
pub open spec fn transposed(fwd: Adj, rev: Adj) -> bool {
    &&& fwd.len() == rev.len()
    &&& forall|u: u32, v: u32| #[trigger] edge(fwd, u, v) <==> edge(rev, v, u)
}

/// `p` is a walk from `u` to `v` along links, and every vertex after the first
/// is allowed.
pub open spec fn is_walk(adj: Adj, ok: Allowed, p: Seq<u32>, u: u32, v: u32) -> bool {
    &&& p.len() >= 1
    &&& p[0] == u
    &&& p.last() == v
    &&& forall|i: int| #![trigger p[i]] 1 <= i < p.len() ==> edge(adj, p[i - 1], p[i]) && ok(p[i])
}

/// Some walk from `u` to `v` takes `k` steps.
pub open spec fn has_walk(adj: Adj, ok: Allowed, u: u32, v: u32, k: nat) -> bool {
    exists|p: Seq<u32>| #[trigger] is_walk(adj, ok, p, u, v) && p.len() == k + 1
}

/// `d` steps lead from `u` to `v`, and no fewer do.
pub open spec fn is_distance(adj: Adj, ok: Allowed, u: u32, v: u32, d: nat) -> bool {
    &&& has_walk(adj, ok, u, v, d)
    &&& forall|k: nat| k < d ==> !#[trigger] has_walk(adj, ok, u, v, k)
}

/// Some walk leads from `u` to `v`.
pub open spec fn reachable(adj: Adj, ok: Allowed, u: u32, v: u32) -> bool {
    exists|k: nat| #[trigger] has_walk(adj, ok, u, v, k)
}

/// The fewest steps from `u` to `v`, where there is a walk at all.
#[verifier::opaque]
pub open spec fn distance(adj: Adj, ok: Allowed, u: u32, v: u32) -> Option<nat> {
    if reachable(adj, ok, u, v) {
        Some(choose|d: nat| is_distance(adj, ok, u, v, d))
    } else {
        None
    }
}

/// A walk no longer than any other with the same ends.
pub open spec fn is_shortest_walk(adj: Adj, ok: Allowed, p: Seq<u32>, u: u32, v: u32) -> bool {
    &&& is_walk(adj, ok, p, u, v)
    &&& distance(adj, ok, u, v) == Some((p.len() - 1) as nat)
}

// ---------------------------------------------------------------------------
// Distances
// ---------------------------------------------------------------------------

proof fn lemma_least_walk(adj: Adj, ok: Allowed, u: u32, v: u32, k: nat)
    requires
        has_walk(adj, ok, u, v, k),
    ensures
        exists|d: nat| d <= k && is_distance(adj, ok, u, v, d),
    decreases k,
{
    if forall|j: nat| j < k ==> !#[trigger] has_walk(adj, ok, u, v, j) {
        assert(is_distance(adj, ok, u, v, k));
    } else {
        let j = choose|j: nat| j < k && #[trigger] has_walk(adj, ok, u, v, j);
        lemma_least_walk(adj, ok, u, v, j);
    }
}

/// A distance is unique.
pub proof fn lemma_distance_is(adj: Adj, ok: Allowed, u: u32, v: u32, d: nat)
    requires
        is_distance(adj, ok, u, v, d),
    ensures
        distance(adj, ok, u, v) == Some(d),
{
    reveal(distance);
    let e = choose|e: nat| is_distance(adj, ok, u, v, e);
    assert(is_distance(adj, ok, u, v, e));
    if e < d {
        assert(has_walk(adj, ok, u, v, e));
    } else if d < e {
        assert(has_walk(adj, ok, u, v, d));
    }
}

/// A walk of `k` steps bounds the distance by `k`.
pub proof fn lemma_walk_bounds_distance(adj: Adj, ok: Allowed, u: u32, v: u32, k: nat)
    requires
        has_walk(adj, ok, u, v, k),
    ensures
        distance(adj, ok, u, v) is Some,
        distance(adj, ok, u, v)->0 <= k,
        is_distance(adj, ok, u, v, distance(adj, ok, u, v)->0),
{
    lemma_least_walk(adj, ok, u, v, k);
    let d = choose|d: nat| d <= k && is_distance(adj, ok, u, v, d);
    lemma_distance_is(adj, ok, u, v, d);
}

/// What a distance says of walks.
pub proof fn lemma_distance_props(adj: Adj, ok: Allowed, u: u32, v: u32)
    ensures
        distance(adj, ok, u, v) is Some ==> is_distance(
            adj,
            ok,
            u,
            v,
            distance(adj, ok, u, v)->0,
        ),
        distance(adj, ok, u, v) is None ==> forall|k: nat|
            !#[trigger] has_walk(adj, ok, u, v, k),
{
    reveal(distance);
    if reachable(adj, ok, u, v) {
        let k = choose|k: nat| #[trigger] has_walk(adj, ok, u, v, k);
        lemma_walk_bounds_distance(adj, ok, u, v, k);
    }
}

// ---------------------------------------------------------------------------
// Steps
// ---------------------------------------------------------------------------

/// Nothing but the vertex itself is no step away.
pub proof fn lemma_zero_steps(adj: Adj, ok: Allowed, u: u32, v: u32)
    ensures
        has_walk(adj, ok, u, v, 0) <==> u == v,
        u == v ==> distance(adj, ok, u, v) == Some(0nat),
{
    if u == v {
        assert(is_walk(adj, ok, seq![u], u, u));
        assert(is_distance(adj, ok, u, u, 0));
        lemma_distance_is(adj, ok, u, u, 0);
    }
    if has_walk(adj, ok, u, v, 0) {
        let p = choose|p: Seq<u32>| #[trigger] is_walk(adj, ok, p, u, v) && p.len() == 1;
        assert(p[0] == p.last());
    }
}

/// A walk is extended by a link to an allowed vertex.
pub proof fn lemma_step(adj: Adj, ok: Allowed, u: u32, v: u32, w: u32, k: nat)
    requires
        has_walk(adj, ok, u, v, k),
        edge(adj, v, w),
        ok(w),
    ensures
        has_walk(adj, ok, u, w, k + 1),
{
    let p = choose|p: Seq<u32>| #[trigger] is_walk(adj, ok, p, u, v) && p.len() == k + 1;
    let q = p.push(w);
    assert forall|i: int| #![trigger q[i]] 1 <= i < q.len() implies edge(adj, q[i - 1], q[i])
        && ok(q[i]) by {
        if i < p.len() {
            assert(q[i] == p[i]);
            assert(q[i - 1] == p[i - 1]);
        } else {
            assert(q[i - 1] == p.last());
        }
    }
    assert(is_walk(adj, ok, q, u, w));
}

/// The last step of a walk.
pub proof fn lemma_last_step(adj: Adj, ok: Allowed, u: u32, w: u32, k: nat) -> (v: u32)
    requires
        has_walk(adj, ok, u, w, k + 1),
    ensures
        has_walk(adj, ok, u, v, k),
        edge(adj, v, w),
        ok(w),
{
    let p = choose|p: Seq<u32>| #[trigger] is_walk(adj, ok, p, u, w) && p.len() == k + 2;
    let q = p.drop_last();
    assert(p[p.len() - 1] == w);
    assert forall|i: int| #![trigger q[i]] 1 <= i < q.len() implies edge(adj, q[i - 1], q[i])
        && ok(q[i]) by {
        assert(q[i] == p[i]);
        assert(q[i - 1] == p[i - 1]);
    }
    assert(is_walk(adj, ok, q, u, q.last()));
    assert(edge(adj, p[p.len() - 2], p[p.len() - 1]));
    q.last()
}

/// A vertex at distance `k + 1` is linked from one at distance `k`.
pub proof fn lemma_predecessor(adj: Adj, ok: Allowed, u: u32, w: u32, k: nat) -> (v: u32)
    requires
        distance(adj, ok, u, w) == Some((k + 1) as nat),
    ensures
        distance(adj, ok, u, v) == Some(k),
        edge(adj, v, w),
        ok(w),
{
    lemma_distance_props(adj, ok, u, w);
    let v = lemma_last_step(adj, ok, u, w, k);
    lemma_walk_bounds_distance(adj, ok, u, v, k);
    let d = distance(adj, ok, u, v)->0;
    if d < k {
        lemma_step(adj, ok, u, v, w, d);
        assert(has_walk(adj, ok, u, w, d + 1));
    }
    v
}

/// Along a link to an allowed vertex the distance grows by one at most.
pub proof fn lemma_link_bounds_distance(adj: Adj, ok: Allowed, u: u32, v: u32, w: u32)
    requires
        distance(adj, ok, u, v) is Some,
        edge(adj, v, w),
        ok(w),
    ensures
        distance(adj, ok, u, w) is Some,
        distance(adj, ok, u, w)->0 <= distance(adj, ok, u, v)->0 + 1,
{
    lemma_distance_props(adj, ok, u, v);
    let d = distance(adj, ok, u, v)->0;
    lemma_step(adj, ok, u, v, w, d);
    lemma_walk_bounds_distance(adj, ok, u, w, d + 1);
}

// ---------------------------------------------------------------------------
// Joining and turning round
// ---------------------------------------------------------------------------

/// Two walks, end to end.
pub proof fn lemma_join(adj: Adj, ok: Allowed, p: Seq<u32>, q: Seq<u32>, u: u32, v: u32, w: u32)
    requires
        is_walk(adj, ok, p, u, v),
        is_walk(adj, ok, q, v, w),
    ensures
        is_walk(adj, ok, p + q.drop_first(), u, w),
        (p + q.drop_first()).len() == p.len() + q.len() - 1,
{
    let r = p + q.drop_first();
    assert forall|i: int| #![trigger r[i]] 1 <= i < r.len() implies edge(adj, r[i - 1], r[i])
        && ok(r[i]) by {
        if i < p.len() {
            assert(r[i] == p[i] && r[i - 1] == p[i - 1]);
        } else {
            let j = i - p.len() + 1;
            assert(r[i] == q[j]);
            if j == 1 {
                assert(r[i - 1] == p.last());
            } else {
                assert(r[i - 1] == q[j - 1]);
            }
        }
    }
    if q.len() > 1 {
        assert(r.last() == q.last());
    } else {
        assert(q.last() == q[0]);
        assert(r.last() == p.last());
    }
}

/// A walk turned round is a walk along the links turned round.
pub proof fn lemma_turn(fwd: Adj, rev: Adj, ok: Allowed, p: Seq<u32>, u: u32, v: u32)
    requires
        transposed(fwd, rev),
        is_walk(fwd, ok, p, u, v),
        ok(u),
    ensures
        is_walk(rev, ok, p.reverse(), v, u),
{
    let q = p.reverse();
    assert forall|i: int| #![trigger q[i]] 1 <= i < q.len() implies edge(rev, q[i - 1], q[i])
        && ok(q[i]) by {
        let j = p.len() - i;
        assert(q[i - 1] == p[j]);
        assert(q[i] == p[j - 1]);
        assert(edge(fwd, p[j - 1], p[j]));
        if j - 1 >= 1 {
            assert(ok(p[j - 1]));
        }
    }
}

/// Transposition is symmetric.
pub proof fn lemma_transposed_sym(fwd: Adj, rev: Adj)
    requires
        transposed(fwd, rev),
    ensures
        transposed(rev, fwd),
{
    assert forall|u: u32, v: u32| #[trigger] edge(rev, u, v) <==> edge(fwd, v, u) by {
        assert(edge(fwd, v, u) <==> edge(rev, u, v));
    }
}

/// The distance from `u` to `v` is the distance from `v` to `u` along the links
/// turned round.
pub proof fn lemma_distance_turned(fwd: Adj, rev: Adj, ok: Allowed, u: u32, v: u32)
    requires
        transposed(fwd, rev),
        ok(u),
        ok(v),
    ensures
        distance(fwd, ok, u, v) == distance(rev, ok, v, u),
{
    assert forall|k: nat| has_walk(fwd, ok, u, v, k) == #[trigger] has_walk(rev, ok, v, u, k) by {
        if has_walk(fwd, ok, u, v, k) {
            let p = choose|p: Seq<u32>| #[trigger] is_walk(fwd, ok, p, u, v) && p.len() == k + 1;
            lemma_turn(fwd, rev, ok, p, u, v);
            assert(p.reverse().len() == k + 1);
        }
        if has_walk(rev, ok, v, u, k) {
            let p = choose|p: Seq<u32>| #[trigger] is_walk(rev, ok, p, v, u) && p.len() == k + 1;
            lemma_transposed_sym(fwd, rev);
            lemma_turn(rev, fwd, ok, p, v, u);
            assert(p.reverse().len() == k + 1);
        }
    }
    lemma_distance_props(fwd, ok, u, v);
    lemma_distance_props(rev, ok, v, u);
    if distance(fwd, ok, u, v) is Some {
        let d = distance(fwd, ok, u, v)->0;
        assert(has_walk(rev, ok, v, u, d));
        assert(forall|k: nat| k < d ==> !#[trigger] has_walk(rev, ok, v, u, k));
        lemma_distance_is(rev, ok, v, u, d);
    } else if distance(rev, ok, v, u) is Some {
        assert(has_walk(rev, ok, v, u, distance(rev, ok, v, u)->0));
        assert(has_walk(fwd, ok, u, v, distance(rev, ok, v, u)->0));
    }
}

/// Going through `w` is no shorter than going straight.
pub proof fn lemma_triangle(adj: Adj, ok: Allowed, u: u32, w: u32, v: u32)
    requires
        distance(adj, ok, u, w) is Some,
        distance(adj, ok, w, v) is Some,
    ensures
        distance(adj, ok, u, v) is Some,
        distance(adj, ok, u, v)->0 <= distance(adj, ok, u, w)->0 + distance(adj, ok, w, v)->0,
{
    let a = distance(adj, ok, u, w)->0;
    let b = distance(adj, ok, w, v)->0;
    lemma_distance_props(adj, ok, u, w);
    lemma_distance_props(adj, ok, w, v);
    let p = choose|p: Seq<u32>| #[trigger] is_walk(adj, ok, p, u, w) && p.len() == a + 1;
    let q = choose|q: Seq<u32>| #[trigger] is_walk(adj, ok, q, w, v) && q.len() == b + 1;
    lemma_join(adj, ok, p, q, u, w, v);
    assert(has_walk(adj, ok, u, v, a + b));
    lemma_walk_bounds_distance(adj, ok, u, v, a + b);
}

/// On the way from `u` to `v` there is a vertex at every distance from `u`,
/// with the rest of the way before it.
pub proof fn lemma_midpoint(adj: Adj, ok: Allowed, u: u32, v: u32, k: nat) -> (w: u32)
    requires
        distance(adj, ok, u, v) is Some,
        k <= distance(adj, ok, u, v)->0,
    ensures
        distance(adj, ok, u, w) == Some(k),
        distance(adj, ok, w, v) == Some((distance(adj, ok, u, v)->0 - k) as nat),
        ok(u) ==> ok(w),
{
    let d = distance(adj, ok, u, v)->0;
    lemma_distance_props(adj, ok, u, v);
    let p = choose|p: Seq<u32>| #[trigger] is_walk(adj, ok, p, u, v) && p.len() == d + 1;
    let w = p[k as int];
    let a = p.take(k as int + 1);
    let b = p.skip(k as int);
    assert forall|i: int| #![trigger a[i]] 1 <= i < a.len() implies edge(adj, a[i - 1], a[i])
        && ok(a[i]) by {
        assert(a[i] == p[i] && a[i - 1] == p[i - 1]);
    }
    assert(is_walk(adj, ok, a, u, w));
    assert forall|i: int| #![trigger b[i]] 1 <= i < b.len() implies edge(adj, b[i - 1], b[i])
        && ok(b[i]) by {
        assert(b[i] == p[i + k] && b[i - 1] == p[i + k - 1]);
    }
    assert(is_walk(adj, ok, b, w, v));
    assert(has_walk(adj, ok, u, w, k));
    assert(has_walk(adj, ok, w, v, (d - k) as nat));
    lemma_walk_bounds_distance(adj, ok, u, w, k);
    lemma_walk_bounds_distance(adj, ok, w, v, (d - k) as nat);
    lemma_triangle(adj, ok, u, w, v);
    if k >= 1 {
        assert(ok(p[k as int]));
    }
    w
}

// ---------------------------------------------------------------------------
// Laws
// ---------------------------------------------------------------------------

/// A list of vertices in which each links to the next, and none after the first
/// is forbidden.
pub open spec fn follows_links(adj: Adj, ok: Allowed, p: Seq<u32>) -> bool {
    forall|i: int, j: int|
        0 <= i && j == i + 1 && j < p.len() ==> steps_on(adj, ok, #[trigger] p[i], #[trigger] p[j])
}

/// A vertex links to another, which is not forbidden.
pub open spec fn steps_on(adj: Adj, ok: Allowed, a: u32, b: u32) -> bool {
    a < adj.len() && adj[a as int].contains(b) && ok(b)
}

/// A distance is the number of links of the shortest way, and there is none
/// where there is no way.
pub proof fn law_distances_are_shortest(adj: Adj, ok: Allowed, u: u32, v: u32, p: Seq<u32>)
    ensures
        distance(adj, ok, u, v) matches Some(d) ==> exists|q: Seq<u32>|
            q.len() == d + 1 && q[0] == u && q[d as int] == v && #[trigger] follows_links(
                adj,
                ok,
                q,
            ),
        p.len() > 0 && p[0] == u && p[p.len() - 1] == v && follows_links(adj, ok, p) ==> (distance(
            adj,
            ok,
            u,
            v,
        ) matches Some(d) && d <= p.len() - 1),
{
    lemma_shortest_way(adj, ok, u, v);
    if p.len() > 0 && p[0] == u && p[p.len() - 1] == v && follows_links(adj, ok, p) {
        lemma_way_bounds_distance(adj, ok, u, v, p);
    }
}

proof fn lemma_shortest_way(adj: Adj, ok: Allowed, u: u32, v: u32)
    ensures
        distance(adj, ok, u, v) matches Some(d) ==> exists|q: Seq<u32>|
            q.len() == d + 1 && q[0] == u && q[d as int] == v && #[trigger] follows_links(
                adj,
                ok,
                q,
            ),
{
    if distance(adj, ok, u, v) is Some {
        lemma_distance_props(adj, ok, u, v);
        let d = distance(adj, ok, u, v)->0;
        assert(has_walk(adj, ok, u, v, d));
        let q = choose|q: Seq<u32>| #[trigger] is_walk(adj, ok, q, u, v) && q.len() == d + 1;
        lemma_walk_follows_links(adj, ok, q, u, v, q.len());
        assert(q.take(q.len() as int) =~= q);
    }
}

proof fn lemma_walk_step(adj: Adj, ok: Allowed, q: Seq<u32>, u: u32, v: u32, i: int)
    requires
        is_walk(adj, ok, q, u, v),
        1 <= i < q.len(),
    ensures
        q[i - 1] < adj.len(),
        adj[q[i - 1] as int].contains(q[i]),
        ok(q[i]),
{
    assert(edge(adj, q[i - 1], q[i]));
}

/// The first `n` vertices of a walk follow links.
proof fn lemma_walk_follows_links(adj: Adj, ok: Allowed, q: Seq<u32>, u: u32, v: u32, n: nat)
    requires
        is_walk(adj, ok, q, u, v),
        n <= q.len(),
    ensures
        follows_links(adj, ok, q.take(n as int)),
    decreases n,
{
    let t = q.take(n as int);
    if n > 1 {
        let less = (n - 1) as nat;
        let s = q.take(less as int);
        lemma_walk_follows_links(adj, ok, q, u, v, less);
        lemma_walk_step(adj, ok, q, u, v, n - 1);
        lemma_follows_one_more(adj, ok, s, q[n - 1]);
        assert(t =~= s.push(q[n - 1]));
    }
}

pub proof fn lemma_follows_one_more(adj: Adj, ok: Allowed, s: Seq<u32>, w: u32)
    requires
        follows_links(adj, ok, s),
        s.len() > 0,
        s.last() < adj.len(),
        adj[s.last() as int].contains(w),
        ok(w),
    ensures
        follows_links(adj, ok, s.push(w)),
{
    let t = s.push(w);
    assert forall|i: int, j: int| 0 <= i && j == i + 1 && j < t.len() implies steps_on(
        adj,
        ok,
        #[trigger] t[i],
        #[trigger] t[j],
    ) by {
        assert(t[i] == s[i]);
        if j < s.len() {
            assert(t[j] == s[j]);
            assert(steps_on(adj, ok, s[i], s[j]));
        }
    }
}

proof fn lemma_way_bounds_distance(adj: Adj, ok: Allowed, u: u32, v: u32, p: Seq<u32>)
    requires
        p.len() > 0,
        p[0] == u,
        p[p.len() - 1] == v,
        follows_links(adj, ok, p),
    ensures
        distance(adj, ok, u, v) matches Some(d) && d <= p.len() - 1,
{
    assert forall|i: int| #![trigger p[i]] 1 <= i < p.len() implies edge(adj, p[i - 1], p[i]) && ok(
        p[i],
    ) by {
        assert(adj[p[i - 1] as int].contains(p[i]));
    }
    assert(is_walk(adj, ok, p, u, v));
    let k = (p.len() - 1) as nat;
    assert(has_walk(adj, ok, u, v, k));
    lemma_walk_bounds_distance(adj, ok, u, v, k);
}

} // verus!
