//! Shortest paths over the link graph.

use crate::csr::Csr;
use crate::graph::Graph;
use crate::levels::{
    Ban, NONE, answers, banned_by, decides, is_level, lemma_marked_only, lemma_distinct_bounded, lemma_first_level,
    lemma_level_complete, lemma_marked, lemma_reached_is_vertex, level_listed, level_partial,
    levels_known, marks_listed, open_between, parents_known,
};
use crate::routes::{law_every_way_is_counted, ways, copies, lemma_copies_contains, lemma_copies_take, lemma_from_take, lemma_from_zero,
    lemma_routes_from_level, lemma_routes_positive, routes, routes_from,
};
use crate::trails::{
    at_distance, depths_after, first_at, found_path, lemma_first_at, lemma_first_linking, level,
    meeting, new_links, parent_of, start_goes_on, trail, tree_known, with_new,
};
use crate::walks::{
    Adj, Allowed, closed_under_links, distance, edge, has_walk, is_shortest_walk, is_walk,
    lemma_distance_props, lemma_distance_turned, lemma_join, lemma_link_bounds_distance,
    lemma_midpoint, lemma_predecessor, lemma_transposed_sym, lemma_triangle, lemma_turn,
    lemma_zero_steps, transposed,
};
use vstd::prelude::*;

verus! {

fn unmark(dist: &mut Vec<u32>, parent: &mut Vec<u32>, touched: &mut Vec<u32>)
    requires
        marks_listed(old(dist)@, old(parent)@, old(touched)@),
        old(dist)@.len() <= u32::MAX,
    ensures
        final(dist)@.len() == old(dist)@.len(),
        final(parent)@.len() == old(parent)@.len(),
        final(touched)@.len() == 0,
        forall|v: int| 0 <= v < final(dist)@.len() ==> final(dist)@[v] == NONE,
        forall|v: int| 0 <= v < final(parent)@.len() ==> final(parent)@[v] == NONE,
{
    let n: usize = touched.len();
    let ghost size = dist@.len();
    let mut i: usize = 0;
    while i < n
        invariant
            n == touched@.len(),
            i <= n,
            dist@.len() == size,
            parent@.len() == size,
            size <= u32::MAX,
            forall|j: int| 0 <= j < n ==> #[trigger] touched@[j] < size,
            forall|v: int|
                #![trigger dist@[v]]
                #![trigger parent@[v]]
                0 <= v < size && (dist@[v] != NONE || parent@[v] != NONE) ==> exists|j: int|
                    i <= j < n && #[trigger] touched@[j] == v,
        decreases n - i,
    {
        let v: usize = touched[i] as usize;
        let ghost d0 = dist@;
        let ghost p0 = parent@;
        dist.set(v, NONE);
        parent.set(v, NONE);
        proof {
            assert forall|u: int|
                #![trigger dist@[u]]
                #![trigger parent@[u]]
                0 <= u < size && (dist@[u] != NONE || parent@[u] != NONE) implies exists|j: int|
                i + 1 <= j < n && #[trigger] touched@[j] == u by {
                assert(u != v);
                assert(d0[u] != NONE || p0[u] != NONE);
                let j = choose|j: int| i <= j < n && #[trigger] touched@[j] == u;
                assert(j != i);
            }
        }
        i = i + 1;
    }
    touched.clear();
}

/// Grow a search by one level: mark every allowed vertex that `frontier` links
/// to and that has no mark yet. Hands back the new level, and where it first
/// meets the search from the other end.
fn expand<F: Fn(u32) -> bool>(
    links: &Csr,
    end: u32,
    banned: &F,
    frontier: &Vec<u32>,
    depth: u32,
    dist: &mut Vec<u32>,
    parent: &mut Vec<u32>,
    touched: &mut Vec<u32>,
    other: &Vec<u32>,
    Ghost(src): Ghost<u32>,
    Ghost(ban): Ghost<Ban>,
    Ghost(ok): Ghost<Allowed>,
) -> (r: (Vec<u32>, Option<u32>))
    requires
        closed_under_links(links@),
        links@.len() < u32::MAX,
        src < links@.len(),
        answers(*banned, ban),
        ok == open_between(src, end, ban),
        1 <= depth <= links@.len(),
        levels_known(links@, ok, src, old(dist)@, (depth - 1) as nat),
        is_level(links@, ok, src, frontier@, (depth - 1) as nat),
        frontier@ == level(links@, ok, src, (depth - 1) as nat),
        parents_known(links@, ok, src, old(dist)@, old(parent)@),
        tree_known(links@, ok, src, old(dist)@, old(parent)@),
        marks_listed(old(dist)@, old(parent)@, old(touched)@),
        old(touched)@.no_duplicates(),
        forall|i: int|
            0 <= i < old(touched)@.len() ==> #[trigger] old(touched)@[i] < links@.len(),
        forall|i: int|
            0 <= i < old(touched)@.len() ==> old(dist)@[#[trigger] old(touched)@[i] as int] != NONE,
        links@.len() <= other@.len(),
    ensures
        final(dist)@.len() == old(dist)@.len(),
        levels_known(links@, ok, src, final(dist)@, depth as nat),
        is_level(links@, ok, src, r.0@, depth as nat),
        r.0@ == level(links@, ok, src, depth as nat),
        parents_known(links@, ok, src, final(dist)@, final(parent)@),
        tree_known(links@, ok, src, final(dist)@, final(parent)@),
        marks_listed(final(dist)@, final(parent)@, final(touched)@),
        final(touched)@ == old(touched)@ + r.0@,
        final(touched)@.no_duplicates(),
        forall|i: int|
            0 <= i < final(touched)@.len() ==> #[trigger] final(touched)@[i] < links@.len(),
        forall|i: int|
            0 <= i < final(touched)@.len() ==> final(dist)@[#[trigger] final(touched)@[i] as int]
                != NONE,
        nearest_meeting(r.0@, other@, r.1),
{
    let ghost adj = links@;
    let ghost dist0 = dist@;
    let ghost touched0 = touched@;
    let mut next: Vec<u32> = Vec::new();
    let mut best: Option<u32> = None;
    let nf: usize = frontier.len();
    let mut i: usize = 0;
    let ghost far = at_distance(adj, ok, src, depth as nat);
    proof {
        assert(touched@ =~= touched0 + next@);
        assert(frontier@.take(0) =~= Seq::<u32>::empty());
    }
    while i < nf
        invariant
            adj == links@,
            closed_under_links(adj),
            adj.len() < u32::MAX,
            src < adj.len(),
            answers(*banned, ban),
            ok == open_between(src, end, ban),
            1 <= depth <= adj.len(),
            levels_known(adj, ok, src, dist0, (depth - 1) as nat),
            is_level(adj, ok, src, frontier@, (depth - 1) as nat),
            nf == frontier@.len(),
            i <= nf,
            dist@.len() == dist0.len(),
            level_partial(adj, ok, src, dist0, dist@, depth as nat),
            level_listed(dist0, dist@, next@, adj.len(), depth),
            far == at_distance(adj, ok, src, depth as nat),
            frontier@ == level(adj, ok, src, (depth - 1) as nat),
            next@ == new_links(adj, frontier@.take(i as int), far),
            parents_known(adj, ok, src, dist@, parent@),
            tree_known(adj, ok, src, dist@, parent@),
            marks_listed(dist@, parent@, touched@),
            touched@ == touched0 + next@,
            touched@.no_duplicates(),
            forall|k: int| 0 <= k < touched@.len() ==> #[trigger] touched@[k] < adj.len(),
            forall|k: int|
                0 <= k < touched@.len() ==> dist@[#[trigger] touched@[k] as int] != NONE,
            adj.len() <= other@.len(),
            nearest_meeting(next@, other@, best),
            forall|k: int, v: u32|
                0 <= k < i && #[trigger] edge(adj, frontier@[k], v) && ok(v) ==> dist@[v as int]
                    != NONE,
        decreases nf - i,
    {
        let v: u32 = frontier[i];
        assert(frontier@.contains(v));
        let ws = links.neighbors(v);
        let nw: usize = ws.len();
        let mut j: usize = 0;
        let ghost listed = next@;
        assert(ws@.take(0) =~= Seq::<u32>::empty());
        while j < nw
            invariant
                adj == links@,
                closed_under_links(adj),
                adj.len() < u32::MAX,
                src < adj.len(),
                answers(*banned, ban),
                ok == open_between(src, end, ban),
                1 <= depth <= adj.len(),
                levels_known(adj, ok, src, dist0, (depth - 1) as nat),
                v < adj.len(),
                distance(adj, ok, src, v) == Some((depth - 1) as nat),
                dist0[v as int] == depth - 1,
                i < nf,
                nf == frontier@.len(),
                frontier@[i as int] == v,
                ws@ == adj[v as int],
                nw == ws@.len(),
                j <= nw,
                dist@.len() == dist0.len(),
                level_partial(adj, ok, src, dist0, dist@, depth as nat),
                level_listed(dist0, dist@, next@, adj.len(), depth),
                far == at_distance(adj, ok, src, depth as nat),
                frontier@ == level(adj, ok, src, (depth - 1) as nat),
                next@ == with_new(listed, ws@.take(j as int), far),
                parents_known(adj, ok, src, dist@, parent@),
                tree_known(adj, ok, src, dist@, parent@),
                marks_listed(dist@, parent@, touched@),
                touched@ == touched0 + next@,
                touched@.no_duplicates(),
                forall|k: int| 0 <= k < touched@.len() ==> #[trigger] touched@[k] < adj.len(),
                forall|k: int|
                    0 <= k < touched@.len() ==> dist@[#[trigger] touched@[k] as int] != NONE,
                adj.len() <= other@.len(),
                nearest_meeting(next@, other@, best),
                forall|k: int, x: u32|
                    0 <= k < i && #[trigger] edge(adj, frontier@[k], x) && ok(x) ==> dist@[x as int]
                        != NONE,
                forall|k: int|
                    0 <= k < j && ok(#[trigger] ws@[k]) ==> dist@[ws@[k] as int] != NONE,
            decreases nw - j,
        {
            let w: u32 = ws[j];
            assert(adj[v as int][j as int] < adj.len());
            proof {
                assert(ws@.take(j + 1).drop_last() =~= ws@.take(j as int));
                assert(ws@.take(j + 1).last() == w);
                if dist@[w as int] != NONE && far(w) {
                    assert(dist0[w as int] == NONE);
                    assert(next@.contains(w));
                }
            }
            if dist[w as usize] == NONE {
                proof {
                    assert(!next@.contains(w));
                    lemma_zero_steps(adj, ok, src, src);
                    assert(dist0[src as int] == 0);
                }
                if w == end || !banned(w) {
                    let ghost dist1 = dist@;
                    let ghost parent1 = parent@;
                    let ghost touched1 = touched@;
                    let ghost next1 = next@;
                    let ghost best1 = best;
                    proof {
                        assert(ok(w));
                        assert(adj[v as int].contains(w));
                        lemma_link_bounds_distance(adj, ok, src, v, w);
                        assert(dist0[w as int] == NONE);
                        assert(distance(adj, ok, src, w) == Some(depth as nat));
                        if best is Some {
                            let k = choose|k: int| #[trigger] first_nearest(next@, other@, k)
                                && next@[k] == best->0;
                            assert(next@.contains(next@[k]));
                        }
                    }
                    dist.set(w as usize, depth);
                    parent.set(w as usize, v);
                    touched.push(w);
                    if other[w as usize] != NONE {
                        match best {
                            Some(m) => {
                                if other[w as usize] < other[m as usize] {
                                    best = Some(w);
                                }
                            },
                            None => {
                                best = Some(w);
                            },
                        }
                    }
                    next.push(w);
                    proof {
                        lemma_marked(
                            adj,
                            ok,
                            src,
                            dist0,
                            dist1,
                            parent1,
                            touched1,
                            next1,
                            depth,
                            v,
                            w,
                        );
                        assert forall|k: int| 0 <= k < i implies !edge(
                            adj,
                            #[trigger] frontier@[k],
                            w,
                        ) by {
                            if edge(adj, frontier@[k], w) {
                                assert(dist1[w as int] != NONE);
                            }
                        }
                        lemma_first_linking(adj, frontier@, w, i as int);
                        assert forall|x: int|
                            #![trigger parent@[x]]
                            0 <= x < adj.len() && dist@[x] != NONE && x != src implies parent@[x]
                            == parent_of(adj, ok, src, x as u32, dist@[x] as nat) by {
                            if x != w {
                                assert(parent@[x] == parent1[x] && dist@[x] == dist1[x]);
                            }
                        }
                        assert(touched@ =~= touched0 + next@);
                        assert(next@[next1.len() as int] == w);
                        lemma_still_nearest(next1, other@, best1, w, best);
                        assert forall|u: u32| #[trigger] next@.contains(u) implies next1.contains(u)
                            || u == w by {
                            let k = choose|k: int| 0 <= k < next@.len() && next@[k] == u;
                            if k < next1.len() {
                                assert(next1[k] == u);
                            }
                        }
                        assert forall|u: u32| #[trigger] next1.contains(u) implies next@.contains(u) by {
                            let k = choose|k: int| 0 <= k < next1.len() && next1[k] == u;
                            assert(next@[k] == u);
                        }
                    }
                } else {
                    proof {
                        assert(w != src);
                        assert(!ok(w));
                        if far(w) {
                            lemma_reached_is_vertex(adj, ok, src, w);
                        }
                    }
                }
            }
            j = j + 1;
        }
        proof {
            assert(ws@.take(nw as int) =~= ws@);
            assert(frontier@.take(i + 1).drop_last() =~= frontier@.take(i as int));
            assert(frontier@.take(i + 1).last() == v);
            assert forall|k: int, x: u32|
                0 <= k < i + 1 && #[trigger] edge(adj, frontier@[k], x) && ok(x) implies dist@[x as int]
                != NONE by {
                if k == i {
                    let q = choose|q: int| 0 <= q < adj[v as int].len() && adj[v as int][q] == x;
                    assert(ws@[q] == x);
                }
            }
        }
        i = i + 1;
    }
    proof {
        assert(frontier@.take(nf as int) =~= frontier@);
        lemma_level_complete(adj, ok, src, dist0, dist@, frontier@, next@, depth);
    }
    (next, best)
}

/// The vertex at place `k` of `next` was reached by the other search, and is
/// the first of those nearest to the other end.
spec fn first_nearest(next: Seq<u32>, other: Seq<u32>, k: int) -> bool {
    &&& 0 <= k < next.len()
    &&& other[next[k] as int] != NONE
    &&& forall|j: int|
        0 <= j < next.len() && other[#[trigger] next[j] as int] != NONE ==> other[next[k] as int]
            <= other[next[j] as int]
    &&& forall|j: int|
        0 <= j < k && other[#[trigger] next[j] as int] != NONE ==> other[next[k] as int]
            < other[next[j] as int]
}

/// `best` is the first vertex of `next` nearest to the other end, of those that
/// the other search has reached.
spec fn nearest_meeting(next: Seq<u32>, other: Seq<u32>, best: Option<u32>) -> bool {
    match best {
        Some(m) => exists|k: int| #[trigger] first_nearest(next, other, k) && next[k] == m,
        None => forall|j: int| 0 <= j < next.len() ==> other[#[trigger] next[j] as int] == NONE,
    }
}

/// A meeting is one of the level, and where there is none the level is apart
/// from the other search.
proof fn lemma_met(
    adj: Adj,
    ok: Allowed,
    src: u32,
    next: Seq<u32>,
    depth: nat,
    other: Seq<u32>,
    best: Option<u32>,
)
    requires
        is_level(adj, ok, src, next, depth),
        nearest_meeting(next, other, best),
    ensures
        forall|j: int| 0 <= j < next.len() ==> #[trigger] next[j] < adj.len(),
        best matches Some(m) ==> next.contains(m) && m < adj.len() && other[m as int] != NONE
            && distance(adj, ok, src, m) == Some(depth),
        best is None ==> forall|v: u32| #[trigger] next.contains(v) ==> other[v as int] == NONE,
{
    assert forall|j: int| 0 <= j < next.len() implies #[trigger] next[j] < adj.len() by {
        assert(next.contains(next[j]));
    }
    if best is Some {
        let k = choose|k: int| #[trigger] first_nearest(next, other, k) && next[k] == best->0;
        assert(next.contains(next[k]));
    }
}

/// One vertex more keeps the nearest nearest.
proof fn lemma_still_nearest(
    next: Seq<u32>,
    other: Seq<u32>,
    best: Option<u32>,
    w: u32,
    now: Option<u32>,
)
    requires
        nearest_meeting(next, other, best),
        now == (if other[w as int] == NONE {
            best
        } else {
            match best {
                Some(m) => if other[w as int] < other[m as int] {
                    Some(w)
                } else {
                    best
                },
                None => Some(w),
            }
        }),
    ensures
        nearest_meeting(next.push(w), other, now),
{
    let all = next.push(w);
    let last = next.len() as int;
    assert(all[last] == w);
    assert forall|j: int| 0 <= j < last implies #[trigger] all[j] == next[j] by {}
    match best {
        Some(m) => {
            let k = choose|k: int| #[trigger] first_nearest(next, other, k) && next[k] == m;
            if now == best && (other[w as int] == NONE || other[w as int] >= other[m as int]) {
                assert(first_nearest(all, other, k));
            } else {
                assert(first_nearest(all, other, last));
            }
        },
        None => {
            if now is Some {
                assert(first_nearest(all, other, last));
            }
        },
    }
}

/// Where two searches have no vertex in common, the ends are further apart
/// than the two searches reach together.
proof fn lemma_apart(
    fwd: Adj,
    rev: Adj,
    ok: Allowed,
    start: u32,
    goal: u32,
    dist_f: Seq<u32>,
    dist_b: Seq<u32>,
    depth_f: nat,
    depth_b: nat,
)
    requires
        closed_under_links(fwd),
        transposed(fwd, rev),
        start < fwd.len(),
        goal < fwd.len(),
        ok(start),
        ok(goal),
        levels_known(fwd, ok, start, dist_f, depth_f),
        levels_known(rev, ok, goal, dist_b, depth_b),
        forall|v: int|
            #![trigger dist_f[v]]
            #![trigger dist_b[v]]
            0 <= v < fwd.len() ==> dist_f[v] == NONE || dist_b[v] == NONE,
    ensures
        distance(fwd, ok, start, goal) matches Some(d) ==> d > depth_f + depth_b,
{
    if distance(fwd, ok, start, goal) is Some {
        let d = distance(fwd, ok, start, goal)->0;
        if d <= depth_f + depth_b {
            let k = if d <= depth_f {
                d
            } else {
                depth_f
            };
            let w = lemma_midpoint(fwd, ok, start, goal, k);
            lemma_reached_is_vertex(fwd, ok, start, w);
            lemma_distance_turned(fwd, rev, ok, w, goal);
            assert(dist_f[w as int] != NONE);
            assert(dist_b[w as int] != NONE);
            assert(false);
        }
    }
}

/// A walk and one link more are a walk.
proof fn lemma_walk_goes_on(adj: Adj, ok: Allowed, p: Seq<u32>, from: u32, v: u32, u: u32)
    requires
        is_walk(adj, ok, p, from, v),
        edge(adj, v, u),
        ok(u),
    ensures
        is_walk(adj, ok, p.push(u), from, u),
{
    let q = p.push(u);
    assert forall|i: int| #![trigger q[i]] 1 <= i < q.len() implies edge(adj, q[i - 1], q[i]) && ok(
        q[i],
    ) by {
        if i < p.len() {
            assert(p[i] == q[i] && p[i - 1] == q[i - 1]);
        } else {
            assert(q[i - 1] == p.last());
        }
    }
}

/// Follow the parents from a reached vertex back to where the search began.
fn trace(
    parent: &Vec<u32>,
    from: u32,
    src: u32,
    Ghost(adj): Ghost<Adj>,
    Ghost(turned): Ghost<Adj>,
    Ghost(ok): Ghost<Allowed>,
    Ghost(dist): Ghost<Seq<u32>>,
) -> (r: Vec<u32>)
    requires
        transposed(adj, turned),
        adj.len() <= dist.len(),
        parents_known(adj, ok, src, dist, parent@),
        tree_known(adj, ok, src, dist, parent@),
        from < adj.len(),
        src < adj.len(),
        dist[from as int] != NONE,
        dist[src as int] == 0,
        ok(src),
    ensures
        is_walk(turned, ok, r@, from, src),
        r@.len() == dist[from as int] + 1,
        r@ == trail(adj, ok, src, from, dist[from as int] as nat),
{
    let mut out: Vec<u32> = Vec::new();
    out.push(from);
    let mut v: u32 = from;
    proof {
        let whole = trail(adj, ok, src, from, dist[from as int] as nat);
        assert(whole =~= out@.drop_last() + whole);
    }
    while v != src
        invariant
            transposed(adj, turned),
            adj.len() <= dist.len(),
            parents_known(adj, ok, src, dist, parent@),
            tree_known(adj, ok, src, dist, parent@),
            dist[src as int] == 0,
            ok(src),
            v < adj.len(),
            dist[v as int] != NONE,
            is_walk(turned, ok, out@, from, v),
            out@.len() == dist[from as int] - dist[v as int] + 1,
            trail(adj, ok, src, from, dist[from as int] as nat) == out@.drop_last() + trail(
                adj,
                ok,
                src,
                v,
                dist[v as int] as nat,
            ),
        decreases dist[v as int],
    {
        let u: u32 = parent[v as usize];
        let ghost before = out@;
        out.push(u);
        proof {
            assert(edge(adj, u, v));
            assert(edge(turned, v, u));
            let rest = trail(adj, ok, src, u, dist[u as int] as nat);
            assert(trail(adj, ok, src, v, dist[v as int] as nat) == seq![v] + rest);
            assert(before.drop_last() + (seq![v] + rest) =~= out@.drop_last() + rest);
            assert(dist[u as int] != NONE);
            if u != src {
                assert(parent@[u as int] < adj.len());
            }
            assert(ok(u));
            lemma_walk_goes_on(turned, ok, before, from, v, u);
        }
        v = u;
    }
    assert(out@ =~= out@.drop_last() + seq![v]);
    out
}

/// The vertices of a path, where there is one.
pub open spec fn path_of(p: Option<Vec<u32>>) -> Option<Seq<u32>> {
    match p {
        Some(p) => Some(p@),
        None => None,
    }
}

/// Scratch space for searches, reused between queries.
pub struct PathFinder {
    dist_f: Vec<u32>,
    dist_b: Vec<u32>,
    parent_f: Vec<u32>,
    parent_b: Vec<u32>,
    touched_f: Vec<u32>,
    touched_b: Vec<u32>,
}

fn filled(n: usize, x: u32) -> (r: Vec<u32>)
    ensures
        r@.len() == n,
        forall|i: int| 0 <= i < n ==> r@[i] == x,
{
    let mut r: Vec<u32> = Vec::with_capacity(n);
    let mut i: usize = 0;
    while i < n
        invariant
            i <= n,
            r@.len() == i,
            forall|j: int| 0 <= j < i ==> r@[j] == x,
        decreases n - i,
    {
        r.push(x);
        i = i + 1;
    }
    r
}

impl PathFinder {
    /// How many vertices the scratch space covers.
    pub closed spec fn size(&self) -> nat {
        self.dist_f@.len()
    }

    /// Whatever a search left behind is known, so that the next one can start
    /// clean.
    pub closed spec fn wf(&self) -> bool {
        &&& self.dist_f@.len() <= u32::MAX
        &&& self.dist_b@.len() == self.dist_f@.len()
        &&& marks_listed(self.dist_f@, self.parent_f@, self.touched_f@)
        &&& marks_listed(self.dist_b@, self.parent_b@, self.touched_b@)
    }

    spec fn clean(&self) -> bool {
        &&& self.wf()
        &&& self.touched_f@.len() == 0
        &&& self.touched_b@.len() == 0
        &&& forall|v: int| 0 <= v < self.dist_f@.len() ==> self.dist_f@[v] == NONE
        &&& forall|v: int| 0 <= v < self.dist_b@.len() ==> self.dist_b@[v] == NONE
        &&& forall|v: int| 0 <= v < self.parent_f@.len() ==> self.parent_f@[v] == NONE
        &&& forall|v: int| 0 <= v < self.parent_b@.len() ==> self.parent_b@[v] == NONE
    }

    /// Scratch space for graphs of up to `n` vertices.
    pub fn new(n: usize) -> (r: Self)
        requires
            n <= u32::MAX,
        ensures
            r.wf(),
            r.size() == n,
    {
        PathFinder {
            dist_f: filled(n, NONE),
            dist_b: filled(n, NONE),
            parent_f: filled(n, NONE),
            parent_b: filled(n, NONE),
            touched_f: Vec::new(),
            touched_b: Vec::new(),
        }
    }

    fn reset(&mut self)
        requires
            old(self).wf(),
        ensures
            final(self).clean(),
            final(self).size() == old(self).size(),
    {
        unmark(&mut self.dist_f, &mut self.parent_f, &mut self.touched_f);
        unmark(&mut self.dist_b, &mut self.parent_b, &mut self.touched_b);
    }

    /// The path through the vertex where the two searches met.
    fn reconstruct(
        &self,
        meet: u32,
        start: u32,
        goal: u32,
        Ghost(fwd): Ghost<Adj>,
        Ghost(rev): Ghost<Adj>,
        Ghost(ok): Ghost<Allowed>,
    ) -> (r: Vec<u32>)
        requires
            transposed(fwd, rev),
            fwd.len() <= self.dist_f@.len(),
            fwd.len() <= self.dist_b@.len(),
            parents_known(fwd, ok, start, self.dist_f@, self.parent_f@),
            parents_known(rev, ok, goal, self.dist_b@, self.parent_b@),
            tree_known(fwd, ok, start, self.dist_f@, self.parent_f@),
            tree_known(rev, ok, goal, self.dist_b@, self.parent_b@),
            meet < fwd.len(),
            start < fwd.len(),
            goal < fwd.len(),
            self.dist_f@[meet as int] != NONE,
            self.dist_b@[meet as int] != NONE,
            self.dist_f@[start as int] == 0,
            self.dist_b@[goal as int] == 0,
            ok(start),
            ok(goal),
            ok(meet),
        ensures
            is_walk(fwd, ok, r@, start, goal),
            r@.len() == self.dist_f@[meet as int] + self.dist_b@[meet as int] + 1,
            r@ == trail(fwd, ok, start, meet, self.dist_f@[meet as int] as nat).reverse() + trail(
                rev,
                ok,
                goal,
                meet,
                self.dist_b@[meet as int] as nat,
            ).drop_first(),
    {
        let back = trace(
            &self.parent_f,
            meet,
            start,
            Ghost(fwd),
            Ghost(rev),
            Ghost(ok),
            Ghost(self.dist_f@),
        );
        proof {
            lemma_transposed_sym(fwd, rev);
            lemma_turn(rev, fwd, ok, back@, meet, start);
        }
        let tail = trace(
            &self.parent_b,
            meet,
            goal,
            Ghost(rev),
            Ghost(fwd),
            Ghost(ok),
            Ghost(self.dist_b@),
        );
        let mut head: Vec<u32> = Vec::new();
        let mut i: usize = back.len();
        while i > 0
            invariant
                i <= back@.len(),
                head@.len() == back@.len() - i,
                forall|j: int| 0 <= j < head@.len() ==> head@[j] == back@[back@.len() - 1 - j],
            decreases i,
        {
            i = i - 1;
            head.push(back[i]);
        }
        assert(head@ =~= back@.reverse());
        let n: usize = tail.len();
        let mut i: usize = 1;
        while i < n
            invariant
                n == tail@.len(),
                1 <= i <= n,
                head@ == back@.reverse() + tail@.subrange(1, i as int),
            decreases n - i,
        {
            head.push(tail[i]);
            i = i + 1;
            assert(head@ =~= back@.reverse() + tail@.subrange(1, i as int));
        }
        proof {
            assert(tail@.subrange(1, n as int) =~= tail@.drop_first());
            lemma_join(fwd, ok, back@.reverse(), tail@, start, meet, goal);
        }
        head
    }

    /// A shortest path from `start` to `goal`, both ends in it.
    ///
    /// `banned` vertices may not be passed through. The endpoints are exempt,
    /// so banning hubs never makes a requested start or goal unreachable.
    ///
    /// Of several shortest paths the graph, the ends and the ban decide, and
    /// nothing that was asked before.
    pub fn shortest_path<F: Fn(u32) -> bool>(
        &mut self,
        g: &Graph,
        start: u32,
        goal: u32,
        banned: &F,
    ) -> (r: Option<Vec<u32>>)
        requires
            old(self).wf(),
            g.wf(),
            g.titles@.len() <= old(self).size(),
            start == goal || (start < g.titles@.len() && goal < g.titles@.len()),
            decides(*banned),
        ensures
            final(self).wf(),
            final(self).size() == old(self).size(),
            match r {
                Some(p) => is_shortest_walk(
                    g.forward@,
                    open_between(start, goal, banned_by(*banned)),
                    p@,
                    start,
                    goal,
                ),
                None => distance(g.forward@, open_between(start, goal, banned_by(*banned)), start, goal)
                    is None,
            },
            path_of(r) == found_path(
                g.forward@,
                g.reverse@,
                open_between(start, goal, banned_by(*banned)),
                start,
                goal,
            ),
    {
        self.route(g, start, goal, banned, Ghost(banned_by(*banned)))
    }

    /// A shortest path, given what is banned.
    pub(crate) fn route<F: Fn(u32) -> bool>(
        &mut self,
        g: &Graph,
        start: u32,
        goal: u32,
        banned: &F,
        Ghost(ban): Ghost<Ban>,
    ) -> (r: Option<Vec<u32>>)
        requires
            old(self).wf(),
            g.wf(),
            g.titles@.len() <= old(self).size(),
            start == goal || (start < g.titles@.len() && goal < g.titles@.len()),
            answers(*banned, ban),
        ensures
            final(self).wf(),
            final(self).size() == old(self).size(),
            match r {
                Some(p) => is_shortest_walk(
                    g.forward@,
                    open_between(start, goal, ban),
                    p@,
                    start,
                    goal,
                ),
                None => distance(g.forward@, open_between(start, goal, ban), start, goal)
                    is None,
            },
            path_of(r) == found_path(
                g.forward@,
                g.reverse@,
                open_between(start, goal, ban),
                start,
                goal,
            ),
    {
        self.reset();
        let ghost ok = open_between(start, goal, ban);
        let ghost fwd = g.forward@;
        let ghost rev = g.reverse@;
        if start == goal {
            let mut p: Vec<u32> = Vec::new();
            p.push(start);
            proof {
                lemma_zero_steps(fwd, ok, start, goal);
                assert(p@ =~= seq![start]);
            }
            return Some(p);
        }
        let mut frontier_f: Vec<u32> = Vec::new();
        frontier_f.push(start);
        let mut frontier_b: Vec<u32> = Vec::new();
        frontier_b.push(goal);
        self.dist_f.set(start as usize, 0);
        self.dist_b.set(goal as usize, 0);
        self.touched_f.push(start);
        self.touched_b.push(goal);
        let mut depth_f: u32 = 0;
        let mut depth_b: u32 = 0;
        proof {
            lemma_transposed_sym(fwd, rev);
            lemma_first_level(fwd, ok, start, self.dist_f@, frontier_f@);
            lemma_first_level(rev, ok, goal, self.dist_b@, frontier_b@);
            assert(open_between(goal, start, ban) =~= ok);
            assert(self.touched_f@[0] == start);
            assert(self.touched_b@[0] == goal);
            assert(self.touched_f@.contains(start));
            assert(self.touched_b@.contains(goal));
        }
        while frontier_f.len() > 0 && frontier_b.len() > 0
            invariant
                g.wf(),
                fwd == g.forward@,
                rev == g.reverse@,
                transposed(rev, fwd),
                answers(*banned, ban),
                ok == open_between(start, goal, ban),
                ok == open_between(goal, start, ban),
                start < fwd.len(),
                goal < fwd.len(),
                self.dist_f@.len() == old(self).size(),
                self.dist_b@.len() == old(self).size(),
                old(self).size() <= u32::MAX,
                fwd.len() <= old(self).size(),
                search_known(
                    fwd,
                    ok,
                    start,
                    self.dist_f@,
                    self.parent_f@,
                    self.touched_f@,
                    frontier_f@,
                    depth_f as nat,
                ),
                search_known(
                    rev,
                    ok,
                    goal,
                    self.dist_b@,
                    self.parent_b@,
                    self.touched_b@,
                    frontier_b@,
                    depth_b as nat,
                ),
                tree_known(fwd, ok, start, self.dist_f@, self.parent_f@),
                tree_known(rev, ok, goal, self.dist_b@, self.parent_b@),
                frontier_f@ == level(fwd, ok, start, depth_f as nat),
                frontier_b@ == level(rev, ok, goal, depth_b as nat),
                depths_after(fwd, rev, ok, start, goal, (depth_f + depth_b) as nat) == (
                    depth_f as nat,
                    depth_b as nat,
                ),
                forall|v: int|
                    #![trigger self.dist_f@[v]]
                    #![trigger self.dist_b@[v]]
                    0 <= v < fwd.len() ==> self.dist_f@[v] == NONE || self.dist_b@[v] == NONE,
            decreases 2 * fwd.len() - depth_f - depth_b,
        {
            // Expand whichever side is cheaper. On a graph with hubs the two
            // frontiers grow at wildly different rates.
            proof {
                lemma_distinct_bounded(self.touched_f@, fwd.len());
                lemma_distinct_bounded(self.touched_b@, fwd.len());
                lemma_apart(
                    fwd,
                    rev,
                    ok,
                    start,
                    goal,
                    self.dist_f@,
                    self.dist_b@,
                    depth_f as nat,
                    depth_b as nat,
                );
            }
            let ghost before_f = self.dist_f@;
            let ghost before_b = self.dist_b@;
            let ghost before = (depth_f as nat, depth_b as nat);
            let best: Option<u32>;
            if frontier_f.len() <= frontier_b.len() {
                depth_f = depth_f + 1;
                let (next, found) = expand(
                    &g.forward,
                    goal,
                    banned,
                    &frontier_f,
                    depth_f,
                    &mut self.dist_f,
                    &mut self.parent_f,
                    &mut self.touched_f,
                    &self.dist_b,
                    Ghost(start),
                    Ghost(ban),
                    Ghost(ok),
                );
                frontier_f = next;
                best = found;
                proof {
                    lemma_met(fwd, ok, start, frontier_f@, depth_f as nat, self.dist_b@, best);
                    lemma_still_apart(
                        fwd,
                        ok,
                        start,
                        before_f,
                        self.dist_f@,
                        self.dist_b@,
                        frontier_f@,
                        (depth_f - 1) as nat,
                    );
                }
            } else {
                depth_b = depth_b + 1;
                let (next, found) = expand(
                    &g.reverse,
                    start,
                    banned,
                    &frontier_b,
                    depth_b,
                    &mut self.dist_b,
                    &mut self.parent_b,
                    &mut self.touched_b,
                    &self.dist_f,
                    Ghost(goal),
                    Ghost(ban),
                    Ghost(ok),
                );
                frontier_b = next;
                best = found;
                proof {
                    lemma_met(rev, ok, goal, frontier_b@, depth_b as nat, self.dist_f@, best);
                    lemma_still_apart(
                        rev,
                        ok,
                        goal,
                        before_b,
                        self.dist_b@,
                        self.dist_f@,
                        frontier_b@,
                        (depth_b - 1) as nat,
                    );
                }
            }
            // Looking only after a whole level is what makes the result
            // shortest.
            if let Some(meet) = best {
                proof {
                    lemma_meeting(
                        fwd,
                        rev,
                        ok,
                        start,
                        goal,
                        self.dist_f@,
                        self.dist_b@,
                        depth_f as nat,
                        depth_b as nat,
                        meet,
                    );
                    if start_goes_on(fwd, rev, ok, start, goal, before) {
                        lemma_first_met(
                            rev,
                            ok,
                            goal,
                            frontier_f@,
                            self.dist_b@,
                            depth_b as nat,
                            meet,
                        );
                    } else {
                        lemma_first_met(
                            fwd,
                            ok,
                            start,
                            frontier_b@,
                            self.dist_f@,
                            depth_f as nat,
                            meet,
                        );
                    }
                    assert(meet == meeting(fwd, rev, ok, start, goal, before.0 + before.1 + 1));
                }
                let p = self.reconstruct(meet, start, goal, Ghost(fwd), Ghost(rev), Ghost(ok));
                return Some(p);
            }
        }
        proof {
            lemma_apart(
                fwd,
                rev,
                ok,
                start,
                goal,
                self.dist_f@,
                self.dist_b@,
                depth_f as nat,
                depth_b as nat,
            );
            if distance(fwd, ok, start, goal) is Some {
                let d = distance(fwd, ok, start, goal)->0;
                let w = lemma_midpoint(fwd, ok, start, goal, depth_f as nat);
                lemma_reached_is_vertex(fwd, ok, start, w);
                assert(frontier_f@.contains(w));
                lemma_distance_turned(fwd, rev, ok, start, goal);
                let x = lemma_midpoint(rev, ok, goal, start, depth_b as nat);
                lemma_reached_is_vertex(rev, ok, goal, x);
                assert(frontier_b@.contains(x));
            }
        }
        None
    }
}

/// The first of a level nearest to the other end is the first that is as far
/// from it as the other search is deep, where none can be nearer.
proof fn lemma_first_met(
    adj: Adj,
    ok: Allowed,
    src: u32,
    next: Seq<u32>,
    other: Seq<u32>,
    depth: nat,
    meet: u32,
)
    requires
        levels_known(adj, ok, src, other, depth),
        depth < NONE,
        forall|j: int| 0 <= j < next.len() ==> #[trigger] next[j] < adj.len(),
        nearest_meeting(next, other, Some(meet)),
        other[meet as int] == depth,
    ensures
        first_at(next, at_distance(adj, ok, src, depth)) == meet,
{
    let k = choose|k: int| #[trigger] first_nearest(next, other, k) && next[k] == meet;
    let far = at_distance(adj, ok, src, depth);
    assert(other[next[k] as int] == depth);
    assert(far(next[k]));
    assert forall|j: int| 0 <= j < k implies !far(#[trigger] next[j]) by {
        let v = next[j];
        assert(v < adj.len());
        if other[v as int] != NONE {
            assert(other[next[k] as int] < other[v as int]);
            assert(other[v as int] <= depth);
        }
    }
    lemma_first_at(next, far, k);
}

/// All that one side of the search knows after `depth` levels.
spec fn search_known(
    adj: Adj,
    ok: Allowed,
    src: u32,
    dist: Seq<u32>,
    parent: Seq<u32>,
    touched: Seq<u32>,
    frontier: Seq<u32>,
    depth: nat,
) -> bool {
    &&& levels_known(adj, ok, src, dist, depth)
    &&& is_level(adj, ok, src, frontier, depth)
    &&& parents_known(adj, ok, src, dist, parent)
    &&& marks_listed(dist, parent, touched)
    &&& touched.no_duplicates()
    &&& forall|i: int| 0 <= i < touched.len() ==> #[trigger] touched[i] < adj.len()
    &&& forall|i: int| 0 <= i < touched.len() ==> dist[#[trigger] touched[i] as int] != NONE
    &&& depth <= adj.len()
    &&& frontier.len() > 0 ==> depth < touched.len()
}

/// Where the new level meets nothing, the two searches stay apart.
proof fn lemma_still_apart(
    adj: Adj,
    ok: Allowed,
    src: u32,
    before: Seq<u32>,
    after: Seq<u32>,
    other: Seq<u32>,
    next: Seq<u32>,
    depth: nat,
)
    requires
        adj.len() < u32::MAX,
        levels_known(adj, ok, src, before, depth),
        levels_known(adj, ok, src, after, (depth + 1) as nat),
        is_level(adj, ok, src, next, (depth + 1) as nat),
        forall|v: int|
            #![trigger before[v]]
            #![trigger other[v]]
            0 <= v < adj.len() ==> before[v] == NONE || other[v] == NONE,
    ensures
        (forall|v: u32| #[trigger] next.contains(v) ==> other[v as int] == NONE) ==> forall|v: int|
            #![trigger after[v]]
            #![trigger other[v]]
            0 <= v < adj.len() ==> after[v] == NONE || other[v] == NONE,
{
    if forall|v: u32| #[trigger] next.contains(v) ==> other[v as int] == NONE {
        assert forall|v: int|
            #![trigger after[v]]
            #![trigger other[v]]
            0 <= v < adj.len() implies after[v] == NONE || other[v] == NONE by {
            if after[v] != NONE && before[v] == NONE {
                assert(after[v] == depth + 1);
                assert(next.contains(v as u32));
            }
        }
    }
}

/// A vertex where the two searches meet lies on a shortest path, as long as
/// they did not meet before.
proof fn lemma_meeting(
    fwd: Adj,
    rev: Adj,
    ok: Allowed,
    start: u32,
    goal: u32,
    dist_f: Seq<u32>,
    dist_b: Seq<u32>,
    depth_f: nat,
    depth_b: nat,
    meet: u32,
)
    requires
        closed_under_links(fwd),
        transposed(fwd, rev),
        start < fwd.len() < u32::MAX,
        goal < fwd.len(),
        ok(start),
        ok(goal),
        levels_known(fwd, ok, start, dist_f, depth_f),
        levels_known(rev, ok, goal, dist_b, depth_b),
        meet < fwd.len(),
        dist_f[meet as int] != NONE,
        dist_b[meet as int] != NONE,
        distance(fwd, ok, start, goal) matches Some(d) ==> d >= depth_f + depth_b,
    ensures
        ok(meet),
        dist_f[start as int] == 0,
        dist_b[goal as int] == 0,
        distance(fwd, ok, start, goal) == Some((dist_f[meet as int] + dist_b[meet as int]) as nat),
{
    lemma_reached_is_vertex(fwd, ok, start, meet);
    lemma_distance_turned(fwd, rev, ok, meet, goal);
    lemma_triangle(fwd, ok, start, meet, goal);
    lemma_zero_steps(fwd, ok, start, start);
    lemma_zero_steps(rev, ok, goal, goal);
    assert(dist_f[start as int] == 0);
    assert(dist_b[goal as int] == 0);
}

/// A count that stops at what 64 bits can hold.
pub open spec fn capped(n: nat) -> u64 {
    if n > u64::MAX {
        u64::MAX
    } else {
        n as u64
    }
}

/// The routes to `w` that were counted when the first `i` vertices of the
/// frontier were gone through, and the first `j` links of the vertex after
/// them.
spec fn counted(
    adj: Adj,
    ok: Allowed,
    src: u32,
    k: nat,
    frontier: Seq<u32>,
    i: int,
    j: int,
    w: u32,
) -> nat {
    routes_from(adj, ok, src, w, k, frontier.take(i)) + (if j == 0 {
        0nat
    } else {
        routes(adj, ok, src, frontier[i], k) * copies(adj[frontier[i] as int].take(j), w)
    })
}

proof fn lemma_counted_link(
    adj: Adj,
    ok: Allowed,
    src: u32,
    k: nat,
    frontier: Seq<u32>,
    i: int,
    j: int,
    w: u32,
)
    requires
        0 <= i < frontier.len(),
        0 <= j < adj[frontier[i] as int].len(),
    ensures
        counted(adj, ok, src, k, frontier, i, j + 1, w) == counted(
            adj,
            ok,
            src,
            k,
            frontier,
            i,
            j,
            w,
        ) + (if adj[frontier[i] as int][j] == w {
            routes(adj, ok, src, frontier[i], k)
        } else {
            0
        }),
{
    let links = adj[frontier[i] as int];
    let a = routes(adj, ok, src, frontier[i], k);
    let c = copies(links.take(j), w);
    lemma_copies_take(links, j, w);
    assert(links.take(0) =~= Seq::<u32>::empty());
    assert(a * (c + 1) == a * c + a) by (nonlinear_arith);
    assert(a * 0 == 0);
}

proof fn lemma_counted_vertex(
    adj: Adj,
    ok: Allowed,
    src: u32,
    k: nat,
    frontier: Seq<u32>,
    i: int,
    w: u32,
)
    requires
        0 <= i < frontier.len(),
    ensures
        counted(
            adj,
            ok,
            src,
            k,
            frontier,
            i,
            adj[frontier[i] as int].len() as int,
            w,
        ) == counted(adj, ok, src, k, frontier, i + 1, 0, w),
{
    let links = adj[frontier[i] as int];
    lemma_from_take(adj, ok, src, w, k, frontier, i);
    assert(links.take(links.len() as int) =~= links);
    let a = routes(adj, ok, src, frontier[i], k);
    assert(a * 0 == 0);
}

/// Nothing was counted of a vertex that no link gone through leads to.
proof fn lemma_counted_zero(
    adj: Adj,
    ok: Allowed,
    src: u32,
    k: nat,
    frontier: Seq<u32>,
    i: int,
    j: int,
    w: u32,
)
    requires
        0 <= i < frontier.len(),
        0 <= j <= adj[frontier[i] as int].len(),
        forall|x: int| 0 <= x < frontier.len() ==> #[trigger] frontier[x] < adj.len(),
        forall|x: int| 0 <= x < i ==> !#[trigger] edge(adj, frontier[x], w),
        forall|x: int| 0 <= x < j ==> #[trigger] adj[frontier[i] as int][x] != w,
    ensures
        counted(adj, ok, src, k, frontier, i, j, w) == 0,
{
    let list = frontier.take(i);
    assert forall|x: int| 0 <= x < list.len() implies (#[trigger] list[x]) < adj.len() && !edge(
        adj,
        list[x],
        w,
    ) by {
        assert(list[x] == frontier[x]);
        assert(!edge(adj, frontier[x], w));
    }
    lemma_from_zero(adj, ok, src, w, k, list);
    let some = adj[frontier[i] as int].take(j);
    lemma_copies_contains(some, w);
    assert(!some.contains(w));
    let a = routes(adj, ok, src, frontier[i], k);
    assert(a * 0 == 0);
}

/// The new level has the counts that its links have brought so far, and the
/// levels before keep theirs.
spec fn counts_known(
    adj: Adj,
    ok: Allowed,
    src: u32,
    frontier: Seq<u32>,
    dist0: Seq<u32>,
    dist: Seq<u32>,
    sigma0: Seq<u64>,
    sigma: Seq<u64>,
    k: nat,
    i: int,
    j: int,
) -> bool {
    &&& sigma.len() == sigma0.len()
    &&& forall|w: int|
        #![trigger sigma[w]]
        0 <= w < adj.len() ==> {
            &&& dist0[w] != NONE ==> sigma[w] == sigma0[w]
            &&& dist0[w] == NONE && dist[w] != NONE ==> sigma[w] == capped(
                counted(adj, ok, src, k, frontier, i, j, w as u32),
            )
        }
}

/// Grow a search by one level, and count the routes to each vertex of it.
fn count_level<F: Fn(u32) -> bool>(
    links: &Csr,
    end: u32,
    banned: &F,
    frontier: &Vec<u32>,
    depth: u32,
    dist: &mut Vec<u32>,
    touched: &mut Vec<u32>,
    sigma: &mut Vec<u64>,
    Ghost(src): Ghost<u32>,
    Ghost(ban): Ghost<Ban>,
    Ghost(ok): Ghost<Allowed>,
    Ghost(parent): Ghost<Seq<u32>>,
) -> (r: Vec<u32>)
    requires
        closed_under_links(links@),
        links@.len() < u32::MAX,
        src < links@.len(),
        answers(*banned, ban),
        ok == open_between(src, end, ban),
        1 <= depth <= links@.len(),
        levels_known(links@, ok, src, old(dist)@, (depth - 1) as nat),
        is_level(links@, ok, src, frontier@, (depth - 1) as nat),
        frontier@.no_duplicates(),
        marks_listed(old(dist)@, parent, old(touched)@),
        old(touched)@.no_duplicates(),
        forall|i: int|
            0 <= i < old(touched)@.len() ==> #[trigger] old(touched)@[i] < links@.len(),
        forall|i: int|
            0 <= i < old(touched)@.len() ==> old(dist)@[#[trigger] old(touched)@[i] as int] != NONE,
        old(sigma)@.len() == links@.len(),
        forall|v: u32| #[trigger]
            frontier@.contains(v) ==> old(sigma)@[v as int] == capped(
                routes(links@, ok, src, v, (depth - 1) as nat),
            ),
    ensures
        final(dist)@.len() == old(dist)@.len(),
        levels_known(links@, ok, src, final(dist)@, depth as nat),
        is_level(links@, ok, src, r@, depth as nat),
        r@.no_duplicates(),
        marks_listed(final(dist)@, parent, final(touched)@),
        final(touched)@ == old(touched)@ + r@,
        final(touched)@.no_duplicates(),
        forall|i: int|
            0 <= i < final(touched)@.len() ==> #[trigger] final(touched)@[i] < links@.len(),
        forall|i: int|
            0 <= i < final(touched)@.len() ==> final(dist)@[#[trigger] final(touched)@[i] as int]
                != NONE,
        final(sigma)@.len() == old(sigma)@.len(),
        forall|v: u32| #[trigger]
            r@.contains(v) ==> final(sigma)@[v as int] == capped(
                routes(links@, ok, src, v, depth as nat),
            ),
{
    let ghost adj = links@;
    let ghost dist0 = dist@;
    let ghost touched0 = touched@;
    let ghost sigma0 = sigma@;
    let ghost k = (depth - 1) as nat;
    let mut next: Vec<u32> = Vec::new();
    let nf: usize = frontier.len();
    let mut i: usize = 0;
    proof {
        assert(touched@ =~= touched0 + next@);
        assert forall|x: int| 0 <= x < frontier@.len() implies #[trigger] frontier@[x] < adj.len() by {
            assert(frontier@.contains(frontier@[x]));
        }
    }
    while i < nf
        invariant
            adj == links@,
            closed_under_links(adj),
            adj.len() < u32::MAX,
            src < adj.len(),
            answers(*banned, ban),
            ok == open_between(src, end, ban),
            1 <= depth <= adj.len(),
            k == depth - 1,
            levels_known(adj, ok, src, dist0, k),
            is_level(adj, ok, src, frontier@, k),
            forall|x: int| 0 <= x < frontier@.len() ==> #[trigger] frontier@[x] < adj.len(),
            nf == frontier@.len(),
            i <= nf,
            level_partial(adj, ok, src, dist0, dist@, depth as nat),
            level_listed(dist0, dist@, next@, adj.len(), depth),
            marks_listed(dist@, parent, touched@),
            touched@ == touched0 + next@,
            touched@.no_duplicates(),
            forall|x: int| 0 <= x < touched@.len() ==> #[trigger] touched@[x] < adj.len(),
            forall|x: int|
                0 <= x < touched@.len() ==> dist@[#[trigger] touched@[x] as int] != NONE,
            sigma0.len() == adj.len(),
            forall|v: u32| #[trigger]
                frontier@.contains(v) ==> sigma0[v as int] == capped(routes(adj, ok, src, v, k)),
            counts_known(adj, ok, src, frontier@, dist0, dist@, sigma0, sigma@, k, i as int, 0),
            forall|x: int, v: u32|
                0 <= x < i && #[trigger] edge(adj, frontier@[x], v) && ok(v) ==> dist@[v as int]
                    != NONE,
        decreases nf - i,
    {
        let v: u32 = frontier[i];
        assert(frontier@.contains(v));
        let sv: u64 = sigma[v as usize];
        assert(dist0[v as int] != NONE);
        let ws = links.neighbors(v);
        let nw: usize = ws.len();
        let mut j: usize = 0;
        while j < nw
            invariant
                adj == links@,
                closed_under_links(adj),
                adj.len() < u32::MAX,
                src < adj.len(),
                answers(*banned, ban),
                ok == open_between(src, end, ban),
                1 <= depth <= adj.len(),
                k == depth - 1,
                levels_known(adj, ok, src, dist0, k),
                forall|x: int| 0 <= x < frontier@.len() ==> #[trigger] frontier@[x] < adj.len(),
                v < adj.len(),
                distance(adj, ok, src, v) == Some(k),
                sv == capped(routes(adj, ok, src, v, k)),
                i < nf,
                nf == frontier@.len(),
                frontier@[i as int] == v,
                ws@ == adj[v as int],
                nw == ws@.len(),
                j <= nw,
                level_partial(adj, ok, src, dist0, dist@, depth as nat),
                level_listed(dist0, dist@, next@, adj.len(), depth),
                marks_listed(dist@, parent, touched@),
                touched@ == touched0 + next@,
                touched@.no_duplicates(),
                forall|x: int| 0 <= x < touched@.len() ==> #[trigger] touched@[x] < adj.len(),
                forall|x: int|
                    0 <= x < touched@.len() ==> dist@[#[trigger] touched@[x] as int] != NONE,
                sigma0.len() == adj.len(),
                counts_known(
                    adj,
                    ok,
                    src,
                    frontier@,
                    dist0,
                    dist@,
                    sigma0,
                    sigma@,
                    k,
                    i as int,
                    j as int,
                ),
                forall|x: int, y: u32|
                    0 <= x < i && #[trigger] edge(adj, frontier@[x], y) && ok(y) ==> dist@[y as int]
                        != NONE,
                forall|x: int|
                    0 <= x < j && ok(#[trigger] ws@[x]) ==> dist@[ws@[x] as int] != NONE,
            decreases nw - j,
        {
            let w: u32 = ws[j];
            assert(adj[v as int][j as int] < adj.len());
            let ghost dist1 = dist@;
            let ghost sigma1 = sigma@;
            let ghost touched1 = touched@;
            let ghost next1 = next@;
            proof {
                lemma_zero_steps(adj, ok, src, src);
                assert(dist0[src as int] == 0);
                assert forall|x: u32| #[trigger]
                    counted(adj, ok, src, k, frontier@, i as int, j + 1, x) == counted(
                        adj,
                        ok,
                        src,
                        k,
                        frontier@,
                        i as int,
                        j as int,
                        x,
                    ) + (if w == x {
                        routes(adj, ok, src, v, k)
                    } else {
                        0
                    }) by {
                    lemma_counted_link(adj, ok, src, k, frontier@, i as int, j as int, x);
                }
            }
            if w == end || !banned(w) {
                proof {
                    assert(ok(w));
                    assert(adj[v as int].contains(w));
                    lemma_link_bounds_distance(adj, ok, src, v, w);
                }
                let d: u32 = dist[w as usize];
                if d == NONE {
                    proof {
                        assert(dist0[w as int] == NONE);
                        assert(distance(adj, ok, src, w) == Some(depth as nat));
                        assert forall|x: int| 0 <= x < i implies !#[trigger] edge(
                            adj,
                            frontier@[x],
                            w,
                        ) by {}
                        assert forall|x: int| 0 <= x < j implies #[trigger] adj[frontier@[i as int] as int][x]
                            != w by {
                            assert(ws@[x] == adj[v as int][x]);
                        }
                        lemma_counted_zero(adj, ok, src, k, frontier@, i as int, j as int, w);
                    }
                    dist.set(w as usize, depth);
                    touched.push(w);
                    sigma.set(w as usize, sv);
                    next.push(w);
                    proof {
                        lemma_marked_only(adj, ok, src, dist0, dist1, parent, touched1, next1, depth, w);
                        assert(touched@ =~= touched0 + next@);
                    }
                } else if d == depth {
                    // Another route of the same length into w.
                    let c: u64 = sigma[w as usize];
                    sigma.set(w as usize, c.saturating_add(sv));
                    proof {
                        assert(dist0[w as int] == NONE);
                    }
                }
            } else {
                proof {
                    if w != src && dist@[w as int] != NONE && dist0[w as int] == NONE {
                        let x = lemma_predecessor(adj, ok, src, w, k);
                        assert(false);
                    }
                }
            }
            proof {
                assert forall|x: int| #![trigger sigma@[x]] 0 <= x < adj.len() implies (dist0[x]
                    != NONE ==> sigma@[x] == sigma0[x]) && (dist0[x] == NONE && dist@[x] != NONE
                    ==> sigma@[x] == capped(
                    counted(adj, ok, src, k, frontier@, i as int, j + 1, x as u32),
                )) by {
                    assert(sigma1[x] == sigma1[x]);
                    assert(dist1[x] == dist1[x]);
                    if x != w {
                        assert(sigma@[x] == sigma1[x]);
                        assert(dist@[x] == dist1[x]);
                    }
                }
            }
            j = j + 1;
        }
        proof {
            assert forall|x: int, y: u32|
                0 <= x < i + 1 && #[trigger] edge(adj, frontier@[x], y) && ok(y) implies dist@[y as int]
                != NONE by {
                if x == i {
                    let q = choose|q: int| 0 <= q < adj[v as int].len() && adj[v as int][q] == y;
                    assert(ws@[q] == y);
                }
            }
            assert forall|x: u32| #[trigger]
                counted(adj, ok, src, k, frontier@, i + 1, 0, x) == counted(
                    adj,
                    ok,
                    src,
                    k,
                    frontier@,
                    i as int,
                    nw as int,
                    x,
                ) by {
                lemma_counted_vertex(adj, ok, src, k, frontier@, i as int, x);
            }
        }
        i = i + 1;
    }
    proof {
        lemma_level_complete(adj, ok, src, dist0, dist@, frontier@, next@, depth);
        assert(frontier@.take(nf as int) =~= frontier@);
        assert forall|v: u32| #[trigger] next@.contains(v) implies sigma@[v as int] == capped(
            routes(adj, ok, src, v, depth as nat),
        ) by {
            let x = lemma_predecessor(adj, ok, src, v, k);
            lemma_routes_from_level(adj, ok, src, v, k, frontier@);
            assert(sigma@[v as int] == capped(
                counted(adj, ok, src, k, frontier@, nf as int, 0, v),
            ));
        }
        assert forall|a: int, b: int| 0 <= a < next@.len() && 0 <= b < next@.len() && a != b implies next@[a]
            != next@[b] by {
            assert(touched@[touched0.len() + a] == next@[a]);
            assert(touched@[touched0.len() + b] == next@[b]);
        }
    }
    next
}

impl PathFinder {
    /// How far `goal` is from `start`, and how many shortest paths lead there.
    ///
    /// Nothing where `goal` is more than `max_depth` steps away, or cannot be
    /// reached. The count stops at what 64 bits can hold.
    pub fn count_shortest_paths<F: Fn(u32) -> bool>(
        &mut self,
        g: &Graph,
        start: u32,
        goal: u32,
        banned: &F,
        max_depth: u8,
    ) -> (r: Option<(usize, u64)>)
        requires
            old(self).wf(),
            g.wf(),
            g.titles@.len() <= old(self).size(),
            decides(*banned),
        ensures
            final(self).wf(),
            final(self).size() == old(self).size(),
            r == shortest_count(
                g.forward@,
                open_between(start, goal, banned_by(*banned)),
                start,
                goal,
                max_depth,
            ),
    {
        self.count_routes(g, start, goal, banned, max_depth, Ghost(banned_by(*banned)))
    }

    /// The distance and the number of shortest paths, given what is banned.
    pub(crate) fn count_routes<F: Fn(u32) -> bool>(
        &mut self,
        g: &Graph,
        start: u32,
        goal: u32,
        banned: &F,
        max_depth: u8,
        Ghost(ban): Ghost<Ban>,
    ) -> (r: Option<(usize, u64)>)
        requires
            old(self).wf(),
            g.wf(),
            g.titles@.len() <= old(self).size(),
            answers(*banned, ban),
        ensures
            final(self).wf(),
            final(self).size() == old(self).size(),
            r == shortest_count(
                g.forward@,
                open_between(start, goal, ban),
                start,
                goal,
                max_depth,
            ),
    {
        self.reset();
        let ghost ok = open_between(start, goal, ban);
        let ghost adj = g.forward@;
        proof {
            lemma_zero_steps(adj, ok, start, goal);
            lemma_distance_props(adj, ok, start, goal);
        }
        if start == goal {
            return Some((0, 1));
        }
        let n: usize = g.len();
        if start as usize >= n || goal as usize >= n {
            return None;
        }
        let mut sigma: Vec<u64> = Vec::with_capacity(n);
        let mut i: usize = 0;
        while i < n
            invariant
                i <= n,
                sigma@.len() == i,
            decreases n - i,
        {
            sigma.push(0);
            i = i + 1;
        }
        sigma.set(start as usize, 1);
        self.dist_f.set(start as usize, 0);
        self.touched_f.push(start);
        let mut frontier: Vec<u32> = Vec::new();
        frontier.push(start);
        let mut depth: u32 = 0;
        let ghost parent = self.parent_f@;
        proof {
            lemma_first_level(adj, ok, start, self.dist_f@, frontier@);
            assert(self.touched_f@[0] == start);
            assert(self.touched_f@.contains(start));
            assert(routes(adj, ok, start, start, 0) == 1);
            assert forall|v: u32| #[trigger] frontier@.contains(v) implies v == start by {}
        }
        while frontier.len() > 0 && depth < max_depth as u32
            invariant
                self.dist_f@.len() == old(self).size(),
                old(self).size() <= u32::MAX,
                self.dist_b@.len() == self.dist_f@.len(),
                self.parent_f@ == parent,
                marks_listed(self.dist_b@, self.parent_b@, self.touched_b@),
                g.wf(),
                adj == g.forward@,
                adj.len() <= self.dist_f@.len(),
                answers(*banned, ban),
                ok == open_between(start, goal, ban),
                start < adj.len(),
                goal < adj.len(),
                start != goal,
                depth <= max_depth,
                levels_known(adj, ok, start, self.dist_f@, depth as nat),
                is_level(adj, ok, start, frontier@, depth as nat),
                frontier@.no_duplicates(),
                marks_listed(self.dist_f@, parent, self.touched_f@),
                self.touched_f@.no_duplicates(),
                forall|k: int|
                    0 <= k < self.touched_f@.len() ==> #[trigger] self.touched_f@[k] < adj.len(),
                forall|k: int|
                    0 <= k < self.touched_f@.len() ==> self.dist_f@[#[trigger] self.touched_f@[k] as int]
                        != NONE,
                frontier@.len() > 0 ==> depth < self.touched_f@.len(),
                sigma@.len() == adj.len(),
                forall|v: u32| #[trigger]
                    frontier@.contains(v) ==> sigma@[v as int] == capped(
                        routes(adj, ok, start, v, depth as nat),
                    ),
                self.dist_f@[goal as int] == NONE,
            decreases max_depth - depth,
        {
            proof {
                lemma_distinct_bounded(self.touched_f@, adj.len());
            }
            depth = depth + 1;
            let next = count_level(
                &g.forward,
                goal,
                banned,
                &frontier,
                depth,
                &mut self.dist_f,
                &mut self.touched_f,
                &mut sigma,
                Ghost(start),
                Ghost(ban),
                Ghost(ok),
                Ghost(parent),
            );
            // Finish the level before deciding: stopping at first sight of the
            // goal would count only the routes found so far.
            if self.dist_f[goal as usize] == depth {
                proof {
                    assert(next@.contains(goal));
                }
                return Some((depth as usize, sigma[goal as usize]));
            }
            frontier = next;
            proof {
                if self.dist_f@[goal as int] != NONE {
                    assert(self.dist_f@[goal as int] < depth);
                    assert(false);
                }
            }
        }
        proof {
            if distance(adj, ok, start, goal) is Some && depth < max_depth {
                let w = lemma_midpoint(adj, ok, start, goal, depth as nat);
                lemma_reached_is_vertex(adj, ok, start, w);
                assert(frontier@.contains(w));
            }
        }
        None
    }
}

/// What counting the shortest paths between two vertices gives.
pub open spec fn shortest_count(
    adj: Adj,
    ok: Allowed,
    start: u32,
    goal: u32,
    max_depth: u8,
) -> Option<(usize, u64)> {
    if start == goal {
        Some((0, 1))
    } else if start >= adj.len() || goal >= adj.len() {
        None
    } else {
        match distance(adj, ok, start, goal) {
            Some(d) => if d <= max_depth {
                Some((d as usize, capped(routes(adj, ok, start, goal, d))))
            } else {
                None
            },
            None => None,
        }
    }
}

// ---------------------------------------------------------------------------
// Laws
// ---------------------------------------------------------------------------

/// A shortest path never passes through what is banned, even where an end is
/// banned itself.
pub proof fn law_paths_avoid_what_is_banned(
    adj: Adj,
    ban: Ban,
    p: Seq<u32>,
    start: u32,
    goal: u32,
)
    requires
        is_shortest_walk(adj, open_between(start, goal, ban), p, start, goal),
    ensures
        forall|i: int| 0 < i < p.len() - 1 ==> !ban(#[trigger] p[i]),
{
    let ok = open_between(start, goal, ban);
    lemma_distance_props(adj, ok, start, goal);
    assert forall|i: int| 0 < i < p.len() - 1 implies !ban(#[trigger] p[i]) by {
        assert(ok(p[i]));
        if p[i] == goal {
            let q = p.take(i + 1);
            assert forall|k: int| 1 <= k < q.len() implies edge(adj, q[k - 1], #[trigger] q[k])
                && ok(q[k]) by {
                assert(q[k] == p[k] && q[k - 1] == p[k - 1]);
            }
            assert(is_walk(adj, ok, q, start, goal));
            assert(has_walk(adj, ok, start, goal, i as nat));
        }
        if p[i] == start {
            let q = p.skip(i);
            assert forall|k: int| 1 <= k < q.len() implies edge(adj, q[k - 1], #[trigger] q[k])
                && ok(q[k]) by {
                assert(q[k] == p[k + i] && q[k - 1] == p[k + i - 1]);
            }
            assert(q.last() == p.last());
            assert(is_walk(adj, ok, q, start, goal));
            assert(has_walk(adj, ok, start, goal, (p.len() - 1 - i) as nat));
        }
    }
}

/// Counting agrees with searching: what is counted is as long as a shortest
/// path, there is at least one where there is a path, and there is a path
/// where any are counted.
pub proof fn law_counts_agree_with_paths(
    adj: Adj,
    ok: Allowed,
    start: u32,
    goal: u32,
    max_depth: u8,
)
    requires
        adj.len() <= u32::MAX,
        start < adj.len(),
        goal < adj.len(),
    ensures
        shortest_count(adj, ok, start, goal, max_depth) matches Some((d, count)) ==> distance(
            adj,
            ok,
            start,
            goal,
        ) == Some(d as nat) && count >= 1,
        shortest_count(adj, ok, start, goal, max_depth) is None ==> distance(
            adj,
            ok,
            start,
            goal,
        ) is None || distance(adj, ok, start, goal)->0 > max_depth,
{
    lemma_zero_steps(adj, ok, start, goal);
    lemma_distance_props(adj, ok, start, goal);
    match distance(adj, ok, start, goal) {
        Some(d) => {
            lemma_routes_positive(adj, ok, start, goal, d);
        },
        None => {},
    }
}

/// The ways from one article to another are counted, all that are shortest and
/// no others, up to the largest number that there is. There is a count where the
/// shortest ways are no longer than asked.
pub proof fn law_shortest_ways_are_counted(
    adj: Adj,
    ok: Allowed,
    start: u32,
    goal: u32,
    max_depth: u8,
)
    requires
        adj.len() <= u32::MAX,
        start < adj.len(),
        goal < adj.len(),
        start != goal,
        forall|w: int| 0 <= w < adj.len() ==> (#[trigger] adj[w]).no_duplicates(),
    ensures
        distance(adj, ok, start, goal) matches Some(d) ==> (d <= max_depth
            <==> shortest_count(adj, ok, start, goal, max_depth) is Some),
        shortest_count(adj, ok, start, goal, max_depth) matches Some((d, count)) ==> distance(
            adj,
            ok,
            start,
            goal,
        ) == Some(d as nat) && (ways(adj, ok, start, goal, d as nat).len() <= u64::MAX ==> count
            == ways(adj, ok, start, goal, d as nat).len()) && (ways(
            adj,
            ok,
            start,
            goal,
            d as nat,
        ).len() > u64::MAX ==> count == u64::MAX),
        shortest_count(adj, ok, start, start, max_depth) == Some((0usize, 1u64)),
{
    if distance(adj, ok, start, goal) is Some {
        let d = distance(adj, ok, start, goal)->0;
        law_every_way_is_counted(adj, ok, start, goal, d);
    }
}
} // verus!
