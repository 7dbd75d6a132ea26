//! Distances from one vertex to all others, up to a depth.

use crate::csr::Csr;
use crate::graph::Graph;
use crate::levels::{
    Ban, NONE, answers, is_level, lemma_distinct_bounded, lemma_first_level, lemma_level_complete,
    lemma_marked_only, lemma_reached_is_vertex, level_listed, level_partial, levels_known,
    marks_listed,
};
use crate::paths::PathFinder;
use crate::walks::{
    Adj, Allowed, closed_under_links, distance, edge, has_walk, is_walk, lemma_distance_props,
    lemma_distance_turned, lemma_link_bounds_distance, lemma_midpoint, lemma_transposed_sym,
    lemma_walk_bounds_distance, };
use vstd::prelude::*;

verus! {

/// Not reached.
pub const UNSEEN: u8 = 0xff;

/// A distance as it is recorded: `UNSEEN` where there is none, or one beyond
/// `max_depth`.
pub open spec fn recorded(d: Option<nat>, max_depth: u8) -> u8 {
    match d {
        Some(d) => if d <= max_depth && d < UNSEEN {
            d as u8
        } else {
            UNSEEN
        },
        None => UNSEEN,
    }
}

/// The recorded distance of every vertex from `src`.
pub open spec fn distance_row(adj: Adj, ok: Allowed, src: u32, max_depth: u8) -> Seq<u8> {
    Seq::new(adj.len(), |v: int| recorded(distance(adj, ok, src, v as u32), max_depth))
}

/// Everywhere but where it is banned.
pub open spec fn unblocked(ban: Ban) -> Allowed {
    |v: u32| !ban(v)
}

/// Everywhere.
pub open spec fn anywhere() -> Allowed {
    |v: u32| true
}

spec fn wide(dist: Seq<u8>) -> Seq<u32> {
    dist.map_values(
        |d: u8|
            if d == UNSEEN {
                NONE
            } else {
                d as u32
            },
    )
}

spec fn no_parents(n: nat) -> Seq<u32> {
    Seq::new(n, |v: int| NONE)
}

/// Record the distance of every vertex from `src` up to `max_depth`. `queue` is
/// scratch space.
pub(crate) fn sweep<F: Fn(u32) -> bool>(
    links: &Csr,
    src: u32,
    blocked: &F,
    max_depth: u8,
    dist: &mut Vec<u8>,
    queue: &mut Vec<u32>,
    Ghost(ban): Ghost<Ban>,
)
    requires
        closed_under_links(links@),
        links@.len() < u32::MAX,
        src < links@.len(),
        old(dist)@.len() == links@.len(),
        answers(*blocked, ban),
    ensures
        final(dist)@ == distance_row(links@, unblocked(ban), src, max_depth),
{
    let ghost adj = links@;
    let ghost ok = unblocked(ban);
    let n: usize = dist.len();
    let mut i: usize = 0;
    while i < n
        invariant
            i <= n,
            dist@.len() == n,
            forall|v: int| 0 <= v < i ==> dist@[v] == UNSEEN,
        decreases n - i,
    {
        dist.set(i, UNSEEN);
        i = i + 1;
    }
    dist.set(src as usize, 0);
    queue.clear();
    queue.push(src);
    let cap: u8 = if max_depth == UNSEEN {
        0xfe
    } else {
        max_depth
    };
    let mut lo: usize = 0;
    let mut depth: u8 = 0;
    let ghost none = no_parents(adj.len());
    proof {
        let frontier = queue@.subrange(0, 1);
        assert(frontier =~= seq![src]);
        lemma_first_level(adj, ok, src, wide(dist@), frontier);
        assert(queue@[0] == src);
        assert(queue@.contains(src));
        assert(queue@.subrange(0, queue@.len() as int) =~= frontier);
    }
    while lo < queue.len() && depth < cap
        invariant
            adj == links@,
            ok == unblocked(ban),
            closed_under_links(adj),
            adj.len() < u32::MAX,
            src < adj.len(),
            answers(*blocked, ban),
            none == no_parents(adj.len()),
            dist@.len() == adj.len(),
            cap < UNSEEN,
            depth <= cap,
            lo <= queue@.len(),
            levels_known(adj, ok, src, wide(dist@), depth as nat),
            is_level(adj, ok, src, queue@.subrange(lo as int, queue@.len() as int), depth as nat),
            marks_listed(wide(dist@), none, queue@),
            queue@.no_duplicates(),
            forall|x: int| 0 <= x < queue@.len() ==> #[trigger] queue@[x] < adj.len(),
            forall|x: int|
                0 <= x < queue@.len() ==> wide(dist@)[#[trigger] queue@[x] as int] != NONE,
            lo < queue@.len() ==> depth < queue@.len(),
        decreases cap - depth,
    {
        let hi: usize = queue.len();
        let ghost dist0 = wide(dist@);
        let ghost frontier = queue@.subrange(lo as int, hi as int);
        proof {
            lemma_distinct_bounded(queue@, adj.len());
        }
        depth = depth + 1;
        let mut i: usize = lo;
        assert(queue@.subrange(hi as int, hi as int) =~= Seq::<u32>::empty());
        while i < hi
            invariant
                adj == links@,
                ok == unblocked(ban),
                closed_under_links(adj),
                adj.len() < u32::MAX,
                src < adj.len(),
                answers(*blocked, ban),
                none == no_parents(adj.len()),
                dist@.len() == adj.len(),
                1 <= depth <= adj.len(),
                depth < UNSEEN,
                lo <= i <= hi <= queue@.len(),
                levels_known(adj, ok, src, dist0, (depth - 1) as nat),
                is_level(adj, ok, src, frontier, (depth - 1) as nat),
                frontier == queue@.subrange(lo as int, hi as int),
                level_partial(adj, ok, src, dist0, wide(dist@), depth as nat),
                level_listed(
                    dist0,
                    wide(dist@),
                    queue@.subrange(hi as int, queue@.len() as int),
                    adj.len(),
                    depth as u32,
                ),
                marks_listed(wide(dist@), none, queue@),
                queue@.no_duplicates(),
                forall|x: int| 0 <= x < queue@.len() ==> #[trigger] queue@[x] < adj.len(),
                forall|x: int|
                    0 <= x < queue@.len() ==> wide(dist@)[#[trigger] queue@[x] as int] != NONE,
                forall|x: int, v: u32|
                    0 <= x < i - lo && #[trigger] edge(adj, frontier[x], v) && ok(v)
                        ==> wide(dist@)[v as int] != NONE,
                depth < hi + 1,
            decreases hi - i,
        {
            let v: u32 = queue[i];
            assert(frontier[i - lo] == v);
            assert(frontier.contains(v));
            let ws = links.neighbors(v);
            let nw: usize = ws.len();
            let mut j: usize = 0;
            while j < nw
                invariant
                    adj == links@,
                    ok == unblocked(ban),
                    closed_under_links(adj),
                    adj.len() < u32::MAX,
                    src < adj.len(),
                    answers(*blocked, ban),
                    none == no_parents(adj.len()),
                    dist@.len() == adj.len(),
                    1 <= depth <= adj.len(),
                    depth < UNSEEN,
                    lo <= i < hi <= queue@.len(),
                    levels_known(adj, ok, src, dist0, (depth - 1) as nat),
                    frontier == queue@.subrange(lo as int, hi as int),
                    v < adj.len(),
                    distance(adj, ok, src, v) == Some((depth - 1) as nat),
                    ws@ == adj[v as int],
                    nw == ws@.len(),
                    j <= nw,
                    level_partial(adj, ok, src, dist0, wide(dist@), depth as nat),
                    level_listed(
                        dist0,
                        wide(dist@),
                        queue@.subrange(hi as int, queue@.len() as int),
                        adj.len(),
                        depth as u32,
                    ),
                    marks_listed(wide(dist@), none, queue@),
                    queue@.no_duplicates(),
                    forall|x: int| 0 <= x < queue@.len() ==> #[trigger] queue@[x] < adj.len(),
                    forall|x: int|
                        0 <= x < queue@.len() ==> wide(dist@)[#[trigger] queue@[x] as int] != NONE,
                    forall|x: int, y: u32|
                        0 <= x < i - lo && #[trigger] edge(adj, frontier[x], y) && ok(y)
                            ==> wide(dist@)[y as int] != NONE,
                    forall|x: int|
                        0 <= x < j && ok(#[trigger] ws@[x]) ==> wide(dist@)[ws@[x] as int] != NONE,
                decreases nw - j,
            {
                let w: u32 = ws[j];
                assert(adj[v as int][j as int] < adj.len());
                if dist[w as usize] == UNSEEN {
                    if !blocked(w) {
                        let ghost dist1 = wide(dist@);
                        let ghost queue1 = queue@;
                        let ghost next1 = queue@.subrange(hi as int, queue@.len() as int);
                        proof {
                            assert(ok(w));
                            assert(adj[v as int].contains(w));
                            lemma_link_bounds_distance(adj, ok, src, v, w);
                            assert(dist1[w as int] == NONE);
                            assert(dist0[w as int] == NONE);
                            assert(distance(adj, ok, src, w) == Some(depth as nat));
                        }
                        dist.set(w as usize, depth);
                        queue.push(w);
                        proof {
                            lemma_marked_only(
                                adj,
                                ok,
                                src,
                                dist0,
                                dist1,
                                none,
                                queue1,
                                next1,
                                depth as u32,
                                w,
                            );
                            assert(wide(dist@) =~= dist1.update(w as int, depth as u32));
                            assert(queue@.subrange(hi as int, queue@.len() as int) =~= next1.push(
                                w,
                            ));
                            assert(frontier =~= queue@.subrange(lo as int, hi as int));
                        }
                    }
                }
                j = j + 1;
            }
            proof {
                assert forall|x: int, y: u32|
                    0 <= x < i + 1 - lo && #[trigger] edge(adj, frontier[x], y) && ok(
                        y,
                    ) implies wide(dist@)[y as int] != NONE by {
                    if x == i - lo {
                        let q = choose|q: int|
                            0 <= q < adj[v as int].len() && adj[v as int][q] == y;
                        assert(ws@[q] == y);
                    }
                }
            }
            i = i + 1;
        }
        proof {
            lemma_level_complete(
                adj,
                ok,
                src,
                dist0,
                wide(dist@),
                frontier,
                queue@.subrange(hi as int, queue@.len() as int),
                depth as u32,
            );
        }
        lo = hi;
    }
    proof {
        let row = distance_row(adj, ok, src, max_depth);
        assert forall|v: int| 0 <= v < adj.len() implies dist@[v] == row[v] by {
            let w = wide(dist@);
            assert(w[v] == (if dist@[v] == UNSEEN {
                NONE
            } else {
                dist@[v] as u32
            }));
            if dist@[v] == UNSEEN && depth < cap && distance(adj, ok, src, v as u32) is Some {
                let x = lemma_midpoint(adj, ok, src, v as u32, depth as nat);
                lemma_reached_is_vertex(adj, ok, src, x);
                assert(queue@.subrange(lo as int, queue@.len() as int).contains(x));
                assert(false);
            }
        }
        assert(dist@ =~= row);
    }
}

impl PathFinder {
    /// The distance of every article to `goal`, up to `max_depth`. What is
    /// further away, or cannot get there, is `UNSEEN`.
    pub fn distances_to(&mut self, g: &Graph, goal: u32, max_depth: u8) -> (r: Vec<u8>)
        requires
            g.wf(),
        ensures
            *final(self) == *old(self),
            r@.len() == g.titles@.len(),
            forall|v: int|
                0 <= v < r@.len() ==> #[trigger] r@[v] == (if goal < g.titles@.len() {
                    recorded(distance(g.forward@, anywhere(), v as u32, goal), max_depth)
                } else {
                    UNSEEN
                }),
    {
        let n: usize = g.len();
        let mut dist: Vec<u8> = Vec::with_capacity(n);
        let mut i: usize = 0;
        while i < n
            invariant
                i <= n,
                dist@.len() == i,
                forall|v: int| 0 <= v < i ==> dist@[v] == UNSEEN,
            decreases n - i,
        {
            dist.push(UNSEEN);
            i = i + 1;
        }
        if (goal as usize) < n {
            let open = |v: u32| -> (b: bool)
                ensures
                    b == false,
                { false };
            let mut queue: Vec<u32> = Vec::new();
            let ghost none = |v: u32| false;
            sweep(&g.reverse, goal, &open, max_depth, &mut dist, &mut queue, Ghost(none));
            proof {
                let ok = unblocked(none);
                assert(ok =~= anywhere());
                lemma_transposed_sym(g.forward@, g.reverse@);
                assert forall|v: int| 0 <= v < dist@.len() implies #[trigger] dist@[v] == recorded(
                    distance(g.forward@, anywhere(), v as u32, goal),
                    max_depth,
                ) by {
                    lemma_distance_turned(g.forward@, g.reverse@, ok, v as u32, goal);
                }
            }
        }
        dist
    }
}

// ---------------------------------------------------------------------------
// Laws
// ---------------------------------------------------------------------------

/// Distances lead to the goal: where it is some clicks away, one link is a
/// click nearer to it, and no link is more than a click nearer. So who always
/// follows the nearest link gets there in as few clicks as can be.
pub proof fn law_distances_lead_to_the_goal(adj: Adj, v: u32, goal: u32, d: nat)
    requires
        distance(adj, anywhere(), v, goal) == Some(d),
        d > 0,
    ensures
        exists|w: u32| #[trigger]
            edge(adj, v, w) && distance(adj, anywhere(), w, goal) == Some((d - 1) as nat),
        forall|w: u32| #[trigger]
            edge(adj, v, w) && distance(adj, anywhere(), w, goal) is Some ==> distance(
                adj,
                anywhere(),
                w,
                goal,
            )->0 + 1 >= d,
{
    let ok = anywhere();
    lemma_distance_props(adj, ok, v, goal);
    assert forall|w: u32| #[trigger]
        edge(adj, v, w) && distance(adj, ok, w, goal) is Some implies distance(
        adj,
        ok,
        w,
        goal,
    )->0 + 1 >= d by {
        lemma_distance_props(adj, ok, w, goal);
        let e = distance(adj, ok, w, goal)->0;
        let q = choose|q: Seq<u32>| #[trigger]
            is_walk(adj, ok, q, w, goal) && q.len() == e + 1;
        let p = seq![v] + q;
        assert forall|i: int| 1 <= i < p.len() implies edge(adj, p[i - 1], #[trigger] p[i]) && ok(
            p[i],
        ) by {
            assert(p[i] == q[i - 1]);
            if i > 1 {
                assert(p[i - 1] == q[i - 2]);
            }
        }
        assert(p.last() == q.last());
        assert(is_walk(adj, ok, p, v, goal));
        assert(has_walk(adj, ok, v, goal, e + 1));
    }
    let p = choose|p: Seq<u32>| #[trigger] is_walk(adj, ok, p, v, goal) && p.len() == d + 1;
    let w = p[1];
    assert(edge(adj, p[0], p[1]));
    let q = p.skip(1);
    assert forall|i: int| 1 <= i < q.len() implies edge(adj, q[i - 1], #[trigger] q[i]) && ok(
        q[i],
    ) by {
        assert(q[i] == p[i + 1] && q[i - 1] == p[i]);
    }
    assert(q.last() == p.last());
    assert(is_walk(adj, ok, q, w, goal));
    assert(has_walk(adj, ok, w, goal, (d - 1) as nat));
    lemma_walk_bounds_distance(adj, ok, w, goal, (d - 1) as nat);
}

/// A row tells the distance of each article, up to the depth, and nothing where
/// it is further or there is no way.
pub proof fn law_rows_tell_the_distance(
    adj: Adj,
    ok: Allowed,
    src: u32,
    max_depth: u8,
    v: u32,
    d: u8,
)
    requires
        v < adj.len(),
        d < 255,
    ensures
        distance_row(adj, ok, src, max_depth)[v as int] == d <==> d <= max_depth && distance(
            adj,
            ok,
            src,
            v,
        ) == Some(d as nat),
        distance_row(adj, ok, src, max_depth)[v as int] == 255 <==> !(distance(adj, ok, src, v)
            matches Some(k) && k <= max_depth && k < 255),
        distance_row(adj, ok, src, max_depth).len() == adj.len(),
{
}
} // verus!
