//! What a breadth-first search knows, level by level.

use crate::walks::{
    Adj, Allowed, closed_under_links, distance, edge, lemma_distance_props, lemma_midpoint,
    lemma_predecessor, lemma_zero_steps,
};
use vstd::prelude::*;

verus! {

/// No vertex.
pub const NONE: u32 = 0xffff_ffff;

/// Which vertices are banned.
pub type Ban = spec_fn(u32) -> bool;

/// What a function bans.
pub open spec fn banned_by<F: Fn(u32) -> bool>(f: F) -> Ban {
    |v: u32| call_ensures(f, (v,), true)
}

/// `f` answers for every vertex, and what it answers is `ban`.
pub open spec fn answers<F: Fn(u32) -> bool>(f: F, ban: Ban) -> bool {
    &&& forall|v: u32| #[trigger] call_requires(f, (v,))
    &&& forall|v: u32, r: bool| #[trigger] call_ensures(f, (v,), r) ==> r == ban(v)
}

/// `f` answers for every vertex, and always the same.
pub open spec fn decides<F: Fn(u32) -> bool>(f: F) -> bool {
    answers(f, banned_by(f))
}

/// Where a walk between two vertices may lead: the ends, and what is not
/// banned.
pub open spec fn open_between(start: u32, goal: u32, ban: Ban) -> Allowed {
    |v: u32| v == start || v == goal || !ban(v)
}

/// `dist` holds the distance from `src` of every vertex up to `depth` away, and
/// nothing for the others.
pub open spec fn levels_known(adj: Adj, ok: Allowed, src: u32, dist: Seq<u32>, depth: nat) -> bool {
    &&& adj.len() <= dist.len()
    &&& forall|v: int|
        #![trigger dist[v]]
        0 <= v < adj.len() ==> {
            &&& dist[v] != NONE ==> dist[v] <= depth && distance(adj, ok, src, v as u32) == Some(
                dist[v] as nat,
            )
            &&& dist[v] == NONE ==> !(distance(adj, ok, src, v as u32) matches Some(d) && d
                <= depth)
        }
}

/// `frontier` holds exactly the vertices `depth` away from `src`.
pub open spec fn is_level(adj: Adj, ok: Allowed, src: u32, frontier: Seq<u32>, depth: nat) -> bool {
    forall|v: u32|
        #![trigger frontier.contains(v)]
        frontier.contains(v) <==> v < adj.len() && distance(adj, ok, src, v) == Some(depth)
}

/// Every vertex that was reached, but `src`, has a parent one step nearer.
pub open spec fn parents_known(
    adj: Adj,
    ok: Allowed,
    src: u32,
    dist: Seq<u32>,
    parent: Seq<u32>,
) -> bool {
    &&& parent.len() == dist.len()
    &&& forall|v: int|
        #![trigger parent[v]]
        0 <= v < adj.len() && dist[v] != NONE && v != src ==> {
            &&& parent[v] < adj.len()
            &&& edge(adj, parent[v], v as u32)
            &&& ok(v as u32)
            &&& dist[v] >= 1
            &&& dist[parent[v] as int] == dist[v] - 1
        }
}

/// Every mark that a search left is on the list of what it touched.
pub open spec fn marks_listed(dist: Seq<u32>, parent: Seq<u32>, touched: Seq<u32>) -> bool {
    &&& parent.len() == dist.len()
    &&& forall|i: int| 0 <= i < touched.len() ==> #[trigger] touched[i] < dist.len()
    &&& forall|v: int|
        #![trigger dist[v]]
        #![trigger parent[v]]
        0 <= v < dist.len() && (dist[v] != NONE || parent[v] != NONE) ==> touched.contains(
            v as u32,
        )
}

/// A list of distinct vertices is no longer than there are vertices.
pub proof fn lemma_distinct_bounded(s: Seq<u32>, n: nat)
    requires
        s.no_duplicates(),
        forall|i: int| 0 <= i < s.len() ==> #[trigger] s[i] < n,
    ensures
        s.len() <= n,
{
    let t = s.map_values(|x: u32| x as int);
    assert(t.no_duplicates());
    t.unique_seq_to_set();
    let all = vstd::set_lib::set_int_range(0, n as int);
    vstd::set_lib::lemma_int_range(0, n as int);
    assert forall|x: int| t.to_set().contains(x) implies all.contains(x) by {
        let i = choose|i: int| 0 <= i < t.len() && t[i] == x;
        assert(s[i] < n);
    }
    assert(t.to_set().subset_of(all));
    vstd::set_lib::lemma_len_subset(t.to_set(), all);
}

/// `dist` grew out of `dist0` by marks at `depth`, each of them right.
pub open spec fn level_partial(
    adj: Adj,
    ok: Allowed,
    src: u32,
    dist0: Seq<u32>,
    dist: Seq<u32>,
    depth: nat,
) -> bool {
    &&& dist.len() == dist0.len()
    &&& forall|v: int|
        #![trigger dist[v]]
        #![trigger dist0[v]]
        0 <= v < adj.len() ==> {
            &&& dist0[v] != NONE ==> dist[v] == dist0[v]
            &&& dist0[v] == NONE && dist[v] != NONE ==> dist[v] == depth && distance(
                adj,
                ok,
                src,
                v as u32,
            ) == Some(depth)
        }
    &&& forall|v: int| adj.len() <= v < dist.len() ==> dist[v] == dist0[v]
}

/// `next` lists the marks that are new.
pub open spec fn level_listed(
    dist0: Seq<u32>,
    dist: Seq<u32>,
    next: Seq<u32>,
    n: nat,
    depth: u32,
) -> bool {
    forall|v: u32|
        #![trigger next.contains(v)]
        next.contains(v) <==> v < n && dist0[v as int] == NONE && dist[v as int] != NONE
}

/// One new mark keeps what a search knows.
pub proof fn lemma_marked(
    adj: Adj,
    ok: Allowed,
    src: u32,
    dist0: Seq<u32>,
    dist: Seq<u32>,
    parent: Seq<u32>,
    touched: Seq<u32>,
    next: Seq<u32>,
    depth: u32,
    v: u32,
    w: u32,
)
    requires
        adj.len() < u32::MAX,
        src < adj.len(),
        v < adj.len(),
        w < adj.len(),
        adj.len() <= dist0.len(),
        1 <= depth <= adj.len(),
        dist0[v as int] == depth - 1,
        dist[w as int] == NONE,
        edge(adj, v, w),
        ok(w),
        distance(adj, ok, src, w) == Some(depth as nat),
        level_partial(adj, ok, src, dist0, dist, depth as nat),
        level_listed(dist0, dist, next, adj.len(), depth),
        parents_known(adj, ok, src, dist, parent),
        marks_listed(dist, parent, touched),
        touched.no_duplicates(),
        forall|k: int| 0 <= k < touched.len() ==> #[trigger] touched[k] < adj.len(),
        forall|k: int| 0 <= k < touched.len() ==> dist[#[trigger] touched[k] as int] != NONE,
    ensures
        level_partial(adj, ok, src, dist0, dist.update(w as int, depth), depth as nat),
        level_listed(dist0, dist.update(w as int, depth), next.push(w), adj.len(), depth),
        parents_known(adj, ok, src, dist.update(w as int, depth), parent.update(w as int, v)),
        marks_listed(dist.update(w as int, depth), parent.update(w as int, v), touched.push(w)),
        touched.push(w).no_duplicates(),
{
    let dist2 = dist.update(w as int, depth);
    let parent2 = parent.update(w as int, v);
    let touched2 = touched.push(w);
    let next2 = next.push(w);
    assert(dist[v as int] == depth - 1);
    assert(v != w);
    assert forall|x: u32| #![trigger next2.contains(x)] next2.contains(x) <==> x < adj.len()
        && dist0[x as int] == NONE && dist2[x as int] != NONE by {
        assert(next2[next.len() as int] == w);
        if next2.contains(x) {
            let k = choose|k: int| 0 <= k < next2.len() && next2[k] == x;
            if k < next.len() {
                assert(next[k] == x);
                assert(next.contains(x));
            }
        }
        if next.contains(x) {
            let k = choose|k: int| 0 <= k < next.len() && next[k] == x;
            assert(next2[k] == x);
        }
        if x == w {
            assert(dist0[w as int] == NONE);
        }
    }
    assert forall|x: int|
        #![trigger parent2[x]]
        0 <= x < adj.len() && dist2[x] != NONE && x != src implies parent2[x] < adj.len() && edge(
        adj,
        parent2[x],
        x as u32,
    ) && ok(x as u32) && dist2[x] >= 1 && dist2[parent2[x] as int] == dist2[x] - 1 by {
        if x != w {
            assert(parent2[x] == parent[x]);
            assert(dist[x] != NONE);
            assert(dist[parent[x] as int] == dist[x] - 1);
            assert(parent[x] != w);
        }
    }
    assert forall|x: int|
        #![trigger dist2[x]]
        #![trigger parent2[x]]
        0 <= x < dist2.len() && (dist2[x] != NONE || parent2[x] != NONE) implies touched2.contains(
        x as u32,
    ) by {
        if x == w {
            assert(touched2[touched.len() as int] == w);
        } else {
            assert(dist[x] != NONE || parent[x] != NONE);
            let k = choose|k: int| 0 <= k < touched.len() && touched[k] == x as u32;
            assert(touched2[k] == x as u32);
        }
    }
}

/// Once the whole frontier was gone through, the next level is complete.
pub proof fn lemma_level_complete(
    adj: Adj,
    ok: Allowed,
    src: u32,
    dist0: Seq<u32>,
    dist: Seq<u32>,
    frontier: Seq<u32>,
    next: Seq<u32>,
    depth: u32,
)
    requires
        adj.len() < u32::MAX,
        1 <= depth <= adj.len(),
        closed_under_links(adj),
        levels_known(adj, ok, src, dist0, (depth - 1) as nat),
        is_level(adj, ok, src, frontier, (depth - 1) as nat),
        level_partial(adj, ok, src, dist0, dist, depth as nat),
        level_listed(dist0, dist, next, adj.len(), depth),
        forall|k: int, v: u32|
            0 <= k < frontier.len() && #[trigger] edge(adj, frontier[k], v) && ok(v) ==> dist[v as int]
                != NONE,
    ensures
        levels_known(adj, ok, src, dist, depth as nat),
        is_level(adj, ok, src, next, depth as nat),
{
    assert forall|v: int| 0 <= v < adj.len() && #[trigger] dist[v] == NONE implies !(distance(
        adj,
        ok,
        src,
        v as u32,
    ) matches Some(d) && d <= depth) by {
        assert(dist0[v] == NONE);
        if distance(adj, ok, src, v as u32) == Some(depth as nat) {
            let x = lemma_predecessor(adj, ok, src, v as u32, (depth - 1) as nat);
            assert(x < adj.len());
            assert(frontier.contains(x));
            let k = choose|k: int| 0 <= k < frontier.len() && frontier[k] == x;
            assert(edge(adj, frontier[k], v as u32));
            assert(false);
        }
    }
    assert forall|v: u32| #![trigger next.contains(v)] next.contains(v) <==> v < adj.len()
        && distance(adj, ok, src, v) == Some(depth as nat) by {
        if v < adj.len() {
            assert(dist0[v as int] != NONE ==> dist0[v as int] <= depth - 1);
            assert(dist[v as int] == NONE || dist[v as int] != NONE);
        }
    }
}

/// What a search reaches is a vertex of the graph.
pub proof fn lemma_reached_is_vertex(adj: Adj, ok: Allowed, src: u32, v: u32)
    requires
        closed_under_links(adj),
        src < adj.len(),
        distance(adj, ok, src, v) is Some,
    ensures
        v < adj.len(),
        v == src || ok(v),
{
    let d = distance(adj, ok, src, v)->0;
    lemma_distance_props(adj, ok, src, v);
    lemma_zero_steps(adj, ok, src, v);
    if d > 0 {
        let x = lemma_predecessor(adj, ok, src, v, (d - 1) as nat);
        let i = choose|i: int| 0 <= i < adj[x as int].len() && adj[x as int][i] == v;
        assert(adj[x as int][i] < adj.len());
    }
}

/// At the start only the source is reached.
pub proof fn lemma_first_level(adj: Adj, ok: Allowed, src: u32, dist: Seq<u32>, frontier: Seq<u32>)
    requires
        src < adj.len() <= dist.len(),
        adj.len() < u32::MAX,
        frontier == seq![src],
        dist[src as int] == 0,
        forall|v: int| 0 <= v < dist.len() && v != src ==> dist[v] == NONE,
    ensures
        levels_known(adj, ok, src, dist, 0),
        is_level(adj, ok, src, frontier, 0),
{
    assert forall|v: u32| distance(adj, ok, src, v) == Some(0nat) <==> v == src by {
        lemma_zero_steps(adj, ok, src, v);
        lemma_distance_props(adj, ok, src, v);
    }
    assert forall|v: u32| #![trigger frontier.contains(v)] frontier.contains(v) <==> v < adj.len()
        && distance(adj, ok, src, v) == Some(0nat) by {
        assert(frontier[0] == src);
    }
}

/// One new mark keeps what a counting search knows.
pub proof fn lemma_marked_only(
    adj: Adj,
    ok: Allowed,
    src: u32,
    dist0: Seq<u32>,
    dist: Seq<u32>,
    parent: Seq<u32>,
    touched: Seq<u32>,
    next: Seq<u32>,
    depth: u32,
    w: u32,
)
    requires
        adj.len() < u32::MAX,
        w < adj.len(),
        adj.len() <= dist0.len(),
        1 <= depth <= adj.len(),
        dist[w as int] == NONE,
        distance(adj, ok, src, w) == Some(depth as nat),
        level_partial(adj, ok, src, dist0, dist, depth as nat),
        level_listed(dist0, dist, next, adj.len(), depth),
        marks_listed(dist, parent, touched),
        touched.no_duplicates(),
        forall|k: int| 0 <= k < touched.len() ==> #[trigger] touched[k] < adj.len(),
        forall|k: int| 0 <= k < touched.len() ==> dist[#[trigger] touched[k] as int] != NONE,
    ensures
        level_partial(adj, ok, src, dist0, dist.update(w as int, depth), depth as nat),
        level_listed(dist0, dist.update(w as int, depth), next.push(w), adj.len(), depth),
        marks_listed(dist.update(w as int, depth), parent, touched.push(w)),
        touched.push(w).no_duplicates(),
{
    let dist2 = dist.update(w as int, depth);
    let touched2 = touched.push(w);
    let next2 = next.push(w);
    assert forall|x: u32| #![trigger next2.contains(x)] next2.contains(x) <==> x < adj.len()
        && dist0[x as int] == NONE && dist2[x as int] != NONE by {
        assert(next2[next.len() as int] == w);
        if next2.contains(x) {
            let k = choose|k: int| 0 <= k < next2.len() && next2[k] == x;
            if k < next.len() {
                assert(next[k] == x);
                assert(next.contains(x));
            }
        }
        if next.contains(x) {
            let k = choose|k: int| 0 <= k < next.len() && next[k] == x;
            assert(next2[k] == x);
        }
        if x == w {
            assert(dist0[w as int] == NONE);
        }
    }
    assert forall|x: int|
        #![trigger dist2[x]]
        #![trigger parent[x]]
        0 <= x < dist2.len() && (dist2[x] != NONE || parent[x] != NONE) implies touched2.contains(
        x as u32,
    ) by {
        if x == w {
            assert(touched2[touched.len() as int] == w);
        } else {
            assert(dist[x] != NONE || parent[x] != NONE);
            let k = choose|k: int| 0 <= k < touched.len() && touched[k] == x as u32;
            assert(touched2[k] == x as u32);
        }
    }
}

/// A vertex is less than as many steps away as there are vertices.
pub proof fn lemma_distance_small(adj: Adj, ok: Allowed, u: u32, v: u32)
    requires
        closed_under_links(adj),
        u < adj.len(),
        distance(adj, ok, u, v) is Some,
    ensures
        distance(adj, ok, u, v)->0 < adj.len(),
{
    let d = distance(adj, ok, u, v)->0;
    let on_the_way = Seq::new(
        d + 1,
        |k: int| choose|w: u32| #[trigger] distance(adj, ok, u, w) == Some(k as nat),
    );
    assert forall|k: int| 0 <= k <= d implies distance(adj, ok, u, #[trigger] on_the_way[k])
        == Some(k as nat) by {
        let w = lemma_midpoint(adj, ok, u, v, k as nat);
        assert(distance(adj, ok, u, w) == Some(k as nat));
    }
    assert forall|k: int| 0 <= k < on_the_way.len() implies #[trigger] on_the_way[k]
        < adj.len() by {
        lemma_reached_is_vertex(adj, ok, u, on_the_way[k]);
    }
    assert(on_the_way.no_duplicates());
    lemma_distinct_bounded(on_the_way, adj.len());
}

/// Between two ends everything is open that is not banned, and the ends
/// themselves whether they are banned or not.
pub proof fn law_ends_are_open(start: u32, goal: u32, ban: Ban, v: u32)
    ensures
        open_between(start, goal, ban)(start),
        open_between(start, goal, ban)(goal),
        v != start && v != goal ==> open_between(start, goal, ban)(v) == !ban(v),
{
}
} // verus!
