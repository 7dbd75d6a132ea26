//! How many walks of a given length there are.

use crate::walks::{
    Adj, Allowed, distance, edge, follows_links, has_walk, lemma_follows_one_more, lemma_last_step,
    lemma_link_bounds_distance, lemma_step, lemma_walk_bounds_distance, lemma_zero_steps, steps_on,
};
use vstd::relations::injective_on;
use vstd::set_lib::{lemma_map_size, lemma_set_disjoint_lens};
use vstd::prelude::*;

verus! {

/// How often `v` occurs in a list of links.
pub open spec fn copies(links: Seq<u32>, v: u32) -> nat
    decreases links.len(),
{
    if links.len() == 0 {
        0
    } else {
        copies(links.drop_last(), v) + (if links.last() == v {
            1nat
        } else {
            0
        })
    }
}

/// The number of walks of `k` steps from `u` to `v`. A link that is listed
/// twice can be taken in two ways.
pub open spec fn routes(adj: Adj, ok: Allowed, u: u32, v: u32, k: nat) -> nat
    decreases k, 0nat,
{
    if k == 0 {
        if u == v {
            1
        } else {
            0
        }
    } else if !ok(v) {
        0
    } else {
        routes_through(adj, ok, u, v, (k - 1) as nat, adj.len())
    }
}

/// The number of walks of `k + 1` steps from `u` to `v` whose last step leaves
/// one of the first `m` vertices.
pub open spec fn routes_through(adj: Adj, ok: Allowed, u: u32, v: u32, k: nat, m: nat) -> nat
    decreases k, m,
{
    if m == 0 {
        0
    } else {
        routes_through(adj, ok, u, v, k, (m - 1) as nat) + routes(
            adj,
            ok,
            u,
            (m - 1) as u32,
            k,
        ) * copies(adj[m - 1], v)
    }
}

/// The number of walks of `k + 1` steps from `u` to `v` whose last step leaves
/// a vertex of `list`.
pub open spec fn routes_from(
    adj: Adj,
    ok: Allowed,
    u: u32,
    v: u32,
    k: nat,
    list: Seq<u32>,
) -> nat
    decreases list.len(),
{
    if list.len() == 0 {
        0
    } else {
        routes_from(adj, ok, u, v, k, list.drop_last()) + routes(adj, ok, u, list.last(), k)
            * copies(adj[list.last() as int], v)
    }
}

pub proof fn lemma_copies_contains(links: Seq<u32>, v: u32)
    ensures
        copies(links, v) > 0 <==> links.contains(v),
    decreases links.len(),
{
    if links.len() > 0 {
        let rest = links.drop_last();
        lemma_copies_contains(rest, v);
        if links.contains(v) {
            let i = choose|i: int| 0 <= i < links.len() && links[i] == v;
            if i < rest.len() {
                assert(rest[i] == v);
            }
        }
        if rest.contains(v) {
            let i = choose|i: int| 0 <= i < rest.len() && rest[i] == v;
            assert(links[i] == v);
        }
        if links.last() == v {
            assert(links[links.len() - 1] == v);
        }
    }
}

/// Where there is a route, there is a walk.
pub proof fn lemma_routes_positive(adj: Adj, ok: Allowed, u: u32, v: u32, k: nat)
    requires
        adj.len() <= u32::MAX,
    ensures
        routes(adj, ok, u, v, k) > 0 <==> has_walk(adj, ok, u, v, k),
    decreases k, 0nat,
{
    lemma_zero_steps(adj, ok, u, v);
    if k > 0 {
        let j = (k - 1) as nat;
        if ok(v) {
            lemma_through_positive(adj, ok, u, v, j, adj.len());
            if routes(adj, ok, u, v, k) > 0 {
                let x = choose|x: u32|
                    x < adj.len() && #[trigger] edge(adj, x, v) && has_walk(adj, ok, u, x, j);
                lemma_step(adj, ok, u, x, v, j);
            }
        }
        if has_walk(adj, ok, u, v, k) {
            let x = lemma_last_step(adj, ok, u, v, j);
            assert(edge(adj, x, v));
        }
    }
}

proof fn lemma_through_positive(adj: Adj, ok: Allowed, u: u32, v: u32, k: nat, m: nat)
    requires
        m <= adj.len() <= u32::MAX,
    ensures
        routes_through(adj, ok, u, v, k, m) > 0 <==> exists|x: u32|
            x < m && #[trigger] edge(adj, x, v) && has_walk(adj, ok, u, x, k),
    decreases k, m + 1,
{
    if m > 0 {
        let y = (m - 1) as u32;
        lemma_through_positive(adj, ok, u, v, k, (m - 1) as nat);
        lemma_routes_positive(adj, ok, u, y, k);
        lemma_copies_contains(adj[m - 1], v);
        let a = routes(adj, ok, u, y, k);
        let b = copies(adj[m - 1], v);
        assert(a * b > 0 <==> a > 0 && b > 0) by (nonlinear_arith)
            requires
                a >= 0,
                b >= 0,
        ;
        if a > 0 && b > 0 {
            assert(edge(adj, y, v));
        }
        if exists|x: u32| x < m && #[trigger] edge(adj, x, v) && has_walk(adj, ok, u, x, k) {
            let x = choose|x: u32|
                x < m && #[trigger] edge(adj, x, v) && has_walk(adj, ok, u, x, k);
            if x == y {
                assert(a > 0 && b > 0);
            } else {
                assert(x < m - 1 && edge(adj, x, v));
            }
        }
    }
}

proof fn lemma_from_remove(
    adj: Adj,
    ok: Allowed,
    u: u32,
    v: u32,
    k: nat,
    list: Seq<u32>,
    at: int,
)
    requires
        0 <= at < list.len(),
    ensures
        routes_from(adj, ok, u, v, k, list) == routes_from(adj, ok, u, v, k, list.remove(at))
            + routes(adj, ok, u, list[at], k) * copies(adj[list[at] as int], v),
    decreases list.len(),
{
    if at == list.len() - 1 {
        assert(list.remove(at) =~= list.drop_last());
    } else {
        lemma_from_remove(adj, ok, u, v, k, list.drop_last(), at);
        assert(list.remove(at).drop_last() =~= list.drop_last().remove(at));
        assert(list.remove(at).last() == list.last());
    }
}

/// Summing over a list of distinct vertices is summing over all, as long as
/// the list holds every vertex that contributes.
proof fn lemma_from_is_through(
    adj: Adj,
    ok: Allowed,
    u: u32,
    v: u32,
    k: nat,
    list: Seq<u32>,
    m: nat,
)
    requires
        m <= adj.len() <= u32::MAX,
        list.no_duplicates(),
        forall|i: int| 0 <= i < list.len() ==> #[trigger] list[i] < m,
        forall|x: u32|
            x < m && #[trigger] edge(adj, x, v) && routes(adj, ok, u, x, k) > 0 ==> list.contains(
                x,
            ),
    ensures
        routes_from(adj, ok, u, v, k, list) == routes_through(adj, ok, u, v, k, m),
    decreases m,
{
    if m == 0 {
        if list.len() > 0 {
            assert(list[0] < 0);
        }
    } else {
        let y = (m - 1) as u32;
        if list.contains(y) {
            let at = choose|i: int| 0 <= i < list.len() && list[i] == y;
            let rest = list.remove(at);
            lemma_from_remove(adj, ok, u, v, k, list, at);
            assert(rest.no_duplicates());
            assert forall|i: int| 0 <= i < rest.len() implies #[trigger] rest[i] < m - 1 by {
                let j = if i < at {
                    i
                } else {
                    i + 1
                };
                assert(rest[i] == list[j]);
                assert(list[j] < m);
                assert(list[j] != list[at]);
            }
            assert forall|x: u32|
                x < m - 1 && #[trigger] edge(adj, x, v) && routes(adj, ok, u, x, k)
                    > 0 implies rest.contains(x) by {
                let j = choose|j: int| 0 <= j < list.len() && list[j] == x;
                if j < at {
                    assert(rest[j] == x);
                } else {
                    assert(rest[j - 1] == x);
                }
            }
            lemma_from_is_through(adj, ok, u, v, k, rest, (m - 1) as nat);
        } else {
            assert forall|i: int| 0 <= i < list.len() implies #[trigger] list[i] < m - 1 by {
                assert(list.contains(list[i]));
            }
            lemma_from_is_through(adj, ok, u, v, k, list, (m - 1) as nat);
            lemma_copies_contains(adj[m - 1], v);
            let a = routes(adj, ok, u, y, k);
            let b = copies(adj[m - 1], v);
            if b > 0 {
                assert(edge(adj, y, v));
                assert(a == 0);
            }
            assert(a * b == 0) by (nonlinear_arith)
                requires
                    a == 0 || b == 0,
            ;
        }
    }
}

/// The routes to a vertex on the next level all come from this level.
pub proof fn lemma_routes_from_level(
    adj: Adj,
    ok: Allowed,
    u: u32,
    v: u32,
    k: nat,
    level: Seq<u32>,
)
    requires
        adj.len() <= u32::MAX,
        distance(adj, ok, u, v) == Some((k + 1) as nat),
        ok(v),
        level.no_duplicates(),
        forall|x: u32|
            #![trigger level.contains(x)]
            level.contains(x) <==> x < adj.len() && distance(adj, ok, u, x) == Some(k),
    ensures
        routes(adj, ok, u, v, (k + 1) as nat) == routes_from(adj, ok, u, v, k, level),
{
    assert forall|i: int| 0 <= i < level.len() implies #[trigger] level[i] < adj.len() by {
        assert(level.contains(level[i]));
    }
    assert forall|x: u32|
        x < adj.len() && #[trigger] edge(adj, x, v) && routes(adj, ok, u, x, k)
            > 0 implies level.contains(x) by {
        lemma_routes_positive(adj, ok, u, x, k);
        lemma_walk_bounds_distance(adj, ok, u, x, k);
        lemma_link_bounds_distance(adj, ok, u, x, v);
    }
    lemma_from_is_through(adj, ok, u, v, k, level, adj.len());
}

pub proof fn lemma_copies_take(links: Seq<u32>, j: int, v: u32)
    requires
        0 <= j < links.len(),
    ensures
        copies(links.take(j + 1), v) == copies(links.take(j), v) + (if links[j] == v {
            1nat
        } else {
            0
        }),
{
    assert(links.take(j + 1).drop_last() =~= links.take(j));
}

pub proof fn lemma_from_take(
    adj: Adj,
    ok: Allowed,
    u: u32,
    v: u32,
    k: nat,
    list: Seq<u32>,
    i: int,
)
    requires
        0 <= i < list.len(),
    ensures
        routes_from(adj, ok, u, v, k, list.take(i + 1)) == routes_from(
            adj,
            ok,
            u,
            v,
            k,
            list.take(i),
        ) + routes(adj, ok, u, list[i], k) * copies(adj[list[i] as int], v),
{
    assert(list.take(i + 1).drop_last() =~= list.take(i));
}

/// Vertices that do not link to `v` lead no route there.
pub proof fn lemma_from_zero(adj: Adj, ok: Allowed, u: u32, v: u32, k: nat, list: Seq<u32>)
    requires
        forall|i: int|
            0 <= i < list.len() ==> (#[trigger] list[i]) < adj.len() && !edge(adj, list[i], v),
    ensures
        routes_from(adj, ok, u, v, k, list) == 0,
    decreases list.len(),
{
    if list.len() > 0 {
        let rest = list.drop_last();
        assert forall|i: int| 0 <= i < rest.len() implies (#[trigger] rest[i]) < adj.len() && !edge(
            adj,
            rest[i],
            v,
        ) by {
            assert(rest[i] == list[i]);
        }
        lemma_from_zero(adj, ok, u, v, k, rest);
        let x = list[list.len() - 1];
        assert(!edge(adj, x, v));
        lemma_copies_contains(adj[x as int], v);
        let a = routes(adj, ok, u, x, k);
        assert(a * 0 == 0);
    }
}

/// The ways of `k` steps from `u` to `v`: lists of vertices in which each links
/// to the next.
pub open spec fn ways(adj: Adj, ok: Allowed, u: u32, v: u32, k: nat) -> Set<Seq<u32>> {
    Set::new(
        |p: Seq<u32>| p.len() == k + 1 && p[0] == u && p[k as int] == v && follows_links(adj, ok, p),
    )
}

/// Those of one step more whose last vertex but one is below `m`.
spec fn ways_through(adj: Adj, ok: Allowed, u: u32, v: u32, k: nat, m: nat) -> Set<Seq<u32>> {
    ways(adj, ok, u, v, k + 1).filter(|p: Seq<u32>| p[k as int] < m)
}

/// Where no link is listed twice, as many routes are counted as there are ways,
/// each of them once.
pub proof fn law_every_way_is_counted(adj: Adj, ok: Allowed, u: u32, v: u32, k: nat)
    requires
        adj.len() <= u32::MAX,
        forall|w: int| 0 <= w < adj.len() ==> (#[trigger] adj[w]).no_duplicates(),
    ensures
        ways(adj, ok, u, v, k).finite(),
        routes(adj, ok, u, v, k) == ways(adj, ok, u, v, k).len(),
    decreases k, 0nat,
{
    let all = ways(adj, ok, u, v, k);
    if k == 0 {
        if u == v {
            let one = seq![u];
            assert(all =~= Set::empty().insert(one)) by {
                assert forall|p: Seq<u32>| all.contains(p) implies p == one by {
                    assert(p =~= one);
                }
                assert(follows_links(adj, ok, one));
            }
        } else {
            assert(all =~= Set::empty());
        }
    } else if !ok(v) {
        assert(all =~= Set::empty()) by {
            assert forall|p: Seq<u32>| !all.contains(p) by {
                if all.contains(p) {
                    assert(steps_on(adj, ok, p[k - 1], p[k as int]));
                }
            }
        }
    } else {
        let less = (k - 1) as nat;
        lemma_ways_through(adj, ok, u, v, less, adj.len());
        assert(all =~= ways_through(adj, ok, u, v, less, adj.len())) by {
            assert forall|p: Seq<u32>| all.contains(p) implies p[less as int] < adj.len() by {
                assert(steps_on(adj, ok, p[less as int], p[k as int]));
            }
        }
    }
}

proof fn lemma_ways_through(adj: Adj, ok: Allowed, u: u32, v: u32, k: nat, m: nat)
    requires
        adj.len() <= u32::MAX,
        forall|w: int| 0 <= w < adj.len() ==> (#[trigger] adj[w]).no_duplicates(),
        m <= adj.len(),
        ok(v),
    ensures
        ways_through(adj, ok, u, v, k, m).finite(),
        routes_through(adj, ok, u, v, k, m) == ways_through(adj, ok, u, v, k, m).len(),
    decreases k, m + 1,
{
    let all = ways_through(adj, ok, u, v, k, m);
    if m == 0 {
        assert(all =~= Set::empty());
    } else {
        let w = (m - 1) as u32;
        let rest = ways_through(adj, ok, u, v, k, (m - 1) as nat);
        lemma_ways_through(adj, ok, u, v, k, (m - 1) as nat);
        law_every_way_is_counted(adj, ok, u, w, k);
        lemma_copies_distinct(adj[w as int], v);
        if adj[w as int].contains(v) {
            let shorter = ways(adj, ok, u, w, k);
            let f = |p: Seq<u32>| p.push(v);
            let longer = shorter.map(f);
            assert(injective_on(f, shorter)) by {
                assert forall|p: Seq<u32>, q: Seq<u32>|
                    shorter.contains(p) && shorter.contains(q) && #[trigger] f(p) == #[trigger] f(
                        q,
                    ) implies p == q by {
                    assert(p.push(v).drop_last() =~= p);
                    assert(q.push(v).drop_last() =~= q);
                }
            }
            lemma_map_size(shorter, longer, f);
            lemma_longer_ways(adj, ok, u, v, k, w);
            assert(rest.disjoint(longer)) by {
                assert forall|p: Seq<u32>| !(rest.contains(p) && longer.contains(p)) by {
                    if longer.contains(p) {
                        let q = choose|q: Seq<u32>| shorter.contains(q) && #[trigger] f(q) == p;
                        assert(p[k as int] == q[k as int]);
                    }
                }
            }
            lemma_set_disjoint_lens(rest, longer);
            assert(all =~= rest + longer);
        } else {
            assert(all =~= rest) by {
                assert forall|p: Seq<u32>| all.contains(p) implies rest.contains(p) by {
                    assert(steps_on(adj, ok, p[k as int], p[k as int + 1]));
                }
            }
        }
    }
}

/// The ways that pass through `w` last are those to `w` with one step more.
proof fn lemma_longer_ways(adj: Adj, ok: Allowed, u: u32, v: u32, k: nat, w: u32)
    requires
        w < adj.len(),
        adj[w as int].contains(v),
        ok(v),
    ensures
        forall|p: Seq<u32>|
            ways(adj, ok, u, w, k).map(|q: Seq<u32>| q.push(v)).contains(p) <==> #[trigger] ways(
                adj,
                ok,
                u,
                v,
                k + 1,
            ).contains(p) && p[k as int] == w,
{
    let f = |q: Seq<u32>| q.push(v);
    let shorter = ways(adj, ok, u, w, k);
    let longer = shorter.map(f);
    assert forall|p: Seq<u32>| longer.contains(p) <==> #[trigger] ways(adj, ok, u, v, k + 1).contains(
        p,
    ) && p[k as int] == w by {
        if longer.contains(p) {
            let q = choose|q: Seq<u32>| shorter.contains(q) && #[trigger] f(q) == p;
            lemma_follows_one_more(adj, ok, q, v);
            assert(p[0] == q[0]);
            assert(p[k as int] == q[k as int]);
        }
        if ways(adj, ok, u, v, k + 1).contains(p) && p[k as int] == w {
            let q = p.drop_last();
            assert(q.push(v) =~= p);
            assert forall|i: int, j: int| 0 <= i && j == i + 1 && j < q.len() implies steps_on(
                adj,
                ok,
                #[trigger] q[i],
                #[trigger] q[j],
            ) by {
                assert(steps_on(adj, ok, p[i], p[j]));
            }
            assert(shorter.contains(q));
            assert(f(q) == p);
        }
    }
}

proof fn lemma_copies_distinct(links: Seq<u32>, v: u32)
    requires
        links.no_duplicates(),
    ensures
        copies(links, v) == (if links.contains(v) {
            1int
        } else {
            0
        }),
    decreases links.len(),
{
    lemma_copies_contains(links, v);
    if links.len() > 0 {
        let rest = links.drop_last();
        assert(forall|i: int| 0 <= i < rest.len() ==> rest[i] == links[i]);
        lemma_copies_distinct(rest, v);
        lemma_copies_contains(rest, v);
        if links.last() == v && rest.contains(v) {
            let i = choose|i: int| 0 <= i < rest.len() && rest[i] == v;
            assert(links[i] == links[links.len() - 1]);
        }
    }
}
} // verus!
