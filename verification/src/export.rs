//! The game as a tree of files, for a host that only serves files.

use crate::columns::PerArticle;
use crate::game::Puzzle;
use crate::graph::{Graph, texts};
use crate::hubs::{hub_ban, is_hub, over_limit};
use crate::levels::open_between;
use crate::paths::{PathFinder, shortest_count};
use crate::sorting::{by_size, in_order, increasing, is_sorted_copy, sort_by, sort_dedup};
use crate::sweep::{UNSEEN, anywhere, recorded};
use crate::text::{chars_of, fit, fitting, string_of};
use crate::walks::{Adj, distance};
use vstd::prelude::*;

verus! {

/// How many articles a file holds.
pub const SHARD_SIZE: usize = 896;

/// How many bytes of a description go with a link.
pub const LINK_DESC: usize = 72;

/// How many articles the compass of a goal names at most.
pub const COMPASS_CAP: usize = 250_000;

// ---------------------------------------------------------------------------
// Numbers by their gaps
// ---------------------------------------------------------------------------

/// The first number, and the gaps from each to the next.
pub open spec fn gaps(s: Seq<u32>) -> Seq<u32> {
    Seq::new(
        s.len(),
        |i: int|
            if i == 0 {
                s[0]
            } else {
                (s[i] - s[i - 1]) as u32
            },
    )
}

/// Numbers in order, each but the first as the gap to the one before: half as
/// long to write down.
pub fn delta_encode(ids: Vec<u32>) -> (r: Vec<u32>)
    ensures
        exists|s: Seq<u32>| #[trigger] is_sorted_copy(s, ids@) && r@ == gaps(s),
{
    let ghost leq = by_size();
    let f = |a: u32, b: u32| -> (r: bool)
        ensures
            r == (a <= b),
        { a <= b };
    let sorted = sort_by(&ids, &f, Ghost(leq));
    let n: usize = sorted.len();
    let mut out: Vec<u32> = Vec::new();
    let mut prev: u32 = 0;
    let mut i: usize = 0;
    while i < n
        invariant
            n == sorted@.len(),
            in_order(sorted@, by_size()),
            i <= n,
            prev == (if i == 0 {
                0
            } else {
                sorted@[i - 1]
            }),
            out@.len() == i,
            forall|k: int| 0 <= k < i ==> out@[k] == gaps(sorted@)[k],
        decreases n - i,
    {
        let v: u32 = sorted[i];
        if i > 0 {
            assert(by_size()(sorted@[i - 1], sorted@[i as int]));
        }
        out.push(v - prev);
        prev = v;
        i = i + 1;
    }
    assert(out@ =~= gaps(sorted@));
    assert(is_sorted_copy(sorted@, ids@));
    out
}

/// The sum of the first `k` numbers.
pub open spec fn total(s: Seq<u32>, k: int) -> int
    decreases k,
{
    if k <= 0 {
        0
    } else {
        total(s, k - 1) + s[k - 1]
    }
}

/// As many of the first characters as fit in so many bytes.
pub fn trunc(s: &str, max: usize) -> (r: String)
    ensures
        r@ == fitting(s@, max as nat),
{
    let chars = chars_of(s);
    let part = fit(chars.as_slice(), max);
    let r = string_of(part, 0, part.len());
    assert(r@ =~= part@);
    r
}

// ---------------------------------------------------------------------------
// Files of articles
// ---------------------------------------------------------------------------

/// How many files `n` articles take.
pub fn n_shards(n: usize) -> (r: usize)
    ensures
        n <= r * SHARD_SIZE < n + SHARD_SIZE,
{
    if n == 0 {
        0
    } else {
        (n - 1) / SHARD_SIZE + 1
    }
}

/// The articles of a file, from the first to before the last.
pub fn shard_range(shard: usize, n: usize) -> (r: (usize, usize))
    requires
        shard * SHARD_SIZE < n,
    ensures
        r.0 == shard * SHARD_SIZE,
        r.1 == (if shard * SHARD_SIZE + SHARD_SIZE < n {
            shard * SHARD_SIZE + SHARD_SIZE
        } else {
            n as int
        }),
{
    let lo: usize = shard * SHARD_SIZE;
    let hi: usize = if n - lo > SHARD_SIZE {
        lo + SHARD_SIZE
    } else {
        n
    };
    (lo, hi)
}

/// What a file says once of an article that its articles link to.
pub struct Target {
    pub id: u32,
    pub desc: Option<String>,
    pub flags: u32,
}

/// What is known of an article.
pub open spec fn first_text(descs: Seq<Seq<Seq<char>>>, id: u32) -> Option<Seq<char>> {
    if id < descs.len() && descs[id as int].len() > 0 {
        Some(descs[id as int][0])
    } else {
        None
    }
}

/// The flags of an article, none where they are not known.
pub open spec fn flags_at(flags: Seq<u32>, id: u32) -> u32 {
    if id < flags.len() {
        flags[id as int]
    } else {
        0
    }
}

/// Some article from `lo` to before `hi` links to `w`.
pub open spec fn linked_from(fwd: Adj, lo: int, hi: int, w: u32) -> bool {
    exists|v: int| lo <= v < hi && (#[trigger] fwd[v]).contains(w)
}

/// What is said of an article that is linked to.
pub open spec fn describes(descs: Seq<Seq<Seq<char>>>, flags: Seq<u32>, t: Target) -> bool {
    &&& t.flags == flags_at(flags, t.id)
    &&& match first_text(descs, t.id) {
        Some(d) => t.desc matches Some(s) && s@ == fitting(d, LINK_DESC as nat),
        None => t.desc is None,
    }
}

/// The articles that a file's articles link to and of which something is
/// known, by id, each once.
pub fn shard_targets(
    g: &Graph,
    descs: &PerArticle,
    flags: &Vec<u32>,
    lo: usize,
    hi: usize,
) -> (r: Vec<Target>)
    requires
        g.wf(),
        lo <= hi <= g.titles@.len(),
    ensures
        forall|i: int, j: int|
            0 <= i < j < r@.len() ==> (#[trigger] r@[i]).id < (#[trigger] r@[j]).id,
        forall|i: int|
            0 <= i < r@.len() ==> linked_from(
                g.forward@,
                lo as int,
                hi as int,
                (#[trigger] r@[i]).id,
            ) && describes(descs@, flags@, r@[i]) && (first_text(descs@, r@[i].id) is Some
                || flags_at(flags@, r@[i].id) != 0),
        forall|w: u32| #[trigger]
            linked_from(g.forward@, lo as int, hi as int, w) && (first_text(descs@, w) is Some
                || flags_at(flags@, w) != 0) ==> exists|i: int|
                0 <= i < r@.len() && (#[trigger] r@[i]).id == w,
{
    let mut all: Vec<u32> = Vec::new();
    let mut v: usize = lo;
    while v < hi
        invariant
            g.wf(),
            lo <= v <= hi <= g.titles@.len(),
            forall|w: u32| #[trigger]
                all@.contains(w) <==> linked_from(g.forward@, lo as int, v as int, w),
        decreases hi - v,
    {
        let links = g.forward.neighbors(v as u32);
        let n: usize = links.len();
        let mut i: usize = 0;
        let ghost before = all@;
        while i < n
            invariant
                n == links@.len(),
                i <= n,
                all@ == before + links@.take(i as int),
            decreases n - i,
        {
            let ghost had = all@;
            all.push(links[i]);
            assert(links@.take(i + 1) =~= links@.take(i as int).push(links@[i as int]));
            assert(all@ =~= before + links@.take(i + 1));
            i = i + 1;
        }
        proof {
            assert(links@.take(n as int) =~= links@);
            let fwd = g.forward@;
            assert forall|w: u32| #[trigger] all@.contains(w) <==> linked_from(
                fwd,
                lo as int,
                v + 1,
                w,
            ) by {
                if all@.contains(w) {
                    let k = all@.index_of(w);
                    if k < before.len() {
                        assert(before[k] == w);
                        assert(before.contains(w));
                        let u = choose|u: int|
                            lo <= u < v && (#[trigger] fwd[u]).contains(w);
                        assert(fwd[u].contains(w));
                    } else {
                        assert(links@[k - before.len()] == w);
                        assert(fwd[v as int].contains(w));
                    }
                }
                if linked_from(fwd, lo as int, v + 1, w) {
                    let u = choose|u: int| lo <= u < v + 1 && (#[trigger] fwd[u]).contains(w);
                    if u < v {
                        assert(linked_from(fwd, lo as int, v as int, w));
                        assert(before.contains(w));
                        assert(all@[before.index_of(w)] == w);
                    } else {
                        assert(all@[before.len() + links@.index_of(w)] == w);
                    }
                }
            }
        }
        v = v + 1;
    }
    let ids = sort_dedup(&all);
    let n: usize = ids.len();
    let mut out: Vec<Target> = Vec::new();
    let mut i: usize = 0;
    while i < n
        invariant
            n == ids@.len(),
            i <= n,
            increasing(ids@),
            forall|k: int| 0 <= k < out@.len() ==> (#[trigger] out@[k]).id < (if i < n {
                ids@[i as int] as int
            } else {
                u32::MAX + 1
            }),
            forall|a: int, b: int|
                0 <= a < b < out@.len() ==> (#[trigger] out@[a]).id < (#[trigger] out@[b]).id,
            forall|k: int|
                0 <= k < out@.len() ==> ids@.contains((#[trigger] out@[k]).id) && describes(
                    descs@,
                    flags@,
                    out@[k],
                ) && (first_text(descs@, out@[k].id) is Some || flags_at(flags@, out@[k].id)
                    != 0),
            forall|j: int|
                0 <= j < i && (first_text(descs@, #[trigger] ids@[j]) is Some || flags_at(
                    flags@,
                    ids@[j],
                ) != 0) ==> exists|k: int| 0 <= k < out@.len() && (#[trigger] out@[k]).id == ids@[j],
        decreases n - i,
    {
        let w: u32 = ids[i];
        assert(ids@.contains(w));
        let ghost before = out@;
        let known = descs.get(w);
        let desc: Option<String> = if known.len() > 0 {
            assert(texts(known@)[0] == known@[0]@);
            Some(trunc(known[0].as_str(), LINK_DESC))
        } else {
            None
        };
        let f: u32 = if (w as usize) < flags.len() {
            flags[w as usize]
        } else {
            0
        };
        proof {
            assert(texts(known@).len() == known@.len());
            assert(desc is Some <==> first_text(descs@, w) is Some);
        }
        if desc.is_some() || f != 0 {
            let t = Target { id: w, desc, flags: f };
            assert(describes(descs@, flags@, t));
            out.push(t);
            proof {
                assert(out@[before.len() as int].id == w);
            }
        }
        proof {
            assert forall|j: int|
                0 <= j < i + 1 && (first_text(descs@, #[trigger] ids@[j]) is Some || flags_at(
                    flags@,
                    ids@[j],
                ) != 0) implies exists|k: int|
                0 <= k < out@.len() && (#[trigger] out@[k]).id == ids@[j] by {
                if j < i {
                    let k = choose|k: int|
                        0 <= k < before.len() && (#[trigger] before[k]).id == ids@[j];
                    assert(out@[k].id == ids@[j]);
                }
            }
            assert forall|k: int| 0 <= k < out@.len() implies (#[trigger] out@[k]).id < (if i + 1
                < n {
                ids@[i + 1] as int
            } else {
                u32::MAX + 1
            }) by {
                if i + 1 < n {
                    assert(ids@[i as int] < ids@[i + 1]);
                }
                if k < before.len() {
                    assert(out@[k] == before[k]);
                }
            }
        }
        i = i + 1;
    }
    proof {
        let fwd = g.forward@;
        assert forall|w: u32| #[trigger]
            linked_from(fwd, lo as int, hi as int, w) && (first_text(descs@, w) is Some || flags_at(
                flags@,
                w,
            ) != 0) implies exists|k: int| 0 <= k < out@.len() && (#[trigger] out@[k]).id == w by {
            assert(all@.contains(w));
            assert(ids@.contains(w));
            let j = ids@.index_of(w);
            assert(ids@[j] == w);
        }
        assert forall|k: int| 0 <= k < out@.len() implies linked_from(
            fwd,
            lo as int,
            hi as int,
            (#[trigger] out@[k]).id,
        ) by {
            assert(ids@.contains(out@[k].id));
            assert(all@.contains(out@[k].id));
        }
    }
    out
}

// ---------------------------------------------------------------------------
// Races
// ---------------------------------------------------------------------------

/// How many shortest paths a race has around its hubs, as many as can be
/// counted, or none where there is no path within one click of its par.
pub fn routes_of(g: &Graph, pf: &mut PathFinder, p: &Puzzle) -> (r: u64)
    requires
        g.wf(),
        old(pf).wf(),
        g.titles@.len() <= old(pf).size(),
        p.optimal < 255,
    ensures
        final(pf).wf(),
        final(pf).size() == old(pf).size(),
        r == (match shortest_count(
            g.forward@,
            open_between(p.start, p.goal, hub_ban(g.reverse@, p.ban_degree)),
            p.start,
            p.goal,
            (p.optimal + 1) as u8,
        ) {
            Some((_, count)) => count,
            None => 0,
        }),
{
    let rev = &g.reverse;
    let ban: Option<usize> = p.ban_degree;
    let banned = |v: u32| -> (x: bool)
        ensures
            x == is_hub(rev@, ban, v),
        { over_limit(rev, ban, v) };
    match pf.count_routes(
        g,
        p.start,
        p.goal,
        &banned,
        p.optimal as u8 + 1,
        Ghost(hub_ban(g.reverse@, p.ban_degree)),
    ) {
        Some((_, count)) => count,
        None => 0,
    }
}

/// Those of the first `n` articles that are at a given distance.
pub open spec fn at_distance(row: Seq<u8>, d: u8, n: int) -> Seq<u32>
    decreases n,
{
    if n <= 0 {
        seq![]
    } else {
        let rest = at_distance(row, d, n - 1);
        if row[n - 1] == d {
            rest.push((n - 1) as u32)
        } else {
            rest
        }
    }
}

/// The articles one click from a goal, those two clicks from it, and so on: as
/// many whole levels as fit, down to a depth.
pub open spec fn levels_from(row: Seq<u8>, d: u8, depth: u8, cap: int) -> Seq<Seq<u32>>
    decreases UNSEEN - d,
{
    let level = at_distance(row, d, row.len() as int);
    if d > depth || d == UNSEEN || level.len() == 0 || level.len() > cap {
        seq![]
    } else {
        seq![level] + levels_from(row, (d + 1) as u8, depth, cap - level.len())
    }
}

/// The recorded distance of every article to a goal.
pub open spec fn near_row(fwd: Adj, goal: u32, depth: u8) -> Seq<u8> {
    Seq::new(
        fwd.len(),
        |v: int|
            if goal < fwd.len() {
                recorded(distance(fwd, anywhere(), v as u32, goal), depth)
            } else {
                UNSEEN
            },
    )
}

/// The articles of some levels.
pub open spec fn level_ids(v: Seq<Vec<u32>>) -> Seq<Seq<u32>> {
    Seq::new(v.len(), |i: int| v[i]@)
}

/// The articles one click from a goal, those two clicks from it, and so on: as
/// many whole levels as `cap` articles allow, down to a depth.
pub fn near_goal_levels(
    g: &Graph,
    pf: &mut PathFinder,
    goal: u32,
    depth: u8,
    cap: usize,
) -> (r: Vec<Vec<u32>>)
    requires
        g.wf(),
    ensures
        *final(pf) == *old(pf),
        level_ids(r@) == levels_from(near_row(g.forward@, goal, depth), 1, depth, cap as int),
{
    let row = pf.distances_to(g, goal, depth);
    assert(row@ =~= near_row(g.forward@, goal, depth));
    let n: usize = row.len();
    let mut out: Vec<Vec<u32>> = Vec::new();
    let mut left: usize = cap;
    let mut d: u8 = 1;
    let ghost all = levels_from(row@, 1, depth, cap as int);
    assert(level_ids(out@) + all =~= all);
    while d <= depth && d < UNSEEN
        invariant
            *pf == *old(pf),
            row@ == near_row(g.forward@, goal, depth),
            all == levels_from(row@, 1, depth, cap as int),
            n == row@.len(),
            n < u32::MAX,
            1 <= d,
            level_ids(out@) + levels_from(row@, d, depth, left as int) == all,
        decreases UNSEEN - d,
    {
        let mut level: Vec<u32> = Vec::new();
        let mut i: usize = 0;
        while i < n
            invariant
                n == row@.len(),
                n < u32::MAX,
                i <= n,
                level@ == at_distance(row@, d, i as int),
            decreases n - i,
        {
            if row[i] == d {
                level.push(i as u32);
            }
            i = i + 1;
        }
        if level.len() == 0 || level.len() > left {
            assert(level_ids(out@) + Seq::<Seq<u32>>::empty() =~= level_ids(out@));
            return out;
        }
        let ghost before = level_ids(out@);
        let ghost ids = level@;
        left = left - level.len();
        out.push(level);
        proof {
            let rest = levels_from(row@, (d + 1) as u8, depth, left as int);
            assert(level_ids(out@) =~= before.push(ids));
            assert(before + (seq![ids] + rest) =~= level_ids(out@) + rest);
        }
        d = d + 1;
    }
    assert(level_ids(out@) + Seq::<Seq<u32>>::empty() =~= level_ids(out@));
    out
}

// ---------------------------------------------------------------------------
// Laws
// ---------------------------------------------------------------------------

/// Summing up the gaps gives the numbers back.
pub proof fn law_gaps_sum_up(s: Seq<u32>, k: int)
    requires
        in_order(s, by_size()),
        0 <= k < s.len(),
    ensures
        total(gaps(s), k + 1) == s[k],
    decreases k,
{
    if k > 0 {
        law_gaps_sum_up(s, k - 1);
        assert(by_size()(s[k - 1], s[k]));
    } else {
        assert(total(gaps(s), 0) == 0);
    }
}

/// Every article is in one file, and only in one.
pub proof fn law_articles_are_in_one_file(id: nat, n: nat)
    requires
        id < n,
    ensures
        forall|shard: nat|
            #![trigger shard * SHARD_SIZE]
            shard * SHARD_SIZE <= id < shard * SHARD_SIZE + SHARD_SIZE <==> shard == id
                / (SHARD_SIZE as nat),
{
}

/// Each file holds eight hundred and ninety-six articles, one after another.
pub proof fn law_files_hold_articles_in_order(id: nat)
    ensures
        SHARD_SIZE == 896,
        id / (SHARD_SIZE as nat) <= (id + 1) / (SHARD_SIZE as nat) <= id / (SHARD_SIZE as nat) + 1,
        (id + 1) / (SHARD_SIZE as nat) == id / (SHARD_SIZE as nat) + 1 <==> id % 896 == 895,
{
}

/// A link's gloss is the first that its article has, up to as many characters
/// as fit in seventy-two bytes; its flags are the article's.
pub proof fn law_links_carry_a_short_gloss(
    descs: Seq<Seq<Seq<char>>>,
    flags: Seq<u32>,
    t: Target,
)
    requires
        describes(descs, flags, t),
        t.id < flags.len(),
        t.id < descs.len(),
    ensures
        t.flags == flags[t.id as int],
        t.desc is Some <==> descs[t.id as int].len() > 0,
        t.desc matches Some(s) ==> s@ == fitting(descs[t.id as int][0], 72),
{
}

/// The articles at a distance are all that a row has there, in the order of
/// their ids.
pub proof fn law_levels_list_every_article(row: Seq<u8>, d: u8, n: int, v: u32)
    requires
        0 <= n <= row.len(),
        n <= u32::MAX,
    ensures
        at_distance(row, d, n).contains(v) <==> v < n && row[v as int] == d,
        forall|i: int, j: int|
            0 <= i < j < at_distance(row, d, n).len() ==> #[trigger] at_distance(row, d, n)[i]
                < #[trigger] at_distance(row, d, n)[j],
    decreases n,
{
    if n > 0 {
        law_levels_list_every_article(row, d, n - 1, v);
        let a = at_distance(row, d, n - 1);
        let b = at_distance(row, d, n);
        lemma_below(row, d, n - 1);
        if b.len() > a.len() {
            assert(b =~= a.push((n - 1) as u32));
            assert(b[b.len() - 1] == n - 1);
            if a.contains(v) {
                let k = choose|k: int| 0 <= k < a.len() && a[k] == v;
                assert(b[k] == v);
            }
        }
    }
}

proof fn lemma_below(row: Seq<u8>, d: u8, n: int)
    requires
        0 <= n <= row.len(),
        n <= u32::MAX,
    ensures
        forall|i: int|
            0 <= i < at_distance(row, d, n).len() ==> (#[trigger] at_distance(row, d, n)[i]) < n,
    decreases n,
{
    if n > 0 {
        lemma_below(row, d, n - 1);
        let rest = at_distance(row, d, n - 1);
        let all = at_distance(row, d, n);
        assert forall|i: int| 0 <= i < all.len() implies (#[trigger] all[i]) < n by {
            if i < rest.len() {
                assert(all[i] == rest[i]);
            }
        }
    }
}

/// The first level is that of the goal itself, and each that follows is one
/// click further. They end where the depth does, where there is nothing further
/// away, and where a level no longer fits in the room that is left.
pub proof fn law_levels_follow_each_other(row: Seq<u8>, d: u8, depth: u8, cap: int)
    ensures
        ({
            let all = levels_from(row, d, depth, cap);
            let first = at_distance(row, d, row.len() as int);
            if d <= depth && d < 255 && 0 < first.len() <= cap {
                &&& all.len() > 0
                &&& all[0] == first
                &&& all.skip(1) == levels_from(row, (d + 1) as u8, depth, cap - first.len())
            } else {
                all.len() == 0
            }
        }),
        COMPASS_CAP == 250_000,
{
    let first = at_distance(row, d, row.len() as int);
    if d <= depth && d < 255 && 0 < first.len() <= cap {
        let rest = levels_from(row, (d + 1) as u8, depth, cap - first.len());
        assert((seq![first] + rest).skip(1) =~= rest);
    }
}

/// A row for a goal has the distance of each article to it, whatever hubs are in
/// between.
pub proof fn law_rows_lead_to_the_goal(fwd: Adj, goal: u32, depth: u8, v: u32, d: u8)
    requires
        goal < fwd.len(),
        v < fwd.len(),
        d < 255,
    ensures
        near_row(fwd, goal, depth)[v as int] == d <==> d <= depth && distance(
            fwd,
            |w: u32| true,
            v,
            goal,
        ) == Some(d as nat),
{
    assert(anywhere() =~= (|w: u32| true));
}
} // verus!
