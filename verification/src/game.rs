//! Races: who can be an endpoint, how a race is generated, and what the map
//! shows.

use crate::columns::PerArticle;
use crate::graph::Graph;
use crate::hubs::{more_linked, hub_ban, is_hub, is_most_linked, most_linked, over_limit};
use crate::levels::{lemma_distance_small, open_between};
use crate::paths::PathFinder;
use crate::pools::{law_empty_lengths_are_not_drawn, PAR_SPAN, Pools, draw_range, drawn, lemma_drawn, lemma_weight_bound, weight_from,
};
use crate::regions::{are_region_names, derive_region_names, members_before};
use crate::rng::{next_number, next_state};
use crate::search::{Hit, SearchIndex, articles_of, is_hit, is_top, search_entries, search_ranked};
use crate::sorting::{Order, lemma_same_members, sort_by};
use crate::text::trimmed;
use crate::unicode::lowercase_of;
use crate::walks::{
    law_distances_are_shortest, follows_links, steps_on, Adj, closed_under_links, distance};
use std::collections::HashMap;
use vstd::prelude::*;

pub use crate::difficulty::Difficulty;
pub use crate::regions::Layout;
pub use crate::rng::Rng;

verus! {

/// How many of the most linked articles can be endpoints, at most.
pub const PLAYABLE_POOL: usize = 50_000;

/// The fewest links that must leave an endpoint.
pub const MIN_LINKS: usize = 10;

/// How deep the ranking of hubs goes. No more can be excluded.
pub const MAX_HUBS: usize = 50_000;

/// The most points that the map shows.
pub const MAP_POINTS: usize = 120_000;

/// How often a race is drawn before giving up.
pub const TRIES: usize = 60;

/// How often a race is drawn from the pools before giving up on them.
pub const POOL_TRIES: usize = 8;

/// A generated race.
#[derive(Clone, Copy, Debug, PartialEq, Eq, Structural)]
pub struct Puzzle {
    pub start: u32,
    pub goal: u32,
    pub ban_degree: Option<usize>,
    pub optimal: usize,
}

impl Layout {
    /// The map of `n` articles. Refused where the rows are not those of the
    /// graph, with how many there are: the map would show every article in the
    /// wrong place.
    pub fn load(community: Vec<i32>, n: usize) -> (r: Result<Layout, usize>)
        ensures
            match r {
                Ok(l) => community@.len() == n && l.community@ == community@,
                Err(rows) => community@.len() != n && rows == community@.len(),
            },
    {
        if community.len() != n {
            Err(community.len())
        } else {
            Ok(Layout { community })
        }
    }
}

// ---------------------------------------------------------------------------
// Endpoints
// ---------------------------------------------------------------------------

/// The first `i` articles.
pub open spec fn first_ids(i: int) -> Seq<u32> {
    Seq::new(
        if i >= 0 {
            i as nat
        } else {
            0
        },
        |k: int| k as u32,
    )
}

/// Those of the first `i` articles that enough links leave.
pub open spec fn linking(adj: Adj, i: int) -> Seq<u32>
    decreases i,
{
    if i <= 0 {
        seq![]
    } else {
        let rest = linking(adj, i - 1);
        if adj[i - 1].len() >= MIN_LINKS {
            rest.push((i - 1) as u32)
        } else {
            rest
        }
    }
}

/// How many of `n` candidates are kept: a quarter, and no more than the pool
/// holds.
pub open spec fn pool_size(n: nat) -> nat {
    let quarter = (n + 3) / 4;
    if quarter < PLAYABLE_POOL {
        quarter
    } else {
        PLAYABLE_POOL as nat
    }
}

proof fn lemma_linking(adj: Adj, i: int)
    requires
        0 <= i <= adj.len() <= u32::MAX,
    ensures
        linking(adj, i).no_duplicates(),
        linking(adj, i).len() <= i,
        forall|k: int| 0 <= k < linking(adj, i).len() ==> #[trigger] linking(adj, i)[k] < i,
    decreases i,
{
    if i > 0 {
        lemma_linking(adj, i - 1);
        let rest = linking(adj, i - 1);
        let all = linking(adj, i);
        assert forall|k: int| 0 <= k < all.len() implies #[trigger] all[k] < i by {
            if k < rest.len() {
                assert(all[k] == rest[k]);
            }
        }
    }
}

/// The articles that a player has a chance of recognising: of those with
/// enough links, the most linked to.
///
/// A fixed number of links would not do for wikis of every size, so they are
/// ranked and the head is kept.
pub fn playable_pool(graph: &Graph) -> (r: Vec<u32>)
    requires
        graph.wf(),
    ensures
        ({
            let all = linking(graph.forward@, graph.titles@.len() as int);
            is_most_linked(graph.reverse@, all, pool_size(all.len()), r@)
        }),
{
    let n: usize = graph.len();
    let mut list: Vec<u32> = Vec::new();
    let mut v: u32 = 0;
    while (v as usize) < n
        invariant
            n == graph.titles@.len(),
            graph.wf(),
            v <= n,
            list@ == linking(graph.forward@, v as int),
        decreases n - v,
    {
        if graph.forward.degree(v) >= MIN_LINKS {
            list.push(v);
        }
        v = v + 1;
    }
    proof {
        lemma_linking(graph.forward@, n as int);
    }
    let quarter: usize = list.len() / 4 + (if list.len() % 4 > 0 {
        1
    } else {
        0
    });
    let keep: usize = if quarter < PLAYABLE_POOL {
        quarter
    } else {
        PLAYABLE_POOL
    };
    most_linked(&graph.reverse, &list, keep)
}

/// The most linked articles of all.
fn top_articles(graph: &Graph, keep: usize) -> (r: Vec<u32>)
    requires
        graph.wf(),
    ensures
        is_most_linked(
            graph.reverse@,
            first_ids(graph.titles@.len() as int),
            keep as nat,
            r@,
        ),
{
    let n: usize = graph.len();
    let mut list: Vec<u32> = Vec::with_capacity(n);
    let mut v: u32 = 0;
    while (v as usize) < n
        invariant
            n == graph.titles@.len(),
            n < u32::MAX,
            v <= n,
            list@.len() == v,
            forall|k: int| 0 <= k < v ==> list@[k] == k,
        decreases n - v,
    {
        list.push(v);
        v = v + 1;
    }
    assert(list@ =~= first_ids(n as int));
    most_linked(&graph.reverse, &list, keep)
}

fn in_degrees(graph: &Graph) -> (r: Vec<u32>)
    requires
        graph.wf(),
    ensures
        r@ == degrees_of(graph.reverse@),
{
    let n: usize = graph.len();
    let mut out: Vec<u32> = Vec::with_capacity(n);
    let mut v: u32 = 0;
    while (v as usize) < n
        invariant
            n == graph.titles@.len(),
            graph.wf(),
            v <= n,
            out@.len() == v,
            forall|k: int| 0 <= k < v ==> #[trigger] out@[k] == graph.reverse@[k].len() as u32,
        decreases n - v,
    {
        out.push(graph.reverse.degree(v) as u32);
        v = v + 1;
    }
    assert(out@ =~= degrees_of(graph.reverse@));
    out
}

/// How many articles link to each article.
pub open spec fn degrees_of(rev: Adj) -> Seq<u32> {
    Seq::new(rev.len(), |v: int| rev[v].len() as u32)
}

// ---------------------------------------------------------------------------
// The game
// ---------------------------------------------------------------------------

/// All that races are generated from and shown with.
pub struct Game {
    pub graph: Graph,
    pub layout: Option<Layout>,
    /// Articles worth using as endpoints.
    pub playable: Vec<u32>,
    /// The most linked articles, the most linked first.
    pub hubs: Vec<u32>,
    /// The articles that the map shows, the most linked first.
    pub map_order: Vec<u32>,
    /// What the regions of the map are called.
    pub region_names: HashMap<i32, String>,
    /// What each article is about.
    pub categories: PerArticle,
    /// Redirects that lead to each article: "also known as".
    pub aliases: PerArticle,
    /// Bytes of wikitext per article, where they are known.
    pub sizes: Vec<u32>,
    /// Monthly readers per article, where they are known.
    pub views: Vec<u32>,
    pub search: SearchIndex,
    /// Precomputed races, where there are any.
    pub pools: Option<Pools>,
}

/// What is searched: the titles, and the redirect aliases where they are
/// wanted.
pub open spec fn searched_entries(graph: Graph, alias_search: bool) -> Seq<(Seq<char>, u32)> {
    search_entries(graph.titles@, seq![]) + (if alias_search {
        Seq::new(
            graph.lookup.alias_entries().len(),
            |i: int|
                (
                    lowercase_of(graph.lookup.alias_entries()[i].0),
                    graph.lookup.alias_entries()[i].1,
                ),
        )
    } else {
        seq![]
    })
}

/// Every pair is between two of `n` articles.
pub open spec fn pools_in_range(pools: Pools, n: nat) -> bool {
    forall|d: Difficulty, off: int, i: int|
        0 <= off < PAR_SPAN && 0 <= i < pools.bucket(d, off).len() ==> (#[trigger] pools.bucket(
            d,
            off,
        )[i]).0 < n && pools.bucket(d, off)[i].1 < n
}

impl Game {
    pub open spec fn wf(&self) -> bool {
        let n = self.graph.titles@.len();
        &&& self.graph.wf()
        &&& self.layout matches Some(l) ==> l.community@.len() == n
        &&& is_most_linked(
            self.graph.reverse@,
            linking(self.graph.forward@, n as int),
            pool_size(linking(self.graph.forward@, n as int).len()),
            self.playable@,
        )
        &&& is_most_linked(self.graph.reverse@, first_ids(n as int), MAX_HUBS as nat, self.hubs@)
        &&& is_most_linked(
            self.graph.reverse@,
            first_ids(n as int),
            MAP_POINTS as nat,
            self.map_order@,
        )
        &&& self.search.wf()
        &&& self.search.degrees() == degrees_of(self.graph.reverse@)
        &&& self.pools matches Some(p) ==> p.wf() && pools_in_range(p, n)
    }

    /// Put the game together. Without `alias_search` redirect aliases are left
    /// out of the search, which saves memory.
    pub fn load_with(
        graph: Graph,
        layout: Option<Layout>,
        llm_names: HashMap<i32, String>,
        categories: PerArticle,
        aliases: PerArticle,
        sizes: Vec<u32>,
        views: Vec<u32>,
        pools: Option<Pools>,
        alias_search: bool,
    ) -> (r: Game)
        requires
            graph.wf(),
            layout matches Some(l) ==> l.community@.len() == graph.titles@.len(),
            pools matches Some(p) ==> p.wf() && pools_in_range(p, graph.titles@.len()),
            graph.titles@.len() + graph.n_redirect_aliases < u32::MAX,
        ensures
            r.wf(),
            r.graph == graph,
            r.layout == layout,
            r.categories == categories,
            r.aliases == aliases,
            r.sizes == sizes,
            r.views == views,
            r.pools == pools,
            llm_names@.len() > 0 ==> r.region_names == llm_names,
            llm_names@.len() == 0 ==> are_region_names(
                layout,
                categories@,
                graph.titles@.len() as int,
                r.region_names@,
            ),
            r.search.entries() == searched_entries(graph, alias_search),
    {
        broadcast use vstd::std_specs::hash::group_hash_axioms;

        let n: usize = graph.len();
        let playable = playable_pool(&graph);
        let hubs = top_articles(&graph, MAX_HUBS);
        let map_order = top_articles(&graph, MAP_POINTS);
        let region_names = if llm_names.len() > 0 {
            llm_names
        } else {
            derive_region_names(&layout, &categories, n)
        };
        let degrees = in_degrees(&graph);
        let none: Vec<(String, u32)> = Vec::new();
        let named: &Vec<(String, u32)> = if alias_search {
            graph.alias_entries()
        } else {
            &none
        };
        proof {
            let all = crate::graph::entries(named@);
            if alias_search {
                assert(all == graph.lookup.alias_entries());
                assert(all.len() == named@.len());
            }
            assert forall|i: int| 0 <= i < named@.len() implies #[trigger] named@[i].1
                < degrees@.len() by {
                assert(all[i].1 == named@[i].1);
                assert(graph.lookup.alias_entries()[i].1 < graph.titles@.len());
            }
        }
        let search = SearchIndex::build(
            graph.titles.as_slice(),
            named.as_slice(),
            degrees.as_slice(),
        );
        proof {
            let all = crate::graph::entries(named@);
            let titles_only = search_entries(graph.titles@, seq![]);
            let tail = if alias_search {
                Seq::new(
                    graph.lookup.alias_entries().len(),
                    |i: int|
                        (
                            lowercase_of(graph.lookup.alias_entries()[i].0),
                            graph.lookup.alias_entries()[i].1,
                        ),
                )
            } else {
                seq![]
            };
            assert forall|i: int| 0 <= i < named@.len() implies (
                lowercase_of(named@[i].0@),
                named@[i].1,
            ) == #[trigger] tail[i] by {
                assert(all[i] == (named@[i].0@, named@[i].1));
            }
            assert(search_entries(graph.titles@, named@) =~= titles_only + tail);
        }
        Game {
            graph,
            layout,
            playable,
            hubs,
            map_order,
            region_names,
            categories,
            aliases,
            sizes,
            views,
            search,
            pools,
        }
    }

    /// Put the game together, with redirect aliases in the search.
    pub fn load(
        graph: Graph,
        layout: Option<Layout>,
        llm_names: HashMap<i32, String>,
        categories: PerArticle,
        aliases: PerArticle,
        sizes: Vec<u32>,
        views: Vec<u32>,
        pools: Option<Pools>,
    ) -> (r: Game)
        requires
            graph.wf(),
            layout matches Some(l) ==> l.community@.len() == graph.titles@.len(),
            pools matches Some(p) ==> p.wf() && pools_in_range(p, graph.titles@.len()),
            graph.titles@.len() + graph.n_redirect_aliases < u32::MAX,
        ensures
            r.wf(),
            r.graph == graph,
            r.layout == layout,
            r.categories == categories,
            r.aliases == aliases,
            r.sizes == sizes,
            r.views == views,
            r.pools == pools,
            llm_names@.len() > 0 ==> r.region_names == llm_names,
            llm_names@.len() == 0 ==> are_region_names(
                layout,
                categories@,
                graph.titles@.len() as int,
                r.region_names@,
            ),
            r.search.entries() == searched_entries(graph, true),
    {
        Game::load_with(
            graph,
            layout,
            llm_names,
            categories,
            aliases,
            sizes,
            views,
            pools,
            true,
        )
    }

    /// Endpoints worth generating races from.
    pub fn playable(&self) -> (r: &[u32])
        ensures
            r@ == self.playable@,
    {
        self.playable.as_slice()
    }

    pub fn has_pools(&self) -> (r: bool)
        ensures
            r == (self.pools is Some),
    {
        self.pools.is_some()
    }

    /// The articles that match a query best.
    pub fn search(&self, query: &str, limit: usize) -> (r: Vec<u32>)
        requires
            self.wf(),
        ensures
            ({
                let q = lowercase_of(trimmed(query@));
                if q.len() == 0 {
                    r@.len() == 0
                } else {
                    exists|top: Seq<Hit>|
                        r@ == #[trigger] articles_of(top) && is_top(
                            top,
                            |h: Hit|
                                is_hit(
                                    self.search.entries(),
                                    degrees_of(self.graph.reverse@),
                                    q,
                                    h,
                                ),
                            limit as nat,
                        )
                }
            }),
    {
        search_ranked(&self.search, query, limit)
    }
}

// ---------------------------------------------------------------------------
// Excluding hubs
// ---------------------------------------------------------------------------

/// How many of the leading hubs more than `limit` articles link to.
pub open spec fn leading_above(rev: Adj, hubs: Seq<u32>, limit: nat) -> nat
    decreases hubs.len(),
{
    if hubs.len() > 0 && rev[hubs[0] as int].len() > limit {
        1 + leading_above(rev, hubs.drop_first(), limit)
    } else {
        0
    }
}

/// The limit that excludes the `n` most linked articles, as far as ties allow.
pub open spec fn cut_limit(rev: Adj, hubs: Seq<u32>, n: nat) -> nat {
    if n < hubs.len() {
        rev[hubs[n as int] as int].len()
    } else {
        0
    }
}

impl Game {
    /// The limit that excludes roughly the `n` most linked articles, up to
    /// `sample` of those that it excludes, and how many it excludes.
    ///
    /// Articles tie, and the ban is a limit rather than a list, so that a tie
    /// at the cut goes with the rest of its group.
    pub fn hub_cut(&self, n: usize, sample: usize) -> (r: (Option<usize>, Vec<u32>, usize))
        requires
            self.wf(),
        ensures
            if n == 0 {
                r.0 is None && r.1@.len() == 0 && r.2 == 0
            } else {
                let limit = cut_limit(self.graph.reverse@, self.hubs@, n as nat);
                &&& r.0 == Some(limit as usize)
                &&& limit <= u32::MAX
                &&& r.2 == leading_above(self.graph.reverse@, self.hubs@, limit)
                &&& r.2 <= self.hubs@.len()
                &&& r.1@ == self.hubs@.take(
                    if sample < r.2 {
                        sample as int
                    } else {
                        r.2 as int
                    },
                )
                &&& forall|i: int|
                    0 <= i < r.1@.len() ==> self.graph.reverse@[#[trigger] r.1@[i] as int].len()
                        > limit
            },
            (r.0, r.1@, r.2) == cut_of(self.graph.reverse@, self.hubs@, n, sample),
    {
        if n == 0 {
            return (None, Vec::new(), 0);
        }
        let len: usize = self.hubs.len();
        proof {
            assert forall|i: int| 0 <= i < len implies #[trigger] self.hubs@[i]
                < self.graph.titles@.len() by {
                assert(first_ids(self.graph.titles@.len() as int).contains(self.hubs@[i]));
            }
        }
        let limit: usize = if n < len {
            self.graph.reverse.degree(self.hubs[n])
        } else {
            0
        };
        let mut excluded: usize = 0;
        assert(self.hubs@.skip(0) =~= self.hubs@);
        while excluded < len && self.graph.reverse.degree(self.hubs[excluded]) > limit
            invariant
                self.wf(),
                len == self.hubs@.len(),
                excluded <= len,
                forall|i: int|
                    0 <= i < len ==> #[trigger] self.hubs@[i] < self.graph.titles@.len(),
                leading_above(self.graph.reverse@, self.hubs@, limit as nat) == excluded
                    + leading_above(
                    self.graph.reverse@,
                    self.hubs@.skip(excluded as int),
                    limit as nat,
                ),
            decreases len - excluded,
        {
            assert(self.hubs@.skip(excluded as int).drop_first() =~= self.hubs@.skip(excluded + 1));
            excluded = excluded + 1;
        }
        let m: usize = if sample < excluded {
            sample
        } else {
            excluded
        };
        let mut names: Vec<u32> = Vec::new();
        let mut i: usize = 0;
        while i < m
            invariant
                m <= self.hubs@.len(),
                i <= m,
                names@ == self.hubs@.take(i as int),
            decreases m - i,
        {
            names.push(self.hubs[i]);
            i = i + 1;
            assert(names@ =~= self.hubs@.take(i as int));
        }
        proof {
            assert forall|i: int| 0 <= i < names@.len() implies self.graph.reverse@[
                #[trigger] names@[i] as int
            ].len() > limit by {
                assert(names@[i] == self.hubs@[i]);
                law_cut_names_what_it_excludes(self.graph.reverse@, self.hubs@, limit as nat, i);
            }
        }
        (Some(limit), names, excluded)
    }
}

/// A cut at `n` never excludes more than `n` of the ranking.
pub proof fn law_cut_excludes_no_more(rev: Adj, hubs: Seq<u32>, n: nat)
    requires
        0 < n < hubs.len(),
    ensures
        leading_above(rev, hubs, cut_limit(rev, hubs, n)) <= n,
{
    lemma_leading_stops(rev, hubs, n, cut_limit(rev, hubs, n));
}

/// What is counted as excluded is above the limit.
pub proof fn law_cut_names_what_it_excludes(rev: Adj, hubs: Seq<u32>, limit: nat, i: int)
    requires
        0 <= i < leading_above(rev, hubs, limit),
    ensures
        i < hubs.len(),
        rev[hubs[i] as int].len() > limit,
    decreases hubs.len(),
{
    if i > 0 {
        law_cut_names_what_it_excludes(rev, hubs.drop_first(), limit, i - 1);
        assert(hubs.drop_first()[i - 1] == hubs[i]);
    }
}

proof fn lemma_leading_stops(rev: Adj, hubs: Seq<u32>, n: nat, limit: nat)
    requires
        n < hubs.len(),
        rev[hubs[n as int] as int].len() <= limit,
    ensures
        leading_above(rev, hubs, limit) <= n,
    decreases n,
{
    if n > 0 {
        lemma_leading_stops(rev, hubs.drop_first(), (n - 1) as nat, limit);
    }
}

// ---------------------------------------------------------------------------
// Generating races
// ---------------------------------------------------------------------------

/// A cut of the `n` most linked articles: the limit that makes it, the first of
/// those that it bans, as many as `sample`, and how many it bans of the hubs.
pub open spec fn cut_of(rev: Adj, hubs: Seq<u32>, n: usize, sample: usize) -> (
    Option<usize>,
    Seq<u32>,
    usize,
) {
    let limit = cut_limit(rev, hubs, n as nat);
    let banned = leading_above(rev, hubs, limit) as usize;
    if n == 0 {
        (None, seq![], 0)
    } else {
        (
            Some(limit as usize),
            hubs.take(
                if sample < banned {
                    sample as int
                } else {
                    banned as int
                },
            ),
            banned,
        )
    }
}

/// How many clicks a race takes at least, around hubs but for its ends.
pub open spec fn par(
    adj: Adj,
    rev: Adj,
    start: u32,
    goal: u32,
    ban: Option<usize>,
) -> Option<nat> {
    distance(adj, open_between(start, goal, hub_ban(rev, ban)), start, goal)
}

/// A race between two articles, if it takes from `lo` to `hi` clicks.
pub open spec fn race(
    adj: Adj,
    rev: Adj,
    start: u32,
    goal: u32,
    ban: Option<usize>,
    lo: nat,
    hi: nat,
) -> Option<Puzzle> {
    match par(adj, rev, start, goal, ban) {
        Some(d) => if lo <= d <= hi {
            Some(Puzzle { start, goal, ban_degree: ban, optimal: d as usize })
        } else {
            None
        },
        None => None,
    }
}

/// The race between two articles, whatever its par.
pub open spec fn direct_race(
    adj: Adj,
    rev: Adj,
    a: u32,
    b: u32,
    ban: Option<usize>,
) -> Option<Puzzle> {
    match par(adj, rev, a, b, ban) {
        Some(d) => if a != b && a < adj.len() && b < adj.len() {
            Some(Puzzle { start: a, goal: b, ban_degree: ban, optimal: d as usize })
        } else {
            None
        },
        None => None,
    }
}

/// What the map shows of its points, in their order.
pub open spec fn shown(order: Seq<u32>, has_map: bool, limit: nat) -> Seq<u32> {
    if !has_map {
        seq![]
    } else if limit < order.len() {
        order.take(limit as int)
    } else {
        order
    }
}


/// The race that `tries` draws of two articles from a list come to, and the
/// state of the generator then. The first that will do is taken.
pub open spec fn drawn_race(
    adj: Adj,
    rev: Adj,
    list: Seq<u32>,
    ban: Option<usize>,
    lo: nat,
    hi: nat,
    state: u64,
    tries: nat,
) -> (Option<Puzzle>, u64)
    decreases tries,
{
    if tries == 0 {
        (None, state)
    } else {
        let a = list[next_number(state) as int % list.len() as int];
        let one = next_state(state);
        let b = list[next_number(one) as int % list.len() as int];
        let two = next_state(one);
        let found = if a == b {
            None
        } else {
            race(adj, rev, a, b, ban, lo, hi)
        };
        if found is Some {
            (found, two)
        } else {
            drawn_race(adj, rev, list, ban, lo, hi, two, (tries - 1) as nat)
        }
    }
}

/// The pair that pools come to, and the state of the generator then.
pub open spec fn pool_pick(pools: Pools, d: Difficulty, state: u64) -> (Option<(u32, u32)>, u64) {
    let total = weight_from(pools.row(d), d, 0);
    if total == 0 {
        (None, state)
    } else {
        let b = pools.bucket(d, drawn(pools.row(d), d, next_number(state) as int % total, 0)->0);
        let (lo, hi) = draw_range(d, b.len() as int);
        let k = lo + next_number(next_state(state)) as int % (hi - lo);
        (Some((b[k].0, b[k].1)), next_state(next_state(state)))
    }
}

/// The race that `tries` draws from pools come to, and the state of the
/// generator then.
pub open spec fn pool_race(
    adj: Adj,
    rev: Adj,
    pools: Pools,
    d: Difficulty,
    state: u64,
    tries: nat,
) -> (Option<Puzzle>, u64)
    decreases tries,
{
    if tries == 0 {
        (None, state)
    } else {
        let (pair, after) = pool_pick(pools, d, state);
        match pair {
            None => (None, after),
            Some((a, b)) => {
                let found = race(
                    adj,
                    rev,
                    a,
                    b,
                    d.ban(),
                    d.min_len() as nat,
                    (d.min_len() + 3) as nat,
                );
                if found is Some {
                    (found, after)
                } else {
                    pool_race(adj, rev, pools, d, after, (tries - 1) as nat)
                }
            },
        }
    }
}

/// The articles of a list that are in a region and no hubs.
pub open spec fn region_members(
    rev: Adj,
    list: Seq<u32>,
    community: Seq<i32>,
    region: i32,
    ban: Option<usize>,
) -> Seq<u32>
    decreases list.len(),
{
    if list.len() == 0 {
        seq![]
    } else {
        let rest = region_members(rev, list.drop_last(), community, region, ban);
        let v = list.last();
        if community[v as int] == region && !is_hub(rev, ban, v) {
            rest.push(v)
        } else {
            rest
        }
    }
}

proof fn lemma_region_members(
    rev: Adj,
    list: Seq<u32>,
    community: Seq<i32>,
    region: i32,
    ban: Option<usize>,
    n: nat,
)
    requires
        forall|i: int| 0 <= i < list.len() ==> #[trigger] list[i] < n,
    ensures
        ({
            let m = region_members(rev, list, community, region, ban);
            forall|i: int| 0 <= i < m.len() ==> #[trigger] m[i] < n
        }),
    decreases list.len(),
{
    if list.len() > 0 {
        let rest = list.drop_last();
        assert forall|i: int| 0 <= i < rest.len() implies #[trigger] rest[i] < n by {
            assert(rest[i] == list[i]);
        }
        lemma_region_members(rev, rest, community, region, ban, n);
        assert(list[list.len() - 1] < n);
        let some = region_members(rev, rest, community, region, ban);
        let all = region_members(rev, list, community, region, ban);
        assert forall|i: int| 0 <= i < all.len() implies #[trigger] all[i] < n by {
            if i < some.len() {
                assert(all[i] == some[i]);
            }
        }
    }
}

impl Game {
    /// The race between two articles, if it takes from `lo` to `hi` clicks.
    pub(crate) fn try_race(
        &self,
        pf: &mut PathFinder,
        a: u32,
        b: u32,
        ban: Option<usize>,
        lo: usize,
        hi: usize,
    ) -> (r: Option<Puzzle>)
        requires
            self.graph.wf(),
            old(pf).wf(),
            self.graph.titles@.len() <= old(pf).size(),
            a == b || (a < self.graph.titles@.len() && b < self.graph.titles@.len()),
        ensures
            final(pf).wf(),
            final(pf).size() == old(pf).size(),
            r == race(
                self.graph.forward@,
                self.graph.reverse@,
                a,
                b,
                ban,
                lo as nat,
                hi as nat,
            ),
    {
        let rev = &self.graph.reverse;
        let banned = |v: u32| -> (x: bool)
            ensures
                x == is_hub(rev@, ban, v),
            { over_limit(rev, ban, v) };
        match pf.route(
            &self.graph,
            a,
            b,
            &banned,
            Ghost(hub_ban(self.graph.reverse@, ban)),
        ) {
            Some(path) => {
                let optimal: usize = path.len() - 1;
                if optimal >= lo && optimal <= hi {
                    Some(Puzzle { start: a, goal: b, ban_degree: ban, optimal })
                } else {
                    None
                }
            },
            None => None,
        }
    }

    fn draw_race(
        &self,
        pf: &mut PathFinder,
        list: &[u32],
        ban: Option<usize>,
        lo: usize,
        hi: usize,
        rng: &mut Rng,
    ) -> (r: Option<Puzzle>)
        requires
            self.graph.wf(),
            old(pf).wf(),
            self.graph.titles@.len() <= old(pf).size(),
            list@.len() > 0,
            forall|i: int| 0 <= i < list@.len() ==> #[trigger] list@[i] < self.graph.titles@.len(),
        ensures
            final(pf).wf(),
            final(pf).size() == old(pf).size(),
            (r, final(rng).state()) == drawn_race(
                self.graph.forward@,
                self.graph.reverse@,
                list@,
                ban,
                lo as nat,
                hi as nat,
                old(rng).state(),
                TRIES as nat,
            ),
    {
        let mut k: usize = TRIES;
        let ghost goal = drawn_race(
            self.graph.forward@,
            self.graph.reverse@,
            list@,
            ban,
            lo as nat,
            hi as nat,
            old(rng).state(),
            TRIES as nat,
        );
        while k > 0
            invariant
                self.graph.wf(),
                pf.wf(),
                pf.size() == old(pf).size(),
                self.graph.titles@.len() <= pf.size(),
                list@.len() > 0,
                forall|i: int|
                    0 <= i < list@.len() ==> #[trigger] list@[i] < self.graph.titles@.len(),
                goal == drawn_race(
                    self.graph.forward@,
                    self.graph.reverse@,
                    list@,
                    ban,
                    lo as nat,
                    hi as nat,
                    old(rng).state(),
                    TRIES as nat,
                ),
                goal == drawn_race(
                    self.graph.forward@,
                    self.graph.reverse@,
                    list@,
                    ban,
                    lo as nat,
                    hi as nat,
                    rng.state(),
                    k as nat,
                ),
            decreases k,
        {
            let a: u32 = list[rng.below(list.len())];
            let b: u32 = list[rng.below(list.len())];
            if a != b {
                let found = self.try_race(pf, a, b, ban, lo, hi);
                if found.is_some() {
                    return found;
                }
            }
            k = k - 1;
        }
        None
    }

    /// Generate a race by the rules of a difficulty, or nothing if no pair
    /// qualified in as many tries as are allowed.
    ///
    /// Where there are pools, races are drawn from them. Every pair is still
    /// searched before it is served: pools hold candidates, and the graph is
    /// the truth.
    pub fn puzzle(&self, pf: &mut PathFinder, d: Difficulty, rng: &mut Rng) -> (r: Option<Puzzle>)
        requires
            self.wf(),
            old(pf).wf(),
            self.graph.titles@.len() <= old(pf).size(),
        ensures
            final(pf).wf(),
            final(pf).size() == old(pf).size(),
            (r, final(rng).state()) == self.spec_puzzle(d, old(rng).state()),
    {
        let (ban, min_len) = d.rules();
        if let Some(pools) = &self.pools {
            let ghost goal = pool_race(
                self.graph.forward@,
                self.graph.reverse@,
                *pools,
                d,
                old(rng).state(),
                POOL_TRIES as nat,
            );
            let mut k: usize = POOL_TRIES;
            let mut more = true;
            while k > 0 && more
                invariant
                    self.wf(),
                    self.pools == Some(*pools),
                    pf.wf(),
                    pf.size() == old(pf).size(),
                    self.graph.titles@.len() <= pf.size(),
                    ban == d.ban(),
                    min_len == d.min_len(),
                    goal == pool_race(
                        self.graph.forward@,
                        self.graph.reverse@,
                        *pools,
                        d,
                        old(rng).state(),
                        POOL_TRIES as nat,
                    ),
                    more ==> goal == pool_race(
                        self.graph.forward@,
                        self.graph.reverse@,
                        *pools,
                        d,
                        rng.state(),
                        k as nat,
                    ),
                    !more ==> goal == (None::<Puzzle>, rng.state()),
                decreases k, (if more { 1int } else { 0int }),
            {
                let ghost before = rng.state();
                match pools.pick(d, rng) {
                    None => {
                        more = false;
                    },
                    Some((a, b)) => {
                        proof {
                            let total = weight_from(pools.row(d), d, 0);
                            let off = drawn(
                                pools.row(d),
                                d,
                                next_number(before) as int % total,
                                0,
                            )->0;
                            lemma_weight_bound(pools.row(d), d, 0);
                            lemma_drawn(
                                pools.row(d),
                                d,
                                next_number(before) as int % total,
                                0,
                            );
                            let bucket = pools.bucket(d, off);
                            let (lo, hi) = draw_range(d, bucket.len() as int);
                            let i = lo + next_number(next_state(before)) as int % (hi - lo);
                            assert(pools.bucket(d, off)[i].0 < self.graph.titles@.len());
                        }
                        let found = self.try_race(pf, a, b, ban, min_len, min_len + 3);
                        if found.is_some() {
                            return found;
                        }
                        k = k - 1;
                    },
                }
            }
        }
        self.puzzle_with(pf, ban, min_len, rng)
    }

    /// The race that a difficulty and the state of a generator come to.
    pub open spec fn spec_puzzle(&self, d: Difficulty, state: u64) -> (Option<Puzzle>, u64) {
        match self.pools {
            Some(p) => {
                let (found, after) = pool_race(
                    self.graph.forward@,
                    self.graph.reverse@,
                    p,
                    d,
                    state,
                    POOL_TRIES as nat,
                );
                if found is Some {
                    (found, after)
                } else {
                    self.spec_puzzle_with(d.ban(), d.min_len() as nat, after)
                }
            },
            None => self.spec_puzzle_with(d.ban(), d.min_len() as nat, state),
        }
    }

    /// The race that a hub cut and the state of a generator come to.
    pub open spec fn spec_puzzle_with(
        &self,
        ban: Option<usize>,
        min_len: nat,
        state: u64,
    ) -> (Option<Puzzle>, u64) {
        if self.playable@.len() < 2 {
            (None, state)
        } else {
            drawn_race(
                self.graph.forward@,
                self.graph.reverse@,
                self.playable@,
                ban,
                min_len,
                min_len + 3,
                state,
                TRIES as nat,
            )
        }
    }

    proof fn lemma_playable(&self)
        requires
            self.wf(),
        ensures
            forall|i: int|
                0 <= i < self.playable@.len() ==> #[trigger] self.playable@[i]
                    < self.graph.titles@.len(),
    {
        let all = linking(self.graph.forward@, self.graph.titles@.len() as int);
        lemma_linking(self.graph.forward@, self.graph.titles@.len() as int);
        assert forall|i: int| 0 <= i < self.playable@.len() implies #[trigger] self.playable@[i]
            < self.graph.titles@.len() by {
            assert(all.contains(self.playable@[i]));
            let k = choose|k: int| 0 <= k < all.len() && all[k] == self.playable@[i];
            assert(all[k] < self.graph.titles@.len());
        }
    }

    /// Generate a race around hubs above a limit. It takes at least `min_len`
    /// clicks and at most three more: longer is not hard but tedious.
    pub fn puzzle_with(
        &self,
        pf: &mut PathFinder,
        ban_degree: Option<usize>,
        min_len: usize,
        rng: &mut Rng,
    ) -> (r: Option<Puzzle>)
        requires
            self.wf(),
            old(pf).wf(),
            self.graph.titles@.len() <= old(pf).size(),
            min_len <= usize::MAX - 3,
        ensures
            final(pf).wf(),
            final(pf).size() == old(pf).size(),
            (r, final(rng).state()) == self.spec_puzzle_with(
                ban_degree,
                min_len as nat,
                old(rng).state(),
            ),
    {
        if self.playable.len() < 2 {
            return None;
        }
        proof {
            self.lemma_playable();
        }
        self.draw_race(pf, self.playable.as_slice(), ban_degree, min_len, min_len + 3, rng)
    }

    /// Generate a race between two articles of one region.
    ///
    /// The hub ban of the difficulty applies. One click less will do, though
    /// never fewer than two: a tight region often has no pair further apart.
    pub fn puzzle_in_region(
        &self,
        pf: &mut PathFinder,
        region: i32,
        d: Difficulty,
        rng: &mut Rng,
    ) -> (r: Option<Puzzle>)
        requires
            self.wf(),
            old(pf).wf(),
            self.graph.titles@.len() <= old(pf).size(),
        ensures
            final(pf).wf(),
            final(pf).size() == old(pf).size(),
            (r, final(rng).state()) == self.spec_puzzle_in_region(
                region,
                d,
                old(rng).state(),
            ),
    {
        let layout = match &self.layout {
            Some(l) => l,
            None => {
                return None;
            },
        };
        let (ban, min_len) = d.rules();
        let least: usize = if min_len - 1 > 2 {
            min_len - 1
        } else {
            2
        };
        proof {
            self.lemma_playable();
        }
        let mut members: Vec<u32> = Vec::new();
        let n: usize = self.playable.len();
        let mut i: usize = 0;
        assert(self.playable@.take(0) =~= Seq::<u32>::empty());
        while i < n
            invariant
                self.wf(),
                self.layout == Some(*layout),
                n == self.playable@.len(),
                i <= n,
                forall|k: int|
                    0 <= k < n ==> #[trigger] self.playable@[k] < self.graph.titles@.len(),
                members@ == region_members(
                    self.graph.reverse@,
                    self.playable@.take(i as int),
                    layout.community@,
                    region,
                    ban,
                ),
            decreases n - i,
        {
            assert(self.playable@.take(i + 1).drop_last() =~= self.playable@.take(i as int));
            let v: u32 = self.playable[i];
            if layout.community[v as usize] == region && !over_limit(&self.graph.reverse, ban, v) {
                members.push(v);
            }
            i = i + 1;
        }
        proof {
            assert(self.playable@.take(n as int) =~= self.playable@);
            lemma_region_members(
                self.graph.reverse@,
                self.playable@,
                layout.community@,
                region,
                ban,
                self.graph.titles@.len(),
            );
        }
        if members.len() < 2 {
            return None;
        }
        self.draw_race(pf, members.as_slice(), ban, least, least + 4, rng)
    }

    /// The race within a region that the state of a generator comes to.
    pub open spec fn spec_puzzle_in_region(
        &self,
        region: i32,
        d: Difficulty,
        state: u64,
    ) -> (Option<Puzzle>, u64) {
        match self.layout {
            None => (None, state),
            Some(l) => {
                let members = region_members(
                    self.graph.reverse@,
                    self.playable@,
                    l.community@,
                    region,
                    d.ban(),
                );
                let least = if d.min_len() - 1 > 2 {
                    (d.min_len() - 1) as nat
                } else {
                    2
                };
                if members.len() < 2 {
                    (None, state)
                } else {
                    drawn_race(
                        self.graph.forward@,
                        self.graph.reverse@,
                        members,
                        d.ban(),
                        least,
                        least + 4,
                        state,
                        TRIES as nat,
                    )
                }
            },
        }
    }

    /// A race between two articles that a player chose.
    ///
    /// The ends are exempt from the hub ban: picking "United States" as a goal
    /// is a legitimate race. Nothing where the pair is no pair of articles, or
    /// there is no way around the hubs.
    pub fn puzzle_between(
        &self,
        pf: &mut PathFinder,
        a: u32,
        b: u32,
        ban_degree: Option<usize>,
    ) -> (r: Option<Puzzle>)
        requires
            self.wf(),
            old(pf).wf(),
            self.graph.titles@.len() <= old(pf).size(),
        ensures
            final(pf).wf(),
            final(pf).size() == old(pf).size(),
            r == (if a == b || a >= self.graph.titles@.len() || b >= self.graph.titles@.len() {
                None
            } else {
                match par(self.graph.forward@, self.graph.reverse@, a, b, ban_degree) {
                    Some(d) => Some(
                        Puzzle { start: a, goal: b, ban_degree, optimal: d as usize },
                    ),
                    None => None,
                }
            }),
            r matches Some(p) ==> par(self.graph.forward@, self.graph.reverse@, a, b, ban_degree)
                == Some(p.optimal as nat),
            r == direct_race(self.graph.forward@, self.graph.reverse@, a, b, ban_degree),
    {
        let n: usize = self.graph.len();
        if a == b || a as usize >= n || b as usize >= n {
            return None;
        }
        let rev = &self.graph.reverse;
        let banned = |v: u32| -> (x: bool)
            ensures
                x == is_hub(rev@, ban_degree, v),
            { over_limit(rev, ban_degree, v) };
        match pf.route(
            &self.graph,
            a,
            b,
            &banned,
            Ghost(hub_ban(self.graph.reverse@, ban_degree)),
        ) {
            Some(path) => Some(
                Puzzle { start: a, goal: b, ban_degree, optimal: path.len() - 1 },
            ),
            None => None,
        }
    }
}

// ---------------------------------------------------------------------------
// The map
// ---------------------------------------------------------------------------

/// The most linked of the first `i` articles in region `c`, the first of
/// several.
pub open spec fn best_member(rev: Adj, community: Seq<i32>, c: i32, i: int) -> Option<u32>
    decreases i,
{
    if i <= 0 {
        None
    } else {
        let rest = best_member(rev, community, c, i - 1);
        if community[i - 1] != c {
            rest
        } else {
            match rest {
                Some(b) => if rev[i - 1].len() > rev[b as int].len() {
                    Some((i - 1) as u32)
                } else {
                    rest
                },
                None => Some((i - 1) as u32),
            }
        }
    }
}

/// Region `a` has more members than region `b`, or as many and the smaller
/// number.
pub open spec fn larger_region(community: Seq<i32>, n: int, a: i32, b: i32) -> bool {
    ||| members_before(community, a, n) > members_before(community, b, n)
    ||| members_before(community, a, n) == members_before(community, b, n) && a < b
}

/// `r` holds up to `limit` of the largest regions, the largest first, each with
/// its most linked article. Members with a negative region belong nowhere.
pub open spec fn are_landmarks(
    rev: Adj,
    community: Seq<i32>,
    n: int,
    limit: nat,
    r: Seq<(u32, i32)>,
) -> bool {
    &&& r.len() <= limit
    &&& forall|i: int|
        0 <= i < r.len() ==> (#[trigger] r[i]).1 >= 0 && best_member(rev, community, r[i].1, n)
            == Some(r[i].0)
    &&& forall|i: int, j: int|
        0 <= i < j < r.len() ==> larger_region(
            community,
            n,
            (#[trigger] r[i]).1,
            (#[trigger] r[j]).1,
        )
    &&& forall|c: i32|
        c >= 0 && #[trigger] best_member(rev, community, c, n) is Some ==> (exists|i: int|
            0 <= i < r.len() && (#[trigger] r[i]).1 == c) || (r.len() == limit && forall|i: int|
            0 <= i < r.len() ==> larger_region(community, n, (#[trigger] r[i]).1, c))
}

proof fn lemma_best_member(rev: Adj, community: Seq<i32>, c: i32, i: int)
    requires
        0 <= i <= community.len(),
        i <= u32::MAX,
    ensures
        best_member(rev, community, c, i) matches Some(b) ==> b < i && community[b as int] == c,
        best_member(rev, community, c, i) is None <==> members_before(community, c, i) == 0,
        best_member(rev, community, c, i) is None ==> forall|k: int|
            0 <= k < i ==> #[trigger] community[k] != c,
        members_before(community, c, i) <= i,
    decreases i,
{
    if i > 0 {
        lemma_best_member(rev, community, c, i - 1);
    }
}

/// The best member and the number of members of every region.
struct Survey {
    best: Vec<u32>,
    size: Vec<u32>,
}

const NOBODY: u32 = 0xffff_ffff;

spec fn somebody(b: Option<u32>) -> u32 {
    match b {
        Some(v) => v,
        None => NOBODY,
    }
}

/// What is known of region `c` after the first `i` articles.
spec fn surveyed(
    rev: Adj,
    community: Seq<i32>,
    best: Seq<u32>,
    size: Seq<u32>,
    c: int,
    i: int,
) -> bool {
    &&& best[c] == somebody(best_member(rev, community, c as i32, i))
    &&& size[c] == members_before(community, c as i32, i)
}

fn survey_regions(graph: &Graph, community: &Vec<i32>) -> (r: Survey)
    requires
        graph.wf(),
        community@.len() == graph.titles@.len(),
    ensures
        r.best@.len() == r.size@.len(),
        0 < r.best@.len() <= 0x8000_0000,
        forall|k: int| 0 <= k < community@.len() ==> #[trigger] community@[k] < r.best@.len(),
        forall|c: int|
            0 <= c < r.best@.len() ==> #[trigger] surveyed(
                graph.reverse@,
                community@,
                r.best@,
                r.size@,
                c,
                community@.len() as int,
            ),
{
    let n: usize = community.len();
    let mut top: i32 = 0;
    let mut v: usize = 0;
    while v < n
        invariant
            n == community@.len(),
            v <= n,
            top >= 0,
            forall|k: int| 0 <= k < v ==> #[trigger] community@[k] <= top,
        decreases n - v,
    {
        if community[v] > top {
            top = community[v];
        }
        v = v + 1;
    }
    let ncom: usize = top as usize + 1;
    let mut best: Vec<u32> = Vec::new();
    let mut size: Vec<u32> = Vec::new();
    let mut c: usize = 0;
    while c < ncom
        invariant
            c <= ncom,
            best@.len() == c,
            size@.len() == c,
            forall|k: int| 0 <= k < c ==> best@[k] == NOBODY,
            forall|k: int| 0 <= k < c ==> size@[k] == 0,
        decreases ncom - c,
    {
        best.push(NOBODY);
        size.push(0);
        c = c + 1;
    }
    let ghost rev = graph.reverse@;
    let mut v: usize = 0;
    proof {
        assert forall|k: int| 0 <= k < ncom implies #[trigger] surveyed(
            rev,
            community@,
            best@,
            size@,
            k,
            0,
        ) by {}
    }
    while v < n
        invariant
            graph.wf(),
            rev == graph.reverse@,
            n == community@.len(),
            n == graph.titles@.len(),
            v <= n,
            best@.len() == ncom,
            size@.len() == ncom,
            ncom == top + 1,
            forall|k: int| 0 <= k < n ==> #[trigger] community@[k] <= top,
            forall|k: int|
                0 <= k < ncom ==> #[trigger] surveyed(
                    rev,
                    community@,
                    best@,
                    size@,
                    k,
                    v as int,
                ),
        decreases n - v,
    {
        let c: i32 = community[v];
        let ghost best0 = best@;
        let ghost size0 = size@;
        if c >= 0 {
            proof {
                assert(surveyed(rev, community@, best@, size@, c as int, v as int));
                lemma_best_member(rev, community@, c, v as int);
            }
            let k: usize = c as usize;
            size.set(k, size[k] + 1);
            let b: u32 = best[k];
            if b == NOBODY {
                best.set(k, v as u32);
            } else if graph.reverse.degree(v as u32) > graph.reverse.degree(b) {
                best.set(k, v as u32);
            }
        }
        proof {
            let next = v + 1;
            assert forall|k: int| 0 <= k < ncom implies #[trigger] surveyed(
                rev,
                community@,
                best@,
                size@,
                k,
                next,
            ) by {
                assert(surveyed(rev, community@, best0, size0, k, v as int));
                lemma_best_member(rev, community@, k as i32, v as int);
            }
        }
        v = v + 1;
    }
    Survey { best, size }
}

impl Game {
    /// The landmarks of the map: the most linked article of each region, for
    /// up to `limit` of the largest regions.
    ///
    /// The most linked article of a region is a fair name for it.
    pub fn landmarks(&self, limit: usize) -> (r: Vec<(u32, i32)>)
        requires
            self.wf(),
        ensures
            match self.layout {
                Some(l) => are_landmarks(
                    self.graph.reverse@,
                    l.community@,
                    l.community@.len() as int,
                    limit as nat,
                    r@,
                ),
                None => r@.len() == 0,
            },
    {
        let l = match &self.layout {
            Some(l) => l,
            None => {
                return Vec::new();
            },
        };
        let survey = survey_regions(&self.graph, &l.community);
        let ghost rev = self.graph.reverse@;
        let ghost community = l.community@;
        let ghost n = community.len() as int;
        let ncom: usize = survey.best.len();
        let mut list: Vec<u32> = Vec::new();
        let mut c: usize = 0;
        while c < ncom
            invariant
                ncom == survey.best@.len(),
                ncom <= 0x8000_0000,
                c <= ncom,
                list@.no_duplicates(),
                forall|k: int| 0 <= k < list@.len() ==> #[trigger] list@[k] < c,
                forall|x: u32|
                    #![trigger list@.contains(x)]
                    list@.contains(x) <==> x < c && survey.best@[x as int] != NOBODY,
            decreases ncom - c,
        {
            let ghost before = list@;
            if survey.best[c] != NOBODY {
                list.push(c as u32);
                proof {
                    assert forall|x: u32| #![trigger list@.contains(x)] list@.contains(x) <==> x < c
                        + 1 && survey.best@[x as int] != NOBODY by {
                        assert(list@[before.len() as int] == c);
                        if list@.contains(x) {
                            let k = choose|k: int| 0 <= k < list@.len() && list@[k] == x;
                            if k < before.len() {
                                assert(before[k] == x);
                                assert(before.contains(x));
                            }
                        }
                        if before.contains(x) {
                            let k = choose|k: int| 0 <= k < before.len() && before[k] == x;
                            assert(list@[k] == x);
                        }
                    }
                }
            }
            c = c + 1;
        }
        let sorted = sort_regions(&survey.size, &list);
        let m: usize = if limit < sorted.len() {
            limit
        } else {
            sorted.len()
        };
        proof {
            lemma_same_members(list@, sorted@);
            assert forall|k: int| 0 <= k < sorted@.len() implies (#[trigger] sorted@[k]) < ncom
                && survey.best@[sorted@[k] as int] != NOBODY by {
                assert(sorted@.contains(sorted@[k]));
                assert(list@.contains(sorted@[k]));
            }
        }
        let mut out: Vec<(u32, i32)> = Vec::new();
        let mut k: usize = 0;
        while k < m
            invariant
                m <= sorted@.len(),
                k <= m,
                ncom == survey.best@.len(),
                ncom <= 0x8000_0000,
                forall|j: int| 0 <= j < sorted@.len() ==> (#[trigger] sorted@[j]) < ncom,
                out@.len() == k,
                forall|j: int|
                    0 <= j < k ==> #[trigger] out@[j] == (
                        survey.best@[sorted@[j] as int],
                        sorted@[j] as i32,
                    ),
            decreases m - k,
        {
            let c: u32 = sorted[k];
            out.push((survey.best[c as usize], c as i32));
            k = k + 1;
        }
        proof {
            assert forall|i: int| 0 <= i < out@.len() implies (#[trigger] out@[i]).1 >= 0
                && best_member(rev, community, out@[i].1, n) == Some(out@[i].0) by {
                let c = sorted@[i] as int;
                assert(survey.best@[c] != NOBODY);
                assert(surveyed(rev, community, survey.best@, survey.size@, c, n));
            }
            assert forall|i: int, j: int| 0 <= i < j < out@.len() implies larger_region(
                community,
                n,
                (#[trigger] out@[i]).1,
                (#[trigger] out@[j]).1,
            ) by {
                assert(region_leq(survey.size@, sorted@[i], sorted@[j]));
                assert(sorted@[i] != sorted@[j]);
                let a = sorted@[i] as int;
                let b = sorted@[j] as int;
                assert(surveyed(rev, community, survey.best@, survey.size@, a, n));
                assert(surveyed(rev, community, survey.best@, survey.size@, b, n));
            }
            assert forall|c: i32|
                c >= 0 && #[trigger] best_member(rev, community, c, n) is Some implies (exists|i: int|
                0 <= i < out@.len() && (#[trigger] out@[i]).1 == c) || (out@.len() == limit
                && forall|i: int|
                0 <= i < out@.len() ==> larger_region(community, n, (#[trigger] out@[i]).1, c)) by {
                lemma_best_member(rev, community, c, n);
                let b = best_member(rev, community, c, n)->0;
                assert(community[b as int] < ncom);
                assert(surveyed(rev, community, survey.best@, survey.size@, c as int, n));
                assert(survey.best@[c as int] == b);
                assert(list@.contains(c as u32));
                assert(sorted@.contains(c as u32));
                let k = choose|k: int| 0 <= k < sorted@.len() && sorted@[k] == c as u32;
                if k < m {
                    assert(out@[k].1 == c);
                } else {
                    assert forall|i: int| 0 <= i < out@.len() implies larger_region(
                        community,
                        n,
                        (#[trigger] out@[i]).1,
                        c,
                    ) by {
                        assert(region_leq(survey.size@, sorted@[i], sorted@[k]));
                        assert(sorted@[i] != sorted@[k]);
                        let a = sorted@[i] as int;
                        assert(surveyed(rev, community, survey.best@, survey.size@, a, n));
                    }
                }
            }
        }
        out
    }

    /// The articles that the map shows, up to `limit`: the most linked.
    pub fn map_sample(&self, limit: usize) -> (r: Vec<u32>)
        ensures
            r@ == (if self.layout is None {
                seq![]
            } else if limit < self.map_order@.len() {
                self.map_order@.take(limit as int)
            } else {
                self.map_order@
            }),
            r@ == shown(self.map_order@, self.layout is Some, limit as nat),
    {
        let mut out: Vec<u32> = Vec::new();
        if self.layout.is_none() {
            assert(out@ =~= Seq::<u32>::empty());
            return out;
        }
        let n: usize = self.map_order.len();
        let m: usize = if limit < n {
            limit
        } else {
            n
        };
        let mut i: usize = 0;
        while i < m
            invariant
                m <= self.map_order@.len(),
                i <= m,
                out@ == self.map_order@.take(i as int),
            decreases m - i,
        {
            out.push(self.map_order[i]);
            i = i + 1;
            assert(out@ =~= self.map_order@.take(i as int));
        }
        assert(self.map_order@.take(n as int) =~= self.map_order@);
        out
    }
}

spec fn region_leq(size: Seq<u32>, a: u32, b: u32) -> bool {
    let x = if a < size.len() {
        size[a as int] as int
    } else {
        -1
    };
    let y = if b < size.len() {
        size[b as int] as int
    } else {
        -1
    };
    x > y || (x == y && a <= b)
}

/// Regions by size, the largest first.
fn sort_regions(size: &Vec<u32>, list: &Vec<u32>) -> (r: Vec<u32>)
    requires
        forall|k: int| 0 <= k < list@.len() ==> #[trigger] list@[k] < size@.len(),
    ensures
        r@.to_multiset() == list@.to_multiset(),
        forall|i: int, j: int|
            0 <= i < j < r@.len() ==> region_leq(size@, #[trigger] r@[i], #[trigger] r@[j]),
{
    let n: usize = size.len();
    let ghost leq: Order<u32> = |a: u32, b: u32| region_leq(size@, a, b);
    let f = |a: u32, b: u32| -> (r: bool)
        ensures
            r == region_leq(size@, a, b),
        {
            if (a as usize) < n {
                if (b as usize) < n {
                    let x: u32 = size[a as usize];
                    let y: u32 = size[b as usize];
                    x > y || (x == y && a <= b)
                } else {
                    true
                }
            } else if (b as usize) < n {
                false
            } else {
                a <= b
            }
        };
    let r = sort_by(list, &f, Ghost(leq));
    proof {
        assert forall|i: int, j: int| 0 <= i < j < r@.len() implies region_leq(
            size@,
            #[trigger] r@[i],
            #[trigger] r@[j],
        ) by {
            assert(leq(r@[i], r@[j]));
        }
    }
    r
}

// ---------------------------------------------------------------------------
// Laws
// ---------------------------------------------------------------------------

/// The par of a race is exactly what the graph says, and there are more
/// articles than it has clicks.
pub proof fn law_pars_are_exact(
    adj: Adj,
    rev: Adj,
    start: u32,
    goal: u32,
    ban: Option<usize>,
    lo: nat,
    hi: nat,
)
    requires
        closed_under_links(adj),
        start < adj.len() <= u32::MAX,
    ensures
        race(adj, rev, start, goal, ban, lo, hi) matches Some(p) ==> par(
            adj,
            rev,
            start,
            goal,
            ban,
        ) == Some(p.optimal as nat) && p.optimal < adj.len(),
{
    let ok = open_between(start, goal, hub_ban(rev, ban));
    if distance(adj, ok, start, goal) is Some {
        lemma_distance_small(adj, ok, start, goal);
    }
}

/// Every race that is drawn is between two different articles of the list, its
/// par is what the graph says, and within what was asked for.
pub proof fn law_races_keep_the_rules(
    adj: Adj,
    rev: Adj,
    list: Seq<u32>,
    ban: Option<usize>,
    lo: nat,
    hi: nat,
    state: u64,
    tries: nat,
)
    requires
        list.len() > 0,
        hi <= usize::MAX,
    ensures
        drawn_race(adj, rev, list, ban, lo, hi, state, tries).0 matches Some(p) ==> {
            &&& list.contains(p.start)
            &&& list.contains(p.goal)
            &&& p.start != p.goal
            &&& p.ban_degree == ban
            &&& lo <= p.optimal <= hi
            &&& par(adj, rev, p.start, p.goal, ban) == Some(p.optimal as nat)
        },
    decreases tries,
{
    if tries > 0 {
        let i = next_number(state) as int % list.len() as int;
        let one = next_state(state);
        let j = next_number(one) as int % list.len() as int;
        let two = next_state(one);
        assert(list.contains(list[i]));
        assert(list.contains(list[j]));
        law_races_keep_the_rules(adj, rev, list, ban, lo, hi, two, (tries - 1) as nat);
    }
}

/// Every race that is drawn from pools has the par that the graph says, within
/// what the difficulty asks for: a pool that is wrong never serves a wrong par.
pub proof fn law_pools_never_lie(
    adj: Adj,
    rev: Adj,
    pools: Pools,
    d: Difficulty,
    state: u64,
    tries: nat,
)
    ensures
        pool_race(adj, rev, pools, d, state, tries).0 matches Some(p) ==> {
            &&& p.ban_degree == d.ban()
            &&& d.min_len() <= p.optimal <= d.min_len() + 3
            &&& par(adj, rev, p.start, p.goal, d.ban()) == Some(p.optimal as nat)
        },
    decreases tries,
{
    if tries > 0 {
        let (pair, after) = pool_pick(pools, d, state);
        law_pools_never_lie(adj, rev, pools, d, after, (tries - 1) as nat);
    }
}

/// A puzzle's par is the length of the shortest way that leads over no banned
/// article, whether its ends are banned or not. It has one where there is such a
/// way, and a race of that par is one if the par is in the asked range.
pub proof fn law_par_is_the_shortest_way(
    adj: Adj,
    rev: Adj,
    start: u32,
    goal: u32,
    ban: Option<usize>,
    lo: nat,
    hi: nat,
    way: Seq<u32>,
)
    requires
        way.len() > 0,
        way[0] == start,
        way.last() == goal,
        forall|i: int, j: int|
            0 <= i && j == i + 1 && j < way.len() ==> (#[trigger] way[i]) < adj.len()
                && adj[way[i] as int].contains(#[trigger] way[j]),
        forall|i: int|
            0 < i < way.len() - 1 && (#[trigger] way[i]) < rev.len() ==> (ban matches Some(l)
                ==> rev[way[i] as int].len() <= l),
    ensures
        par(adj, rev, start, goal, ban) matches Some(d) && d <= way.len() - 1,
        race(adj, rev, start, goal, ban, lo, hi) is Some <==> lo <= par(
            adj,
            rev,
            start,
            goal,
            ban,
        )->0 <= hi,
        race(adj, rev, start, goal, ban, lo, hi) matches Some(p) ==> p.start == start && p.goal
            == goal && p.ban_degree == ban,
{
    let ok = open_between(start, goal, hub_ban(rev, ban));
    assert forall|i: int, j: int| 0 <= i && j == i + 1 && j < way.len() implies steps_on(
        adj,
        ok,
        #[trigger] way[i],
        #[trigger] way[j],
    ) by {
        assert(adj[way[i] as int].contains(way[j]));
        if j == way.len() - 1 {
            assert(way[j] == goal);
        } else {
            assert(!is_hub(rev, ban, way[j]));
        }
    }
    assert(follows_links(adj, ok, way));
    law_distances_are_shortest(adj, ok, start, goal, way);
}

/// Draws are tried in turn: a pair that makes a race of the asked length is
/// taken, and any other is followed by the next draw.
pub proof fn law_draws_are_tried_in_turn(
    adj: Adj,
    rev: Adj,
    list: Seq<u32>,
    ban: Option<usize>,
    lo: nat,
    hi: nat,
    state: u64,
    tries: nat,
)
    requires
        list.len() > 0,
        tries > 0,
    ensures
        ({
            let a = list[next_number(state) as int % list.len() as int];
            let b = list[next_number(next_state(state)) as int % list.len() as int];
            let after = next_state(next_state(state));
            let r = drawn_race(adj, rev, list, ban, lo, hi, state, tries);
            if a != b && (par(adj, rev, a, b, ban) matches Some(d) && lo <= d <= hi) {
                r == (
                    Some(
                        Puzzle {
                            start: a,
                            goal: b,
                            ban_degree: ban,
                            optimal: par(adj, rev, a, b, ban)->0 as usize,
                        },
                    ),
                    after,
                )
            } else {
                r == drawn_race(adj, rev, list, ban, lo, hi, after, (tries - 1) as nat)
            }
        }),
        drawn_race(adj, rev, list, ban, lo, hi, state, 0).0 is None,
{
}

/// Puzzles that are drawn take three to six clicks, hard ones four to seven,
/// and ban what their difficulty bans. Without a pool they lead from one playable
/// article to another.
pub proof fn law_puzzles_fit_their_difficulty(game: &Game, d: Difficulty, state: u64)
    requires
        game.wf(),
    ensures
        game.spec_puzzle(d, state).0 matches Some(p) ==> {
            &&& d is Easy ==> 3 <= p.optimal <= 6 && p.ban_degree is None
            &&& d is Medium ==> 3 <= p.optimal <= 6 && p.ban_degree == Some(5000usize)
            &&& d is Hard ==> 4 <= p.optimal <= 7 && p.ban_degree == Some(1000usize)
            &&& par(game.graph.forward@, game.graph.reverse@, p.start, p.goal, p.ban_degree)
                == Some(p.optimal as nat)
            &&& game.pools is None ==> game.playable@.contains(p.start) && game.playable@.contains(
                p.goal,
            ) && p.start != p.goal
        },
{
    let fwd = game.graph.forward@;
    let rev = game.graph.reverse@;
    let lo = d.min_len() as nat;
    if game.playable@.len() >= 2 {
        law_races_keep_the_rules(fwd, rev, game.playable@, d.ban(), lo, lo + 3, state, 60);
        if game.pools is Some {
            let after = pool_race(fwd, rev, game.pools->0, d, state, 8).1;
            law_races_keep_the_rules(fwd, rev, game.playable@, d.ban(), lo, lo + 3, after, 60);
        }
    }
    if game.pools is Some {
        law_pools_never_lie(fwd, rev, game.pools->0, d, state, 8);
    }
}

/// A puzzle in a region begins and ends there, at articles that are playable and
/// not banned. It takes two to six clicks, a hard one three to seven.
pub proof fn law_region_puzzles_stay_in_the_region(
    game: &Game,
    region: i32,
    d: Difficulty,
    state: u64,
)
    ensures
        game.spec_puzzle_in_region(region, d, state).0 matches Some(p) ==> {
            &&& game.layout is Some
            &&& game.layout->0.community@[p.start as int] == region
            &&& game.layout->0.community@[p.goal as int] == region
            &&& game.playable@.contains(p.start)
            &&& game.playable@.contains(p.goal)
            &&& p.start != p.goal
            &&& p.ban_degree == d.ban()
            &&& !is_hub(game.graph.reverse@, d.ban(), p.start)
            &&& !is_hub(game.graph.reverse@, d.ban(), p.goal)
            &&& !(d is Hard) ==> 2 <= p.optimal <= 6
            &&& d is Hard ==> 3 <= p.optimal <= 7
        },
{
    if game.layout is Some {
        let fwd = game.graph.forward@;
        let rev = game.graph.reverse@;
        let community = game.layout->0.community@;
        let members = region_members(rev, game.playable@, community, region, d.ban());
        let least: nat = if d is Hard {
            3
        } else {
            2
        };
        if members.len() >= 2 {
            law_races_keep_the_rules(fwd, rev, members, d.ban(), least, least + 4, state, 60);
            let found = drawn_race(fwd, rev, members, d.ban(), least, least + 4, state, 60).0;
            if found is Some {
                lemma_members_are(
                    rev,
                    game.playable@,
                    community,
                    region,
                    d.ban(),
                    found->0.start,
                );
                lemma_members_are(
                    rev,
                    game.playable@,
                    community,
                    region,
                    d.ban(),
                    found->0.goal,
                );
            }
        }
    }
}

proof fn lemma_members_are(
    rev: Adj,
    list: Seq<u32>,
    community: Seq<i32>,
    region: i32,
    ban: Option<usize>,
    v: u32,
)
    ensures
        region_members(rev, list, community, region, ban).contains(v) <==> list.contains(v)
            && community[v as int] == region && !is_hub(rev, ban, v),
    decreases list.len(),
{
    if list.len() > 0 {
        let front = list.drop_last();
        lemma_members_are(rev, front, community, region, ban, v);
        let a = region_members(rev, front, community, region, ban);
        let b = region_members(rev, list, community, region, ban);
        assert(list =~= front.push(list.last()));
        assert(list.contains(v) <==> front.contains(v) || list.last() == v) by {
            if front.contains(v) {
                let i = choose|i: int| 0 <= i < front.len() && front[i] == v;
                assert(list[i] == v);
            }
            if list.last() == v {
                assert(list[list.len() - 1] == v);
            }
        }
        if b.len() > a.len() {
            assert(b =~= a.push(list.last()));
            if a.contains(v) {
                let i = choose|i: int| 0 <= i < a.len() && a[i] == v;
                assert(b[i] == v);
            }
            assert(b[b.len() - 1] == list.last());
        }
    }
}

/// Every member of a region that may be played is drawn from, and nothing else.
pub proof fn law_region_members_are_all_there(
    rev: Adj,
    list: Seq<u32>,
    community: Seq<i32>,
    region: i32,
    ban: Option<usize>,
    v: u32,
)
    ensures
        region_members(rev, list, community, region, ban).contains(v) <==> list.contains(v)
            && community[v as int] == region && !is_hub(rev, ban, v),
{
    lemma_members_are(rev, list, community, region, ban, v);
}

proof fn lemma_linking_is(adj: Adj, i: int, v: u32)
    requires
        0 <= i <= adj.len() <= u32::MAX,
    ensures
        linking(adj, i).contains(v) <==> v < i && adj[v as int].len() >= 10,
    decreases i,
{
    if i > 0 {
        lemma_linking_is(adj, i - 1, v);
        let a = linking(adj, i - 1);
        let b = linking(adj, i);
        if b.len() > a.len() {
            assert(b =~= a.push((i - 1) as u32));
            assert(b[b.len() - 1] == i - 1);
            if a.contains(v) {
                let k = choose|k: int| 0 <= k < a.len() && a[k] == v;
                assert(b[k] == v);
            }
        }
    }
}

/// What is played has ten links of its own or more, and of all such articles the
/// best linked quarter, rounded up, though no more than fifty thousand: those
/// that are left out have no more incoming links than those that are in.
pub proof fn law_playable_articles_are_well_linked(game: &Game, v: u32, w: u32)
    requires
        game.wf(),
    ensures
        ({
            let fwd = game.graph.forward@;
            let rev = game.graph.reverse@;
            let all = linking(fwd, fwd.len() as int);
            &&& game.playable@.contains(v) ==> v < fwd.len() && fwd[v as int].len() >= 10
            &&& game.playable@.contains(v) && w < fwd.len() && fwd[w as int].len() >= 10
                && !game.playable@.contains(w) ==> rev[v as int].len() >= rev[w as int].len()
            &&& all.contains(w) <==> w < fwd.len() && fwd[w as int].len() >= 10
            &&& all.len() <= 200_000 ==> 4 * game.playable@.len() >= all.len() && 4
                * game.playable@.len() < all.len() + 4
            &&& all.len() > 200_000 ==> game.playable@.len() == 50_000
        }),
{
    let fwd = game.graph.forward@;
    lemma_linking_is(fwd, fwd.len() as int, v);
    lemma_linking_is(fwd, fwd.len() as int, w);
    let list = game.playable@;
    if list.contains(v) {
        let i = choose|i: int| 0 <= i < list.len() && list[i] == v;
        assert(linking(fwd, fwd.len() as int).contains(list[i]));
    }
}

/// The hubs and the points of the map are the most linked articles, the most
/// linked first: fifty thousand of the one and a hundred and twenty thousand of
/// the other, or all that there are.
pub proof fn law_hubs_and_points_are_the_most_linked(game: &Game, i: int, j: int, v: u32)
    requires
        game.wf(),
        0 <= i < j,
        v < game.graph.titles@.len(),
    ensures
        ({
            let n = game.graph.titles@.len();
            let rev = game.graph.reverse@;
            &&& game.hubs@.len() == (if n < 50_000 {
                n
            } else {
                50_000
            })
            &&& game.map_order@.len() == (if n < 120_000 {
                n
            } else {
                120_000
            })
            &&& j < game.hubs@.len() ==> rev[game.hubs@[i] as int].len()
                >= rev[game.hubs@[j] as int].len()
            &&& j < game.map_order@.len() ==> rev[game.map_order@[i] as int].len()
                >= rev[game.map_order@[j] as int].len()
            &&& i < game.hubs@.len() && !game.hubs@.contains(v) ==> rev[game.hubs@[i] as int].len()
                >= rev[v as int].len()
            &&& i < game.map_order@.len() && !game.map_order@.contains(v)
                ==> rev[game.map_order@[i] as int].len() >= rev[v as int].len()
        }),
{
    let n = game.graph.titles@.len() as int;
    assert(first_ids(n)[v as int] == v);
    assert(first_ids(n).contains(v));
}

/// To cut the most linked articles is to ban what has more incoming links than
/// the next one; with nothing left to spare, everything that is linked at all.
pub proof fn law_cuts_are_made_at_the_next(rev: Adj, hubs: Seq<u32>, n: nat, i: int)
    requires
        0 <= i < n,
        n < hubs.len(),
    ensures
        cut_limit(rev, hubs, n) == rev[hubs[n as int] as int].len(),
        cut_limit(rev, hubs, hubs.len()) == 0,
        (forall|k: int| 0 <= k <= i ==> rev[#[trigger] hubs[k] as int].len() > cut_limit(rev, hubs, n))
            ==> leading_above(rev, hubs, cut_limit(rev, hubs, n)) > i,
{
    if forall|k: int| 0 <= k <= i ==> rev[#[trigger] hubs[k] as int].len() > cut_limit(rev, hubs, n) {
        lemma_leading_reaches(rev, hubs, cut_limit(rev, hubs, n), i);
    }
}

proof fn lemma_leading_reaches(rev: Adj, hubs: Seq<u32>, limit: nat, i: int)
    requires
        0 <= i < hubs.len(),
        forall|k: int| 0 <= k <= i ==> rev[#[trigger] hubs[k] as int].len() > limit,
    ensures
        leading_above(rev, hubs, limit) > i,
    decreases i,
{
    assert(rev[hubs[0] as int].len() > limit);
    if i > 0 {
        let rest = hubs.drop_first();
        assert forall|k: int| 0 <= k <= i - 1 implies rev[#[trigger] rest[k] as int].len() > limit by {
            assert(rest[k] == hubs[k + 1]);
        }
        lemma_leading_reaches(rev, rest, limit, i - 1);
    }
}

/// The landmark of a region is its most linked article, and of equals the one
/// with the lowest id.
pub proof fn law_landmarks_are_the_most_linked(
    rev: Adj,
    community: Seq<i32>,
    c: i32,
    n: int,
    v: int,
)
    requires
        0 <= v < n <= community.len(),
        n <= u32::MAX,
        community[v] == c,
    ensures
        best_member(rev, community, c, n) matches Some(b) && b < n && community[b as int] == c
            && rev[b as int].len() >= rev[v].len() && (rev[b as int].len() == rev[v].len() ==> b
            <= v),
    decreases n,
{
    if n > 0 {
        lemma_best_is_member(rev, community, c, n - 1);
        if v < n - 1 {
            law_landmarks_are_the_most_linked(rev, community, c, n - 1, v);
        }
    }
}

proof fn lemma_best_is_member(rev: Adj, community: Seq<i32>, c: i32, n: int)
    requires
        0 <= n <= community.len(),
        n <= u32::MAX,
    ensures
        best_member(rev, community, c, n) matches Some(b) ==> b < n && community[b as int] == c,
    decreases n,
{
    if n > 0 {
        lemma_best_is_member(rev, community, c, n - 1);
    }
}

/// Landmarks come in the order of their regions' sizes, the largest first; where
/// not all have room, the smaller regions are left out.
pub proof fn law_large_regions_come_first(
    rev: Adj,
    community: Seq<i32>,
    n: int,
    limit: nat,
    r: Seq<(u32, i32)>,
    i: int,
    c: i32,
)
    requires
        are_landmarks(rev, community, n, limit, r),
        0 <= i < r.len(),
        0 <= n <= community.len(),
        n <= u32::MAX,
        c >= 0,
        forall|k: int| 0 <= k < r.len() ==> (#[trigger] r[k]).1 != c,
        exists|v: int| 0 <= v < n && #[trigger] community[v] == c,
    ensures
        r.len() == limit,
        r[i].1 >= 0,
        r[i].0 < n,
        community[r[i].0 as int] == r[i].1,
        members_before(community, r[i].1, n) >= members_before(community, c, n),
        i > 0 ==> members_before(community, r[i - 1].1, n) >= members_before(community, r[i].1, n),
{
    let v = choose|v: int| 0 <= v < n && #[trigger] community[v] == c;
    law_landmarks_are_the_most_linked(rev, community, c, n, v);
    assert(best_member(rev, community, c, n) is Some);
    lemma_best_is_member(rev, community, r[i].1, n);
    assert(best_member(rev, community, r[i].1, n) == Some(r[i].0));
    assert(larger_region(community, n, r[i].1, c));
    if i > 0 {
        assert(larger_region(community, n, r[i - 1].1, r[i].1));
    }
}
/// Between any two articles there is a race if there is a way, of the par that
/// the way has; not from an article to itself.
pub proof fn law_any_two_articles_make_a_race(
    adj: Adj,
    rev: Adj,
    a: u32,
    b: u32,
    ban: Option<usize>,
)
    requires
        a < adj.len(),
        b < adj.len(),
    ensures
        direct_race(adj, rev, a, a, ban) is None,
        a != b ==> (direct_race(adj, rev, a, b, ban) is Some <==> par(adj, rev, a, b, ban) is Some),
        direct_race(adj, rev, a, b, ban) matches Some(p) ==> p.start == a && p.goal == b
            && p.ban_degree == ban && (par(adj, rev, a, b, ban)->0 <= usize::MAX ==> p.optimal
            == par(adj, rev, a, b, ban)->0),
{
}

/// The map shows its first points, as many as are asked for and there are;
/// without a map there are none.
pub proof fn law_the_map_shows_its_first_points(order: Seq<u32>, limit: nat, i: int)
    ensures
        shown(order, false, limit).len() == 0,
        shown(order, true, limit).len() <= limit,
        shown(order, true, limit).len() == limit || shown(order, true, limit).len() == order.len(),
        0 <= i < shown(order, true, limit).len() ==> i < order.len() && shown(order, true, limit)[i]
            == order[i],
{
}

/// A pair from a pool is one of those of its difficulty: of the half with more
/// ways for an easy race, and of the half with fewer for a hard one. There is one
/// unless the pool has none of that difficulty.
pub proof fn law_pairs_come_from_the_pool(pools: Pools, d: Difficulty, state: u64)
    requires
        pools.wf(),
    ensures
        pool_pick(pools, d, state).0 is None <==> forall|off: int|
            0 <= off < 4 ==> (#[trigger] pools.bucket(d, off)).len() == 0,
        pool_pick(pools, d, state).0 matches Some(pair) ==> exists|off: int, k: int|
            #![trigger pools.bucket(d, off)[k]]
            0 <= off < 4 && 0 <= k < pools.bucket(d, off).len() && pools.bucket(d, off)[k].0
                == pair.0 && pools.bucket(d, off)[k].1 == pair.1 && (d is Easy ==> 2 * k + 1
                >= pools.bucket(d, off).len()) && (d is Hard ==> 2 * k <= pools.bucket(
                d,
                off,
            ).len()),
{
    let row = pools.row(d);
    let total = weight_from(row, d, 0);
    assert forall|i: int| 0 <= i < 4 implies #[trigger] row[i] == pools.bucket(d, i) by {}
    law_empty_lengths_are_not_drawn(row, d, 0, 3);
    law_empty_lengths_are_not_drawn(row, d, 0, 2);
    law_empty_lengths_are_not_drawn(row, d, 0, 1);
    law_empty_lengths_are_not_drawn(row, d, 0, 0);
    law_empty_lengths_are_not_drawn(row, d, 0, 4);
    if total == 0 {
        assert forall|off: int| 0 <= off < 4 implies (#[trigger] pools.bucket(d, off)).len() == 0 by {
            assert(row[off] == pools.bucket(d, off));
        }
    } else {
        let r = next_number(state) as int % total;
        law_empty_lengths_are_not_drawn(row, d, r, 0);
        let off = drawn(row, d, r, 0)->0;
        assert(row[off] == pools.bucket(d, off));
        let b = pools.bucket(d, off);
        let (lo, hi) = draw_range(d, b.len() as int);
        assert(lo < hi);
        let k = lo + next_number(next_state(state)) as int % (hi - lo);
        assert(lo <= k < hi);
        assert(pools.bucket(d, off)[k] == b[k]);
    }
}

/// Sixty draws are made before a search for a race is given up, and eight from
/// a pool.
pub proof fn law_searches_are_given_up(game: &Game, ban: Option<usize>, min_len: nat, state: u64)
    requires
        game.playable@.len() >= 2,
    ensures
        game.spec_puzzle_with(ban, min_len, state) == drawn_race(
            game.graph.forward@,
            game.graph.reverse@,
            game.playable@,
            ban,
            min_len,
            min_len + 3,
            state,
            60,
        ),
        POOL_TRIES == 8,
{
}

/// A search goes over the titles in lower case, each for its own article, and
/// over the other names too where they are to be searched.
pub proof fn law_titles_and_names_are_searched(graph: Graph, i: int)
    requires
        0 <= i < graph.titles@.len() <= u32::MAX,
    ensures
        searched_entries(graph, true)[i] == (lowercase_of(graph.titles@[i]@), i as u32),
        searched_entries(graph, false)[i] == (lowercase_of(graph.titles@[i]@), i as u32),
        searched_entries(graph, false).len() == graph.titles@.len(),
        searched_entries(graph, true).len() == graph.titles@.len()
            + graph.lookup.alias_entries().len(),
        forall|k: int|
            0 <= k < graph.lookup.alias_entries().len() ==> #[trigger] searched_entries(graph, true)[
            graph.titles@.len() + k] == (
                lowercase_of(graph.lookup.alias_entries()[k].0),
                graph.lookup.alias_entries()[k].1,
            ),
{
}
/// A cut names the first hubs that it bans and counts all of them: those that
/// have more incoming links than its limit. To cut none is no cut.
pub proof fn law_cuts_count_what_they_ban(game: &Game, n: usize, sample: usize, i: int)
    requires
        game.wf(),
        0 <= i < game.hubs@.len(),
        game.hubs@.len() <= usize::MAX,
        0 < n < game.hubs@.len(),
        game.graph.reverse@[game.hubs@[n as int] as int].len() <= usize::MAX,
    ensures
        ({
            let rev = game.graph.reverse@;
            let (limit, named, banned) = cut_of(rev, game.hubs@, n, sample);
            &&& limit == Some(rev[game.hubs@[n as int] as int].len() as usize)
            &&& i < banned <==> rev[game.hubs@[i] as int].len() > rev[game.hubs@[n as int] as int].len()
            &&& named.len() == sample || named.len() == banned
            &&& named.len() <= sample && named.len() <= banned
            &&& i < named.len() ==> named[i] == game.hubs@[i]
        }),
        cut_of(game.graph.reverse@, game.hubs@, 0, sample) == (
            None::<usize>,
            Seq::<u32>::empty(),
            0usize,
        ),
{
    let rev = game.graph.reverse@;
    let hubs = game.hubs@;
    let limit = cut_limit(rev, hubs, n as nat);
    lemma_leading_bounds(rev, hubs, limit);
    let banned = leading_above(rev, hubs, limit) as int;
    if i < banned {
        law_cut_names_what_it_excludes(rev, hubs, limit, i);
    } else if rev[hubs[i] as int].len() > limit {
        assert forall|k: int| 0 <= k <= i implies rev[#[trigger] hubs[k] as int].len() > limit by {
            if k < i {
                assert(more_linked(rev, hubs[k], hubs[i]));
            }
        }
        lemma_leading_reaches(rev, hubs, limit, i);
    }
}

proof fn lemma_leading_bounds(rev: Adj, hubs: Seq<u32>, limit: nat)
    ensures
        leading_above(rev, hubs, limit) <= hubs.len(),
    decreases hubs.len(),
{
    if hubs.len() > 0 {
        lemma_leading_bounds(rev, hubs.drop_first(), limit);
    }
}
} // verus!
