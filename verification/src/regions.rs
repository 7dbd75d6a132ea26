//! Names for the regions of the map.

use crate::columns::{PerArticle, total_texts};
use crate::graph::texts;
use std::collections::HashMap;
use vstd::hash_map::StringHashMap;
use vstd::prelude::*;

verus! {

/// Where each article belongs on the map.
pub struct Layout {
    pub community: Vec<i32>,
}

/// How many members of a region are looked at.
pub const SAMPLE_PER_REGION: usize = 20_000;

/// How many articles must share a category for it to name their region. One
/// that two articles share is a coincidence.
pub const MIN_SHARED: u64 = 3;

/// How many of the first `i` articles are in region `c`.
pub open spec fn members_before(community: Seq<i32>, c: i32, i: int) -> nat
    decreases i,
{
    if i <= 0 {
        0
    } else {
        members_before(community, c, i - 1) + (if community[i - 1] == c {
            1nat
        } else {
            0
        })
    }
}

/// How often a name occurs in a list.
pub open spec fn times(list: Seq<Seq<char>>, name: Seq<char>) -> nat
    decreases list.len(),
{
    if list.len() == 0 {
        0
    } else {
        times(list.drop_last(), name) + (if list.last() == name {
            1nat
        } else {
            0
        })
    }
}

/// The categories of an article.
pub open spec fn categories_of(lists: Seq<Seq<Seq<char>>>, id: int) -> Seq<Seq<char>> {
    if id < lists.len() {
        lists[id]
    } else {
        seq![]
    }
}

/// How often the first `i` articles name a category, of those in region `c`
/// that are looked at.
pub open spec fn tally(
    community: Seq<i32>,
    lists: Seq<Seq<Seq<char>>>,
    i: int,
    c: i32,
    name: Seq<char>,
) -> nat
    decreases i,
{
    if i <= 0 {
        0
    } else {
        tally(community, lists, i - 1, c, name) + (if community[i - 1] == c && members_before(
            community,
            c,
            i - 1,
        ) < SAMPLE_PER_REGION {
            times(categories_of(lists, i - 1), name)
        } else {
            0
        })
    }
}

/// `name` is a category most often named in region `c`, and often enough.
pub open spec fn names_region(
    community: Seq<i32>,
    lists: Seq<Seq<Seq<char>>>,
    n: int,
    c: i32,
    name: Seq<char>,
) -> bool {
    &&& tally(community, lists, n, c, name) >= MIN_SHARED
    &&& forall|other: Seq<char>|
        #[trigger] tally(community, lists, n, c, other) <= tally(community, lists, n, c, name)
}

/// `names` names every region that has a category shared often enough, by one
/// that is most often shared. Without a map there are no regions.
pub open spec fn are_region_names(
    layout: Option<Layout>,
    lists: Seq<Seq<Seq<char>>>,
    n: int,
    names: Map<i32, String>,
) -> bool {
    match layout {
        Some(l) => {
            &&& forall|c: i32| #[trigger]
                names.contains_key(c) ==> names_region(l.community@, lists, n, c, names[c]@)
            &&& forall|c: i32, name: Seq<char>| #[trigger]
                tally(l.community@, lists, n, c, name) >= MIN_SHARED ==> names.contains_key(c)
        },
        None => names == Map::<i32, String>::empty(),
    }
}

/// What was counted in one region.
struct Region {
    community: i32,
    seen: usize,
    at: StringHashMap<usize>,
    names: Vec<String>,
    counts: Vec<u64>,
}

/// The counts of a region.
type Counts = spec_fn(Seq<char>) -> nat;

impl Region {
    spec fn holds_counts(&self, f: Counts) -> bool {
        &&& self.names@.len() == self.counts@.len()
        &&& forall|k: int|
            0 <= k < self.names@.len() ==> self.at@.contains_key((#[trigger] self.names@[k])@)
                && self.at@[self.names@[k]@] == k && self.counts@[k] == f(self.names@[k]@)
        &&& forall|name: Seq<char>| #[trigger]
            self.at@.contains_key(name) ==> self.at@[name] < self.names@.len()
                && self.names@[self.at@[name] as int]@ == name
        &&& forall|name: Seq<char>| #![trigger f(name)] !self.at@.contains_key(name) ==> f(name) == 0
    }

    fn new(community: i32) -> (r: Region)
        ensures
            r.community == community,
            r.seen == 0,
            r.holds_counts(|name: Seq<char>| 0nat),
    {
        Region {
            community,
            seen: 0,
            at: StringHashMap::new(),
            names: Vec::new(),
            counts: Vec::new(),
        }
    }

    fn count_name(&mut self, name: &String, Ghost(f): Ghost<Counts>, Ghost(g): Ghost<Counts>)
        requires
            old(self).holds_counts(f),
            f(name@) < u64::MAX,
            forall|x: Seq<char>| #[trigger] g(x) == f(x) + (if x == name@ {
                1nat
            } else {
                0
            }),
        ensures
            final(self).holds_counts(g),
            final(self).community == old(self).community,
            final(self).seen == old(self).seen,
    {
        let found: Option<usize> = match self.at.get(name.as_str()) {
            Some(k) => Some(*k),
            None => None,
        };
        match found {
            Some(k) => {
                assert(self.names@[k as int]@ == name@);
                let c: u64 = self.counts[k];
                self.counts.set(k, c + 1);
                proof {
                    assert forall|j: int| 0 <= j < self.names@.len() implies self.at@.contains_key(
                        (#[trigger] self.names@[j])@,
                    ) && self.at@[self.names@[j]@] == j && self.counts@[j] == g(
                        self.names@[j]@,
                    ) by {
                        assert(old(self).names@[j]@ == self.names@[j]@);
                    }
                    assert forall|x: Seq<char>| #![trigger g(x)] !self.at@.contains_key(
                        x,
                    ) implies g(x) == 0 by {
                        assert(f(x) == 0);
                    }
                }
            },
            None => {
                let k: usize = self.names.len();
                let ghost names0 = self.names@;
                self.at.insert(name.clone(), k);
                self.names.push(name.clone());
                self.counts.push(1);
                proof {
                    assert(f(name@) == 0);
                    assert forall|j: int| 0 <= j < self.names@.len() implies self.at@.contains_key(
                        (#[trigger] self.names@[j])@,
                    ) && self.at@[self.names@[j]@] == j && self.counts@[j] == g(
                        self.names@[j]@,
                    ) by {
                        if j < k {
                            assert(self.names@[j] == names0[j]);
                            assert(old(self).at@.contains_key(names0[j]@));
                            assert(names0[j]@ != name@);
                        }
                    }
                    assert forall|x: Seq<char>| #[trigger]
                        self.at@.contains_key(x) implies self.at@[x] < self.names@.len()
                        && self.names@[self.at@[x] as int]@ == x by {
                        if x != name@ {
                            assert(old(self).at@.contains_key(x));
                            assert(self.names@[self.at@[x] as int] == names0[self.at@[x] as int]);
                        }
                    }
                    assert forall|x: Seq<char>| #![trigger g(x)] !self.at@.contains_key(
                        x,
                    ) implies g(x) == 0 by {
                        assert(f(x) == 0);
                    }
                }
            },
        }
    }

    /// The name counted most often, if it was counted often enough.
    fn best(&self, Ghost(f): Ghost<Counts>) -> (r: Option<String>)
        requires
            self.holds_counts(f),
        ensures
            match r {
                Some(name) => f(name@) >= MIN_SHARED && forall|x: Seq<char>|
                    #[trigger] f(x) <= f(name@),
                None => forall|x: Seq<char>| #[trigger] f(x) < MIN_SHARED,
            },
    {
        let n: usize = self.names.len();
        let mut top: Option<usize> = None;
        let mut i: usize = 0;
        while i < n
            invariant
                n == self.names@.len(),
                self.holds_counts(f),
                i <= n,
                match top {
                    Some(k) => k < i && self.counts@[k as int] >= MIN_SHARED && forall|j: int|
                        0 <= j < i ==> #[trigger] self.counts@[j] <= self.counts@[k as int],
                    None => forall|j: int| 0 <= j < i ==> #[trigger] self.counts@[j] < MIN_SHARED,
                },
            decreases n - i,
        {
            let c: u64 = self.counts[i];
            if c >= MIN_SHARED {
                match top {
                    Some(k) => {
                        if c > self.counts[k] {
                            top = Some(i);
                        }
                    },
                    None => {
                        top = Some(i);
                    },
                }
            }
            i = i + 1;
        }
        proof {
            assert forall|x: Seq<char>| #[trigger] f(x) <= (match top {
                Some(k) => self.counts@[k as int] as nat,
                None => (MIN_SHARED - 1) as nat,
            }) by {
                if self.at@.contains_key(x) {
                    let j = self.at@[x] as int;
                    assert(self.names@[j]@ == x);
                    assert(self.counts@[j] == f(x));
                }
            }
        }
        match top {
            Some(k) => {
                assert(self.counts@[k as int] == f(self.names@[k as int]@));
                Some(self.names[k].clone())
            },
            None => None,
        }
    }
}

proof fn lemma_times_bound(list: Seq<Seq<char>>, name: Seq<char>)
    ensures
        times(list, name) <= list.len(),
    decreases list.len(),
{
    if list.len() > 0 {
        lemma_times_bound(list.drop_last(), name);
    }
}

proof fn lemma_tally_bound(
    community: Seq<i32>,
    lists: Seq<Seq<Seq<char>>>,
    i: int,
    c: i32,
    name: Seq<char>,
)
    requires
        0 <= i,
    ensures
        tally(community, lists, i, c, name) <= total_texts(
            lists,
            if i < lists.len() {
                i
            } else {
                lists.len() as int
            },
        ),
    decreases i,
{
    if i > 0 {
        lemma_tally_bound(community, lists, i - 1, c, name);
        lemma_times_bound(categories_of(lists, i - 1), name);
    }
}

proof fn lemma_total_monotone(lists: Seq<Seq<Seq<char>>>, i: int, j: int)
    requires
        0 <= i <= j <= lists.len(),
    ensures
        total_texts(lists, i) <= total_texts(lists, j),
    decreases j - i,
{
    if i < j {
        lemma_total_monotone(lists, i, j - 1);
    }
}

spec fn tallies(community: Seq<i32>, lists: Seq<Seq<Seq<char>>>, i: int, c: i32) -> Counts {
    |name: Seq<char>| tally(community, lists, i, c, name)
}

/// What is known after the first `i` articles.
spec fn counted(
    regions: Seq<Region>,
    place: Map<i32, usize>,
    community: Seq<i32>,
    lists: Seq<Seq<Seq<char>>>,
    i: int,
) -> bool {
    &&& forall|c: i32| #[trigger]
        place.contains_key(c) ==> place[c] < regions.len() && regions[place[c] as int].community
            == c
    &&& forall|k: int|
        0 <= k < regions.len() ==> {
            let c = (#[trigger] regions[k]).community;
            &&& place.contains_key(c)
            &&& place[c] == k
            &&& regions[k].seen == (if members_before(community, c, i) < SAMPLE_PER_REGION {
                members_before(community, c, i)
            } else {
                SAMPLE_PER_REGION as nat
            })
            &&& regions[k].holds_counts(tallies(community, lists, i, c))
        }
    &&& forall|c: i32|
        #![trigger members_before(community, c, i)]
        !place.contains_key(c) ==> members_before(community, c, i) == 0 && forall|name: Seq<char>|
            tally(community, lists, i, c, name) == 0
}

/// Take the categories of one article into account.
fn count_article(
    region: Region,
    list: &[String],
    Ghost(f): Ghost<Counts>,
    Ghost(g): Ghost<Counts>,
) -> (r: Region)
    requires
        region.holds_counts(f),
        region.seen < SAMPLE_PER_REGION,
        forall|name: Seq<char>| #[trigger] g(name) == f(name) + times(texts(list@), name),
        forall|name: Seq<char>| #[trigger] f(name) + list@.len() <= u64::MAX,
    ensures
        r.holds_counts(g),
        r.community == region.community,
        r.seen == region.seen + 1,
{
    let mut region = region;
    region.seen = region.seen + 1;
    let ghost all = texts(list@);
    let n: usize = list.len();
    let ghost mut now: Counts = f;
    let mut j: usize = 0;
    proof {
        assert(all.take(0) =~= Seq::<Seq<char>>::empty());
    }
    let ghost seen = region.seen;
    let ghost c = region.community;
    while j < n
        invariant
            n == list@.len(),
            all == texts(list@),
            j <= n,
            region.seen == seen,
            region.community == c,
            region.holds_counts(now),
            forall|name: Seq<char>| #[trigger] now(name) == f(name) + times(
                all.take(j as int),
                name,
            ),
            forall|name: Seq<char>| #[trigger] f(name) + list@.len() <= u64::MAX,
        decreases n - j,
    {
        let ghost next: Counts = |name: Seq<char>| f(name) + times(all.take(j + 1), name);
        proof {
            assert(all.take(j + 1).drop_last() =~= all.take(j as int));
            assert(all.take(j + 1).last() == list@[j as int]@);
            lemma_times_bound(all.take(j as int), list@[j as int]@);
            assert(now(list@[j as int]@) < u64::MAX) by {
                assert(f(list@[j as int]@) + list@.len() <= u64::MAX);
            }
            assert forall|x: Seq<char>| #[trigger] next(x) == now(x) + (if x == list@[j as int]@ {
                1nat
            } else {
                0
            }) by {
                assert(now(x) == f(x) + times(all.take(j as int), x));
            }
        }
        region.count_name(&list[j], Ghost(now), Ghost(next));
        proof {
            now = next;
        }
        j = j + 1;
    }
    proof {
        assert(all.take(n as int) =~= all);
        assert(now =~= g);
    }
    region
}

/// A region that was not met before has nothing counted yet.
proof fn lemma_new_region(
    regions: Seq<Region>,
    place: Map<i32, usize>,
    region: Region,
    community: Seq<i32>,
    lists: Seq<Seq<Seq<char>>>,
    i: int,
    c: i32,
)
    requires
        counted(regions, place, community, lists, i),
        !place.contains_key(c),
        regions.len() <= usize::MAX,
        region.community == c,
        region.seen == 0,
        region.holds_counts(|name: Seq<char>| 0nat),
    ensures
        counted(
            regions.push(region),
            place.insert(c, regions.len() as usize),
            community,
            lists,
            i,
        ),
{
    let regions2 = regions.push(region);
    let place2 = place.insert(c, regions.len() as usize);
    assert(members_before(community, c, i) == 0);
    assert(tallies(community, lists, i, c) =~= (|name: Seq<char>| 0nat));
    assert forall|k: int| 0 <= k < regions2.len() implies {
        let d = (#[trigger] regions2[k]).community;
        &&& place2.contains_key(d)
        &&& place2[d] == k
        &&& regions2[k].seen == (if members_before(community, d, i) < SAMPLE_PER_REGION {
            members_before(community, d, i)
        } else {
            SAMPLE_PER_REGION as nat
        })
        &&& regions2[k].holds_counts(tallies(community, lists, i, d))
    } by {
        if k < regions.len() {
            assert(regions2[k] == regions[k]);
            assert(place.contains_key(regions[k].community));
        }
    }
    assert forall|d: i32| #[trigger] place2.contains_key(d) implies place2[d] < regions2.len()
        && regions2[place2[d] as int].community == d by {
        if d != c {
            assert(place.contains_key(d));
            assert(regions2[place[d] as int] == regions[place[d] as int]);
        }
    }
}

/// One more article is taken into account in its own region, and makes no
/// difference to the others.
proof fn lemma_next_article(
    regions: Seq<Region>,
    place: Map<i32, usize>,
    k: int,
    region: Region,
    community: Seq<i32>,
    lists: Seq<Seq<Seq<char>>>,
    i: int,
)
    requires
        0 <= i < community.len(),
        counted(regions, place, community, lists, i),
        0 <= k < regions.len(),
        regions[k].community == community[i],
        region.community == community[i],
        regions[k].seen < SAMPLE_PER_REGION ==> region.seen == regions[k].seen + 1
            && region.holds_counts(tallies(community, lists, i + 1, community[i])),
        regions[k].seen >= SAMPLE_PER_REGION ==> region == regions[k],
    ensures
        counted(regions.update(k, region), place, community, lists, i + 1),
{
    let c = community[i];
    let next = i + 1;
    let after = regions.update(k, region);
    assert forall|d: i32| #[trigger] place.contains_key(d) implies place[d] < after.len()
        && after[place[d] as int].community == d by {}
    assert forall|j: int| 0 <= j < after.len() implies {
        let d = (#[trigger] after[j]).community;
        &&& place.contains_key(d)
        &&& place[d] == j
        &&& after[j].seen == (if members_before(community, d, next) < SAMPLE_PER_REGION {
            members_before(community, d, next)
        } else {
            SAMPLE_PER_REGION as nat
        })
        &&& after[j].holds_counts(tallies(community, lists, next, d))
    } by {
        let d = regions[j].community;
        assert(place.contains_key(d) && place[d] == j);
        if j == k {
            if regions[k].seen >= SAMPLE_PER_REGION {
                assert(tallies(community, lists, next, c) =~= tallies(community, lists, i, c));
            }
        } else {
            assert(d != c);
            assert(tallies(community, lists, next, d) =~= tallies(community, lists, i, d));
        }
    }
    assert forall|d: i32|
        #![trigger members_before(community, d, next)]
        !place.contains_key(d) implies members_before(community, d, next) == 0 && forall|
        name: Seq<char>,
    |
        tally(community, lists, next, d, name) == 0 by {
        assert(members_before(community, d, i) == 0);
        assert(place.contains_key(regions[k].community));
        assert(d != c);
        assert forall|name: Seq<char>| tally(community, lists, next, d, name) == 0 by {
            assert(tally(community, lists, i, d, name) == 0);
        }
    }
    assert(counted(after, place, community, lists, next));
}

fn count_regions(l: &Layout, categories: &PerArticle, n: usize) -> (r: Vec<Region>)
    requires
        n <= l.community@.len(),
        n <= u32::MAX,
    ensures
        exists|place: Map<i32, usize>| #[trigger]
            counted(r@, place, l.community@, categories@, n as int),
{
    broadcast use vstd::std_specs::hash::group_hash_axioms;

    let ghost community = l.community@;
    let ghost lists = categories@;
    let total: usize = categories.total();
    let mut place: HashMap<i32, usize> = HashMap::new();
    let mut regions: Vec<Region> = Vec::new();
    let mut id: usize = 0;
    while id < n
        invariant
            n <= community.len(),
            n <= u32::MAX,
            community == l.community@,
            lists == categories@,
            total == total_texts(lists, lists.len() as int),
            id <= n,
            counted(regions@, place@, community, lists, id as int),
        decreases n - id,
    {
        broadcast use vstd::std_specs::hash::group_hash_axioms;

        let c: i32 = l.community[id];
        let k: usize = match place.get(&c) {
            Some(k) => *k,
            None => {
                let k: usize = regions.len();
                let region = Region::new(c);
                proof {
                    lemma_new_region(
                        regions@,
                        place@,
                        region,
                        community,
                        lists,
                        id as int,
                        c,
                    );
                }
                place.insert(c, k);
                regions.push(region);
                k
            },
        };
        assert(place@.contains_key(c) && place@[c] == k);
        let ghost before = regions@;
        let mut region = Region::new(c);
        core::mem::swap(&mut region, &mut regions[k]);
        assert(region == before[k as int]);
        if region.seen < SAMPLE_PER_REGION {
            let list: &[String] = categories.get(id as u32);
            let ghost f = tallies(community, lists, id as int, c);
            let ghost g = tallies(community, lists, id + 1, c);
            proof {
                assert(texts(list@) == categories_of(lists, id as int));
                assert(texts(list@).len() == list@.len());
                assert forall|name: Seq<char>| #[trigger] g(name) == f(name) + times(
                    texts(list@),
                    name,
                ) by {}
                assert forall|name: Seq<char>| #[trigger] f(name) + list@.len() <= u64::MAX by {
                    lemma_tally_bound(community, lists, id as int, c, name);
                    if id < lists.len() {
                        lemma_total_monotone(lists, id + 1, lists.len() as int);
                    }
                }
            }
            region = count_article(region, list, Ghost(f), Ghost(g));
        }
        let ghost changed = region;
        core::mem::swap(&mut region, &mut regions[k]);
        proof {
            assert(regions@ =~= before.update(k as int, changed));
            lemma_next_article(before, place@, k as int, changed, community, lists, id as int);
        }
        id = id + 1;
    }
    assert(counted(regions@, place@, community, lists, n as int));
    regions
}

/// Name each region by the category most common among its members.
///
/// A region has no category of its own, but if most of its members are filed
/// under "American film actors", then that is what the region is. Where two
/// categories are equally common, either may be taken.
pub fn derive_region_names(
    layout: &Option<Layout>,
    categories: &PerArticle,
    n: usize,
) -> (r: HashMap<i32, String>)
    requires
        n <= u32::MAX,
        layout matches Some(l) ==> n <= l.community@.len(),
    ensures
        are_region_names(*layout, categories@, n as int, r@),
{
    broadcast use vstd::std_specs::hash::group_hash_axioms;

    let mut out: HashMap<i32, String> = HashMap::new();
    let l = match layout {
        Some(l) => l,
        None => {
            return out;
        },
    };
    let ghost community = l.community@;
    let ghost lists = categories@;
    let regions = count_regions(l, categories, n);
    let ghost place = choose|place: Map<i32, usize>| #[trigger]
        counted(regions@, place, community, lists, n as int);
    let m: usize = regions.len();
    let mut k: usize = 0;
    while k < m
        invariant
            m == regions@.len(),
            k <= m,
            counted(regions@, place, community, lists, n as int),
            forall|c: i32| #[trigger]
                out@.contains_key(c) ==> names_region(
                    community,
                    lists,
                    n as int,
                    c,
                    out@[c]@,
                ),
            forall|j: int, name: Seq<char>|
                0 <= j < k && #[trigger] tally(
                    community,
                    lists,
                    n as int,
                    (#[trigger] regions@[j]).community,
                    name,
                ) >= MIN_SHARED ==> out@.contains_key(regions@[j].community),
        decreases m - k,
    {
        broadcast use vstd::std_specs::hash::group_hash_axioms;

        let c: i32 = regions[k].community;
        let ghost f = tallies(community, lists, n as int, c);
        if let Some(name) = regions[k].best(Ghost(f)) {
            proof {
                assert forall|other: Seq<char>| #[trigger]
                    tally(community, lists, n as int, c, other) <= tally(
                        community,
                        lists,
                        n as int,
                        c,
                        name@,
                    ) by {
                    assert(f(other) <= f(name@));
                }
            }
            out.insert(c, name);
        } else {
            proof {
                assert forall|name: Seq<char>| #[trigger]
                    tally(community, lists, n as int, c, name) < MIN_SHARED by {
                    assert(f(name) < MIN_SHARED);
                }
            }
        }
        k = k + 1;
    }
    proof {
        assert forall|c: i32, name: Seq<char>| #[trigger]
            tally(community, lists, n as int, c, name) >= MIN_SHARED implies out@.contains_key(c) by {
            assert(members_before(community, c, n as int) >= 0);
            assert(place.contains_key(c));
            let j = place[c] as int;
            assert(regions@[j].community == c);
        }
    }
    out
}

/// A region has a name where at least three of its articles' categories are the
/// same, and then the name is a category that none other outnumbers.
pub proof fn law_regions_are_named_after_what_they_share(
    layout: Layout,
    lists: Seq<Seq<Seq<char>>>,
    n: int,
    names: Map<i32, String>,
    c: i32,
    name: Seq<char>,
)
    requires
        are_region_names(Some(layout), lists, n, names),
    ensures
        tally(layout.community@, lists, n, c, name) >= 3 ==> names.contains_key(c),
        names.contains_key(c) ==> tally(layout.community@, lists, n, c, names[c]@) >= 3,
        names.contains_key(c) ==> tally(layout.community@, lists, n, c, names[c]@) >= tally(
            layout.community@,
            lists,
            n,
            c,
            name,
        ),
{
    let l = Some(layout)->0;
    assert(l.community@ == layout.community@);
    assert(forall|c: i32, name: Seq<char>| #[trigger]
        tally(l.community@, lists, n, c, name) >= MIN_SHARED ==> names.contains_key(c));
    assert(tally(l.community@, lists, n, c, name) == tally(layout.community@, lists, n, c, name));
}

/// Of the first twenty thousand articles of a region each counts with every
/// category that it has, and those of other regions do not count.
pub proof fn law_the_first_members_count(
    community: Seq<i32>,
    lists: Seq<Seq<Seq<char>>>,
    i: int,
    c: i32,
    name: Seq<char>,
)
    requires
        0 <= i < community.len(),
        i < lists.len(),
    ensures
        community[i] == c && members_before(community, c, i) < 20_000 ==> tally(
            community,
            lists,
            i + 1,
            c,
            name,
        ) == tally(community, lists, i, c, name) + times(lists[i], name),
        community[i] != c || members_before(community, c, i) >= 20_000 ==> tally(
            community,
            lists,
            i + 1,
            c,
            name,
        ) == tally(community, lists, i, c, name),
        members_before(community, c, i + 1) == members_before(community, c, i) + (if community[i]
            == c {
            1int
        } else {
            0
        }),
        tally(community, lists, 0, c, name) == 0,
        members_before(community, c, 0) == 0,
        lists[i].no_duplicates() ==> times(lists[i], name) == (if lists[i].contains(name) {
            1int
        } else {
            0
        }),
{
    lemma_times(lists[i], name);
}

proof fn lemma_times(list: Seq<Seq<char>>, name: Seq<char>)
    ensures
        !list.contains(name) ==> times(list, name) == 0,
        list.contains(name) && list.no_duplicates() ==> times(list, name) == 1,
    decreases list.len(),
{
    if list.len() > 0 {
        let rest = list.drop_last();
        lemma_times(rest, name);
        assert(list[list.len() - 1] == list.last());
        assert(forall|j: int| 0 <= j < rest.len() ==> rest[j] == list[j]);
        if rest.contains(name) {
            let j = choose|j: int| 0 <= j < rest.len() && rest[j] == name;
            assert(list[j] == name);
            if list.no_duplicates() {
                assert(list.last() != name);
            }
        } else if list.contains(name) {
            let j = choose|j: int| 0 <= j < list.len() && list[j] == name;
            assert(j == list.len() - 1);
        }
    }
}
} // verus!
