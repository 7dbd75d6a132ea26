//! Which titles name articles: the first pass over a dump.
//!
//! Every page of the article namespace, article or redirect, gets a place.
//! Redirects are then followed to real articles, and only real articles get an
//! id `0..n`, which is what links are recorded with.

use crate::dump::{Page, PageView, page_views};
use crate::fx::{get_title, no_titles, put_title, titles_in};
use crate::titles::{normalize_title, normalized};
use rustc_hash::FxHashMap;
use vstd::prelude::*;

pub use crate::levels::NONE;

verus! {

/// Redirect chains deeper than this are treated as broken.
pub const MAX_REDIRECT_HOPS: usize = 4;

/// How many collisions are kept to look at.
pub const MAX_COLLISION_SAMPLES: usize = 50;

/// A page of the article namespace, as far as identity goes.
pub struct Entry {
    pub name: Seq<char>,
    pub redirect: bool,
    /// The normal form of the redirect's target, where it has one.
    pub target: Option<Seq<char>>,
}

/// What the first pass has counted.
pub struct Pass1Stats {
    pub ns0_pages: u64,
    pub articles: u64,
    pub redirects: u64,
    pub broken_redirects: u64,
    pub duplicate_titles: u64,
    /// Titles that have the normal form of one seen before, some of them.
    ///
    /// Titles are unique in a namespace, so a collision means that
    /// normalization merged two articles. A count alone cannot be looked into.
    pub collisions: Vec<(String, String)>,
}

/// The state of the first pass, as a value.
pub struct IndexView {
    pub entries: Seq<Entry>,
    pub ns0_pages: u64,
    pub articles: u64,
    pub redirects: u64,
    pub duplicate_titles: u64,
    pub collisions: Seq<(Seq<char>, Seq<char>)>,
}

/// Where a normal form stands, if it was seen.
pub open spec fn place_of(entries: Seq<Entry>, name: Seq<char>) -> Option<int>
    decreases entries.len(),
{
    if entries.len() == 0 {
        None
    } else if entries.last().name == name {
        Some(entries.len() - 1)
    } else {
        place_of(entries.drop_last(), name)
    }
}

/// What the first pass makes of one page.
pub open spec fn after_page(v: IndexView, page: PageView) -> IndexView {
    match normalized(page.title) {
        Some(name) => if page.ns != 0 {
            v
        } else {
            let seen = place_of(v.entries, name);
            let entries = match seen {
                Some(i) => v.entries,
                None => v.entries.push(Entry { name, redirect: false, target: None }),
            };
            let at = match seen {
                Some(i) => i,
                None => v.entries.len() as int,
            };
            IndexView {
                entries: match page.redirect {
                    Some(t) => entries.update(
                        at,
                        Entry { name, redirect: true, target: normalized(t) },
                    ),
                    None => entries,
                },
                ns0_pages: (v.ns0_pages + 1) as u64,
                articles: if page.redirect is None {
                    (v.articles + 1) as u64
                } else {
                    v.articles
                },
                redirects: if page.redirect is Some {
                    (v.redirects + 1) as u64
                } else {
                    v.redirects
                },
                duplicate_titles: if seen is Some {
                    (v.duplicate_titles + 1) as u64
                } else {
                    v.duplicate_titles
                },
                collisions: if seen is Some && v.collisions.len() < MAX_COLLISION_SAMPLES {
                    v.collisions.push((page.title, name))
                } else {
                    v.collisions
                },
            }
        },
        None => v,
    }
}

/// Where a redirect leads in one step.
pub open spec fn direct_target(entries: Seq<Entry>, i: int) -> Option<int> {
    match entries[i].target {
        Some(t) => place_of(entries, t),
        None => None,
    }
}

/// Where a chain of redirects stands after up to `hops` steps.
pub open spec fn followed(entries: Seq<Entry>, at: Option<int>, hops: nat) -> Option<int>
    decreases hops,
{
    match at {
        Some(i) => if entries[i].redirect && hops > 0 {
            followed(entries, direct_target(entries, i), (hops - 1) as nat)
        } else {
            at
        },
        None => None,
    }
}

/// The article that an entry stands for: itself, or the one that its redirects
/// lead to.
pub open spec fn stands_for(entries: Seq<Entry>, i: int) -> Option<int> {
    match followed(entries, Some(i), MAX_REDIRECT_HOPS as nat) {
        Some(j) => if entries[j].redirect {
            None
        } else {
            Some(j)
        },
        None => None,
    }
}

/// How many articles there are among the first `i` entries.
pub open spec fn articles_before(entries: Seq<Entry>, i: int) -> nat
    decreases i,
{
    if i <= 0 {
        0
    } else {
        articles_before(entries, i - 1) + (if entries[i - 1].redirect {
            0nat
        } else {
            1
        })
    }
}

/// How many redirects among the first `i` entries lead nowhere.
pub open spec fn broken_before(entries: Seq<Entry>, i: int) -> nat
    decreases i,
{
    if i <= 0 {
        0
    } else {
        broken_before(entries, i - 1) + (if stands_for(entries, i - 1) is None {
            1nat
        } else {
            0
        })
    }
}

/// The id of the article that a normal form names, redirects followed.
pub open spec fn article_named(entries: Seq<Entry>, name: Seq<char>) -> Option<u32> {
    match place_of(entries, name) {
        Some(i) => match stands_for(entries, i) {
            Some(j) => Some(articles_before(entries, j) as u32),
            None => None,
        },
        None => None,
    }
}

/// The articles among the first `i` entries, each with its id.
pub open spec fn article_rows(entries: Seq<Entry>, i: int) -> Seq<(u32, Seq<char>)>
    decreases i,
{
    if i <= 0 {
        seq![]
    } else {
        let rest = article_rows(entries, i - 1);
        if entries[i - 1].redirect {
            rest
        } else {
            rest.push((articles_before(entries, i - 1) as u32, entries[i - 1].name))
        }
    }
}

/// The redirects among the first `i` entries that lead to an article, each
/// with the id of that article.
pub open spec fn redirect_rows(entries: Seq<Entry>, i: int) -> Seq<(Seq<char>, u32)>
    decreases i,
{
    if i <= 0 {
        seq![]
    } else {
        let rest = redirect_rows(entries, i - 1);
        match stands_for(entries, i - 1) {
            Some(j) => if entries[i - 1].redirect {
                rest.push((entries[i - 1].name, articles_before(entries, j) as u32))
            } else {
                rest
            },
            None => rest,
        }
    }
}

pub open spec fn id_rows(v: Seq<(u32, String)>) -> Seq<(u32, Seq<char>)> {
    Seq::new(v.len(), |i: int| (v[i].0, v[i].1@))
}

pub open spec fn name_rows(v: Seq<(String, u32)>) -> Seq<(Seq<char>, u32)> {
    Seq::new(v.len(), |i: int| (v[i].0@, v[i].1))
}

pub open spec fn text_pairs(v: Seq<(String, String)>) -> Seq<(Seq<char>, Seq<char>)> {
    Seq::new(v.len(), |i: int| (v[i].0@, v[i].1@))
}

// ---------------------------------------------------------------------------
// Facts
// ---------------------------------------------------------------------------

pub proof fn lemma_place_of(entries: Seq<Entry>, name: Seq<char>)
    ensures
        match place_of(entries, name) {
            Some(i) => 0 <= i < entries.len() && entries[i].name == name,
            None => forall|i: int| 0 <= i < entries.len() ==> #[trigger] entries[i].name != name,
        },
    decreases entries.len(),
{
    if entries.len() > 0 && entries.last().name != name {
        lemma_place_of(entries.drop_last(), name);
        if place_of(entries.drop_last(), name) is None {
            assert forall|i: int| 0 <= i < entries.len() implies #[trigger] entries[i].name
                != name by {
                if i < entries.len() - 1 {
                    assert(entries.drop_last()[i] == entries[i]);
                }
            }
        }
    }
}

proof fn lemma_place_of_update(entries: Seq<Entry>, at: int, e: Entry, name: Seq<char>)
    requires
        0 <= at < entries.len(),
        e.name == entries[at].name,
    ensures
        place_of(entries.update(at, e), name) == place_of(entries, name),
    decreases entries.len(),
{
    let after = entries.update(at, e);
    if at == entries.len() - 1 {
        assert(after.drop_last() =~= entries.drop_last());
    } else {
        assert(after.drop_last() =~= entries.drop_last().update(at, e));
        lemma_place_of_update(entries.drop_last(), at, e, name);
    }
}

proof fn lemma_followed_in_range(entries: Seq<Entry>, at: Option<int>, hops: nat)
    requires
        at matches Some(i) ==> 0 <= i < entries.len(),
    ensures
        followed(entries, at, hops) matches Some(j) ==> 0 <= j < entries.len(),
    decreases hops,
{
    if at is Some && entries[at->0].redirect && hops > 0 {
        let i = at->0;
        if entries[i].target is Some {
            lemma_place_of(entries, entries[i].target->0);
        }
        lemma_followed_in_range(entries, direct_target(entries, i), (hops - 1) as nat);
    }
}

pub proof fn lemma_stands_for(entries: Seq<Entry>, i: int)
    requires
        0 <= i < entries.len(),
    ensures
        stands_for(entries, i) matches Some(j) ==> 0 <= j < entries.len() && !entries[j].redirect,
{
    lemma_followed_in_range(entries, Some(i), MAX_REDIRECT_HOPS as nat);
}

pub proof fn lemma_articles_before(entries: Seq<Entry>, i: int, j: int)
    requires
        0 <= i <= j <= entries.len(),
    ensures
        articles_before(entries, i) <= articles_before(entries, j) <= articles_before(entries, i)
            + (j - i),
        i < j && !entries[i].redirect ==> articles_before(entries, i) < articles_before(entries, j),
    decreases j - i,
{
    if i < j {
        lemma_articles_before(entries, i, j - 1);
    }
}

// ---------------------------------------------------------------------------
// The pass
// ---------------------------------------------------------------------------

/// The titles seen so far.
pub struct IndexBuilder {
    map: FxHashMap<Box<str>, u32>,
    names: Vec<String>,
    is_redirect: Vec<bool>,
    redirect_raw: Vec<Option<String>>,
    stats: Pass1Stats,
}

/// The titles of a dump, once all are seen.
pub struct TitleIndex {
    /// Normalized title -> place (articles and redirects alike).
    map: FxHashMap<Box<str>, u32>,
    /// Place -> normalized title.
    names: Vec<String>,
    is_redirect: Vec<bool>,
    /// Place -> place of the article it stands for. `NONE` if the chain is
    /// broken, cyclic, or leads outside the article namespace.
    resolved: Vec<u32>,
    /// Place -> article id. `NONE` for redirects.
    article_id: Vec<u32>,
    pub n_articles: u32,
    all: Ghost<Seq<Entry>>,
}

spec fn map_known(map: FxHashMap<Box<str>, u32>, entries: Seq<Entry>) -> bool {
    forall|t: Seq<char>|
        #![trigger place_of(entries, t)]
        #![trigger titles_in(map).contains_key(t)]
        match place_of(entries, t) {
            Some(i) => titles_in(map).contains_key(t) && titles_in(map)[t] == i,
            None => !titles_in(map).contains_key(t),
        }
}

spec fn target_text(t: Option<String>) -> Option<Seq<char>> {
    match t {
        Some(s) => Some(s@),
        None => None,
    }
}

impl IndexBuilder {
    pub closed spec fn entries(&self) -> Seq<Entry> {
        Seq::new(
            self.names@.len(),
            |i: int|
                Entry {
                    name: self.names@[i]@,
                    redirect: self.is_redirect@[i],
                    target: target_text(self.redirect_raw@[i]),
                },
        )
    }

    /// The state of the pass.
    pub closed spec fn state(&self) -> IndexView {
        IndexView {
            entries: self.entries(),
            ns0_pages: self.stats.ns0_pages,
            articles: self.stats.articles,
            redirects: self.stats.redirects,
            duplicate_titles: self.stats.duplicate_titles,
            collisions: text_pairs(self.stats.collisions@),
        }
    }

    pub closed spec fn wf(&self) -> bool {
        &&& self.names@.len() <= u32::MAX
        &&& self.is_redirect@.len() == self.names@.len()
        &&& self.redirect_raw@.len() == self.names@.len()
        &&& map_known(self.map, self.entries())
        &&& self.stats.articles <= self.stats.ns0_pages
        &&& self.stats.redirects <= self.stats.ns0_pages
        &&& self.stats.duplicate_titles <= self.stats.ns0_pages
        &&& self.stats.broken_redirects == 0
    }

    pub fn new() -> (r: Self)
        ensures
            r.wf(),
            r.state() == nothing_seen(),
    {
        let r = IndexBuilder {
            map: no_titles(),
            names: Vec::new(),
            is_redirect: Vec::new(),
            redirect_raw: Vec::new(),
            stats: Pass1Stats {
                ns0_pages: 0,
                articles: 0,
                redirects: 0,
                broken_redirects: 0,
                duplicate_titles: 0,
                collisions: Vec::new(),
            },
        };
        assert(r.entries() =~= Seq::<Entry>::empty());
        assert(r.state().collisions =~= Seq::<(Seq<char>, Seq<char>)>::empty());
        r
    }

    /// How many pages of the article namespace were seen.
    pub fn ns0_pages(&self) -> (r: u64)
        ensures
            r == self.state().ns0_pages,
    {
        self.stats.ns0_pages
    }

    /// Take in a page. Pages of other namespaces are passed over.
    pub fn add_page(&mut self, p: &Page)
        requires
            old(self).wf(),
            old(self).state().ns0_pages < u64::MAX,
            old(self).state().entries.len() < u32::MAX,
        ensures
            final(self).wf(),
            final(self).state() == after_page(old(self).state(), p@),
    {
        if p.ns != 0 {
            return;
        }
        let title = match normalize_title(p.title.as_str()) {
            Some(t) => t,
            None => {
                return;
            },
        };
        let ghost v = self.state();
        let ghost entries0 = self.entries();
        self.stats.ns0_pages = self.stats.ns0_pages + 1;
        assert(place_of(entries0, title@) is Some <==> titles_in(self.map).contains_key(title@));
        let found = get_title(&self.map, title.as_str());
        let id: u32 = match found {
            Some(id) => {
                self.stats.duplicate_titles = self.stats.duplicate_titles + 1;
                if self.stats.collisions.len() < MAX_COLLISION_SAMPLES {
                    let ghost before = text_pairs(self.stats.collisions@);
                    self.stats.collisions.push((p.title.clone(), title.clone()));
                    assert(text_pairs(self.stats.collisions@) =~= before.push((p.title@, title@)));
                }
                proof {
                    lemma_place_of(entries0, title@);
                }
                id
            },
            None => {
                let id: u32 = self.names.len() as u32;
                self.names.push(title.clone());
                self.is_redirect.push(false);
                self.redirect_raw.push(None);
                proof {
                    let e = Entry { name: title@, redirect: false, target: None };
                    assert(self.entries() =~= entries0.push(e));
                    assert forall|t: Seq<char>| #[trigger]
                        place_of(entries0.push(e), t) == (if t == title@ {
                            Some(entries0.len() as int)
                        } else {
                            place_of(entries0, t)
                        }) by {
                        assert(entries0.push(e).drop_last() =~= entries0);
                    }
                }
                put_title(&mut self.map, title.clone(), id);
                id
            },
        };
        let ghost entries1 = self.entries();
        match &p.redirect {
            Some(target) => {
                self.is_redirect.set(id as usize, true);
                let to = normalize_title(target.as_str());
                self.redirect_raw.set(id as usize, to);
                self.stats.redirects = self.stats.redirects + 1;
                proof {
                    let e = Entry { name: title@, redirect: true, target: normalized(target@) };
                    assert(self.entries() =~= entries1.update(id as int, e));
                    assert forall|t: Seq<char>| #[trigger]
                        place_of(entries1.update(id as int, e), t) == place_of(entries1, t) by {
                        lemma_place_of_update(entries1, id as int, e, t);
                    }
                }
            },
            None => {
                self.stats.articles = self.stats.articles + 1;
            },
        }
        proof {
            assert(self.state().entries =~= after_page(v, p@).entries);
            assert(self.state().collisions =~= after_page(v, p@).collisions);
        }
    }

    /// Follow the redirects, now that every title was seen, and number the
    /// articles.
    pub fn finish(self) -> (r: (TitleIndex, Pass1Stats))
        requires
            self.wf(),
            self.state().entries.len() < u32::MAX,
        ensures
            r.0.wf(),
            r.0.entries() == self.state().entries,
            r.1.ns0_pages == self.state().ns0_pages,
            r.1.articles == self.state().articles,
            r.1.redirects == self.state().redirects,
            r.1.duplicate_titles == self.state().duplicate_titles,
            text_pairs(r.1.collisions@) == self.state().collisions,
            r.1.broken_redirects == broken_before(
                self.state().entries,
                self.state().entries.len() as int,
            ),
    {
        let ghost entries = self.entries();
        let IndexBuilder { map, names, is_redirect, redirect_raw, mut stats } = self;
        let n: usize = names.len();
        let direct = direct_targets(&map, &redirect_raw, Ghost(entries));
        let mut resolved: Vec<u32> = Vec::with_capacity(n);
        let mut broken: u64 = 0;
        let mut i: usize = 0;
        while i < n
            invariant
                n == entries.len(),
                n < u32::MAX,
                i <= n,
                is_redirect@.len() == n,
                forall|k: int| 0 <= k < n ==> #[trigger] is_redirect@[k] == entries[k].redirect,
                direct@.len() == n,
                forall|k: int| 0 <= k < n ==> #[trigger] direct@[k] == place_number(
                    direct_target(entries, k),
                ),
                resolved@.len() == i,
                forall|k: int| 0 <= k < i ==> #[trigger] resolved@[k] == place_number(
                    stands_for(entries, k),
                ),
                broken <= i,
                broken == broken_before(entries, i as int),
            decreases n - i,
        {
            proof {
                lemma_stands_for(entries, i as int);
            }
            if !is_redirect[i] {
                resolved.push(i as u32);
            } else {
                let end = follow(&direct, &is_redirect, i, Ghost(entries));
                if end == NONE {
                    broken = broken + 1;
                }
                resolved.push(end);
            }
            i = i + 1;
        }
        stats.broken_redirects = broken;
        let mut article_id: Vec<u32> = Vec::with_capacity(n);
        let mut next: u32 = 0;
        let mut i: usize = 0;
        while i < n
            invariant
                n == entries.len(),
                n < u32::MAX,
                i <= n,
                is_redirect@.len() == n,
                forall|k: int| 0 <= k < n ==> #[trigger] is_redirect@[k] == entries[k].redirect,
                article_id@.len() == i,
                next <= i,
                next == articles_before(entries, i as int),
                forall|k: int|
                    0 <= k < i ==> #[trigger] article_id@[k] == (if entries[k].redirect {
                        NONE as int
                    } else {
                        articles_before(entries, k) as int
                    }),
            decreases n - i,
        {
            if is_redirect[i] {
                article_id.push(NONE);
            } else {
                article_id.push(next);
                next = next + 1;
            }
            i = i + 1;
        }
        let index = TitleIndex {
            map,
            names,
            is_redirect,
            resolved,
            article_id,
            n_articles: next,
            all: Ghost(entries),
        };
        (index, stats)
    }
}

/// A place, or `NONE`.
spec fn place_number(p: Option<int>) -> u32 {
    match p {
        Some(i) => i as u32,
        None => NONE,
    }
}

fn direct_targets(
    map: &FxHashMap<Box<str>, u32>,
    redirect_raw: &Vec<Option<String>>,
    Ghost(entries): Ghost<Seq<Entry>>,
) -> (r: Vec<u32>)
    requires
        map_known(*map, entries),
        entries.len() < u32::MAX,
        redirect_raw@.len() == entries.len(),
        forall|k: int|
            0 <= k < entries.len() ==> target_text(#[trigger] redirect_raw@[k])
                == entries[k].target,
    ensures
        r@.len() == entries.len(),
        forall|k: int|
            0 <= k < entries.len() ==> #[trigger] r@[k] == place_number(direct_target(entries, k)),
{
    let n: usize = redirect_raw.len();
    let mut direct: Vec<u32> = Vec::with_capacity(n);
    let mut i: usize = 0;
    while i < n
        invariant
            n == redirect_raw@.len(),
            n == entries.len(),
            entries.len() < u32::MAX,
            map_known(*map, entries),
            forall|k: int|
                0 <= k < entries.len() ==> target_text(#[trigger] redirect_raw@[k])
                    == entries[k].target,
            i <= n,
            direct@.len() == i,
            forall|k: int|
                0 <= k < i ==> #[trigger] direct@[k] == place_number(direct_target(entries, k)),
        decreases n - i,
    {
        let to: u32 = match &redirect_raw[i] {
            Some(s) => {
                proof {
                    assert(target_text(redirect_raw@[i as int]) == entries[i as int].target);
                    let p = place_of(entries, s@);
                    lemma_place_of(entries, s@);
                }
                match get_title(map, s.as_str()) {
                    Some(id) => id,
                    None => NONE,
                }
            },
            None => {
                proof {
                    assert(target_text(redirect_raw@[i as int]) == entries[i as int].target);
                }
                NONE
            },
        };
        direct.push(to);
        i = i + 1;
    }
    direct
}

/// Follow the chain that begins with the redirect at `i`.
fn follow(
    direct: &Vec<u32>,
    is_redirect: &Vec<bool>,
    i: usize,
    Ghost(entries): Ghost<Seq<Entry>>,
) -> (r: u32)
    requires
        entries.len() < u32::MAX,
        i < entries.len(),
        entries[i as int].redirect,
        is_redirect@.len() == entries.len(),
        forall|k: int|
            0 <= k < entries.len() ==> #[trigger] is_redirect@[k] == entries[k].redirect,
        direct@.len() == entries.len(),
        forall|k: int|
            0 <= k < entries.len() ==> #[trigger] direct@[k] == place_number(
                direct_target(entries, k),
            ),
    ensures
        r == place_number(stands_for(entries, i as int)),
{
    let mut cur: u32 = i as u32;
    let mut hops: usize = 0;
    let ghost start = Some(i as int);
    let ghost mut at = start;
    while cur != NONE && is_redirect[cur as usize] && hops < MAX_REDIRECT_HOPS
        invariant
            entries.len() < u32::MAX,
            is_redirect@.len() == entries.len(),
            forall|k: int|
                0 <= k < entries.len() ==> #[trigger] is_redirect@[k] == entries[k].redirect,
            direct@.len() == entries.len(),
            forall|k: int|
                0 <= k < entries.len() ==> #[trigger] direct@[k] == place_number(
                    direct_target(entries, k),
                ),
            hops <= MAX_REDIRECT_HOPS,
            cur == place_number(at),
            at matches Some(k) ==> 0 <= k < entries.len(),
            followed(entries, start, MAX_REDIRECT_HOPS as nat) == followed(
                entries,
                at,
                (MAX_REDIRECT_HOPS - hops) as nat,
            ),
        decreases MAX_REDIRECT_HOPS - hops,
    {
        proof {
            let k = at->0;
            if entries[k].target is Some {
                lemma_place_of(entries, entries[k].target->0);
            }
            at = direct_target(entries, k);
        }
        cur = direct[cur as usize];
        hops = hops + 1;
    }
    if cur != NONE && !is_redirect[cur as usize] {
        cur
    } else {
        NONE
    }
}

impl TitleIndex {
    /// The pages that were seen, in order.
    pub closed spec fn entries(&self) -> Seq<Entry> {
        self.all@
    }

    pub closed spec fn wf(&self) -> bool {
        let entries = self.all@;
        &&& entries.len() < u32::MAX
        &&& map_known(self.map, entries)
        &&& self.names@.len() == entries.len()
        &&& self.is_redirect@.len() == entries.len()
        &&& self.resolved@.len() == entries.len()
        &&& self.article_id@.len() == entries.len()
        &&& forall|k: int|
            0 <= k < entries.len() ==> #[trigger] self.names@[k]@ == entries[k].name
        &&& forall|k: int|
            0 <= k < entries.len() ==> #[trigger] self.is_redirect@[k] == entries[k].redirect
        &&& forall|k: int|
            0 <= k < entries.len() ==> #[trigger] self.resolved@[k] == place_number(
                stands_for(entries, k),
            )
        &&& forall|k: int|
            0 <= k < entries.len() ==> #[trigger] self.article_id@[k] == (if entries[k].redirect {
                NONE as int
            } else {
                articles_before(entries, k) as int
            })
        &&& self.n_articles == articles_before(entries, entries.len() as int)
    }

    /// There are no more entries than can be numbered.
    pub proof fn lemma_few(&self)
        requires
            self.wf(),
        ensures
            self.entries().len() < u32::MAX,
    {
    }

    /// How many articles there are.
    pub fn article_count(&self) -> (r: u32)
        requires
            self.wf(),
        ensures
            r == articles_before(self.entries(), self.entries().len() as int),
    {
        self.n_articles
    }

    fn id_at(&self, place: usize) -> (r: Option<u32>)
        requires
            self.wf(),
            place < self.entries().len(),
        ensures
            r == (match stands_for(self.entries(), place as int) {
                Some(j) => Some(articles_before(self.entries(), j) as u32),
                None => None,
            }),
    {
        let ghost entries = self.all@;
        proof {
            lemma_stands_for(entries, place as int);
        }
        let target: u32 = self.resolved[place];
        if target == NONE {
            return None;
        }
        proof {
            let j = stands_for(entries, place as int)->0;
            lemma_articles_before(entries, 0, j);
        }
        let id: u32 = self.article_id[target as usize];
        if id == NONE {
            None
        } else {
            Some(id)
        }
    }

    /// The article that a *normalized* link target names, redirects followed.
    /// Nothing for targets that name no article.
    #[inline]
    pub fn lookup(&self, normalized: &str) -> (r: Option<u32>)
        requires
            self.wf(),
        ensures
            r == article_named(self.entries(), normalized@),
            r matches Some(id) ==> id < articles_before(
                self.entries(),
                self.entries().len() as int,
            ),
    {
        proof {
            let p = place_of(self.all@, normalized@);
            lemma_place_of(self.all@, normalized@);
            law_ids_are_dense(self.all@, normalized@);
        }
        match get_title(&self.map, normalized) {
            Some(place) => self.id_at(place as usize),
            None => None,
        }
    }

    /// Every article with its id, in the order of ids.
    pub fn articles(&self) -> (r: Vec<(u32, String)>)
        requires
            self.wf(),
        ensures
            id_rows(r@) == article_rows(self.entries(), self.entries().len() as int),
    {
        let ghost entries = self.all@;
        let n: usize = self.names.len();
        let mut out: Vec<(u32, String)> = Vec::new();
        let mut i: usize = 0;
        assert(id_rows(out@) =~= Seq::<(u32, Seq<char>)>::empty());
        while i < n
            invariant
                self.wf(),
                entries == self.all@,
                n == entries.len(),
                i <= n,
                id_rows(out@) == article_rows(entries, i as int),
            decreases n - i,
        {
            proof {
                lemma_articles_before(entries, 0, i as int);
            }
            let id: u32 = self.article_id[i];
            if id != NONE {
                let ghost before = id_rows(out@);
                out.push((id, self.names[i].clone()));
                assert(id_rows(out@) =~= before.push((id, entries[i as int].name)));
            }
            i = i + 1;
        }
        out
    }

    /// Every redirect that leads to an article, with the id of that article.
    pub fn redirects(&self) -> (r: Vec<(String, u32)>)
        requires
            self.wf(),
        ensures
            name_rows(r@) == redirect_rows(self.entries(), self.entries().len() as int),
    {
        let ghost entries = self.all@;
        let n: usize = self.names.len();
        let mut out: Vec<(String, u32)> = Vec::new();
        let mut i: usize = 0;
        assert(name_rows(out@) =~= Seq::<(Seq<char>, u32)>::empty());
        while i < n
            invariant
                self.wf(),
                entries == self.all@,
                n == entries.len(),
                i <= n,
                name_rows(out@) == redirect_rows(entries, i as int),
            decreases n - i,
        {
            if self.is_redirect[i] {
                if let Some(id) = self.id_at(i) {
                    let ghost before = name_rows(out@);
                    out.push((self.names[i].clone(), id));
                    assert(name_rows(out@) =~= before.push((entries[i as int].name, id)));
                }
            }
            i = i + 1;
        }
        out
    }
}

// ---------------------------------------------------------------------------
// Whole dumps
// ---------------------------------------------------------------------------

/// The state before any page.
pub open spec fn nothing_seen() -> IndexView {
    IndexView {
        entries: seq![],
        ns0_pages: 0,
        articles: 0,
        redirects: 0,
        duplicate_titles: 0,
        collisions: seq![],
    }
}

/// What the first pass makes of some pages.
pub open spec fn after_pages(pages: Seq<PageView>) -> IndexView
    decreases pages.len(),
{
    if pages.len() == 0 {
        nothing_seen()
    } else {
        after_page(after_pages(pages.drop_last()), pages.last())
    }
}

pub proof fn lemma_few_entries(pages: Seq<PageView>)
    requires
        pages.len() <= u64::MAX,
    ensures
        after_pages(pages).entries.len() <= pages.len(),
        after_pages(pages).ns0_pages <= pages.len(),
    decreases pages.len(),
{
    if pages.len() > 0 {
        let before = after_pages(pages.drop_last());
        lemma_few_entries(pages.drop_last());
        if let Some(name) = normalized(pages.last().title) {
            lemma_place_of(before.entries, name);
        }
    }
}

/// The first pass over all the pages of a dump.
pub fn build(pages: &Vec<Page>) -> (r: (TitleIndex, Pass1Stats))
    requires
        pages@.len() < u32::MAX,
    ensures
        r.0.wf(),
        ({
            let v = after_pages(page_views(pages@));
            &&& r.0.entries() == v.entries
            &&& r.1.ns0_pages == v.ns0_pages
            &&& r.1.articles == v.articles
            &&& r.1.redirects == v.redirects
            &&& r.1.duplicate_titles == v.duplicate_titles
            &&& text_pairs(r.1.collisions@) == v.collisions
            &&& r.1.broken_redirects == broken_before(v.entries, v.entries.len() as int)
        }),
{
    let ghost all = page_views(pages@);
    let n: usize = pages.len();
    let mut builder = IndexBuilder::new();
    let mut i: usize = 0;
    assert(all.take(0) =~= Seq::<PageView>::empty());
    while i < n
        invariant
            n == pages@.len(),
            n < u32::MAX,
            all == page_views(pages@),
            i <= n,
            builder.wf(),
            builder.state() == after_pages(all.take(i as int)),
        decreases n - i,
    {
        proof {
            lemma_few_entries(all.take(i as int));
            assert(all.take(i + 1).drop_last() =~= all.take(i as int));
            assert(all.take(i + 1).last() == pages@[i as int]@);
        }
        builder.add_page(&pages[i]);
        i = i + 1;
    }
    proof {
        assert(all.take(n as int) =~= all);
        lemma_few_entries(all);
    }
    builder.finish()
}

// ---------------------------------------------------------------------------
// Laws
// ---------------------------------------------------------------------------

/// Ids are dense: whatever a title names has an id below the number of
/// articles.
pub proof fn law_ids_are_dense(entries: Seq<Entry>, name: Seq<char>)
    requires
        entries.len() <= u32::MAX,
    ensures
        article_named(entries, name) matches Some(id) ==> id < articles_before(
            entries,
            entries.len() as int,
        ),
{
    lemma_place_of(entries, name);
    if place_of(entries, name) is Some {
        let i = place_of(entries, name)->0;
        lemma_stands_for(entries, i);
        if stands_for(entries, i) is Some {
            let j = stands_for(entries, i)->0;
            lemma_articles_before(entries, j, entries.len() as int);
            lemma_articles_before(entries, 0, entries.len() as int);
        }
    }
}

/// Two articles never share an id.
pub proof fn law_ids_are_distinct(entries: Seq<Entry>, i: int, j: int)
    requires
        0 <= i < j < entries.len(),
        !entries[i].redirect,
        !entries[j].redirect,
    ensures
        articles_before(entries, i) < articles_before(entries, j),
{
    lemma_articles_before(entries, i, j);
}

/// A redirect never gets an id of its own: the titles that are numbered are
/// exactly those of pages that are no redirects, in order.
pub proof fn law_articles_are_numbered_in_order(entries: Seq<Entry>, i: int, k: int)
    requires
        entries.len() <= u32::MAX,
        0 <= i <= entries.len(),
        0 <= k < article_rows(entries, i).len(),
    ensures
        article_rows(entries, i).len() == articles_before(entries, i),
        article_rows(entries, i)[k].0 == k,
    decreases i,
{
    if i > 0 {
        lemma_rows_counted(entries, i);
        lemma_rows_counted(entries, i - 1);
        lemma_articles_before(entries, 0, i - 1);
        if k < article_rows(entries, i - 1).len() {
            law_articles_are_numbered_in_order(entries, i - 1, k);
        }
    }
}

proof fn lemma_rows_counted(entries: Seq<Entry>, i: int)
    requires
        0 <= i <= entries.len(),
    ensures
        article_rows(entries, i).len() == articles_before(entries, i),
    decreases i,
{
    if i > 0 {
        lemma_rows_counted(entries, i - 1);
    }
}

/// A redirect names what its target names, as long as the target is an
/// article.
pub proof fn law_redirects_name_their_target(entries: Seq<Entry>, name: Seq<char>)
    requires
        place_of(entries, name) is Some,
        entries[place_of(entries, name)->0].redirect,
        entries[place_of(entries, name)->0].target is Some,
        ({
            let target = entries[place_of(entries, name)->0].target->0;
            place_of(entries, target) matches Some(j) && !entries[j].redirect
        }),
    ensures
        article_named(entries, name) is Some,
        article_named(entries, name) == article_named(
            entries,
            entries[place_of(entries, name)->0].target->0,
        ),
{
    let i = place_of(entries, name)->0;
    let j = direct_target(entries, i)->0;
    assert(followed(entries, Some(j), (MAX_REDIRECT_HOPS - 1) as nat) == Some(j));
    assert(followed(entries, Some(j), MAX_REDIRECT_HOPS as nat) == Some(j));
}

/// The entries of a chain are redirects, each to the next, up to the last one.
pub open spec fn is_chain(entries: Seq<Entry>, chain: Seq<int>) -> bool {
    &&& chain.len() > 0
    &&& forall|k: int|
        0 <= k < chain.len() - 1 ==> entries[#[trigger] chain[k]].redirect && direct_target(
            entries,
            chain[k],
        ) == Some(chain[k + 1])
}

proof fn lemma_chain_followed(entries: Seq<Entry>, chain: Seq<int>, hops: nat)
    requires
        is_chain(entries, chain),
        chain.len() - 1 <= hops,
        !entries[chain.last()].redirect || chain.len() - 1 == hops,
    ensures
        followed(entries, Some(chain[0]), hops) == Some(chain.last()),
    decreases chain.len(),
{
    if chain.len() > 1 {
        let rest = chain.drop_first();
        assert(entries[chain[0]].redirect);
        assert forall|k: int| 0 <= k < rest.len() - 1 implies entries[#[trigger] rest[k]].redirect
            && direct_target(entries, rest[k]) == Some(rest[k + 1]) by {
            assert(rest[k] == chain[k + 1] && rest[k + 1] == chain[k + 2]);
        }
        assert(rest.last() == chain.last());
        lemma_chain_followed(entries, rest, (hops - 1) as nat);
    }
}

/// A chain of redirects that is not too deep collapses to the article at its
/// end, and one that is deeper is broken.
pub proof fn law_chains_collapse_or_break(entries: Seq<Entry>, chain: Seq<int>)
    requires
        is_chain(entries, chain),
        chain.len() - 1 <= MAX_REDIRECT_HOPS,
    ensures
        !entries[chain.last()].redirect ==> stands_for(entries, chain[0]) == Some(chain.last()),
        entries[chain.last()].redirect && chain.len() - 1 == MAX_REDIRECT_HOPS ==> stands_for(
            entries,
            chain[0],
        ) is None,
{
    if !entries[chain.last()].redirect || chain.len() - 1 == MAX_REDIRECT_HOPS {
        lemma_chain_followed(entries, chain, MAX_REDIRECT_HOPS as nat);
    }
}

/// A page outside of the main namespace, or whose title names nothing, leaves
/// the index as it is.
pub proof fn law_other_namespaces_are_passed_over(v: IndexView, page: PageView)
    requires
        page.ns != 0 || normalized(page.title) is None,
    ensures
        after_page(v, page) == v,
{
}

/// A page with a new title is entered last, under that title; one with a known
/// title is entered once more nowhere. What is a redirect, and to where, its
/// page says.
pub proof fn law_pages_are_entered_once(v: IndexView, page: PageView)
    requires
        page.ns == 0,
        normalized(page.title) is Some,
        v.ns0_pages < u64::MAX,
        v.articles < u64::MAX,
        v.redirects < u64::MAX,
        v.duplicate_titles < u64::MAX,
    ensures
        ({
            let name = normalized(page.title)->0;
            let r = after_page(v, page);
            let known = exists|i: int| 0 <= i < v.entries.len() && #[trigger] v.entries[i].name == name;
            &&& r.entries.len() == v.entries.len() + (if known {
                0int
            } else {
                1
            })
            &&& !known ==> r.entries.last().name == name && r.entries.last().redirect == (
            page.redirect is Some)
            &&& forall|i: int|
                0 <= i < v.entries.len() ==> (#[trigger] r.entries[i]).name == v.entries[i].name
            &&& forall|i: int|
                0 <= i < v.entries.len() && v.entries[i].name != name ==> #[trigger] r.entries[i]
                    == v.entries[i]
            &&& page.redirect is None ==> forall|i: int|
                0 <= i < v.entries.len() ==> #[trigger] r.entries[i] == v.entries[i]
            &&& page.redirect matches Some(to) ==> exists|i: int|
                0 <= i < r.entries.len() && #[trigger] r.entries[i] == (Entry {
                    name,
                    redirect: true,
                    target: normalized(to),
                })
            &&& r.ns0_pages == v.ns0_pages + 1
            &&& page.redirect is None ==> r.articles == v.articles + 1 && r.redirects == v.redirects
            &&& page.redirect is Some ==> r.articles == v.articles && r.redirects == v.redirects + 1
            &&& r.duplicate_titles == v.duplicate_titles + (if known {
                1int
            } else {
                0
            })
            &&& r.collisions == (if known && v.collisions.len() < 50 {
                v.collisions.push((page.title, name))
            } else {
                v.collisions
            })
        }),
{
    let name = normalized(page.title)->0;
    lemma_place_is(v.entries, name);
    let r = after_page(v, page);
    let at = match place_of(v.entries, name) {
        Some(i) => i,
        None => v.entries.len() as int,
    };
    assert(r.entries[at].name == name);
}

proof fn lemma_place_is(entries: Seq<Entry>, name: Seq<char>)
    ensures
        match place_of(entries, name) {
            Some(i) => 0 <= i < entries.len() && entries[i].name == name && forall|j: int|
                i < j < entries.len() ==> (#[trigger] entries[j]).name != name,
            None => forall|j: int| 0 <= j < entries.len() ==> (#[trigger] entries[j]).name != name,
        },
    decreases entries.len(),
{
    if entries.len() > 0 {
        lemma_place_is(entries.drop_last(), name);
        assert(forall|j: int|
            0 <= j < entries.len() - 1 ==> entries.drop_last()[j] == entries[j]);
    }
}

/// Up to four redirects in a row are followed to the article at their end; where
/// there are more, the first of them leads nowhere.
pub proof fn law_four_hops_are_followed(entries: Seq<Entry>, chain: Seq<int>)
    requires
        is_chain(entries, chain),
    ensures
        chain.len() <= 5 && !entries[chain.last()].redirect ==> stands_for(entries, chain[0])
            == Some(chain.last()),
        chain.len() > 5 ==> stands_for(entries, chain[0]) is None,
{
    if chain.len() <= 5 {
        law_chains_collapse_or_break(entries, chain);
    } else {
        let front = chain.take(5);
        assert(front[4] == chain[4]);
        assert forall|k: int| 0 <= k < front.len() - 1 implies entries[#[trigger] front[k]].redirect
            && direct_target(entries, front[k]) == Some(front[k + 1]) by {
            assert(front[k] == chain[k]);
            assert(front[k + 1] == chain[k + 1]);
        }
        assert(entries[chain[4]].redirect);
        law_chains_collapse_or_break(entries, front);
    }
}

/// An article has for its id the number of articles before it, and every title
/// of it leads there; a redirect that leads nowhere names nothing.
pub proof fn law_ids_count_the_articles(entries: Seq<Entry>, i: int)
    requires
        0 <= i < entries.len(),
        entries.len() <= u32::MAX,
        forall|j: int| i < j < entries.len() ==> (#[trigger] entries[j]).name != entries[i].name,
    ensures
        !entries[i].redirect ==> article_named(entries, entries[i].name) == Some(
            articles_before(entries, i) as u32,
        ),
        entries[i].redirect && entries[i].target is None ==> article_named(entries, entries[i].name)
            is None,
        articles_before(entries, i + 1) == articles_before(entries, i) + (if entries[i].redirect {
            0int
        } else {
            1
        }),
        articles_before(entries, 0) == 0,
{
    lemma_place_is(entries, entries[i].name);
    let p = place_of(entries, entries[i].name)->0;
    if p < i {
        assert(entries[i].name != entries[i].name);
    } else if p > i {
        assert(entries[p].name != entries[i].name);
    }
    reveal_with_fuel(followed, 3);
}

/// A title that no page has names nothing.
pub proof fn law_unknown_titles_name_nothing(entries: Seq<Entry>, name: Seq<char>)
    requires
        forall|j: int| 0 <= j < entries.len() ==> (#[trigger] entries[j]).name != name,
    ensures
        article_named(entries, name) is None,
{
    lemma_place_is(entries, name);
}
/// Every page of the main namespace is an article or a redirect.
pub proof fn law_pages_are_articles_or_redirects(pages: Seq<PageView>)
    requires
        pages.len() < u64::MAX,
    ensures
        after_pages(pages).ns0_pages <= pages.len(),
        after_pages(pages).ns0_pages == after_pages(pages).articles + after_pages(pages).redirects,
        after_pages(pages).ns0_pages == after_pages(pages).entries.len() + after_pages(
            pages,
        ).duplicate_titles,
    decreases pages.len(),
{
    if pages.len() > 0 {
        law_pages_are_articles_or_redirects(pages.drop_last());
        let before = after_pages(pages.drop_last()).entries;
        if normalized(pages.last().title) is Some {
            lemma_place_is(before, normalized(pages.last().title)->0);
        }
    }
}

/// The articles are listed with their ids and names, and the redirects with
/// their names and the ids of the articles that they lead to; those that lead
/// nowhere are counted as broken.
pub proof fn law_every_entry_is_listed(entries: Seq<Entry>, i: int)
    requires
        0 <= i < entries.len(),
    ensures
        !entries[i].redirect ==> article_rows(entries, i + 1) == article_rows(entries, i).push(
            (articles_before(entries, i) as u32, entries[i].name),
        ) && redirect_rows(entries, i + 1) == redirect_rows(entries, i) && broken_before(
            entries,
            i + 1,
        ) == broken_before(entries, i),
        entries[i].redirect ==> article_rows(entries, i + 1) == article_rows(entries, i),
        entries[i].redirect && stands_for(entries, i) is Some ==> redirect_rows(entries, i + 1)
            == redirect_rows(entries, i).push(
            (
                entries[i].name,
                articles_before(entries, stands_for(entries, i)->0) as u32,
            ),
        ) && broken_before(entries, i + 1) == broken_before(entries, i),
        entries[i].redirect && stands_for(entries, i) is None ==> redirect_rows(entries, i + 1)
            == redirect_rows(entries, i) && broken_before(entries, i + 1) == broken_before(
            entries,
            i,
        ) + 1,
        article_rows(entries, 0).len() == 0,
        redirect_rows(entries, 0).len() == 0,
        broken_before(entries, 0) == 0,
{
    reveal_with_fuel(followed, 2);
}
} // verus!
