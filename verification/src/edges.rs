//! Which articles link where: the second pass over a dump.
//!
//! Every link target is normalized, followed through redirects, and dropped
//! if it names no article. Targets are kept once per page, and each article is
//! taken from one page only, so that no link is recorded twice.

use crate::columns::{column, u32_column};
use crate::dump::{Page, PageView, page_views};
use crate::extras::{Extras, extract_chars, title_extras, with_templates};
use crate::graph::texts;
use crate::index::{Entry, TitleIndex, article_named, articles_before, law_ids_are_dense};
use crate::sorting::{
    by_size, increasing, is_sorted_copy, lemma_same_members, sort_by, sort_dedup,
};
use crate::text::{byte_len, byte_size, chars_of, same, string_of_all};
use crate::titles::{
    NsPrefixes, category_of, has_prefix, is_maintenance, is_maintenance_category, normalize_chars,
    normalize_title, normalized,
};
use crate::wikitext::{
    CleanOpts, Cleaner, cleaned, lemma_cleaned_no_longer, link_targets, links_in, rows_of,
};
use vstd::prelude::*;

verus! {

/// Categories kept per article, in the order the wikitext lists them.
///
/// The first few are the ones that editors considered defining.
pub const MAX_CATEGORIES_PER_ARTICLE: usize = 6;

/// What the second pass has counted.
#[derive(Clone, Copy, Debug, PartialEq, Eq, Structural)]
pub struct Pass2Stats {
    pub pages_scanned: u64,
    pub links_seen: u64,
    pub skipped_namespace: u64,
    pub red_links: u64,
    pub self_links: u64,
    pub duplicate_links: u64,
    pub duplicate_pages: u64,
    pub edges_written: u64,
    pub categories_written: u64,
    pub categories_skipped_maintenance: u64,
}

pub open spec fn no_stats() -> Pass2Stats {
    Pass2Stats {
        pages_scanned: 0,
        links_seen: 0,
        skipped_namespace: 0,
        red_links: 0,
        self_links: 0,
        duplicate_links: 0,
        duplicate_pages: 0,
        edges_written: 0,
        categories_written: 0,
        categories_skipped_maintenance: 0,
    }
}

impl Default for Pass2Stats {
    fn default() -> (r: Self)
        ensures
            r == no_stats(),
    {
        Pass2Stats {
            pages_scanned: 0,
            links_seen: 0,
            skipped_namespace: 0,
            red_links: 0,
            self_links: 0,
            duplicate_links: 0,
            duplicate_pages: 0,
            edges_written: 0,
            categories_written: 0,
            categories_skipped_maintenance: 0,
        }
    }
}

// ---------------------------------------------------------------------------
// What a page says
// ---------------------------------------------------------------------------

/// The article that a link target names, as it is written or else in its
/// normal form.
pub open spec fn link_destination(entries: Seq<Entry>, raw: Seq<char>) -> Option<u32> {
    match article_named(entries, raw) {
        Some(d) => Some(d),
        None => match normalized(raw) {
            Some(t) => article_named(entries, t),
            None => None,
        },
    }
}

/// What became of the links of a page.
pub struct LinkTally {
    pub seen: nat,
    pub foreign: nat,
    pub red: nat,
    pub own: nat,
    /// The articles linked to, in the order of the links.
    pub kept: Seq<u32>,
}

pub open spec fn link_tally(
    entries: Seq<Entry>,
    prefixes: Set<Seq<char>>,
    src: u32,
    links: Seq<Seq<char>>,
) -> LinkTally
    decreases links.len(),
{
    if links.len() == 0 {
        LinkTally { seen: 0, foreign: 0, red: 0, own: 0, kept: seq![] }
    } else {
        let t = link_tally(entries, prefixes, src, links.drop_last());
        let raw = links.last();
        let t = LinkTally { seen: t.seen + 1, ..t };
        if has_prefix(prefixes, raw) {
            LinkTally { foreign: t.foreign + 1, ..t }
        } else {
            match link_destination(entries, raw) {
                Some(d) => if d == src {
                    LinkTally { own: t.own + 1, ..t }
                } else {
                    LinkTally { kept: t.kept.push(d), ..t }
                },
                None => LinkTally { red: t.red + 1, ..t },
            }
        }
    }
}

/// The categories that links file a page under, each once and only the first
/// few, and how many maintenance categories were passed over on the way.
pub open spec fn category_tally(links: Seq<Seq<char>>) -> (Seq<Seq<char>>, nat)
    decreases links.len(),
{
    if links.len() == 0 {
        (seq![], 0)
    } else {
        let (kept, skipped) = category_tally(links.drop_last());
        if kept.len() >= MAX_CATEGORIES_PER_ARTICLE {
            (kept, skipped)
        } else {
            match category_of(links.last()) {
                Some(c) => if is_maintenance(c) {
                    (kept, skipped + 1)
                } else if kept.contains(c) {
                    (kept, skipped)
                } else {
                    (kept.push(c), skipped)
                },
                None => (kept, skipped),
            }
        }
    }
}

/// The article that a page is: one of the article namespace, no redirect, with
/// a title that names an article.
pub open spec fn page_article(entries: Seq<Entry>, page: PageView) -> Option<u32> {
    if page.ns != 0 || page.redirect is Some {
        None
    } else {
        match normalized(page.title) {
            Some(t) => article_named(entries, t),
            None => None,
        }
    }
}

/// What was found on the page of one article.
pub struct PageLinks {
    pub src: u32,
    /// Bytes of wikitext.
    pub size: u32,
    pub categories: Vec<String>,
    /// The articles linked to, in increasing order.
    pub targets: Vec<u32>,
    pub extras: Extras,
}

/// `links` is what the page of article `src` holds.
pub open spec fn describes(
    links: PageLinks,
    entries: Seq<Entry>,
    prefixes: Set<Seq<char>>,
    opts: CleanOpts,
    page: PageView,
    src: u32,
) -> bool {
    let tally = link_tally(entries, prefixes, src, link_targets(cleaned(page.text, opts), 0));
    &&& links.src == src
    &&& links.size == (if byte_len(page.text) > u32::MAX {
        u32::MAX as nat
    } else {
        byte_len(page.text)
    })
    &&& texts(links.categories@) == category_tally(link_targets(page.text, 0)).0
    &&& increasing(links.targets@)
    &&& links.targets@.len() <= tally.kept.len()
    &&& forall|d: u32|
        #![trigger links.targets@.contains(d)]
        links.targets@.contains(d) <==> tally.kept.contains(d)
    &&& links.extras@ == with_templates(title_extras(normalized(page.title)->0), page.text, 0)
}

/// The counts after a page of article `src` on which `n_targets` articles were
/// linked to and `n_categories` were kept.
pub open spec fn counted(
    stats: Pass2Stats,
    tally: LinkTally,
    skipped: nat,
    n_targets: nat,
    n_categories: nat,
) -> Pass2Stats {
    Pass2Stats {
        pages_scanned: (stats.pages_scanned + 1) as u64,
        links_seen: (stats.links_seen + tally.seen) as u64,
        skipped_namespace: (stats.skipped_namespace + tally.foreign) as u64,
        red_links: (stats.red_links + tally.red) as u64,
        self_links: (stats.self_links + tally.own) as u64,
        duplicate_links: (stats.duplicate_links + (tally.kept.len() - n_targets)) as u64,
        duplicate_pages: stats.duplicate_pages,
        edges_written: (stats.edges_written + n_targets) as u64,
        categories_written: (stats.categories_written + n_categories) as u64,
        categories_skipped_maintenance: (stats.categories_skipped_maintenance + skipped) as u64,
    }
}

// ---------------------------------------------------------------------------
// The pass
// ---------------------------------------------------------------------------

/// The second pass: which articles were taken already, and what was counted.
pub struct LinkPass {
    pub emitted: Vec<bool>,
    pub stats: Pass2Stats,
}

proof fn lemma_tally_bounds(
    entries: Seq<Entry>,
    prefixes: Set<Seq<char>>,
    src: u32,
    links: Seq<Seq<char>>,
)
    ensures
        ({
            let t = link_tally(entries, prefixes, src, links);
            &&& t.seen == links.len()
            &&& t.foreign + t.red + t.own + t.kept.len() == links.len()
        }),
    decreases links.len(),
{
    if links.len() > 0 {
        lemma_tally_bounds(entries, prefixes, src, links.drop_last());
    }
}

proof fn lemma_category_bounds(links: Seq<Seq<char>>)
    ensures
        category_tally(links).0.len() <= MAX_CATEGORIES_PER_ARTICLE,
        category_tally(links).1 <= links.len(),
    decreases links.len(),
{
    if links.len() > 0 {
        lemma_category_bounds(links.drop_last());
    }
}

fn has_text(list: &Vec<String>, s: &str) -> (r: bool)
    ensures
        r == texts(list@).contains(s@),
{
    let chars = chars_of(s);
    let n: usize = list.len();
    let mut i: usize = 0;
    while i < n
        invariant
            n == list@.len(),
            i <= n,
            chars@ == s@,
            forall|k: int| 0 <= k < i ==> #[trigger] texts(list@)[k] != s@,
        decreases n - i,
    {
        let item = chars_of(list[i].as_str());
        if same(item.as_slice(), chars.as_slice()) {
            assert(texts(list@)[i as int] == s@);
            return true;
        }
        i = i + 1;
    }
    false
}

/// The categories of a page, and how many maintenance categories were passed
/// over.
fn collect_categories(ns: &NsPrefixes, text: &[char]) -> (r: (Vec<String>, u64))
    requires
        text@.len() <= u64::MAX,
    ensures
        texts(r.0@) == category_tally(link_targets(text@, 0)).0,
        r.1 == category_tally(link_targets(text@, 0)).1,
{
    let links = links_in(text);
    let ghost rows = rows_of(links@);
    let n: usize = links.len();
    let mut kept: Vec<String> = Vec::new();
    let mut skipped: u64 = 0;
    let mut i: usize = 0;
    assert(rows.take(0) =~= Seq::<Seq<char>>::empty());
    assert(texts(kept@) =~= Seq::<Seq<char>>::empty());
    while i < n
        invariant
            n == links@.len(),
            i <= n,
            rows == rows_of(links@),
            skipped <= i,
            texts(kept@) == category_tally(rows.take(i as int)).0,
            skipped == category_tally(rows.take(i as int)).1,
        decreases n - i,
    {
        assert(rows.take(i + 1).drop_last() =~= rows.take(i as int));
        assert(texts(kept@).len() == kept@.len());
        if kept.len() < MAX_CATEGORIES_PER_ARTICLE {
            if let Some(c) = ns.category_chars(links[i].as_slice()) {
                if is_maintenance_category(c.as_str()) {
                    skipped = skipped + 1;
                } else if !has_text(&kept, c.as_str()) {
                    let ghost before = texts(kept@);
                    kept.push(c);
                    assert(texts(kept@) =~= before.push(c@));
                }
            }
        }
        i = i + 1;
    }
    assert(rows.take(n as int) =~= rows);
    (kept, skipped)
}

/// The article that a link leads to.
fn resolve_link(idx: &TitleIndex, raw: &Vec<char>) -> (r: Option<u32>)
    requires
        idx.wf(),
    ensures
        r == link_destination(idx.entries(), raw@),
{
    // Most targets are in normal form already.
    let written = string_of_all(raw);
    match idx.lookup(written.as_str()) {
        Some(d) => Some(d),
        None => match normalize_chars(raw.as_slice()) {
            Some(t) => idx.lookup(t.as_str()),
            None => None,
        },
    }
}

/// What became of the links of a page.
struct Links {
    seen: u64,
    foreign: u64,
    red: u64,
    own: u64,
    kept: Vec<u32>,
}

fn collect_links(idx: &TitleIndex, ns: &NsPrefixes, src: u32, text: &[char]) -> (r: Links)
    requires
        idx.wf(),
    ensures
        ({
            let t = link_tally(idx.entries(), ns.prefixes(), src, link_targets(text@, 0));
            &&& r.seen == t.seen
            &&& r.foreign == t.foreign
            &&& r.red == t.red
            &&& r.own == t.own
            &&& r.kept@ == t.kept
        }),
{
    let links = links_in(text);
    let ghost rows = rows_of(links@);
    let n: usize = links.len();
    let mut out = Links { seen: 0, foreign: 0, red: 0, own: 0, kept: Vec::new() };
    let mut i: usize = 0;
    assert(rows.take(0) =~= Seq::<Seq<char>>::empty());
    while i < n
        invariant
            idx.wf(),
            n == links@.len(),
            i <= n,
            rows == rows_of(links@),
            ({
                let t = link_tally(idx.entries(), ns.prefixes(), src, rows.take(i as int));
                &&& out.seen == t.seen
                &&& out.foreign == t.foreign
                &&& out.red == t.red
                &&& out.own == t.own
                &&& out.kept@ == t.kept
            }),
        decreases n - i,
    {
        proof {
            assert(rows.take(i + 1).drop_last() =~= rows.take(i as int));
            lemma_tally_bounds(idx.entries(), ns.prefixes(), src, rows.take(i as int));
        }
        out.seen = out.seen + 1;
        if ns.is_foreign_chars(links[i].as_slice()) {
            out.foreign = out.foreign + 1;
        } else {
            match resolve_link(idx, &links[i]) {
                Some(d) => {
                    if d == src {
                        out.own = out.own + 1;
                    } else {
                        out.kept.push(d);
                    }
                },
                None => {
                    out.red = out.red + 1;
                },
            }
        }
        i = i + 1;
    }
    assert(rows.take(n as int) =~= rows);
    out
}

/// Every count leaves room for the links of one more page of `len` characters.
pub open spec fn has_room(stats: Pass2Stats, len: nat) -> bool {
    &&& stats.pages_scanned < u64::MAX
    &&& stats.links_seen + len <= u64::MAX
    &&& stats.skipped_namespace + len <= u64::MAX
    &&& stats.red_links + len <= u64::MAX
    &&& stats.self_links + len <= u64::MAX
    &&& stats.duplicate_links + len <= u64::MAX
    &&& stats.duplicate_pages < u64::MAX
    &&& stats.edges_written + len <= u64::MAX
    &&& stats.categories_written + MAX_CATEGORIES_PER_ARTICLE <= u64::MAX
    &&& stats.categories_skipped_maintenance + len <= u64::MAX
}

/// There are no more links than characters.
proof fn lemma_fewer_links_than_characters(s: Seq<char>, i: int)
    requires
        0 <= i <= s.len(),
    ensures
        link_targets(s, i).len() <= s.len() - i,
    decreases s.len() - i,
{
    let open_mark = crate::wikitext::link_open();
    let close_mark = crate::wikitext::link_close();
    crate::text::lemma_found_at(s, open_mark, i);
    if crate::text::found_at(s, open_mark, i) is Some {
        let open = crate::text::found_at(s, open_mark, i)->0;
        crate::text::lemma_found_at(s, close_mark, open + 2);
        if crate::text::found_at(s, close_mark, open + 2) is Some {
            let close = crate::text::found_at(s, close_mark, open + 2)->0;
            crate::text::lemma_found_at(s.take(close), open_mark, open + 2);
            match crate::text::found_at(s.take(close), open_mark, open + 2) {
                Some(inner) => {
                    lemma_fewer_links_than_characters(s, inner);
                },
                None => {
                    lemma_fewer_links_than_characters(s, close + 2);
                },
            }
        }
    }
}

impl LinkPass {
    /// A pass over the articles of an index of `n` articles.
    pub fn new(n: u32) -> (r: Self)
        ensures
            r.emitted@.len() == n,
            forall|i: int| 0 <= i < n ==> !#[trigger] r.emitted@[i],
            r.stats == no_stats(),
    {
        let mut emitted: Vec<bool> = Vec::new();
        let mut i: u32 = 0;
        while i < n
            invariant
                i <= n,
                emitted@.len() == i,
                forall|k: int| 0 <= k < i ==> !#[trigger] emitted@[k],
            decreases n - i,
        {
            emitted.push(false);
            i = i + 1;
        }
        LinkPass { emitted, stats: Pass2Stats::default() }
    }

    /// Take in a page. Nothing comes out for a page that is no article, nor
    /// for a second page of one article.
    ///
    /// Categories and templates are read from the raw wikitext: cleaning cuts
    /// the page at its first citation section, and categories stand below.
    pub fn take_page(
        &mut self,
        idx: &TitleIndex,
        ns: &NsPrefixes,
        opts: &CleanOpts,
        p: &Page,
    ) -> (r: Option<PageLinks>)
        requires
            idx.wf(),
            old(self).emitted@.len() == articles_before(
                idx.entries(),
                idx.entries().len() as int,
            ),
            has_room(old(self).stats, p@.text.len()),
        ensures
            final(self).emitted@.len() == old(self).emitted@.len(),
            match page_article(idx.entries(), p@) {
                None => r is None && *final(self) == *old(self),
                Some(src) => if old(self).emitted@[src as int] {
                    &&& r is None
                    &&& final(self).emitted@ == old(self).emitted@
                    &&& final(self).stats == (Pass2Stats {
                        duplicate_pages: (old(self).stats.duplicate_pages + 1) as u64,
                        ..old(self).stats
                    })
                } else {
                    &&& r is Some
                    &&& describes(r->0, idx.entries(), ns.prefixes(), *opts, p@, src)
                    &&& final(self).emitted@ == old(self).emitted@.update(src as int, true)
                    &&& final(self).stats == counted(
                        old(self).stats,
                        link_tally(
                            idx.entries(),
                            ns.prefixes(),
                            src,
                            link_targets(cleaned(p@.text, *opts), 0),
                        ),
                        category_tally(link_targets(p@.text, 0)).1,
                        r->0.targets@.len(),
                        r->0.categories@.len(),
                    )
                },
            },
    {
        if p.ns != 0 || p.redirect.is_some() {
            return None;
        }
        let title = match normalize_title(p.title.as_str()) {
            Some(t) => t,
            None => {
                return None;
            },
        };
        let src: u32 = match idx.lookup(title.as_str()) {
            Some(s) => s,
            None => {
                return None;
            },
        };
        if self.emitted[src as usize] {
            self.stats.duplicate_pages = self.stats.duplicate_pages + 1;
            return None;
        }
        self.emitted.set(src as usize, true);
        let text = chars_of(p.text.as_str());
        let title_chars = chars_of(title.as_str());
        let size: u32 = byte_size(text.as_slice());
        let extras = extract_chars(text.as_slice(), title_chars.as_slice());
        let (categories, skipped) = collect_categories(ns, text.as_slice());
        let cleaner = Cleaner::new();
        let clean = cleaner.clean_chars(text.as_slice(), opts);
        let links = collect_links(idx, ns, src, clean.as_slice());
        let targets = sort_dedup(&links.kept);
        proof {
            lemma_cleaned_no_longer(text@, *opts);
            lemma_fewer_links_than_characters(clean@, 0);
            lemma_fewer_links_than_characters(text@, 0);
            lemma_tally_bounds(idx.entries(), ns.prefixes(), src, link_targets(clean@, 0));
            lemma_category_bounds(link_targets(text@, 0));
            assert(texts(categories@).len() == categories@.len());
        }
        self.stats.pages_scanned = self.stats.pages_scanned + 1;
        self.stats.links_seen = self.stats.links_seen + links.seen;
        self.stats.skipped_namespace = self.stats.skipped_namespace + links.foreign;
        self.stats.red_links = self.stats.red_links + links.red;
        self.stats.self_links = self.stats.self_links + links.own;
        self.stats.duplicate_links = self.stats.duplicate_links + (links.kept.len()
            - targets.len()) as u64;
        self.stats.edges_written = self.stats.edges_written + targets.len() as u64;
        self.stats.categories_written = self.stats.categories_written + categories.len() as u64;
        self.stats.categories_skipped_maintenance = self.stats.categories_skipped_maintenance
            + skipped;
        Some(PageLinks { src, size, categories, targets, extras })
    }
}

// ---------------------------------------------------------------------------
// Whole dumps
// ---------------------------------------------------------------------------

/// Some page of a list is that of an article.
pub open spec fn is_taken(
    entries: Seq<Entry>,
    pages: Seq<PageView>,
    taken: Seq<int>,
    src: u32,
) -> bool {
    exists|k: int|
        0 <= k < taken.len() && page_article(entries, pages[#[trigger] taken[k]]) == Some(src)
}

/// The places of the pages that are taken: the first page of every article.
pub open spec fn taken_pages(entries: Seq<Entry>, pages: Seq<PageView>, n: int) -> Seq<int>
    decreases n,
{
    if n <= 0 {
        seq![]
    } else {
        let rest = taken_pages(entries, pages, n - 1);
        match page_article(entries, pages[n - 1]) {
            Some(src) => if is_taken(entries, pages, rest, src) {
                rest
            } else {
                rest.push(n - 1)
            },
            None => rest,
        }
    }
}

/// What was counted on the first `n` pages, given what was found on those that
/// were taken.
pub open spec fn totals(
    entries: Seq<Entry>,
    prefixes: Set<Seq<char>>,
    opts: CleanOpts,
    pages: Seq<PageView>,
    found: Seq<PageLinks>,
    n: int,
) -> Pass2Stats
    decreases n,
{
    if n <= 0 {
        no_stats()
    } else {
        let stats = totals(entries, prefixes, opts, pages, found, n - 1);
        let before = taken_pages(entries, pages, n - 1);
        let page = pages[n - 1];
        match page_article(entries, page) {
            Some(src) => if is_taken(entries, pages, before, src) {
                Pass2Stats { duplicate_pages: (stats.duplicate_pages + 1) as u64, ..stats }
            } else {
                counted(
                    stats,
                    link_tally(entries, prefixes, src, link_targets(cleaned(page.text, opts), 0)),
                    category_tally(link_targets(page.text, 0)).1,
                    found[before.len() as int].targets@.len(),
                    found[before.len() as int].categories@.len(),
                )
            },
            None => stats,
        }
    }
}

/// How many characters the first `n` pages hold.
pub open spec fn text_total(pages: Seq<PageView>, n: int) -> nat
    decreases n,
{
    if n <= 0 {
        0
    } else {
        text_total(pages, n - 1) + pages[n - 1].text.len()
    }
}

proof fn lemma_text_total(pages: Seq<PageView>, i: int, j: int)
    requires
        0 <= i <= j,
    ensures
        text_total(pages, i) <= text_total(pages, j),
    decreases j - i,
{
    if i < j {
        lemma_text_total(pages, i, j - 1);
    }
}

/// No count is above what the pages read so far can give.
spec fn in_bounds(stats: Pass2Stats, pages: nat, text: nat) -> bool {
    &&& stats.pages_scanned <= pages
    &&& stats.links_seen <= text
    &&& stats.skipped_namespace <= text
    &&& stats.red_links <= text
    &&& stats.self_links <= text
    &&& stats.duplicate_links <= text
    &&& stats.duplicate_pages <= pages
    &&& stats.edges_written <= text
    &&& stats.categories_written <= pages * MAX_CATEGORIES_PER_ARTICLE
    &&& stats.categories_skipped_maintenance <= text
}

proof fn lemma_taken_extends(
    entries: Seq<Entry>,
    pages: Seq<PageView>,
    found: Seq<PageLinks>,
    more: PageLinks,
    prefixes: Set<Seq<char>>,
    opts: CleanOpts,
    n: int,
)
    requires
        taken_pages(entries, pages, n).len() <= found.len(),
    ensures
        totals(entries, prefixes, opts, pages, found.push(more), n) == totals(
            entries,
            prefixes,
            opts,
            pages,
            found,
            n,
        ),
    decreases n,
{
    if n > 0 {
        lemma_taken_extends(entries, pages, found, more, prefixes, opts, n - 1);
    }
}

/// What is known of each article by its id: the bytes of its wikitext, and the
/// flags that its templates set.
pub struct Tables {
    pub sizes: Vec<u32>,
    pub flags: Vec<u32>,
}

/// The size of each page, with the article that it is of.
pub open spec fn size_rows(found: Seq<PageLinks>) -> Seq<(u32, u32)> {
    Seq::new(found.len(), |k: int| (found[k].src, found[k].size))
}

/// The flags of each page, with the article that it is of.
pub open spec fn flag_rows(found: Seq<PageLinks>) -> Seq<(u32, u32)> {
    Seq::new(found.len(), |k: int| (found[k].src, found[k].extras.flags))
}

impl Tables {
    /// The tables hold what was found, and one entry for each of `n` articles.
    pub open spec fn hold(&self, found: Seq<PageLinks>, n: nat) -> bool {
        &&& self.sizes@ == column(size_rows(found), n)
        &&& self.flags@ == column(flag_rows(found), n)
        &&& self.sizes@.len() == n
        &&& self.flags@.len() == n
    }

    /// Tables for `n` articles of which nothing is known.
    pub fn new(n: u32) -> (r: Tables)
        ensures
            r.hold(seq![], n as nat),
    {
        let none: Vec<(u32, u32)> = Vec::new();
        assert(none@ =~= size_rows(seq![]));
        assert(none@ =~= flag_rows(seq![]));
        Tables {
            sizes: u32_column(none.as_slice(), n as usize),
            flags: u32_column(none.as_slice(), n as usize),
        }
    }

    /// Take in what was found on one page.
    pub fn put(&mut self, links: &PageLinks)
        requires
            old(self).sizes@.len() == old(self).flags@.len(),
        ensures
            final(self).sizes@ == (if links.src < old(self).sizes@.len() {
                old(self).sizes@.update(links.src as int, links.size)
            } else {
                old(self).sizes@
            }),
            final(self).flags@ == (if links.src < old(self).flags@.len() {
                old(self).flags@.update(links.src as int, links.extras.flags)
            } else {
                old(self).flags@
            }),
            forall|found: Seq<PageLinks>|
                old(self).hold(found, old(self).sizes@.len()) ==> #[trigger] final(self).hold(
                    found.push(*links),
                    old(self).sizes@.len(),
                ),
    {
        if (links.src as usize) < self.sizes.len() {
            self.sizes.set(links.src as usize, links.size);
            self.flags.set(links.src as usize, links.extras.flags);
        }
        proof {
            assert forall|found: Seq<PageLinks>|
                old(self).hold(found, old(self).sizes@.len()) implies #[trigger] self.hold(
                found.push(*links),
                old(self).sizes@.len(),
            ) by {
                let all = found.push(*links);
                assert(size_rows(all).drop_last() =~= size_rows(found));
                assert(flag_rows(all).drop_last() =~= flag_rows(found));
            }
        }
    }

    /// What was found on some pages, by article.
    pub fn of(found: &Vec<PageLinks>, n: u32) -> (r: Tables)
        ensures
            r.hold(found@, n as nat),
    {
        let m: usize = found.len();
        let mut tables = Tables::new(n);
        let mut i: usize = 0;
        assert(found@.take(0) =~= Seq::<PageLinks>::empty());
        while i < m
            invariant
                m == found@.len(),
                i <= m,
                tables.hold(found@.take(i as int), n as nat),
            decreases m - i,
        {
            assert(found@.take(i + 1) =~= found@.take(i as int).push(found@[i as int]));
            tables.put(&found[i]);
            i = i + 1;
        }
        assert(found@.take(m as int) =~= found@);
        tables
    }
}

/// The second pass over all the pages of a dump: what was found on the first
/// page of every article, what was counted, and the tables by article.
#[verifier::rlimit(40)]
pub fn build(pages: &Vec<Page>, idx: &TitleIndex, ns: &NsPrefixes, opts: &CleanOpts) -> (r: (
    Pass2Stats,
    Vec<PageLinks>,
    Tables,
))
    requires
        idx.wf(),
        text_total(page_views(pages@), pages@.len() as int) <= u64::MAX,
        pages@.len() * MAX_CATEGORIES_PER_ARTICLE <= u64::MAX,
    ensures
        ({
            let all = page_views(pages@);
            let taken = taken_pages(idx.entries(), all, all.len() as int);
            &&& r.1@.len() == taken.len()
            &&& forall|k: int|
                0 <= k < taken.len() ==> describes(
                    #[trigger] r.1@[k],
                    idx.entries(),
                    ns.prefixes(),
                    *opts,
                    all[taken[k]],
                    page_article(idx.entries(), all[taken[k]])->0,
                )
            &&& r.0 == totals(
                idx.entries(),
                ns.prefixes(),
                *opts,
                all,
                r.1@,
                all.len() as int,
            )
            &&& r.0.links_seen == r.0.skipped_namespace + r.0.red_links + r.0.self_links
                + r.0.duplicate_links + r.0.edges_written
            &&& r.2.hold(r.1@, articles_before(idx.entries(), idx.entries().len() as int))
        }),
{
    let ghost all = page_views(pages@);
    let ghost entries = idx.entries();
    let n: usize = pages.len();
    let mut pass = LinkPass::new(idx.article_count());
    let mut found: Vec<PageLinks> = Vec::new();
    let mut i: usize = 0;
    while i < n
        invariant
            idx.wf(),
            n == pages@.len(),
            all == page_views(pages@),
            entries == idx.entries(),
            i <= n,
            text_total(all, n as int) <= u64::MAX,
            n * MAX_CATEGORIES_PER_ARTICLE <= u64::MAX,
            pass.emitted@.len() == articles_before(entries, entries.len() as int),
            forall|src: u32|
                src < pass.emitted@.len() ==> (#[trigger] pass.emitted@[src as int] <==> is_taken(
                    entries,
                    all,
                    taken_pages(entries, all, i as int),
                    src,
                )),
            found@.len() == taken_pages(entries, all, i as int).len(),
            forall|k: int|
                0 <= k < found@.len() ==> describes(
                    #[trigger] found@[k],
                    entries,
                    ns.prefixes(),
                    *opts,
                    all[taken_pages(entries, all, i as int)[k]],
                    page_article(entries, all[taken_pages(entries, all, i as int)[k]])->0,
                ),
            pass.stats == totals(entries, ns.prefixes(), *opts, all, found@, i as int),
            in_bounds(pass.stats, i as nat, text_total(all, i as int)),
        decreases n - i,
    {
        let ghost before = taken_pages(entries, all, i as int);
        let ghost had = found@;
        let ghost emitted = pass.emitted@;
        let ghost page = all[i as int];
        proof {
            lemma_text_total(all, i + 1, n as int);
            assert(page == pages@[i as int]@);
            idx.lemma_few();
            if page_article(entries, page) is Some {
                law_ids_are_dense(entries, normalized(page.title)->0);
            }
            let clean = cleaned(page.text, *opts);
            lemma_cleaned_no_longer(page.text, *opts);
            lemma_fewer_links_than_characters(clean, 0);
            lemma_fewer_links_than_characters(page.text, 0);
            lemma_tally_bounds(
                entries,
                ns.prefixes(),
                page_article(entries, page)->0,
                link_targets(clean, 0),
            );
            lemma_category_bounds(link_targets(page.text, 0));
            assert(has_room(pass.stats, page.text.len()));
        }
        let links = pass.take_page(idx, ns, opts, &pages[i]);
        match links {
            Some(links) => {
                proof {
                    lemma_taken_extends(entries, all, had, links, ns.prefixes(), *opts, i as int);
                    assert(texts(links.categories@).len() == links.categories@.len());
                }
                found.push(links);
                proof {
                    let src = page_article(entries, page)->0;
                    let after = taken_pages(entries, all, i + 1);
                    assert(after == before.push(i as int));
                    assert forall|x: u32| x < pass.emitted@.len() implies (
                    #[trigger] pass.emitted@[x as int] <==> is_taken(entries, all, after, x)) by {
                        if is_taken(entries, all, before, x) {
                            let k = choose|k: int|
                                0 <= k < before.len() && page_article(
                                    entries,
                                    all[#[trigger] before[k]],
                                ) == Some(x);
                            assert(after[k] == before[k]);
                        }
                        if x == src {
                            assert(after[before.len() as int] == i);
                        }
                        if is_taken(entries, all, after, x) && x != src {
                            let k = choose|k: int|
                                0 <= k < after.len() && page_article(
                                    entries,
                                    all[#[trigger] after[k]],
                                ) == Some(x);
                            assert(k < before.len());
                            assert(before[k] == after[k]);
                        }
                    }
                    assert forall|k: int| 0 <= k < found@.len() implies describes(
                        #[trigger] found@[k],
                        entries,
                        ns.prefixes(),
                        *opts,
                        all[after[k]],
                        page_article(entries, all[after[k]])->0,
                    ) by {
                        if k < had.len() {
                            assert(found@[k] == had[k]);
                            assert(after[k] == before[k]);
                        }
                    }
                }
            },
            None => {
                assert(taken_pages(entries, all, i + 1) == before);
            },
        }
        i = i + 1;
    }
    proof {
        law_links_are_accounted_for(entries, ns.prefixes(), *opts, all, found@, n as int);
    }
    let tables = Tables::of(&found, idx.article_count());
    (pass.stats, found, tables)
}

// ---------------------------------------------------------------------------
// Laws
// ---------------------------------------------------------------------------

proof fn lemma_kept_are_articles(
    entries: Seq<Entry>,
    prefixes: Set<Seq<char>>,
    src: u32,
    links: Seq<Seq<char>>,
    d: u32,
)
    requires
        entries.len() <= u32::MAX,
        link_tally(entries, prefixes, src, links).kept.contains(d),
    ensures
        d != src,
        d < articles_before(entries, entries.len() as int),
    decreases links.len(),
{
    if links.len() > 0 {
        let rest = link_tally(entries, prefixes, src, links.drop_last());
        let all = link_tally(entries, prefixes, src, links);
        let raw = links.last();
        let k = choose|k: int| 0 <= k < all.kept.len() && all.kept[k] == d;
        if k < rest.kept.len() {
            assert(rest.kept[k] == d);
            lemma_kept_are_articles(entries, prefixes, src, links.drop_last(), d);
        } else {
            law_ids_are_dense(entries, raw);
            if normalized(raw) is Some {
                law_ids_are_dense(entries, normalized(raw)->0);
            }
        }
    }
}

/// Links lead from one article to another: never to the page itself, and never
/// to what is no article.
pub proof fn law_links_lead_to_other_articles(
    links: PageLinks,
    entries: Seq<Entry>,
    prefixes: Set<Seq<char>>,
    opts: CleanOpts,
    page: PageView,
    src: u32,
    i: int,
)
    requires
        entries.len() <= u32::MAX,
        describes(links, entries, prefixes, opts, page, src),
        0 <= i < links.targets@.len(),
    ensures
        links.targets@[i] != links.src,
        links.targets@[i] < articles_before(entries, entries.len() as int),
{
    let all = link_targets(cleaned(page.text, opts), 0);
    assert(links.targets@.contains(links.targets@[i]));
    lemma_kept_are_articles(entries, prefixes, src, all, links.targets@[i]);
}

/// A page gives each link once, however often and in however many spellings
/// its text holds it.
pub proof fn law_links_come_once(links: PageLinks, i: int, j: int)
    requires
        increasing(links.targets@),
        0 <= i < j < links.targets@.len(),
    ensures
        links.targets@[i] != links.targets@[j],
{
}

proof fn lemma_taken_pages(entries: Seq<Entry>, pages: Seq<PageView>, n: int)
    requires
        n <= pages.len(),
    ensures
        forall|k: int|
            0 <= k < taken_pages(entries, pages, n).len() ==> {
                let at = #[trigger] taken_pages(entries, pages, n)[k];
                0 <= at < n && page_article(entries, pages[at]) is Some
            },
        forall|k: int, l: int|
            #![trigger taken_pages(entries, pages, n)[k], taken_pages(entries, pages, n)[l]]
            0 <= k < l < taken_pages(entries, pages, n).len() ==> page_article(
                entries,
                pages[taken_pages(entries, pages, n)[k]],
            ) != page_article(entries, pages[taken_pages(entries, pages, n)[l]]),
    decreases n,
{
    if n > 0 {
        lemma_taken_pages(entries, pages, n - 1);
        let rest = taken_pages(entries, pages, n - 1);
        let all = taken_pages(entries, pages, n);
        assert forall|k: int| 0 <= k < all.len() implies {
            let at = #[trigger] all[k];
            0 <= at < n && page_article(entries, pages[at]) is Some
        } by {
            if k < rest.len() {
                assert(all[k] == rest[k]);
            }
        }
        assert forall|k: int, l: int|
            #![trigger all[k], all[l]]
            0 <= k < l < all.len() implies page_article(entries, pages[all[k]]) != page_article(
            entries,
            pages[all[l]],
        ) by {
            assert(all[k] == rest[k]);
            if l < rest.len() {
                assert(all[l] == rest[l]);
            } else {
                let src = page_article(entries, pages[n - 1])->0;
                assert(!is_taken(entries, pages, rest, src));
            }
        }
    }
}

/// Deduplication within a page is deduplication of everything: as each article
/// is taken from one page only, no link comes out twice in a whole dump.
pub proof fn law_no_link_comes_twice(
    entries: Seq<Entry>,
    prefixes: Set<Seq<char>>,
    opts: CleanOpts,
    pages: Seq<PageView>,
    found: Seq<PageLinks>,
    k: int,
    i: int,
    l: int,
    j: int,
)
    requires
        found.len() == taken_pages(entries, pages, pages.len() as int).len(),
        forall|m: int|
            0 <= m < found.len() ==> describes(
                #[trigger] found[m],
                entries,
                prefixes,
                opts,
                pages[taken_pages(entries, pages, pages.len() as int)[m]],
                page_article(
                    entries,
                    pages[taken_pages(entries, pages, pages.len() as int)[m]],
                )->0,
            ),
        0 <= k < found.len(),
        0 <= l < found.len(),
        0 <= i < found[k].targets@.len(),
        0 <= j < found[l].targets@.len(),
        found[k].src == found[l].src,
        found[k].targets@[i] == found[l].targets@[j],
    ensures
        k == l,
        i == j,
{
    lemma_taken_pages(entries, pages, pages.len() as int);
    let taken = taken_pages(entries, pages, pages.len() as int);
    assert(page_article(entries, pages[taken[k]]) is Some);
    assert(page_article(entries, pages[taken[l]]) is Some);
    if k < l {
        assert(page_article(entries, pages[taken[k]]) != page_article(entries, pages[taken[l]]));
    } else if l < k {
        assert(page_article(entries, pages[taken[l]]) != page_article(entries, pages[taken[k]]));
    }
    if i < j {
        assert(found[k].targets@[i] < found[k].targets@[j]);
    } else if j < i {
        assert(found[k].targets@[j] < found[k].targets@[i]);
    }
}

/// Every link that was seen is accounted for once: it is of another namespace,
/// or red, or to the page itself, or a duplicate, or written.
pub proof fn law_links_are_accounted_for(
    entries: Seq<Entry>,
    prefixes: Set<Seq<char>>,
    opts: CleanOpts,
    pages: Seq<PageView>,
    found: Seq<PageLinks>,
    n: int,
)
    requires
        0 <= n <= pages.len(),
        text_total(pages, n) <= u64::MAX,
        taken_pages(entries, pages, n).len() <= found.len(),
        forall|k: int|
            0 <= k < taken_pages(entries, pages, n).len() ==> describes(
                #[trigger] found[k],
                entries,
                prefixes,
                opts,
                pages[taken_pages(entries, pages, n)[k]],
                page_article(entries, pages[taken_pages(entries, pages, n)[k]])->0,
            ),
    ensures
        ({
            let t = totals(entries, prefixes, opts, pages, found, n);
            &&& t.links_seen == t.skipped_namespace + t.red_links + t.self_links + t.duplicate_links
                + t.edges_written
            &&& t.links_seen <= text_total(pages, n)
        }),
    decreases n,
{
    if n > 0 {
        let before = taken_pages(entries, pages, n - 1);
        let after = taken_pages(entries, pages, n);
        assert forall|k: int| 0 <= k < before.len() implies describes(
            #[trigger] found[k],
            entries,
            prefixes,
            opts,
            pages[before[k]],
            page_article(entries, pages[before[k]])->0,
        ) by {
            assert(after[k] == before[k]);
        }
        law_links_are_accounted_for(entries, prefixes, opts, pages, found, n - 1);
        let page = pages[n - 1];
        if page_article(entries, page) is Some {
            let src = page_article(entries, page)->0;
            if !is_taken(entries, pages, before, src) {
                let clean = cleaned(page.text, opts);
                lemma_cleaned_no_longer(page.text, opts);
                lemma_fewer_links_than_characters(clean, 0);
                lemma_tally_bounds(entries, prefixes, src, link_targets(clean, 0));
                assert(after == before.push(n - 1));
                let links = found[before.len() as int];
                assert(describes(links, entries, prefixes, opts, page, src));
            }
        }
    }
}

/// The tables of a dump hold, for every article whose page was taken, what that
/// page has.
pub proof fn law_tables_hold_every_page(
    entries: Seq<Entry>,
    prefixes: Set<Seq<char>>,
    opts: CleanOpts,
    pages: Seq<PageView>,
    found: Seq<PageLinks>,
    k: int,
    n: nat,
)
    requires
        found.len() == taken_pages(entries, pages, pages.len() as int).len(),
        forall|m: int|
            0 <= m < found.len() ==> describes(
                #[trigger] found[m],
                entries,
                prefixes,
                opts,
                pages[taken_pages(entries, pages, pages.len() as int)[m]],
                page_article(
                    entries,
                    pages[taken_pages(entries, pages, pages.len() as int)[m]],
                )->0,
            ),
        0 <= k < found.len(),
        found[k].src < n,
    ensures
        column(size_rows(found), n)[found[k].src as int] == found[k].size,
        column(flag_rows(found), n)[found[k].src as int] == found[k].extras.flags,
{
    lemma_taken_pages(entries, pages, pages.len() as int);
    let taken = taken_pages(entries, pages, pages.len() as int);
    assert forall|j: int| k < j < found.len() implies (#[trigger] found[j]).src != found[k].src by {
        assert(found[j].src == page_article(entries, pages[taken[j]])->0);
        assert(found[k].src == page_article(entries, pages[taken[k]])->0);
        assert(page_article(entries, pages[taken[k]]) is Some);
        assert(page_article(entries, pages[taken[j]]) is Some);
        assert(page_article(entries, pages[taken[k]]) != page_article(entries, pages[taken[j]]));
    }
    lemma_column_keeps(size_rows(found), n, k);
    lemma_column_keeps(flag_rows(found), n, k);
}

proof fn lemma_column_keeps(rows: Seq<(u32, u32)>, n: nat, k: int)
    requires
        0 <= k < rows.len(),
        rows[k].0 < n,
        forall|j: int| k < j < rows.len() ==> (#[trigger] rows[j]).0 != rows[k].0,
    ensures
        column(rows, n).len() == n,
        column(rows, n)[rows[k].0 as int] == rows[k].1,
    decreases rows.len(),
{
    let rest = rows.drop_last();
    lemma_column_len(rest, n);
    if k < rest.len() {
        assert(rest[k] == rows[k]);
        assert forall|j: int| k < j < rest.len() implies (#[trigger] rest[j]).0 != rest[k].0 by {
            assert(rest[j] == rows[j]);
        }
        lemma_column_keeps(rest, n, k);
        assert(rows[rows.len() - 1].0 != rows[k].0);
    }
}

proof fn lemma_column_len(rows: Seq<(u32, u32)>, n: nat)
    ensures
        column(rows, n).len() == n,
    decreases rows.len(),
{
    if rows.len() > 0 {
        lemma_column_len(rows.drop_last(), n);
    }
}

/// A page is filed under a few categories at most, each once, and never under
/// one that is kept for maintenance.
pub proof fn law_categories_say_what_a_page_is_about(links: Seq<Seq<char>>)
    ensures
        category_tally(links).0.len() <= MAX_CATEGORIES_PER_ARTICLE,
        category_tally(links).0.no_duplicates(),
        forall|i: int|
            0 <= i < category_tally(links).0.len() ==> !is_maintenance(
                #[trigger] category_tally(links).0[i],
            ),
    decreases links.len(),
{
    if links.len() > 0 {
        law_categories_say_what_a_page_is_about(links.drop_last());
        let rest = category_tally(links.drop_last()).0;
        let all = category_tally(links).0;
        assert forall|i: int| 0 <= i < all.len() implies !is_maintenance(#[trigger] all[i]) by {
            if i < rest.len() {
                assert(all[i] == rest[i]);
            }
        }
    }
}

// ---------------------------------------------------------------------------
// Sizes
// ---------------------------------------------------------------------------

/// The numbers of a list that are not zero.
pub open spec fn not_zero(list: Seq<u32>) -> Seq<u32>
    decreases list.len(),
{
    if list.len() == 0 {
        seq![]
    } else {
        let rest = not_zero(list.drop_last());
        if list.last() > 0 {
            rest.push(list.last())
        } else {
            rest
        }
    }
}

/// The median of the sizes that are known, the upper of two, or zero where
/// none is.
pub fn median_size(sizes: &Vec<u32>) -> (r: u32)
    ensures
        not_zero(sizes@).len() == 0 ==> r == 0,
        not_zero(sizes@).len() > 0 ==> exists|s: Seq<u32>| #[trigger]
            is_sorted_copy(s, not_zero(sizes@)) && s.len() == not_zero(sizes@).len() && r
                == s[s.len() as int / 2],
{
    let n: usize = sizes.len();
    let mut known: Vec<u32> = Vec::new();
    let mut i: usize = 0;
    assert(sizes@.take(0) =~= Seq::<u32>::empty());
    while i < n
        invariant
            n == sizes@.len(),
            i <= n,
            known@ == not_zero(sizes@.take(i as int)),
        decreases n - i,
    {
        assert(sizes@.take(i + 1).drop_last() =~= sizes@.take(i as int));
        if sizes[i] > 0 {
            known.push(sizes[i]);
        }
        i = i + 1;
    }
    assert(sizes@.take(n as int) =~= sizes@);
    let ghost leq = by_size();
    let f = |a: u32, b: u32| -> (r: bool)
        ensures
            r == (a <= b),
        { a <= b };
    let sorted = sort_by(&known, &f, Ghost(leq));
    proof {
        lemma_same_members(sorted@, known@);
    }
    if sorted.len() == 0 {
        0
    } else {
        assert(is_sorted_copy(sorted@, known@));
        sorted[sorted.len() / 2]
    }
}

/// A link counts once: for another namespace where its prefix says so, else for
/// a missing page where it leads to no article, else for a page that links to
/// itself, and else as a link to where it leads.
pub proof fn law_links_are_told_apart(
    entries: Seq<Entry>,
    prefixes: Set<Seq<char>>,
    src: u32,
    links: Seq<Seq<char>>,
    raw: Seq<char>,
)
    ensures
        ({
            let t = link_tally(entries, prefixes, src, links);
            let r = link_tally(entries, prefixes, src, links.push(raw));
            let to = link_destination(entries, raw);
            &&& r.seen == t.seen + 1
            &&& r.foreign == t.foreign + (if has_prefix(prefixes, raw) {
                1int
            } else {
                0
            })
            &&& r.red == t.red + (if !has_prefix(prefixes, raw) && to is None {
                1int
            } else {
                0
            })
            &&& r.own == t.own + (if !has_prefix(prefixes, raw) && to == Some(src) {
                1int
            } else {
                0
            })
            &&& r.kept == (if !has_prefix(prefixes, raw) && to is Some && to != Some(src) {
                t.kept.push(to->0)
            } else {
                t.kept
            })
        }),
        link_tally(entries, prefixes, src, Seq::empty()).kept.len() == 0,
{
    assert(links.push(raw).drop_last() =~= links);
}

/// A link leads to the article that its text names, in normal form or as it
/// stands.
pub proof fn law_links_lead_to_what_they_name(entries: Seq<Entry>, raw: Seq<char>, id: u32)
    ensures
        link_destination(entries, raw) == Some(id) ==> article_named(entries, raw) == Some(id) || (
        normalized(raw) is Some && article_named(entries, normalized(raw)->0) == Some(id)),
        normalized(raw) == Some(raw) ==> link_destination(entries, raw) == article_named(
            entries,
            raw,
        ),
        article_named(entries, raw) is None && normalized(raw) is Some ==> link_destination(
            entries,
            raw,
        ) == article_named(entries, normalized(raw)->0),
        article_named(entries, raw) is None && normalized(raw) is None ==> link_destination(
            entries,
            raw,
        ) is None,
{
}

/// Every link of a page to another article is a link of that article, whatever
/// else the page holds.
pub proof fn law_every_link_is_written(
    links: PageLinks,
    entries: Seq<Entry>,
    prefixes: Set<Seq<char>>,
    opts: CleanOpts,
    page: PageView,
    src: u32,
    k: int,
)
    requires
        describes(links, entries, prefixes, opts, page, src),
        ({
            let found = link_targets(cleaned(page.text, opts), 0);
            &&& 0 <= k < found.len()
            &&& !has_prefix(prefixes, found[k])
            &&& link_destination(entries, found[k]) is Some
            &&& link_destination(entries, found[k]) != Some(src)
        }),
    ensures
        links.src == src,
        links.targets@.contains(
            link_destination(entries, link_targets(cleaned(page.text, opts), 0)[k])->0,
        ),
        byte_len(page.text) <= u32::MAX ==> links.size == byte_len(page.text),
{
    let found = link_targets(cleaned(page.text, opts), 0);
    lemma_link_is_kept(entries, prefixes, src, found, k);
}

proof fn lemma_link_is_kept(
    entries: Seq<Entry>,
    prefixes: Set<Seq<char>>,
    src: u32,
    links: Seq<Seq<char>>,
    k: int,
)
    requires
        0 <= k < links.len(),
        !has_prefix(prefixes, links[k]),
        link_destination(entries, links[k]) is Some,
        link_destination(entries, links[k]) != Some(src),
    ensures
        link_tally(entries, prefixes, src, links).kept.contains(
            link_destination(entries, links[k])->0,
        ),
    decreases links.len(),
{
    let d = link_destination(entries, links[k])->0;
    let rest = links.drop_last();
    let t = link_tally(entries, prefixes, src, rest);
    let r = link_tally(entries, prefixes, src, links);
    if k < rest.len() {
        assert(rest[k] == links[k]);
        lemma_link_is_kept(entries, prefixes, src, rest, k);
        let at = choose|at: int| 0 <= at < t.kept.len() && t.kept[at] == d;
        assert(r.kept[at] == d);
    } else {
        assert(r.kept.last() == d);
    }
}

/// Six categories are kept, the first that a page names. Where it is fewer,
/// none was left out but those for upkeep; what is kept was named.
pub proof fn law_the_first_categories_are_kept(links: Seq<Seq<char>>, k: int)
    requires
        0 <= k < links.len(),
    ensures
        category_tally(links).0.len() <= 6,
        category_tally(links).0.len() < 6 && category_of(links[k]) is Some && !is_maintenance(
            category_of(links[k])->0,
        ) ==> category_tally(links).0.contains(category_of(links[k])->0),
        forall|i: int|
            0 <= i < category_tally(links).0.len() ==> exists|j: int|
                0 <= j < links.len() && category_of(#[trigger] links[j]) == Some(
                    #[trigger] category_tally(links).0[i],
                ),
{
    law_categories_say_what_a_page_is_about(links);
    lemma_category_is_kept(links, k);
    lemma_categories_are_named(links);
}

proof fn lemma_category_is_kept(links: Seq<Seq<char>>, k: int)
    requires
        0 <= k < links.len(),
    ensures
        category_tally(links).0.len() < 6 && category_of(links[k]) is Some && !is_maintenance(
            category_of(links[k])->0,
        ) ==> category_tally(links).0.contains(category_of(links[k])->0),
    decreases links.len(),
{
    let rest = links.drop_last();
    let a = category_tally(rest).0;
    let b = category_tally(links).0;
    if a.len() < 6 {
        if category_of(links[k]) is Some && !is_maintenance(category_of(links[k])->0) {
            let c = category_of(links[k])->0;
            if k < rest.len() {
                assert(rest[k] == links[k]);
                lemma_category_is_kept(rest, k);
                let at = choose|at: int| 0 <= at < a.len() && a[at] == c;
                assert(b[at] == c);
            } else if !a.contains(c) {
                assert(b.last() == c);
            }
        }
    }
}

proof fn lemma_categories_are_named(links: Seq<Seq<char>>)
    ensures
        forall|i: int|
            0 <= i < category_tally(links).0.len() ==> exists|j: int|
                0 <= j < links.len() && category_of(#[trigger] links[j]) == Some(
                    #[trigger] category_tally(links).0[i],
                ),
    decreases links.len(),
{
    if links.len() > 0 {
        let rest = links.drop_last();
        lemma_categories_are_named(rest);
        let a = category_tally(rest).0;
        let b = category_tally(links).0;
        assert forall|i: int| 0 <= i < b.len() implies exists|j: int|
            0 <= j < links.len() && category_of(#[trigger] links[j]) == Some(#[trigger] b[i]) by {
            if i < a.len() {
                assert(b[i] == a[i]);
                let j = choose|j: int|
                    0 <= j < rest.len() && category_of(#[trigger] rest[j]) == Some(a[i]);
                assert(links[j] == rest[j]);
            } else {
                assert(links[links.len() - 1] == links.last());
            }
        }
    }
}

/// Only pages of the main namespace that are no redirects are articles.
pub proof fn law_articles_are_pages_of_their_own(entries: Seq<Entry>, page: PageView)
    ensures
        page_article(entries, page) is Some ==> page.ns == 0 && page.redirect is None
            && normalized(page.title) is Some,
        page.ns == 0 && page.redirect is None && normalized(page.title) is Some ==> page_article(
            entries,
            page,
        ) == article_named(entries, normalized(page.title)->0),
{
}
/// Of the pages for one article the first is taken, and no other; pages that are
/// no articles are not.
pub proof fn law_the_first_page_is_taken(
    entries: Seq<Entry>,
    pages: Seq<PageView>,
    n: int,
    k: int,
)
    requires
        0 <= k < n <= pages.len(),
    ensures
        taken_pages(entries, pages, n).contains(k) <==> page_article(entries, pages[k]) is Some
            && forall|j: int|
            0 <= j < k ==> page_article(entries, #[trigger] pages[j]) != page_article(
                entries,
                pages[k],
            ),
    decreases n,
{
    let rest = taken_pages(entries, pages, n - 1);
    let all = taken_pages(entries, pages, n);
    lemma_taken_pages(entries, pages, n - 1);
    if k < n - 1 {
        law_the_first_page_is_taken(entries, pages, n - 1, k);
        if rest.contains(k) {
            let at = choose|at: int| 0 <= at < rest.len() && rest[at] == k;
            assert(all[at] == k);
        }
        if all.contains(k) {
            let at = choose|at: int| 0 <= at < all.len() && all[at] == k;
            assert(at < rest.len());
            assert(rest[at] == k);
        }
    } else {
        if page_article(entries, pages[k]) is Some {
            let src = page_article(entries, pages[k])->0;
            if is_taken(entries, pages, rest, src) {
                let at = choose|at: int|
                    0 <= at < rest.len() && page_article(entries, pages[#[trigger] rest[at]])
                        == Some(src);
                assert(0 <= rest[at] < k);
                assert(page_article(entries, pages[rest[at]]) == page_article(entries, pages[k]));
            } else {
                lemma_untaken(entries, pages, n - 1, src);
                assert(all.last() == k);
            }
        }
        if all.contains(k) {
            let at = choose|at: int| 0 <= at < all.len() && all[at] == k;
            if at < rest.len() {
                assert(rest[at] == k);
                assert(rest[at] < n - 1);
            }
        }
    }
}

proof fn lemma_untaken(entries: Seq<Entry>, pages: Seq<PageView>, n: int, src: u32)
    requires
        0 <= n <= pages.len(),
        !is_taken(entries, pages, taken_pages(entries, pages, n), src),
    ensures
        forall|j: int| 0 <= j < n ==> page_article(entries, #[trigger] pages[j]) != Some(src),
    decreases n,
{
    if n > 0 {
        let rest = taken_pages(entries, pages, n - 1);
        let all = taken_pages(entries, pages, n);
        if is_taken(entries, pages, rest, src) {
            let at = choose|at: int|
                0 <= at < rest.len() && page_article(entries, pages[#[trigger] rest[at]]) == Some(
                    src,
                );
            assert(all[at] == rest[at]);
        }
        lemma_untaken(entries, pages, n - 1, src);
        if page_article(entries, pages[n - 1]) == Some(src) {
            assert(all.last() == n - 1);
            assert(all[all.len() - 1] == n - 1);
        }
    }
}

/// A page adds one to the pages, and to each other count what it has of it: the
/// links that it has more than once are duplicates.
pub proof fn law_pages_add_up(
    stats: Pass2Stats,
    tally: LinkTally,
    skipped: nat,
    n_targets: nat,
    n_categories: nat,
)
    requires
        stats.pages_scanned < u64::MAX,
        stats.links_seen + tally.seen <= u64::MAX,
        stats.skipped_namespace + tally.foreign <= u64::MAX,
        stats.red_links + tally.red <= u64::MAX,
        stats.self_links + tally.own <= u64::MAX,
        n_targets <= tally.kept.len(),
        stats.duplicate_links + tally.kept.len() <= u64::MAX,
        stats.edges_written + n_targets <= u64::MAX,
        stats.categories_written + n_categories <= u64::MAX,
        stats.categories_skipped_maintenance + skipped <= u64::MAX,
    ensures
        ({
            let r = counted(stats, tally, skipped, n_targets, n_categories);
            &&& r.pages_scanned == stats.pages_scanned + 1
            &&& r.links_seen == stats.links_seen + tally.seen
            &&& r.skipped_namespace == stats.skipped_namespace + tally.foreign
            &&& r.red_links == stats.red_links + tally.red
            &&& r.self_links == stats.self_links + tally.own
            &&& r.duplicate_links + n_targets == stats.duplicate_links + tally.kept.len()
            &&& r.duplicate_pages == stats.duplicate_pages
            &&& r.edges_written == stats.edges_written + n_targets
            &&& r.categories_written == stats.categories_written + n_categories
            &&& r.categories_skipped_maintenance == stats.categories_skipped_maintenance + skipped
        }),
{
}
} // verus!
