//! The articles, the links between them, and how titles lead to articles.

use crate::csr::{adjacency, lemma_adjacency_valid};
use crate::fx::{get_title, no_titles, nothing, put_title, titles_in};
use crate::titles::{normalize_title, normalized};
use crate::walks::{closed_under_links, transposed};
use rustc_hash::FxHashMap;
use vstd::prelude::*;

pub use crate::csr::Csr;
pub use crate::levels::NONE;
pub use crate::paths::PathFinder;
pub use crate::sweep::UNSEEN;

verus! {

/// The articles and the links between them, in both directions.
pub struct Graph {
    pub forward: Csr,
    pub reverse: Csr,
    pub titles: Vec<String>,
    pub lookup: Lookup,
    pub n_redirect_aliases: usize,
}

/// How titles and redirect aliases lead to articles.
pub struct Lookup {
    /// Normalized title (article or redirect alias) -> article id.
    map: FxHashMap<Box<str>, u32>,
    /// The redirect aliases in `map`, in the order they came.
    aliases: Vec<(String, u32)>,
}

/// The texts of some strings.
pub open spec fn texts(v: Seq<String>) -> Seq<Seq<char>> {
    Seq::new(v.len(), |i: int| v[i]@)
}

/// `t`, made long enough to hold a place `id`.
pub open spec fn with_place(t: Seq<Seq<char>>, id: nat) -> Seq<Seq<char>> {
    if id < t.len() {
        t
    } else {
        t + Seq::new((id + 1 - t.len()) as nat, |i: int| Seq::<char>::empty())
    }
}

/// The titles by id. Where an id comes twice the later row counts, and where
/// it never comes the title is empty.
pub open spec fn titles_by_id(rows: Seq<(u32, String)>) -> Seq<Seq<char>>
    decreases rows.len(),
{
    if rows.len() == 0 {
        seq![]
    } else {
        let (id, title) = rows.last();
        with_place(titles_by_id(rows.drop_last()), id as nat).update(id as int, title@)
    }
}

/// Where the normal forms of the titles lead. Of two titles with one normal
/// form the later counts.
pub open spec fn article_table(titles: Seq<Seq<char>>) -> Map<Seq<char>, u32>
    decreases titles.len(),
{
    if titles.len() == 0 {
        nothing()
    } else {
        let rest = article_table(titles.drop_last());
        match normalized(titles.last()) {
            Some(t) => rest.insert(t, (titles.len() - 1) as u32),
            None => rest,
        }
    }
}

/// The redirect aliases that lead to an article: those whose target is one of
/// the `n` articles and whose normal form is not taken yet.
pub open spec fn alias_list(
    table: Map<Seq<char>, u32>,
    rows: Seq<(u32, String)>,
    n: nat,
) -> Seq<(Seq<char>, u32)>
    decreases rows.len(),
{
    if rows.len() == 0 {
        seq![]
    } else {
        let rest = alias_list(table, rows.drop_last(), n);
        let (target, alias) = rows.last();
        match normalized(alias@) {
            Some(t) => if target < n && !alias_table(table, rest).contains_key(t) {
                rest.push((t, target))
            } else {
                rest
            },
            None => rest,
        }
    }
}

/// A table with some aliases added.
pub open spec fn alias_table(
    table: Map<Seq<char>, u32>,
    list: Seq<(Seq<char>, u32)>,
) -> Map<Seq<char>, u32>
    decreases list.len(),
{
    if list.len() == 0 {
        table
    } else {
        alias_table(table, list.drop_last()).insert(list.last().0, list.last().1)
    }
}

/// The texts of some entries.
pub open spec fn entries(v: Seq<(String, u32)>) -> Seq<(Seq<char>, u32)> {
    Seq::new(v.len(), |i: int| (v[i].0@, v[i].1))
}

/// What a table says of the normal form of a query.
pub open spec fn looked_up(table: Map<Seq<char>, u32>, query: Seq<char>) -> Option<u32> {
    match normalized(query) {
        Some(t) => if table.contains_key(t) {
            Some(table[t])
        } else {
            None
        },
        None => None,
    }
}

proof fn lemma_article_table_in_range(titles: Seq<Seq<char>>, t: Seq<char>)
    requires
        titles.len() <= u32::MAX,
        article_table(titles).contains_key(t),
    ensures
        article_table(titles)[t] < titles.len(),
    decreases titles.len(),
{
    if titles.len() > 0 {
        let rest = article_table(titles.drop_last());
        if rest.contains_key(t) {
            lemma_article_table_in_range(titles.drop_last(), t);
        }
    }
}

impl Lookup {
    /// Where normal forms lead: to articles by their titles and by redirects.
    pub closed spec fn table(&self) -> Map<Seq<char>, u32> {
        titles_in(self.map)
    }

    /// The redirect aliases and the articles they lead to.
    pub closed spec fn alias_entries(&self) -> Seq<(Seq<char>, u32)> {
        entries(self.aliases@)
    }
}

impl Graph {
    /// The two directions describe the same links, each between two articles,
    /// and titles lead to articles.
    pub open spec fn wf(&self) -> bool {
        &&& self.titles@.len() < u32::MAX
        &&& self.forward@.len() == self.titles@.len()
        &&& self.reverse@.len() == self.titles@.len()
        &&& closed_under_links(self.forward@)
        &&& closed_under_links(self.reverse@)
        &&& transposed(self.forward@, self.reverse@)
        &&& forall|t: Seq<char>|
            self.lookup.table().contains_key(t) ==> #[trigger] self.lookup.table()[t] < self.titles@.len()
        &&& forall|i: int|
            0 <= i < self.lookup.alias_entries().len() ==> #[trigger] self.lookup.alias_entries()[i].1
                < self.titles@.len()
        &&& self.n_redirect_aliases == self.lookup.alias_entries().len()
    }

    /// Build the graph from the rows of its tables: titles by id, redirects by
    /// the id of their target, and links.
    ///
    /// Redirect aliases make lookups behave the way a reader expects: "USA"
    /// finds "United States". Articles win on collision, since an alias must
    /// never shadow a real article.
    pub fn load(
        title_rows: &[(u32, String)],
        redirect_rows: &[(u32, String)],
        edges: &[(u32, u32)],
    ) -> (r: Graph)
        requires
            forall|i: int| 0 <= i < title_rows@.len() ==> #[trigger] title_rows@[i].0 < u32::MAX - 1,
            edges@.len() <= u32::MAX,
        ensures
            r.wf(),
            texts(r.titles@) == titles_by_id(title_rows@),
            r.forward@ == adjacency(edges@, r.titles@.len(), false),
            r.reverse@ == adjacency(edges@, r.titles@.len(), true),
            r.lookup.alias_entries() == alias_list(
                article_table(titles_by_id(title_rows@)),
                redirect_rows@,
                r.titles@.len(),
            ),
            r.lookup.table() == alias_table(
                article_table(titles_by_id(title_rows@)),
                r.lookup.alias_entries(),
            ),
    {
        let titles = place_titles(title_rows);
        let n: usize = titles.len();
        let mut map = no_titles();
        let ghost all = texts(titles@);
        let mut i: usize = 0;
        assert(all.take(0) =~= Seq::<Seq<char>>::empty());
        while i < n
            invariant
                n == titles@.len(),
                n < u32::MAX,
                i <= n,
                all == texts(titles@),
                titles_in(map) == article_table(all.take(i as int)),
            decreases n - i,
        {
            proof {
                assert(all.take(i + 1).drop_last() =~= all.take(i as int));
            }
            if let Some(norm) = normalize_title(titles[i].as_str()) {
                put_title(&mut map, norm, i as u32);
            }
            i = i + 1;
        }
        assert(all.take(n as int) =~= all);
        let ghost table = article_table(all);
        let mut aliases: Vec<(String, u32)> = Vec::new();
        let m: usize = redirect_rows.len();
        let mut j: usize = 0;
        assert(redirect_rows@.take(0) =~= Seq::<(u32, String)>::empty());
        assert(entries(aliases@) =~= Seq::<(Seq<char>, u32)>::empty());
        while j < m
            invariant
                m == redirect_rows@.len(),
                n < u32::MAX,
                j <= m,
                entries(aliases@) == alias_list(table, redirect_rows@.take(j as int), n as nat),
                titles_in(map) == alias_table(table, entries(aliases@)),
                forall|k: int| 0 <= k < aliases@.len() ==> #[trigger] aliases@[k].1 < n,
            decreases m - j,
        {
            proof {
                assert(redirect_rows@.take(j + 1).drop_last() =~= redirect_rows@.take(j as int));
            }
            let target: u32 = redirect_rows[j].0;
            if (target as usize) < n {
                if let Some(norm) = normalize_title(redirect_rows[j].1.as_str()) {
                    if get_title(&map, norm.as_str()).is_none() {
                        let ghost before = entries(aliases@);
                        aliases.push((norm.clone(), target));
                        proof {
                            assert(entries(aliases@) =~= before.push((norm@, target)));
                            assert(entries(aliases@).drop_last() =~= before);
                        }
                        put_title(&mut map, norm, target);
                    }
                }
            }
            j = j + 1;
        }
        assert(redirect_rows@.take(m as int) =~= redirect_rows@);
        let forward = Csr::from_edges(n, edges, false);
        let reverse = Csr::from_edges(n, edges, true);
        let n_redirect_aliases: usize = aliases.len();
        let lookup = Lookup { map, aliases };
        let r = Graph { forward, reverse, titles, lookup, n_redirect_aliases };
        proof {
            lemma_adjacency_valid(edges@, n as nat);
            assert forall|t: Seq<char>| r.lookup.table().contains_key(t) implies #[trigger] r.lookup.table()[t]
                < n by {
                lemma_alias_table_in_range(table, entries(aliases@), n as nat, t);
            }
        }
        r
    }

    pub fn len(&self) -> (r: usize)
        ensures
            r == self.titles@.len(),
    {
        self.titles.len()
    }

    pub fn is_empty(&self) -> (r: bool)
        ensures
            r == (self.titles@.len() == 0),
    {
        self.titles.len() == 0
    }

    /// The article that a title or an alias leads to.
    pub fn resolve(&self, query: &str) -> (r: Option<u32>)
        ensures
            r == looked_up(self.lookup.table(), query@),
    {
        match normalize_title(query) {
            Some(norm) => get_title(&self.lookup.map, norm.as_str()),
            None => None,
        }
    }

    /// The title of an article.
    pub fn title(&self, id: u32) -> (r: &str)
        requires
            id < self.titles@.len(),
        ensures
            r@ == self.titles@[id as int]@,
    {
        self.titles[id as usize].as_str()
    }

    /// The redirect aliases, each with the article it leads to.
    pub fn alias_entries(&self) -> (r: &Vec<(String, u32)>)
        ensures
            entries(r@) == self.lookup.alias_entries(),
    {
        &self.lookup.aliases
    }
}

fn place_titles(rows: &[(u32, String)]) -> (r: Vec<String>)
    requires
        forall|i: int| 0 <= i < rows@.len() ==> #[trigger] rows@[i].0 < u32::MAX - 1,
    ensures
        texts(r@) == titles_by_id(rows@),
        r@.len() < u32::MAX,
{
    let mut titles: Vec<String> = Vec::new();
    let m: usize = rows.len();
    let mut i: usize = 0;
    assert(rows@.take(0) =~= Seq::<(u32, String)>::empty());
    assert(texts(titles@) =~= Seq::<Seq<char>>::empty());
    while i < m
        invariant
            m == rows@.len(),
            i <= m,
            forall|k: int| 0 <= k < rows@.len() ==> #[trigger] rows@[k].0 < u32::MAX - 1,
            texts(titles@) == titles_by_id(rows@.take(i as int)),
            titles@.len() < u32::MAX,
        decreases m - i,
    {
        let id: usize = rows[i].0 as usize;
        let ghost before = texts(titles@);
        proof {
            assert(rows@.take(i + 1).drop_last() =~= rows@.take(i as int));
            assert(rows@[i as int].0 < u32::MAX - 1);
        }
        while id >= titles.len()
            invariant
                id < u32::MAX - 1,
                titles@.len() < u32::MAX,
                before.len() <= titles@.len(),
                titles@.len() <= before.len() || titles@.len() <= id + 1,
                forall|k: int| 0 <= k < before.len() ==> texts(titles@)[k] == before[k],
                forall|k: int|
                    before.len() <= k < titles@.len() ==> texts(titles@)[k] == Seq::<char>::empty(),
            decreases id + 1 - titles@.len(),
        {
            let blank = String::new();
            let ghost shorter = texts(titles@);
            assert(blank@ =~= Seq::<char>::empty());
            titles.push(blank);
            assert(texts(titles@) =~= shorter.push(Seq::<char>::empty()));
        }
        assert(texts(titles@) =~= with_place(before, id as nat));
        let ghost wide = texts(titles@);
        titles.set(id, rows[i].1.as_str().to_owned());
        assert(texts(titles@) =~= wide.update(id as int, rows@[i as int].1@));
        i = i + 1;
    }
    assert(rows@.take(m as int) =~= rows@);
    titles
}

proof fn lemma_alias_table_in_range(
    table: Map<Seq<char>, u32>,
    list: Seq<(Seq<char>, u32)>,
    n: nat,
    t: Seq<char>,
)
    requires
        alias_table(table, list).contains_key(t),
        forall|i: int| 0 <= i < list.len() ==> #[trigger] list[i].1 < n,
        exists|titles: Seq<Seq<char>>|
            titles.len() == n && n <= u32::MAX && table == #[trigger] article_table(titles),
    ensures
        alias_table(table, list)[t] < n,
    decreases list.len(),
{
    if list.len() == 0 {
        let titles = choose|titles: Seq<Seq<char>>|
            titles.len() == n && n <= u32::MAX && table == #[trigger] article_table(titles);
        lemma_article_table_in_range(titles, t);
    } else if t == list.last().0 {
        assert(list[list.len() - 1].1 < n);
    } else {
        assert forall|i: int| 0 <= i < list.drop_last().len() implies #[trigger] list.drop_last()[i].1
            < n by {
            assert(list.drop_last()[i] == list[i]);
        }
        lemma_alias_table_in_range(table, list.drop_last(), n, t);
    }
}

// ---------------------------------------------------------------------------
// Laws
// ---------------------------------------------------------------------------

/// An alias never shadows a title: whatever the titles alone lead to, they
/// still lead to with the aliases added.
pub proof fn law_aliases_never_shadow(
    table: Map<Seq<char>, u32>,
    rows: Seq<(u32, String)>,
    n: nat,
    t: Seq<char>,
)
    requires
        table.contains_key(t),
    ensures
        alias_table(table, alias_list(table, rows, n)).contains_key(t),
        alias_table(table, alias_list(table, rows, n))[t] == table[t],
    decreases rows.len(),
{
    if rows.len() > 0 {
        law_aliases_never_shadow(table, rows.drop_last(), n, t);
        let rest = alias_list(table, rows.drop_last(), n);
        let list = alias_list(table, rows, n);
        if list != rest {
            assert(list.drop_last() =~= rest);
        }
    }
}

/// Of the articles with one normal form, the last is found by it.
pub proof fn law_articles_are_found(titles: Seq<Seq<char>>, id: int)
    requires
        titles.len() <= u32::MAX,
        0 <= id < titles.len(),
        normalized(titles[id]) is Some,
        forall|k: int|
            id < k < titles.len() ==> normalized(#[trigger] titles[k]) != normalized(titles[id]),
    ensures
        article_table(titles).contains_key(normalized(titles[id])->0),
        article_table(titles)[normalized(titles[id])->0] == id,
    decreases titles.len(),
{
    if id < titles.len() - 1 {
        let rest = titles.drop_last();
        assert forall|k: int| id < k < rest.len() implies normalized(#[trigger] rest[k])
            != normalized(rest[id]) by {
            assert(rest[k] == titles[k]);
        }
        law_articles_are_found(rest, id);
        assert(normalized(titles[titles.len() - 1]) != normalized(titles[id]));
    }
}

/// A title stands at the id that the last row for that id gives it; where no
/// row names an id there is no title, and the list ends with the highest id.
pub proof fn law_titles_stand_at_their_ids(rows: Seq<(u32, String)>, k: int, id: int)
    requires
        0 <= k < rows.len(),
        0 <= id < titles_by_id(rows).len(),
    ensures
        rows[k].0 < titles_by_id(rows).len(),
        exists|j: int| 0 <= j < rows.len() && #[trigger] rows[j].0 == titles_by_id(rows).len() - 1,
        (forall|j: int| k < j < rows.len() ==> #[trigger] rows[j].0 != rows[k].0) ==> titles_by_id(
            rows,
        )[rows[k].0 as int] == rows[k].1@,
        (forall|j: int| 0 <= j < rows.len() ==> #[trigger] rows[j].0 != id) ==> titles_by_id(
            rows,
        )[id].len() == 0,
{
    lemma_titles_reach(rows, k);
    lemma_titles_end(rows);
    if forall|j: int| k < j < rows.len() ==> #[trigger] rows[j].0 != rows[k].0 {
        lemma_last_title_stays(rows, k);
    }
    if forall|j: int| 0 <= j < rows.len() ==> #[trigger] rows[j].0 != id {
        lemma_no_title(rows, id);
    }
}

proof fn lemma_titles_reach(rows: Seq<(u32, String)>, k: int)
    requires
        0 <= k < rows.len(),
    ensures
        rows[k].0 < titles_by_id(rows).len(),
    decreases rows.len(),
{
    if k < rows.len() - 1 {
        lemma_titles_reach(rows.drop_last(), k);
        assert(rows.drop_last()[k] == rows[k]);
    }
}

proof fn lemma_titles_end(rows: Seq<(u32, String)>)
    requires
        rows.len() > 0,
    ensures
        exists|j: int| 0 <= j < rows.len() && #[trigger] rows[j].0 == titles_by_id(rows).len() - 1,
    decreases rows.len(),
{
    let rest = rows.drop_last();
    let id = rows.last().0;
    if id < titles_by_id(rest).len() {
        lemma_titles_end(rest);
        let j = choose|j: int|
            0 <= j < rest.len() && #[trigger] rest[j].0 == titles_by_id(rest).len() - 1;
        assert(rows[j] == rest[j]);
    } else {
        assert(rows[rows.len() - 1].0 == id);
    }
}

proof fn lemma_last_title_stays(rows: Seq<(u32, String)>, k: int)
    requires
        0 <= k < rows.len(),
        forall|j: int| k < j < rows.len() ==> #[trigger] rows[j].0 != rows[k].0,
    ensures
        rows[k].0 < titles_by_id(rows).len(),
        titles_by_id(rows)[rows[k].0 as int] == rows[k].1@,
    decreases rows.len(),
{
    let rest = rows.drop_last();
    if k < rest.len() {
        assert(forall|j: int| 0 <= j < rest.len() ==> rest[j] == rows[j]);
        lemma_last_title_stays(rest, k);
        assert(rows[rows.len() - 1].0 != rows[k].0);
    }
}

proof fn lemma_no_title(rows: Seq<(u32, String)>, id: int)
    requires
        0 <= id < titles_by_id(rows).len(),
        forall|j: int| 0 <= j < rows.len() ==> #[trigger] rows[j].0 != id,
    ensures
        titles_by_id(rows)[id].len() == 0,
    decreases rows.len(),
{
    if rows.len() > 0 {
        let rest = rows.drop_last();
        assert(rows[rows.len() - 1].0 != id);
        assert(forall|j: int| 0 <= j < rest.len() ==> rest[j] == rows[j]);
        if id < titles_by_id(rest).len() {
            lemma_no_title(rest, id);
        }
    }
}

/// Under a name that no article has, the first redirect of that name that leads
/// to an article is found.
pub proof fn law_aliases_are_found(
    table: Map<Seq<char>, u32>,
    rows: Seq<(u32, String)>,
    n: nat,
    k: int,
)
    requires
        0 <= k < rows.len(),
        rows[k].0 < n,
        normalized(rows[k].1@) is Some,
        !table.contains_key(normalized(rows[k].1@)->0),
        forall|j: int|
            0 <= j < k && (#[trigger] rows[j]).0 < n ==> normalized(rows[j].1@) != normalized(
                rows[k].1@,
            ),
    ensures
        ({
            let found = alias_table(table, alias_list(table, rows, n));
            let t = normalized(rows[k].1@)->0;
            found.contains_key(t) && found[t] == rows[k].0
        }),
    decreases rows.len(),
{
    let rest = rows.drop_last();
    let t = normalized(rows[k].1@)->0;
    let list = alias_list(table, rows, n);
    let before = alias_list(table, rest, n);
    assert(forall|j: int| 0 <= j < rest.len() ==> rest[j] == rows[j]);
    if k < rest.len() {
        law_aliases_are_found(table, rest, n, k);
    } else {
        lemma_no_alias(table, rest, n, t);
    }
    if list != before {
        assert(list.drop_last() =~= before);
    }
}

proof fn lemma_no_alias(
    table: Map<Seq<char>, u32>,
    rows: Seq<(u32, String)>,
    n: nat,
    t: Seq<char>,
)
    requires
        !table.contains_key(t),
        forall|j: int|
            0 <= j < rows.len() && (#[trigger] rows[j]).0 < n ==> normalized(rows[j].1@) != Some(t),
    ensures
        !alias_table(table, alias_list(table, rows, n)).contains_key(t),
    decreases rows.len(),
{
    if rows.len() > 0 {
        let rest = rows.drop_last();
        assert(forall|j: int| 0 <= j < rest.len() ==> rest[j] == rows[j]);
        lemma_no_alias(table, rest, n, t);
        let list = alias_list(table, rows, n);
        let before = alias_list(table, rest, n);
        assert(rows[rows.len() - 1] == rows.last());
        if list != before {
            assert(list.drop_last() =~= before);
        }
    }
}

/// A query finds what any query with the same normal form finds, and nothing
/// where it has none or nothing has that name.
pub proof fn law_queries_find_names(table: Map<Seq<char>, u32>, query: Seq<char>, id: u32)
    ensures
        looked_up(table, query) == Some(id) <==> exists|t: Seq<char>|
            normalized(query) == Some(t) && #[trigger] table.contains_key(t) && table[t] == id,
{
    if normalized(query) is Some {
        assert(table.contains_key(normalized(query)->0) || !table.contains_key(
            normalized(query)->0,
        ));
    }
}
} // verus!
