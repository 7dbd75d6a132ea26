//! The two ends agree: what a title names when a dump is parsed, it names in
//! the graph that is loaded from the parse.

use crate::dump::PageView;
use crate::graph::{
    alias_list, alias_table, article_table, law_articles_are_found, looked_up, titles_by_id,
    with_place,
};
use crate::index::{
    Entry, after_pages, article_named, article_rows, articles_before, id_rows,
    law_articles_are_numbered_in_order, lemma_articles_before, lemma_few_entries, lemma_place_of,
    lemma_stands_for, place_of, redirect_rows, stands_for,
};
use crate::titles::normalized;
use vstd::prelude::*;

verus! {

/// No two entries have one name.
pub open spec fn names_differ(entries: Seq<Entry>) -> bool {
    forall|i: int, j: int|
        0 <= i < j < entries.len() ==> (#[trigger] entries[i]).name != (#[trigger] entries[j]).name
}

/// Every name is its own normal form.
pub open spec fn names_are_normal(entries: Seq<Entry>) -> bool {
    forall|i: int|
        0 <= i < entries.len() ==> normalized((#[trigger] entries[i]).name) == Some(
            entries[i].name,
        )
}

/// The rows of a table of redirects: the article first.
pub open spec fn turned(rows: Seq<(u32, String)>) -> Seq<(Seq<char>, u32)> {
    Seq::new(rows.len(), |i: int| (rows[i].1@, rows[i].0))
}

proof fn lemma_titles_in_order(rows: Seq<(u32, String)>)
    requires
        rows.len() <= u32::MAX,
        forall|k: int| 0 <= k < rows.len() ==> (#[trigger] rows[k]).0 == k,
    ensures
        titles_by_id(rows) == Seq::new(rows.len(), |k: int| rows[k].1@),
    decreases rows.len(),
{
    if rows.len() > 0 {
        let front = rows.drop_last();
        assert forall|k: int| 0 <= k < front.len() implies (#[trigger] front[k]).0 == k by {
            assert(front[k] == rows[k]);
        }
        lemma_titles_in_order(front);
        let last = rows[rows.len() - 1];
        let before = titles_by_id(front);
        assert(last.0 == front.len());
        assert(titles_by_id(rows) =~= with_place(before, front.len()).update(
            front.len() as int,
            last.1@,
        ));
        assert(titles_by_id(rows) =~= Seq::new(rows.len(), |k: int| rows[k].1@));
    } else {
        assert(titles_by_id(rows) =~= Seq::new(rows.len(), |k: int| rows[k].1@));
    }
}

/// What is in the table of articles is there by its title.
proof fn lemma_table_is_of_titles(titles: Seq<Seq<char>>, t: Seq<char>)
    requires
        titles.len() <= u32::MAX,
        article_table(titles).contains_key(t),
    ensures
        exists|k: int| 0 <= k < titles.len() && normalized(#[trigger] titles[k]) == Some(t),
    decreases titles.len(),
{
    if titles.len() > 0 {
        let front = titles.drop_last();
        if normalized(titles.last()) == Some(t) {
            assert(normalized(titles[titles.len() - 1]) == Some(t));
        } else {
            lemma_table_is_of_titles(front, t);
            let k = choose|k: int| 0 <= k < front.len() && normalized(#[trigger] front[k]) == Some(t);
            assert(titles[k] == front[k]);
        }
    }
}

/// Aliases that are normal forms, not taken, and each there once, are all kept.
proof fn lemma_all_aliases_kept(table: Map<Seq<char>, u32>, rows: Seq<(u32, String)>, n: nat)
    requires
        forall|k: int|
            0 <= k < rows.len() ==> (#[trigger] rows[k]).0 < n && normalized(rows[k].1@) == Some(
                rows[k].1@,
            ) && !table.contains_key(rows[k].1@),
        forall|k: int, l: int|
            0 <= k < l < rows.len() ==> (#[trigger] rows[k]).1@ != (#[trigger] rows[l]).1@,
    ensures
        alias_list(table, rows, n) == turned(rows),
        forall|t: Seq<char>| #[trigger]
            alias_table(table, turned(rows)).contains_key(t) <==> table.contains_key(t) || exists|
                k: int,
            | 0 <= k < rows.len() && (#[trigger] rows[k]).1@ == t,
        forall|t: Seq<char>| #[trigger]
            table.contains_key(t) ==> alias_table(table, turned(rows))[t] == table[t],
        forall|k: int|
            0 <= k < rows.len() ==> alias_table(table, turned(rows))[(#[trigger] rows[k]).1@]
                == rows[k].0,
    decreases rows.len(),
{
    if rows.len() > 0 {
        let front = rows.drop_last();
        let last = rows[rows.len() - 1];
        assert forall|k: int| 0 <= k < front.len() implies (#[trigger] front[k]).0 < n
            && normalized(front[k].1@) == Some(front[k].1@) && !table.contains_key(front[k].1@) by {
            assert(front[k] == rows[k]);
        }
        assert forall|k: int, l: int| 0 <= k < l < front.len() implies (#[trigger] front[k]).1@ != (
        #[trigger] front[l]).1@ by {
            assert(front[k] == rows[k] && front[l] == rows[l]);
        }
        lemma_all_aliases_kept(table, front, n);
        let before = alias_table(table, turned(front));
        assert(!before.contains_key(last.1@)) by {
            if before.contains_key(last.1@) {
                let k = choose|k: int| 0 <= k < front.len() && (#[trigger] front[k]).1@ == last.1@;
                assert(rows[k] == front[k]);
            }
        }
        assert(turned(rows) =~= turned(front).push((last.1@, last.0)));
        assert(turned(rows).drop_last() =~= turned(front));
        let after = alias_table(table, turned(rows));
        assert(after == before.insert(last.1@, last.0));
        assert forall|t: Seq<char>| #[trigger] after.contains_key(t) <==> table.contains_key(t)
            || exists|k: int| 0 <= k < rows.len() && (#[trigger] rows[k]).1@ == t by {
            if before.contains_key(t) && !table.contains_key(t) {
                let k = choose|k: int| 0 <= k < front.len() && (#[trigger] front[k]).1@ == t;
                assert(rows[k] == front[k]);
            }
            if exists|k: int| 0 <= k < rows.len() && (#[trigger] rows[k]).1@ == t {
                let k = choose|k: int| 0 <= k < rows.len() && (#[trigger] rows[k]).1@ == t;
                if k < front.len() {
                    assert(front[k] == rows[k]);
                }
            }
        }
        assert forall|k: int| 0 <= k < rows.len() implies after[(#[trigger] rows[k]).1@]
            == rows[k].0 by {
            if k < front.len() {
                assert(front[k] == rows[k]);
                assert(rows[k].1@ != last.1@);
            }
        }
    } else {
        assert(turned(rows) =~= Seq::<(Seq<char>, u32)>::empty());
    }
}

/// Every row of an article is that of an entry.
proof fn lemma_row_has_entry(entries: Seq<Entry>, n: int, k: int) -> (i: int)
    requires
        0 <= n <= entries.len(),
        0 <= k < article_rows(entries, n).len(),
    ensures
        0 <= i < n,
        !entries[i].redirect,
        article_rows(entries, n)[k].1 == entries[i].name,
    decreases n,
{
    let rest = article_rows(entries, n - 1);
    if n <= 0 {
        0
    } else if k < rest.len() {
        assert(article_rows(entries, n)[k] == rest[k]);
        lemma_row_has_entry(entries, n - 1, k)
    } else {
        n - 1
    }
}

/// Every article has its row, at its own number.
proof fn lemma_entry_has_row(entries: Seq<Entry>, n: int, i: int)
    requires
        0 <= i < n <= entries.len(),
        !entries[i].redirect,
    ensures
        article_rows(entries, n).len() == articles_before(entries, n),
        articles_before(entries, i) < articles_before(entries, n),
        article_rows(entries, n)[articles_before(entries, i) as int].1 == entries[i].name,
    decreases n,
{
    lemma_rows_len(entries, n - 1);
    if i < n - 1 {
        lemma_entry_has_row(entries, n - 1, i);
        let id = articles_before(entries, i) as int;
        assert(article_rows(entries, n)[id] == article_rows(entries, n - 1)[id]);
    }
}

proof fn lemma_rows_len(entries: Seq<Entry>, n: int)
    requires
        0 <= n <= entries.len(),
    ensures
        article_rows(entries, n).len() == articles_before(entries, n),
    decreases n,
{
    if n > 0 {
        lemma_rows_len(entries, n - 1);
    }
}

/// The row of an entry that redirects to an article.
spec fn row_of(entries: Seq<Entry>, i: int) -> (Seq<char>, u32) {
    (entries[i].name, articles_before(entries, stands_for(entries, i)->0) as u32)
}

/// Every row of a redirect is that of an entry that leads to an article.
proof fn lemma_alias_has_entry(entries: Seq<Entry>, n: int, k: int) -> (i: int)
    requires
        0 <= n <= entries.len(),
        0 <= k < redirect_rows(entries, n).len(),
    ensures
        0 <= i < n,
        entries[i].redirect,
        stands_for(entries, i) is Some,
        redirect_rows(entries, n)[k] == row_of(entries, i),
    decreases n,
{
    let rest = redirect_rows(entries, n - 1);
    if n <= 0 {
        0
    } else if k < rest.len() {
        assert(redirect_rows(entries, n)[k] == rest[k]);
        lemma_alias_has_entry(entries, n - 1, k)
    } else {
        n - 1
    }
}

/// Every entry that redirects to an article has its row.
proof fn lemma_entry_has_alias(entries: Seq<Entry>, n: int, i: int) -> (k: int)
    requires
        0 <= i < n <= entries.len(),
        entries[i].redirect,
        stands_for(entries, i) is Some,
    ensures
        0 <= k < redirect_rows(entries, n).len(),
        redirect_rows(entries, n)[k] == row_of(entries, i),
    decreases n,
{
    let rest = redirect_rows(entries, n - 1);
    if i < n - 1 {
        let k = lemma_entry_has_alias(entries, n - 1, i);
        assert(redirect_rows(entries, n)[k] == rest[k]);
        k
    } else {
        rest.len() as int
    }
}

/// No two rows are of one redirect.
proof fn lemma_aliases_differ(entries: Seq<Entry>, n: int, k: int, l: int)
    requires
        0 <= n <= entries.len(),
        names_differ(entries),
        0 <= k < l < redirect_rows(entries, n).len(),
    ensures
        redirect_rows(entries, n)[k].0 != redirect_rows(entries, n)[l].0,
    decreases n,
{
    if n > 0 {
        let rest = redirect_rows(entries, n - 1);
        assert(redirect_rows(entries, n)[k] == rest[k]);
        if l < rest.len() {
            assert(redirect_rows(entries, n)[l] == rest[l]);
            lemma_aliases_differ(entries, n - 1, k, l);
        } else {
            let i = lemma_alias_has_entry(entries, n - 1, k);
            lemma_one_name(entries, i, n - 1);
        }
    }
}

/// Two places with one name are one place.
proof fn lemma_one_name(entries: Seq<Entry>, i: int, j: int)
    requires
        names_differ(entries),
        0 <= i < entries.len(),
        0 <= j < entries.len(),
    ensures
        entries[i].name == entries[j].name ==> i == j,
{
    if i < j {
        assert(entries[i].name != entries[j].name);
    } else if j < i {
        assert(entries[j].name != entries[i].name);
    }
}

/// The titles of the articles, by their numbers.
proof fn lemma_titles_of_entries(entries: Seq<Entry>, titles: Seq<(u32, String)>)
    requires
        entries.len() < u32::MAX,
        id_rows(titles) == article_rows(entries, entries.len() as int),
    ensures
        titles_by_id(titles).len() == articles_before(entries, entries.len() as int),
        forall|k: int|
            0 <= k < titles_by_id(titles).len() ==> #[trigger] titles_by_id(titles)[k]
                == article_rows(entries, entries.len() as int)[k].1,
{
    let n = entries.len() as int;
    let rows = article_rows(entries, n);
    lemma_rows_len(entries, n);
    lemma_articles_before(entries, 0, n);
    assert(id_rows(titles).len() == titles.len());
    assert forall|k: int| 0 <= k < titles.len() implies (#[trigger] titles[k]).0 == k
        && titles[k].1@ == rows[k].1 by {
        law_articles_are_numbered_in_order(entries, n, k);
        assert(id_rows(titles)[k] == rows[k]);
    }
    lemma_titles_in_order(titles);
}

/// The table of articles holds the articles of the parse, and nothing else.
proof fn lemma_table_of_entries(entries: Seq<Entry>, titles: Seq<Seq<char>>, t: Seq<char>)
    requires
        entries.len() < u32::MAX,
        names_differ(entries),
        names_are_normal(entries),
        titles.len() == articles_before(entries, entries.len() as int),
        forall|k: int|
            0 <= k < titles.len() ==> #[trigger] titles[k] == article_rows(
                entries,
                entries.len() as int,
            )[k].1,
    ensures
        article_table(titles).contains_key(t) ==> exists|i: int|
            0 <= i < entries.len() && !(#[trigger] entries[i]).redirect && entries[i].name == t,
        forall|i: int|
            0 <= i < entries.len() && !(#[trigger] entries[i]).redirect && entries[i].name == t
                ==> article_table(titles).contains_key(t) && article_table(titles)[t]
                == articles_before(entries, i),
{
    let n = entries.len() as int;
    lemma_rows_len(entries, n);
    lemma_articles_before(entries, 0, n);
    if article_table(titles).contains_key(t) {
        lemma_table_is_of_titles(titles, t);
        let k = choose|k: int| 0 <= k < titles.len() && normalized(#[trigger] titles[k]) == Some(t);
        let i = lemma_row_has_entry(entries, n, k);
        assert(normalized(entries[i].name) == Some(entries[i].name));
    }
    assert forall|i: int|
        0 <= i < n && !(#[trigger] entries[i]).redirect && entries[i].name == t implies
        article_table(titles).contains_key(t) && article_table(titles)[t] == articles_before(
        entries,
        i,
    ) by {
        lemma_entry_has_row(entries, n, i);
        let id = articles_before(entries, i) as int;
        assert(titles[id] == t);
        assert(normalized(entries[i].name) == Some(entries[i].name));
        assert forall|k: int| id < k < titles.len() implies normalized(#[trigger] titles[k])
            != normalized(titles[id]) by {
            lemma_no_second_row(entries, n, i, k);
            let j = lemma_row_has_entry(entries, n, k);
            assert(normalized(entries[j].name) == Some(entries[j].name));
        }
        law_articles_are_found(titles, id);
    }
}

/// No later row has the name of an article.
proof fn lemma_no_second_row(entries: Seq<Entry>, n: int, i: int, k: int)
    requires
        0 <= i < n <= entries.len(),
        names_differ(entries),
        !entries[i].redirect,
        articles_before(entries, i) < k < article_rows(entries, n).len(),
    ensures
        article_rows(entries, n)[k].1 != entries[i].name,
    decreases n,
{
    let rest = article_rows(entries, n - 1);
    lemma_rows_len(entries, n - 1);
    if k < rest.len() {
        assert(article_rows(entries, n)[k] == rest[k]);
        lemma_articles_before(entries, i, n - 1);
        if i < n - 1 {
            lemma_no_second_row(entries, n - 1, i, k);
        }
    } else {
        lemma_one_name(entries, i, n - 1);
    }
}

/// A title is listed once, however often and however spelled it comes: the
/// pages that name it share one entry.
pub proof fn law_titles_are_listed_once(pages: Seq<PageView>)
    ensures
        names_differ(after_pages(pages).entries),
    decreases pages.len(),
{
    if pages.len() > 0 {
        let before = after_pages(pages.drop_last()).entries;
        let page = pages.last();
        law_titles_are_listed_once(pages.drop_last());
        if page.ns == 0 && normalized(page.title) is Some {
            let name = normalized(page.title)->0;
            lemma_place_of(before, name);
            let after = after_pages(pages).entries;
            assert forall|i: int, j: int| 0 <= i < j < after.len() implies (
            #[trigger] after[i]).name != (#[trigger] after[j]).name by {
                if i < before.len() {
                    assert(after[i].name == before[i].name);
                }
                if j < before.len() {
                    assert(after[j].name == before[j].name);
                }
            }
        }
    }
}

/// A title leads to the same article in the graph as in the parse that the
/// graph is loaded from, through redirects too, however it is spelled.
///
/// Titles that are not their own normal form, as `:Foo` is not, are left out:
/// the graph has them under another one.
pub proof fn law_graph_and_parse_agree(
    pages: Seq<PageView>,
    titles: Seq<(u32, String)>,
    redirects: Seq<(u32, String)>,
    query: Seq<char>,
)
    requires
        pages.len() < u32::MAX,
        ({
            let entries = after_pages(pages).entries;
            &&& names_are_normal(entries)
            &&& id_rows(titles) == article_rows(entries, entries.len() as int)
            &&& turned(redirects) == redirect_rows(entries, entries.len() as int)
        }),
    ensures
        ({
            let entries = after_pages(pages).entries;
            let by_id = titles_by_id(titles);
            let table = article_table(by_id);
            let all = alias_table(table, alias_list(table, redirects, by_id.len()));
            looked_up(all, query) == match normalized(query) {
                Some(t) => article_named(entries, t),
                None => None,
            }
        }),
{
    let entries = after_pages(pages).entries;
    lemma_few_entries(pages);
    law_titles_are_listed_once(pages);
    let n = entries.len() as int;
    let more = redirect_rows(entries, n);
    lemma_titles_of_entries(entries, titles);
    let by_id = titles_by_id(titles);
    let table = article_table(by_id);
    assert(turned(redirects).len() == redirects.len());
    assert forall|k: int| 0 <= k < redirects.len() implies (#[trigger] redirects[k]).0
        < by_id.len() && normalized(redirects[k].1@) == Some(redirects[k].1@)
        && !table.contains_key(redirects[k].1@) by {
        assert(turned(redirects)[k] == more[k]);
        let i = lemma_alias_has_entry(entries, n, k);
        lemma_stands_for(entries, i);
        lemma_entry_has_row(entries, n, stands_for(entries, i)->0);
        lemma_articles_before(entries, 0, n);
        assert(normalized(entries[i].name) == Some(entries[i].name));
        lemma_table_of_entries(entries, by_id, entries[i].name);
        if table.contains_key(entries[i].name) {
            let l = choose|l: int|
                0 <= l < n && !(#[trigger] entries[l]).redirect && entries[l].name
                    == entries[i].name;
            lemma_one_name(entries, i, l);
        }
    }
    assert forall|k: int, l: int| 0 <= k < l < redirects.len() implies (
    #[trigger] redirects[k]).1@ != (#[trigger] redirects[l]).1@ by {
        assert(turned(redirects)[k] == more[k]);
        assert(turned(redirects)[l] == more[l]);
        lemma_aliases_differ(entries, n, k, l);
    }
    lemma_all_aliases_kept(table, redirects, by_id.len());
    if normalized(query) is Some {
        lemma_one_title(entries, by_id, redirects, normalized(query)->0);
    }
}

/// What one title names in the graph.
proof fn lemma_one_title(
    entries: Seq<Entry>,
    by_id: Seq<Seq<char>>,
    redirects: Seq<(u32, String)>,
    t: Seq<char>,
)
    requires
        entries.len() < u32::MAX,
        names_differ(entries),
        names_are_normal(entries),
        by_id.len() == articles_before(entries, entries.len() as int),
        forall|k: int|
            0 <= k < by_id.len() ==> #[trigger] by_id[k] == article_rows(
                entries,
                entries.len() as int,
            )[k].1,
        turned(redirects) == redirect_rows(entries, entries.len() as int),
        ({
            let table = article_table(by_id);
            let all = alias_table(table, turned(redirects));
            &&& all.contains_key(t) <==> table.contains_key(t) || exists|k: int|
                0 <= k < redirects.len() && (#[trigger] redirects[k]).1@ == t
            &&& table.contains_key(t) ==> all[t] == table[t]
            &&& forall|k: int|
                0 <= k < redirects.len() ==> all[(#[trigger] redirects[k]).1@] == redirects[k].0
        }),
    ensures
        ({
            let all = alias_table(article_table(by_id), turned(redirects));
            article_named(entries, t) == if all.contains_key(t) {
                Some(all[t])
            } else {
                None::<u32>
            }
        }),
{
    let n = entries.len() as int;
    let more = redirect_rows(entries, n);
    let table = article_table(by_id);
    let all = alias_table(table, turned(redirects));
    assert(turned(redirects).len() == redirects.len());
    lemma_place_of(entries, t);
    lemma_table_of_entries(entries, by_id, t);
    // An alias is that of an entry with its name.
    if !table.contains_key(t) && all.contains_key(t) {
        let k = choose|k: int| 0 <= k < redirects.len() && (#[trigger] redirects[k]).1@ == t;
        assert(turned(redirects)[k] == more[k]);
        let l = lemma_alias_has_entry(entries, n, k);
        assert(entries[l].name == t);
        assert(place_of(entries, t) is Some);
        lemma_one_name(entries, place_of(entries, t)->0, l);
    }
    match place_of(entries, t) {
        Some(i) => {
            lemma_stands_for(entries, i);
            if !entries[i].redirect {
                assert(table.contains_key(t));
            } else {
                if table.contains_key(t) {
                    let l = choose|l: int|
                        0 <= l < n && !(#[trigger] entries[l]).redirect && entries[l].name == t;
                    lemma_one_name(entries, i, l);
                }
                if stands_for(entries, i) is Some {
                    let k = lemma_entry_has_alias(entries, n, i);
                    assert(turned(redirects)[k] == more[k]);
                    assert(redirects[k].1@ == t);
                }
            }
        },
        None => {},
    }
}

} // verus!
