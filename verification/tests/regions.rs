use std::collections::HashMap;
use wiki_graph::columns::{u32_column, PerArticle};
use wiki_graph::labels::{given_names, names_among, region_number};
use wiki_graph::regions::{derive_region_names, Layout};

#[test]
fn labels_name_the_regions_whose_numbers_they_spell() {
    let names = given_names(r#"{"3": "Physics", "-1": "Apart", "x": "no", "99999999999": "no"}"#);
    assert_eq!(names.len(), 2);
    assert_eq!(names[&3], "Physics");
    assert_eq!(names[&-1], "Apart");
    // A text that is no object of texts gives no names.
    assert!(given_names("").is_empty());
    assert!(given_names(r#"{"3": 4}"#).is_empty());
    assert!(given_names(r#"["3"]"#).is_empty());
    // A text can be escaped, and of two values for one key the later counts.
    assert_eq!(given_names(r#"{"7": "a", "7": "caf\u00e9"}"#)[&7], "café");
}

#[test]
fn of_two_labels_for_a_region_the_later_stays() {
    let labels: Vec<(String, String)> = [("5", "five"), ("six", "none"), ("+5", "again")]
        .iter()
        .map(|(k, v)| (k.to_string(), v.to_string()))
        .collect();
    let names = names_among(&labels);
    assert_eq!(names.len(), 1);
    assert_eq!(names[&5], "again");
    assert_eq!(region_number("2147483647"), Some(i32::MAX));
    assert_eq!(region_number("2147483648"), None);
    assert_eq!(region_number("-2147483648"), Some(i32::MIN));
    assert_eq!(region_number(" 1"), None);
}

fn per_article(rows: &[(u32, &str)], n: usize, cap: usize) -> PerArticle {
    let rows: Vec<(u32, String)> = rows.iter().map(|(id, v)| (*id, v.to_string())).collect();
    PerArticle::load(&rows, n, cap)
}

fn flat_layout(communities: Vec<i32>) -> Option<Layout> {
    Some(Layout { community: communities })
}

#[test]
fn a_region_is_named_by_its_commonest_category() {
    // Region 0 is four physicists, region 1 is four footballers.
    let layout = flat_layout(vec![0, 0, 0, 0, 1, 1, 1, 1]);
    let cats = per_article(
        &[
            (0, "Physicists"),
            (1, "Physicists"),
            (2, "Physicists"),
            (3, "Physicists"),
            (3, "Nobel laureates"),
            (4, "Footballers"),
            (5, "Footballers"),
            (6, "Footballers"),
            (7, "Footballers"),
            (7, "Cyclists"),
        ],
        8,
        8,
    );
    let names = derive_region_names(&layout, &cats, 8);
    assert_eq!(names.get(&0).map(String::as_str), Some("Physicists"));
    assert_eq!(names.get(&1).map(String::as_str), Some("Footballers"));
}

#[test]
fn a_category_shared_by_two_articles_is_not_a_region_name() {
    // Below the floor. Without it, a coincidence between a couple of
    // articles would become the name of a whole region.
    let layout = flat_layout(vec![0, 0, 0, 0]);
    let cats = per_article(&[(0, "Rare"), (1, "Rare")], 4, 8);
    assert!(derive_region_names(&layout, &cats, 4).is_empty());
}

#[test]
fn no_layout_or_no_categories_yields_no_names() {
    let cats = per_article(&[(0, "X"), (1, "X"), (2, "X")], 4, 8);
    assert!(derive_region_names(&None, &cats, 4).is_empty());
    let layout = flat_layout(vec![0; 4]);
    assert!(derive_region_names(&layout, &PerArticle::default(), 4).is_empty());
}

#[test]
fn texts_are_kept_per_article_up_to_a_cap() {
    let rows = [(1, "a"), (0, "b"), (1, "c"), (1, "d"), (9, "e")];
    let p = per_article(&rows, 3, 2);
    assert_eq!(p.get(0), ["b"]);
    assert_eq!(p.get(1), ["a", "c"]);
    assert!(p.get(2).is_empty());
    assert!(p.get(9).is_empty());
    assert!(!p.is_empty());
    assert_eq!(p.total(), 3);
    assert!(PerArticle::default().is_empty());
}

#[test]
fn columns_are_filled_by_id() {
    assert_eq!(u32_column(&[(2, 7), (0, 5), (2, 8), (9, 1)], 3), [5, 0, 8]);
    assert!(u32_column(&[], 0).is_empty());
}

#[test]
fn regions_come_by_their_number() {
    let layout = flat_layout(vec![-1, 5, 5, 5, -1, -1]);
    let cats = per_article(&[(0, "A"), (4, "A"), (5, "A"), (1, "B"), (2, "B"), (3, "B")], 6, 8);
    let names: HashMap<i32, String> = derive_region_names(&layout, &cats, 6);
    assert_eq!(names.get(&5).map(String::as_str), Some("B"));
}
