use wiki_graph::game::{Difficulty, Rng};
use wiki_graph::search::{search_ranked, search_score, SearchIndex};

#[test]
fn difficulty_parses_and_bans_hubs() {
    assert_eq!(Difficulty::parse("hard"), Difficulty::Hard);
    assert_eq!(Difficulty::parse("medium"), Difficulty::Medium);
    assert_eq!(Difficulty::parse("nonsense"), Difficulty::Easy);
    // Easy must not ban anything; hard must ban and demand a longer route.
    assert_eq!(Difficulty::Easy.rules().0, None);
    assert!(Difficulty::Hard.rules().0.unwrap() < Difficulty::Medium.rules().0.unwrap());
    assert!(Difficulty::Hard.rules().1 > Difficulty::Easy.rules().1);
}

#[test]
fn rng_is_deterministic_and_in_range() {
    let mut a = Rng::new(42);
    let mut b = Rng::new(42);
    for _ in 0..100 {
        assert_eq!(a.next_u64(), b.next_u64());
    }
    let mut r = Rng::new(7);
    for _ in 0..1000 {
        assert!(r.below(10) < 10);
    }
}

#[test]
fn exact_title_beats_a_far_more_popular_prefix() {
    // "cat" must find Cat, not Catholic Church, however lopsided the
    // in-degrees are.
    let cat = search_score("cat", "cat", 2_817).unwrap();
    let catholic = search_score("catholic church", "cat", 93_701).unwrap();
    assert!(cat > catholic);
}

#[test]
fn popular_word_prefix_beats_obscure_title_prefix() {
    let albert = search_score("albert einstein", "einst", 241).unwrap();
    let bagels = search_score("einstein bros. bagels", "einst", 1).unwrap();
    assert!(albert > bagels, "Albert Einstein must outrank a bagel shop");
}

#[test]
fn match_quality_still_dominates_within_reason() {
    // A plain substring match should not leapfrog a title prefix on
    // popularity alone at comparable magnitudes.
    let prefix = search_score("france", "franc", 141_719).unwrap();
    let substr = search_score("the weinstein company", "einst", 48).unwrap();
    assert!(prefix > substr);
    assert_eq!(search_score("unrelated", "einst", 999), None);
}

#[test]
fn word_prefix_requires_a_word_boundary() {
    // "einst" is inside "weinstein" but does not start a word there.
    assert_eq!(search_score("the weinstein company", "einst", 5), Some(5 + 1));
    assert_eq!(search_score("albert einstein", "einst", 5), Some(30 * (5 + 1)));
}

#[test]
fn rng_seed_zero_still_advances() {
    // seed | 1 guards the xorshift fixed point at zero.
    let mut r = Rng::new(0);
    assert_ne!(r.next_u64(), 0);
}

/// Lowercase every title, score every title, full sort.
fn search_reference(titles: &[String], degrees: &[u32], query: &str, limit: usize) -> Vec<u32> {
    let q = query.trim().to_lowercase();
    if q.is_empty() {
        return Vec::new();
    }
    let mut hits: Vec<(u64, u32)> = Vec::new();
    for (id, t) in titles.iter().enumerate() {
        if let Some(score) = search_score(&t.to_lowercase(), &q, degrees[id]) {
            hits.push((score, id as u32));
        }
    }
    hits.sort_unstable_by(|a, b| b.0.cmp(&a.0).then(a.1.cmp(&b.1)));
    hits.into_iter().take(limit).map(|(_, id)| id).collect()
}

#[test]
fn search_index_matches_the_linear_scan() {
    let titles: Vec<String> = [
        "Cat",
        "Catholic Church",
        "Albert Einstein",
        "Einstein Bros. Bagels",
        "The Weinstein Company",
        "France",
        "CAT", // lowercase collision with "Cat"
        "Catalonia",
        "Category theory",
        "Einstein",
    ]
    .iter()
    .map(|s| s.to_string())
    .collect();
    let degrees = vec![2_817u32, 93_701, 241, 1, 48, 141_719, 5, 900, 60, 300];

    let idx = SearchIndex::build(&titles, &[], &degrees);
    for q in ["cat", "einst", "einstein", "franc", "e", "zzz-no-match", "  ", "CAT"] {
        for limit in [1, 3, 10] {
            assert_eq!(
                search_ranked(&idx, q, limit),
                search_reference(&titles, &degrees, q, limit),
                "query {q:?} limit {limit}"
            );
        }
    }
}

#[test]
fn search_early_exit_survives_many_matches() {
    // 500 titles all sharing a prefix, so compaction and the worst-score
    // cut-off both trigger; the winners must still be the most linked.
    let titles: Vec<String> = (0..500).map(|i| format!("Topic {i}")).collect();
    let degrees: Vec<u32> = (0..500).map(|i| (i * 7) % 499).collect();
    let idx = SearchIndex::build(&titles, &[], &degrees);
    assert_eq!(
        search_ranked(&idx, "topic", 5),
        search_reference(&titles, &degrees, "topic", 5),
    );
}

#[test]
fn aliases_find_their_article_and_dedup() {
    let titles: Vec<String> =
        ["New York City", "Nyctalus", "Albert Einstein"].iter().map(|s| s.to_string()).collect();
    let degrees = [50_000u32, 3, 241];
    let aliases: Vec<(String, u32)> =
        vec![("NYC".into(), 0), ("The Big Apple".into(), 0), ("Einstein".into(), 2)];
    let idx = SearchIndex::build(&titles, &aliases, &degrees);
    let search = |q: &str, n: usize| search_ranked(&idx, q, n);

    // An exact alias match outranks a title that merely starts with it.
    assert_eq!(search("nyc", 2), vec![0, 1]);
    // A substring hit through an alias still resolves to the article.
    assert_eq!(search("big apple", 3), vec![0]);
    // Title and alias of the same article both match "einstein":
    // exactly one result for it, not two.
    assert_eq!(search("einstein", 5), vec![2]);
    // Nothing invents matches.
    assert!(search("zzz", 5).is_empty());
}
