use std::collections::hash_map::DefaultHasher;
use std::hash::{Hash, Hasher};
use wiki_graph::board::Entry;
use wiki_graph::columns::PerArticle;
use wiki_graph::export::{
    delta_encode, n_shards, near_goal_levels, routes_of, shard_range, shard_targets, trunc,
    SHARD_SIZE,
};
use wiki_graph::game::Puzzle;
use wiki_graph::graph::{Graph, PathFinder};
use wiki_graph::identity::Identity;
use wiki_graph::service::{
    blocked_links, board_rows, forwarded_for, histogram, hole_label, identify, is_heavy, limited,
    map_tag, not_modified, path_between, plan_puzzle, route_count, topic_label, Asked, Compass,
    CompassLink, Wanted, COMPASS_CACHE,
};
use wiki_graph::usage::Analytics;

fn graph(n: u32, edges: &[(u32, u32)]) -> Graph {
    let titles: Vec<(u32, String)> = (0..n).map(|i| (i, format!("A{i}"))).collect();
    Graph::load(&titles, &[], edges)
}

fn visitor(n: u8) -> u64 {
    let mut h = DefaultHasher::new();
    [10, 0, 0, n].hash(&mut h);
    h.finish()
}

#[test]
fn counters_classify_flush_and_reset() {
    let mut a = Analytics::default();
    let ip = visitor;
    a.hit("/", ip(1), 20_600);
    a.hit("/api/search", ip(1), 20_600);
    a.hit("/api/article/42", ip(2), 20_600);
    a.hit("/api/puzzle", ip(2), 20_600);
    a.hit("/api/daily", ip(3), 20_600);
    a.hit("/api/map", ip(3), 20_600); // -> other

    let line = a.flush_line(1_779_840_000).expect("counters were nonzero");
    let v: serde_json::Value = serde_json::from_str(&line).unwrap();
    assert_eq!(v["pages"], 1);
    assert_eq!(v["searches"], 1);
    assert_eq!(v["articles"], 1);
    assert_eq!(v["puzzles"], 2);
    assert_eq!(v["other"], 1);
    assert_eq!(v["uniques_today"], 3);

    // Deltas reset on flush; a quiet hour writes nothing at all.
    assert!(a.flush_line(1_779_843_600).is_none());
    // Uniques are a running per-day count, so the same IP again still
    // yields one line (a hit happened) but no new unique.
    a.hit("/", ip(1), 20_600);
    let v: serde_json::Value =
        serde_json::from_str(&a.flush_line(1_779_847_200).unwrap()).unwrap();
    assert_eq!(v["uniques_today"], 3);
}

#[test]
fn visitors_start_again_each_day() {
    let mut a = Analytics::new();
    a.hit("/api/submit", visitor(1), 7);
    a.hit("/api/compass", visitor(2), 8);
    assert_eq!(
        a.flush_line(99).unwrap(),
        "{\"articles\":0,\"compass\":1,\"day\":8,\"other\":0,\"pages\":0,\"puzzles\":0,\
         \"searches\":0,\"submits\":1,\"ts\":99,\"uniques_today\":1}"
    );
}

#[test]
fn heavy_requests_are_those_that_cost() {
    for p in ["search", "path", "puzzle", "daily", "course", "submit", "compass", "routes"] {
        assert!(is_heavy(&format!("/api/{p}")));
    }
    for p in ["/", "/api/article/1", "/api/map", "/api/meta", "/api/searchx", "/api"] {
        assert!(!is_heavy(p));
    }
}

#[test]
fn the_left_most_entry_is_the_client() {
    assert_eq!(forwarded_for(" 10.0.0.1 , 10.0.0.2"), "10.0.0.1");
    assert_eq!(forwarded_for("10.0.0.1"), "10.0.0.1");
    assert_eq!(forwarded_for(""), "");
    assert_eq!(forwarded_for(",x"), "");
}

#[test]
fn visitors_are_known_again_by_their_cookie() {
    let identity = Identity::from_secret(vec![7; 32]);
    let first = identify(&identity, None, Some(&[1; 16]));
    let cookie = first.cookie.unwrap();
    assert_eq!(first.player, "01".repeat(16));
    let header = format!("a=b; wr_id={cookie}");
    let again = identify(&identity, Some(&header), Some(&[2; 16]));
    assert_eq!(again.player, first.player);
    assert!(again.cookie.is_none());
    // A cookie that does not hold makes a new player.
    let forged = identify(&identity, Some("wr_id=0101.ff"), Some(&[2; 16]));
    assert_eq!(forged.player, "02".repeat(16));
    assert!(forged.cookie.is_some());
    // Without random bytes nobody is known.
    let nobody = identify(&identity, Some("wr_id=0101.ff"), None);
    assert_eq!((nobody.player.as_str(), nobody.cookie), ("", None));
}

fn ask<'a>() -> Asked<'a> {
    Asked { from_title: None, to_title: None, from: None, to: None, region: None }
}

fn told(g: &Graph, has_map: bool, q: Asked<'_>) -> Result<Wanted, String> {
    plan_puzzle(g, has_map, q).map_err(|e| e.message())
}

#[test]
fn every_race_that_can_be_asked_for() {
    let g = graph(5, &[(0, 1)]);
    assert_eq!(told(&g, false, ask()), Ok(Wanted::Any));
    assert_eq!(told(&g, true, Asked { region: Some(-3), ..ask() }), Ok(Wanted::Region(-3)));
    assert_eq!(
        told(&g, true, Asked { from: Some(1), to: Some(2), region: Some(3), ..ask() }),
        Ok(Wanted::Between(1, 2)),
        "ends go before a region"
    );
    assert_eq!(
        told(&g, true, Asked { from_title: Some("a3"), from: Some(1), to: Some(2), ..ask() }),
        Ok(Wanted::Between(3, 2)),
        "a title goes before an id"
    );
    assert_eq!(
        told(&g, true, Asked { from_title: Some("No"), to_title: Some("Nor"), ..ask() }),
        Err("no article called \"No\"".to_string())
    );
    assert_eq!(
        told(&g, true, Asked { from: Some(1), to_title: Some("Nor"), ..ask() }),
        Err("no article called \"Nor\"".to_string())
    );
    assert_eq!(
        told(&g, true, Asked { from: Some(1), ..ask() }),
        Err("a custom race needs both from and to".to_string())
    );
    assert_eq!(
        told(&g, true, Asked { to_title: Some("A1"), from: Some(1), ..ask() }),
        Err("pick two different articles".to_string())
    );
    assert_eq!(
        told(&g, false, Asked { region: Some(1), ..ask() }),
        Err("topic races need the map data (nodes.parquet)".to_string())
    );
    assert_eq!(topic_label("hard"), "topic-hard");
    assert_eq!(hole_label(3), "round-h3");
}

#[test]
fn links_are_blocked_but_for_the_goal() {
    // Two articles link to 2, one to each of the others.
    let g = graph(4, &[(0, 1), (0, 2), (0, 3), (1, 2)]);
    assert_eq!(blocked_links(&g, 0, None, None), [false, false, false]);
    assert_eq!(blocked_links(&g, 0, Some(1), None), [false, true, false]);
    assert_eq!(blocked_links(&g, 0, Some(1), Some(2)), [false, false, false]);
    assert_eq!(blocked_links(&g, 0, Some(0), Some(1)), [false, true, true]);
    assert!(blocked_links(&g, 3, Some(0), None).is_empty());
}

#[test]
fn paths_lead_around_hubs() {
    let g = graph(5, &[(0, 1), (1, 3), (0, 2), (2, 4), (4, 3), (2, 1)]);
    let mut pf = PathFinder::new(5);
    assert_eq!(path_between(&g, &mut pf, 0, 3, None), Some(vec![0, 1, 3]));
    assert_eq!(path_between(&g, &mut pf, 0, 3, Some(1)), Some(vec![0, 2, 4, 3]));
    assert_eq!(path_between(&g, &mut pf, 3, 0, None), None);
    assert_eq!(path_between(&g, &mut pf, 3, 3, Some(0)), Some(vec![3]));
}

#[test]
fn routes_are_counted_within_one_click_of_par() {
    let g = graph(4, &[(0, 1), (0, 2), (1, 3), (2, 3)]);
    let mut pf = PathFinder::new(4);
    assert_eq!(route_count(&g, &mut pf, 0, 3, None, 2), Some((2, 2)));
    assert_eq!(route_count(&g, &mut pf, 0, 3, None, 1), Some((2, 2)));
    assert_eq!(route_count(&g, &mut pf, 0, 3, None, 0), None);
    assert_eq!(route_count(&g, &mut pf, 0, 3, Some(0), 2), None);
    assert_eq!(route_count(&g, &mut pf, 3, 0, None, 2), None);
    let p = Puzzle { start: 0, goal: 3, ban_degree: None, optimal: 2 };
    assert_eq!(routes_of(&g, &mut pf, &p), 2);
    let p = Puzzle { start: 0, goal: 3, ban_degree: Some(0), optimal: 2 };
    assert_eq!(routes_of(&g, &mut pf, &p), 0);
}

#[test]
fn the_compass_measures_each_link() {
    // 0 -> 1 -> 2, and 3 leads nowhere.
    let g = graph(4, &[(0, 1), (0, 2), (0, 3), (1, 2)]);
    let mut pf = PathFinder::new(4);
    let mut compass = Compass::new();
    assert_eq!(
        compass.links(&g, &mut pf, 0, 2, Some(1)),
        [
            CompassLink { id: 1, dist: Some(1), banned: false },
            CompassLink { id: 2, dist: Some(0), banned: false },
            CompassLink { id: 3, dist: None, banned: false },
        ]
    );
    assert_eq!(compass.goals, [2]);
    compass.links(&g, &mut pf, 0, 1, None);
    compass.links(&g, &mut pf, 0, 2, None);
    assert_eq!(compass.goals, [2, 1], "what is kept is not looked up again");
    let hub = compass.links(&g, &mut pf, 0, 3, Some(1));
    assert_eq!(hub[1], CompassLink { id: 2, dist: None, banned: true });
}

#[test]
fn the_compass_forgets_the_oldest_goal() {
    let n = COMPASS_CACHE as u32 + 2;
    let g = graph(n, &[(0, 1)]);
    let mut pf = PathFinder::new(n as usize);
    let mut compass = Compass::new();
    for goal in 0..n {
        compass.links(&g, &mut pf, 0, goal, None);
    }
    assert_eq!(compass.goals, (2..n).collect::<Vec<_>>());
}

fn entry(clicks: usize) -> Entry {
    Entry { nickname: format!("n{clicks}"), clicks, ms: 5, player: String::new() }
}

#[test]
fn boards_are_shown_with_ranks_and_a_histogram() {
    let board: Vec<Entry> = [3, 3, 4, 9, 4, 3].into_iter().map(entry).collect();
    let rows = board_rows(&board);
    assert_eq!(rows.len(), 6);
    assert_eq!((rows[2].rank, rows[2].nickname.as_str(), rows[2].clicks, rows[2].ms), (3, "n4", 4, 5));
    assert_eq!(histogram(&board), [(3, 3), (4, 2), (9, 1)]);
    assert!(histogram(&vec![]).is_empty());
    let long: Vec<Entry> = (0..60).map(entry).collect();
    assert_eq!(board_rows(&long).len(), 25);
}

#[test]
fn maps_are_not_sent_twice() {
    let tag = map_tag(10, 20, 45_000);
    assert_eq!(tag, "\"10-20-45000\"");
    assert!(not_modified(&tag, &tag));
    assert!(not_modified(" \"x\", \"10-20-45000\" ,\"y\"", &tag));
    assert!(!not_modified("\"10-20-4500\"", &tag));
    assert!(!not_modified("", &tag));
    assert_eq!(limited(None, 10, 50), 10);
    assert_eq!(limited(Some(70), 10, 50), 50);
    assert_eq!(limited(Some(20), 10, 50), 20);
}

// ---------------------------------------------------------------------------
// Files
// ---------------------------------------------------------------------------

#[test]
fn gaps_add_up_again() {
    assert_eq!(delta_encode(vec![9, 2, 5]), [2, 3, 4]);
    assert_eq!(delta_encode(vec![7, 7]), [7, 0]);
    assert!(delta_encode(vec![]).is_empty());
    let ids: Vec<u32> = (0..1000u32).map(|i| i.wrapping_mul(2_654_435_761) >> 3).collect();
    let mut sum = 0;
    let back: Vec<u32> = delta_encode(ids.clone())
        .into_iter()
        .map(|d| {
            sum += d;
            sum
        })
        .collect();
    let mut sorted = ids;
    sorted.sort_unstable();
    assert_eq!(back, sorted);
}

#[test]
fn texts_are_truncated_between_characters() {
    assert_eq!(trunc("short", 72), "short");
    assert_eq!(trunc("ab–cd", 4), "ab");
    assert_eq!(trunc("ab–cd", 5), "ab–");
    assert_eq!(trunc("–", 0), "");
}

#[test]
fn articles_are_spread_over_files() {
    assert_eq!(n_shards(0), 0);
    assert_eq!(n_shards(1), 1);
    assert_eq!(n_shards(SHARD_SIZE), 1);
    assert_eq!(n_shards(SHARD_SIZE + 1), 2);
    assert_eq!(shard_range(0, SHARD_SIZE + 1), (0, SHARD_SIZE));
    assert_eq!(shard_range(1, SHARD_SIZE + 1), (SHARD_SIZE, SHARD_SIZE + 1));
}

#[test]
fn files_say_what_is_known_of_each_target_once() {
    let g = graph(6, &[(0, 3), (0, 2), (1, 3), (1, 5), (4, 1)]);
    let descs = PerArticle::load(&[(3, "é".repeat(50)), (1, "unused".to_string())], 6, 1);
    let flags = vec![0, 0, 4, 1];
    let found = shard_targets(&g, &descs, &flags, 0, 2);
    let rows: Vec<(u32, Option<String>, u32)> =
        found.into_iter().map(|t| (t.id, t.desc, t.flags)).collect();
    assert_eq!(rows, [(2, None, 4), (3, Some("é".repeat(36)), 1)]);
}

#[test]
fn levels_are_whole_or_left_out() {
    // 1 and 2 lead to 0, and 3, 4 and 5 lead to 1.
    let g = graph(7, &[(1, 0), (2, 0), (3, 1), (4, 1), (5, 1)]);
    let mut pf = PathFinder::new(7);
    assert_eq!(near_goal_levels(&g, &mut pf, 0, 6, 100), [vec![1, 2], vec![3, 4, 5]]);
    assert_eq!(near_goal_levels(&g, &mut pf, 0, 6, 4), [vec![1, 2]]);
    assert_eq!(near_goal_levels(&g, &mut pf, 0, 1, 100), [vec![1, 2]]);
    assert!(near_goal_levels(&g, &mut pf, 0, 6, 1).is_empty());
    assert!(near_goal_levels(&g, &mut pf, 6, 6, 100).is_empty());
}
