use std::collections::HashMap;
use wiki_graph::columns::PerArticle;
use wiki_graph::daily::{
    course, course_hole, course_pars, course_seed, daily_seed, day_of_number, number_of_day,
    number_played, puzzle_from_seed, DAILY_EPOCH_DAY,
};
use wiki_graph::game::{playable_pool, Difficulty, Game, Layout, Puzzle, Rng, MIN_LINKS};
use wiki_graph::generate::candidates;
use wiki_graph::graph::{Graph, PathFinder};
use wiki_graph::pools::{Pools, PoolsError};

/// A ring in which every article links to the ten after it.
fn ring(n: u32) -> Graph {
    let titles: Vec<(u32, String)> = (0..n).map(|i| (i, format!("A{i}"))).collect();
    let mut edges = Vec::new();
    for v in 0..n {
        for k in 1..=10 {
            edges.push((v, (v + k) % n));
        }
    }
    Graph::load(&titles, &[], &edges)
}

fn game(graph: Graph, layout: Option<Layout>, pools: Option<Pools>) -> Game {
    Game::load_with(
        graph,
        layout,
        HashMap::new(),
        PerArticle::default(),
        PerArticle::default(),
        Vec::new(),
        Vec::new(),
        pools,
        true,
    )
}

fn steps(n: u32, p: &Puzzle) -> usize {
    let gap = (p.goal + n - p.start) % n;
    ((gap + 9) / 10) as usize
}

#[test]
fn races_keep_to_the_rules_of_their_difficulty() {
    let g = game(ring(400), None, None);
    let mut pf = PathFinder::new(g.graph.len());
    for seed in 0..30 {
        for d in [Difficulty::Easy, Difficulty::Medium, Difficulty::Hard] {
            let p = g.puzzle(&mut pf, d, &mut Rng::new(seed)).unwrap();
            let (ban, least) = d.rules();
            assert_eq!(p.ban_degree, ban);
            assert_eq!(p.optimal, steps(400, &p));
            assert!(least <= p.optimal && p.optimal <= least + 3);
        }
    }
}

#[test]
fn a_graph_without_endpoints_has_no_races() {
    let titles: Vec<(u32, String)> = (0..3).map(|i| (i, format!("A{i}"))).collect();
    let g = game(Graph::load(&titles, &[], &[(0, 1), (1, 2)]), None, None);
    let mut pf = PathFinder::new(3);
    assert!(g.playable().is_empty(), "no article has {MIN_LINKS} links");
    assert_eq!(g.puzzle(&mut pf, Difficulty::Easy, &mut Rng::new(1)), None);
    assert_eq!(puzzle_from_seed(&g, &mut pf, Difficulty::Easy, 1, None), None);
    // A race that somebody chose is another matter.
    assert_eq!(
        g.puzzle_between(&mut pf, 0, 2, None),
        Some(Puzzle { start: 0, goal: 2, ban_degree: None, optimal: 2 })
    );
}

#[test]
fn chosen_races_need_two_articles_and_a_way() {
    let g = game(ring(40), None, None);
    let mut pf = PathFinder::new(g.graph.len());
    assert_eq!(g.puzzle_between(&mut pf, 3, 3, None), None);
    assert_eq!(g.puzzle_between(&mut pf, 3, 40, None), None);
    assert_eq!(g.puzzle_between(&mut pf, 3, 4, None).unwrap().optimal, 1);
    assert_eq!(g.puzzle_between(&mut pf, 0, 39, None).unwrap().optimal, 4);
    // All articles have ten links to them, so that a ban on nine stops at once...
    assert_eq!(g.puzzle_between(&mut pf, 0, 39, Some(9)), None);
    // ...but the ends are exempt.
    assert_eq!(g.puzzle_between(&mut pf, 0, 10, Some(9)).unwrap().optimal, 1);
}

#[test]
fn regions_are_raced_within() {
    let layout = Layout::load((0..400).map(|i| i / 50).collect(), 400).ok();
    let g = game(ring(400), layout, None);
    let mut pf = PathFinder::new(400);
    for seed in 0..20 {
        let p = g.puzzle_in_region(&mut pf, 1, Difficulty::Easy, &mut Rng::new(seed)).unwrap();
        assert!(50 <= p.start && p.start < 100 && 50 <= p.goal && p.goal < 100);
        assert!(2 <= p.optimal && p.optimal <= 6);
    }
    assert_eq!(g.puzzle_in_region(&mut pf, 7, Difficulty::Easy, &mut Rng::new(1)), None);
    let flat = game(ring(400), None, None);
    assert_eq!(flat.puzzle_in_region(&mut pf, 1, Difficulty::Easy, &mut Rng::new(1)), None);
}

#[test]
fn maps_of_another_graph_are_refused() {
    assert_eq!(Layout::load(vec![0; 7], 8).err(), Some(7));
    assert!(Layout::load(vec![0; 8], 8).is_ok());
}

/// Article `i` is linked to by `i` others, so that the last is the largest hub.
fn ladder(n: u32) -> Graph {
    let titles: Vec<(u32, String)> = (0..n).map(|i| (i, format!("A{i}"))).collect();
    let mut edges = Vec::new();
    for v in 0..n {
        for w in 0..v {
            edges.push((w, v));
        }
    }
    Graph::load(&titles, &[], &edges)
}

#[test]
fn a_hub_cut_excludes_the_most_linked() {
    let g = game(ladder(20), None, None);
    assert_eq!(g.hub_cut(0, 5), (None, vec![], 0));
    // The fourth most linked has sixteen links to it; three have more.
    assert_eq!(g.hub_cut(3, 2), (Some(16), vec![19, 18], 3));
    // Only what is excluded is named.
    assert_eq!(g.hub_cut(1, 2), (Some(18), vec![19], 1));
    // A cut beyond the ranking leaves nothing that is linked to.
    assert_eq!(g.hub_cut(99, 0), (Some(0), vec![], 19));
}

#[test]
fn ties_at_the_cut_go_together() {
    let g = game(ring(30), None, None);
    // Every article has as many links as the next, so that none is above the limit.
    assert_eq!(g.hub_cut(5, 3), (Some(10), vec![], 0));
}

#[test]
fn landmarks_are_the_most_linked_of_the_largest_regions() {
    let layout = Layout::load(vec![0, 0, 0, 1, 1, 2, 2, 2, 2, -1], 10).ok();
    let g = game(ladder(10), layout, None);
    assert_eq!(g.landmarks(2), vec![(8, 2), (2, 0)]);
    assert_eq!(g.landmarks(9), vec![(8, 2), (2, 0), (4, 1)]);
    assert_eq!(g.map_sample(3), vec![9, 8, 7]);
    assert_eq!(g.map_sample(99).len(), 10);
    let flat = game(ladder(10), None, None);
    assert!(flat.landmarks(5).is_empty());
    assert!(flat.map_sample(5).is_empty());
}

#[test]
fn endpoints_are_well_linked() {
    // Ten links or more leave the first fifty, and a quarter of them is kept.
    let g = ladder(60);
    let pool = playable_pool(&g);
    assert!(pool.iter().all(|&v| g.forward.degree(v) >= MIN_LINKS));
    assert_eq!(pool, (37..50).rev().collect::<Vec<_>>(), "the most linked first");
    assert_eq!(candidates(&g.reverse, &pool, Some(40), 3), [40, 39, 38]);
    assert_eq!(candidates(&g.reverse, &pool, None, 2), [49, 48]);
}

#[test]
fn stale_pools_never_lie() {
    // Pairs that are not what the pools say are left out and the race is drawn.
    let mut pools = Pools::empty();
    pools.set(Difficulty::Easy, 0, vec![(0, 1, 1)]);
    let g = game(ring(400), None, Some(pools));
    assert!(g.has_pools());
    let mut pf = PathFinder::new(400);
    for seed in 0..10 {
        let p = g.puzzle(&mut pf, Difficulty::Easy, &mut Rng::new(seed)).unwrap();
        assert!(p.optimal >= 3);
        assert_eq!(p.optimal, steps(400, &p));
    }
}

#[test]
fn true_pools_are_drawn_from() {
    let mut pools = Pools::empty();
    pools.set(Difficulty::Easy, 1, vec![(0, 35, 9)]);
    let g = game(ring(400), None, Some(pools));
    let mut pf = PathFinder::new(400);
    let p = g.puzzle(&mut pf, Difficulty::Easy, &mut Rng::new(4)).unwrap();
    assert_eq!(p, Puzzle { start: 0, goal: 35, ban_degree: None, optimal: 4 });
}

#[test]
fn every_way_that_stored_pools_are_refused() {
    let load = |rows: &[(u8, u8, u32, u32, u32)]| Pools::load(Some(10), Some(20), 10, 20, rows).err();
    assert_eq!(Pools::load(None, Some(20), 10, 20, &[]).err(), Some(PoolsError::NoFingerprint));
    assert_eq!(Pools::load(Some(10), None, 10, 20, &[]).err(), Some(PoolsError::NoFingerprint));
    assert_eq!(load(&[(3, 3, 0, 1, 1)]), Some(PoolsError::BadDifficulty { value: 3 }));
    assert_eq!(
        load(&[(0, 2, 0, 1, 1)]),
        Some(PoolsError::BadPar { par: 2, difficulty: Difficulty::Easy })
    );
    assert_eq!(
        load(&[(2, 8, 0, 1, 1)]),
        Some(PoolsError::BadPar { par: 8, difficulty: Difficulty::Hard })
    );
    assert_eq!(load(&[(0, 3, 0, 10, 1)]), Some(PoolsError::BadArticle));
    assert_eq!(load(&[(0, 3, 0, 9, 1)]), None);
}

#[test]
fn pools_are_summed_up_in_a_line() {
    let mut p = Pools::empty();
    assert!(p.is_empty());
    p.set(Difficulty::Hard, 2, vec![(1, 2, 3), (3, 4, 5)]);
    assert!(!p.is_empty());
    assert_eq!(
        p.summary(),
        "Easy [par3:0 par4:0 par5:0 par6:0]  Medium [par3:0 par4:0 par5:0 par6:0]  \
         Hard [par4:0 par5:0 par6:2 par7:0]"
    );
    let mut rng = Rng::new(3);
    let (a, b, par, _) = p.pick_full(Difficulty::Hard, &mut rng).unwrap();
    assert!(par == 6 && ((a, b) == (1, 2) || (a, b) == (3, 4)));
    assert!(p.pick_par(Difficulty::Hard, 6, &mut rng).is_some());
    assert!(p.pick_par(Difficulty::Hard, 5, &mut rng).is_none());
    assert!(p.pick_par(Difficulty::Hard, 3, &mut rng).is_none());
    assert!(p.pick_par(Difficulty::Hard, 8, &mut rng).is_none());
}

// ---------------------------------------------------------------------------
// The race of the day
// ---------------------------------------------------------------------------

#[test]
fn days_are_numbered_from_the_first() {
    assert_eq!(number_of_day(DAILY_EPOCH_DAY), 1);
    assert_eq!(number_of_day(DAILY_EPOCH_DAY + 9), 10);
    assert_eq!(number_of_day(0), 1, "a clock before the first day");
    assert_eq!(day_of_number(10), DAILY_EPOCH_DAY + 9);
    assert_eq!(number_played(DAILY_EPOCH_DAY + 9, None), Some(10));
    assert_eq!(number_played(DAILY_EPOCH_DAY + 9, Some(3)), Some(3));
    assert_eq!(number_played(DAILY_EPOCH_DAY + 9, Some(10)), Some(10));
    assert_eq!(number_played(DAILY_EPOCH_DAY + 9, Some(11)), None, "tomorrow's is tomorrow's");
    assert_eq!(number_played(DAILY_EPOCH_DAY + 9, Some(0)), None);
}

#[test]
fn seeds_of_the_day() {
    assert_eq!(daily_seed(1, Difficulty::Easy), 0x9E37_79B9_7F4A_7C15);
    assert_eq!(
        daily_seed(20_500, Difficulty::Hard),
        20_500u64.wrapping_mul(0x9E37_79B9_7F4A_7C15) ^ 2u64.wrapping_mul(0xBF58_476D_1CE4_E5B9)
    );
    assert_eq!(course_seed(0, 3), 0xC0FF_EE00_C0FF_EE00 ^ (3 << 56));
    assert_ne!(course_seed(20_500, 3), course_seed(20_500, 9));
    assert_ne!(course_seed(20_500, 3), daily_seed(20_500, Difficulty::Easy));
    assert_eq!(course_pars(None), [3, 3, 4]);
    assert_eq!(course_pars(Some("7")), [3, 3, 4]);
    assert_eq!(course_pars(Some("9")), [3, 3, 4, 3, 3, 5, 3, 4, 3]);
}

#[test]
fn one_seed_is_one_race() {
    let g = game(ring(400), None, None);
    let mut a = PathFinder::new(400);
    let mut b = PathFinder::new(400);
    for day in DAILY_EPOCH_DAY..DAILY_EPOCH_DAY + 10 {
        let seed = daily_seed(day, Difficulty::Medium);
        let p = puzzle_from_seed(&g, &mut a, Difficulty::Medium, seed, None);
        assert!(p.is_some());
        assert_eq!(p, puzzle_from_seed(&g, &mut b, Difficulty::Medium, seed, None));
    }
    // A hub cut goes before the ban of the difficulty.
    let p = puzzle_from_seed(&g, &mut a, Difficulty::Hard, 7, Some(4)).unwrap();
    assert_eq!(p.ban_degree, Some(10));
    let p = puzzle_from_seed(&g, &mut a, Difficulty::Hard, 7, Some(0)).unwrap();
    assert_eq!(p.ban_degree, None);
}

#[test]
fn rounds_have_a_hole_for_every_par() {
    let mut pools = Pools::empty();
    pools.set(Difficulty::Easy, 0, vec![(0, 25, 1)]);
    pools.set(Difficulty::Easy, 1, vec![(0, 35, 1)]);
    let g = game(ring(400), None, Some(pools));
    let mut pf = PathFinder::new(400);
    let holes = course(&g, &mut pf, &course_pars(None), 11).unwrap();
    assert_eq!(holes.iter().map(|h| h.optimal).collect::<Vec<_>>(), [3, 3, 4]);
    // There is no pool of par five: any race will do.
    let p = course_hole(&g, &mut pf, 5, &mut Rng::new(1)).unwrap();
    assert!(p.optimal >= 3);
    let none = game(ladder(3), None, None);
    assert!(course(&none, &mut pf, &course_pars(None), 11).is_none());
}
