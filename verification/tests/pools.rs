use wiki_graph::game::{Difficulty, Rng};
use wiki_graph::generate::{attach_routes, bfs_forward, generate, merge_workers, ThreadBucket, Worker};
use wiki_graph::graph::Graph;
use wiki_graph::pools::{Pools, PoolsError};

fn graph(n: u32, edges: &[(u32, u32)]) -> Graph {
    let titles: Vec<(u32, String)> = (0..n).map(|i| (i, format!("A{i}"))).collect();
    Graph::load(&titles, &[], edges)
}

/// 0 -> 1 -> 2 -> 3 -> 4, plus a hub 5 that shortcuts 0 -> 5 -> 4.
fn line_with_hub() -> Graph {
    graph(
        6,
        &[(0, 1), (1, 2), (2, 3), (3, 4), (0, 5), (5, 4), (1, 5), (2, 5), (3, 5)],
    )
}

#[test]
fn bfs_respects_ban_and_depth() {
    let g = line_with_hub();
    let mut dist = vec![u8::MAX; 6];
    let mut q = Vec::new();
    // Unbanned: the hub makes 0 -> 4 two clicks.
    bfs_forward(&g, 0, None, 8, &mut dist, &mut q);
    assert_eq!(dist[4], 2);
    // Ban the hub (in-degree 4 > 2): the long way round is 4 clicks.
    bfs_forward(&g, 0, Some(2), 8, &mut dist, &mut q);
    assert_eq!(dist[4], 4);
    // A depth cap below that leaves 4 unreached.
    bfs_forward(&g, 0, Some(2), 3, &mut dist, &mut q);
    assert_eq!(dist[4], u8::MAX);
}

#[test]
fn generate_buckets_by_par() {
    let g = line_with_hub();
    let candidates = [0u32, 1, 2, 3, 4];
    // min_len 2, hub banned: qualifying pars are 2..=5.
    let buckets = generate(&g, &candidates, 2, Some(2), 100, 2);
    // 0->2, 1->3, 2->4 are par 2; 0->3, 1->4 par 3; 0->4 par 4.
    assert_eq!(buckets[0], vec![(0, 2), (1, 3), (2, 4)]);
    assert_eq!(buckets[1], vec![(0, 3), (1, 4)]);
    assert_eq!(buckets[2], vec![(0, 4)]);
    assert!(buckets[3].is_empty());
}

#[test]
fn reservoir_caps_a_bucket() {
    let g = line_with_hub();
    let candidates = [0u32, 1, 2, 3, 4];
    let buckets = generate(&g, &candidates, 2, Some(2), 2, 1);
    assert_eq!(buckets[0].len(), 2, "par-2 bucket must be capped at 2");
}

#[test]
fn fingerprints_are_whole_numbers() {
    assert_eq!(Pools::fingerprint("7219290"), Some(7_219_290));
    assert_eq!(Pools::fingerprint("+1"), Some(1));
    assert_eq!(Pools::fingerprint("18446744073709551615"), Some(u64::MAX));
    for text in ["", "+", "-1", "-0", "18446744073709551616", "1 ", "1.5", "x"] {
        assert_eq!(Pools::fingerprint(text), None, "{text:?}");
        assert_eq!(text.parse::<u64>().ok(), None, "{text:?}");
    }
}

#[test]
fn each_worker_draws_from_its_own_seed() {
    let n = 12u32;
    let edges: Vec<(u32, u32)> = (0..n).map(|i| (i, (i + 1) % n)).collect();
    let g = graph(n, &edges);
    let candidates: Vec<u32> = (0..n).collect();
    for ti in 0..4usize {
        let mut worker = Worker::new(g.len(), ti, 2);
        let mut rng = Rng::new(0x9E37_79B9 ^ ((ti as u64) << 32));
        let mut bucket = ThreadBucket::new();
        for src in 0..n {
            worker.visit(&g, &candidates, src, 2, None);
            // Every par has one goal from here; the generator serves them in
            // the order of the candidates.
            for &t in &candidates {
                match (t + n - src) % n {
                    2 => bucket.offer((src, t), 2, &mut rng),
                    3..=5 if src >= 2 => {
                        rng.next_u64();
                    }
                    _ => {}
                }
            }
        }
        let mut expected = bucket.pairs.clone();
        expected.sort();
        assert_eq!(merge_workers(&vec![worker], 2)[0], expected, "worker {ti}");
    }
}

#[test]
fn attach_routes_counts_the_dag() {
    // Diamond: two distinct optimal routes 0 -> 3.
    let g = graph(4, &[(0, 1), (0, 2), (1, 3), (2, 3)]);
    let buckets = attach_routes(&g, &[(0, 3)], 2, None);
    assert_eq!(buckets[0], vec![(0, 3, 2)]);

    // The banned line has exactly one route 0 -> 4 at par 4.
    let g = line_with_hub();
    let buckets = attach_routes(&g, &[(0, 4)], 4, Some(2));
    assert_eq!(buckets[0], vec![(0, 4, 1)]);
}

#[test]
fn write_load_round_trip_and_fingerprint() {
    let mut p = Pools::empty();
    p.set(Difficulty::Easy, 0, vec![(1, 2, 9), (3, 4, 1)]);
    p.set(Difficulty::Hard, 1, vec![(5, 6, 3)]);
    let rows = p.write();

    let Ok(loaded) = Pools::load(Some(100), Some(999), 100, 999, &rows) else {
        panic!("rows of this very graph must load")
    };
    // set() sorts by route count, and load re-sorts the same way.
    assert_eq!(rows, vec![(0, 3, 3, 4, 1), (0, 3, 1, 2, 9), (2, 5, 5, 6, 3)]);
    assert_eq!(loaded.write(), rows);

    // Same rows against a different graph must be refused, not degrade.
    assert_eq!(
        Pools::load(Some(100), Some(999), 101, 999, &rows).err(),
        Some(PoolsError::Stale { articles: 100, edges: 999 })
    );
    assert_eq!(
        Pools::load(Some(100), Some(999), 100, 1000, &rows).err(),
        Some(PoolsError::Stale { articles: 100, edges: 999 })
    );
}

#[test]
fn pick_is_deterministic_and_respects_route_halves() {
    let mut p = Pools::empty();
    // Two pairs in one bucket: routes 1 (precise) and 50 (forgiving).
    p.set(Difficulty::Easy, 0, vec![(1, 2, 50), (3, 4, 1)]);
    p.set(Difficulty::Hard, 0, vec![(1, 2, 50), (3, 4, 1)]);
    let mut rng = Rng::new(9);
    for _ in 0..20 {
        // Easy must draw from the many-routes half, hard from the
        // few-routes half.
        assert_eq!(p.pick(Difficulty::Easy, &mut rng), Some((1, 2)));
        assert_eq!(p.pick(Difficulty::Hard, &mut rng), Some((3, 4)));
    }
    // Determinism: same seed, same draw.
    let mut a = Rng::new(7);
    let mut b = Rng::new(7);
    assert_eq!(p.pick(Difficulty::Medium, &mut a), p.pick(Difficulty::Medium, &mut b));
    assert!(Pools::empty().pick(Difficulty::Easy, &mut a).is_none());
}
