use wiki_graph::graph::Graph;
use wiki_graph::levels::NONE;
use wiki_graph::paths::PathFinder;
use wiki_graph::sweep::UNSEEN;

fn graph(n: u32, edges: &[(u32, u32)]) -> Graph {
    let titles: Vec<(u32, String)> = (0..n).map(|i| (i, format!("A{i}"))).collect();
    Graph::load(&titles, &[], edges)
}

fn path(g: &Graph, s: u32, t: u32) -> Option<Vec<u32>> {
    PathFinder::new(g.len()).shortest_path(g, s, t, &|_| false)
}

fn count(g: &Graph, s: u32, t: u32) -> Option<(usize, u64)> {
    PathFinder::new(g.len()).count_shortest_paths(g, s, t, &|_| false, 12)
}

#[test]
fn finds_a_straight_line() {
    let g = graph(4, &[(0, 1), (1, 2), (2, 3)]);
    assert_eq!(path(&g, 0, 3), Some(vec![0, 1, 2, 3]));
}

#[test]
fn picks_the_shortest_of_several_routes() {
    // 0->1->4 is 2 hops; 0->2->3->4 is 3. Both meet the backward frontier.
    let g = graph(5, &[(0, 1), (1, 4), (0, 2), (2, 3), (3, 4)]);
    let p = path(&g, 0, 4).unwrap();
    assert_eq!(p.len() - 1, 2, "got {p:?}");
    assert_eq!(p, vec![0, 1, 4]);
}

#[test]
fn respects_link_direction() {
    let g = graph(2, &[(0, 1)]);
    assert!(path(&g, 0, 1).is_some());
    assert_eq!(path(&g, 1, 0), None, "edges are one-way");
}

#[test]
fn unreachable_is_none() {
    let g = graph(4, &[(0, 1), (2, 3)]);
    assert_eq!(path(&g, 0, 3), None);
}

#[test]
fn start_equals_goal() {
    let g = graph(2, &[(0, 1)]);
    assert_eq!(path(&g, 1, 1), Some(vec![1]));
}

#[test]
fn banned_vertices_are_routed_around() {
    // 0->1->3 is shortest, but 1 is banned, so it must take 0->2->4->3.
    let g = graph(5, &[(0, 1), (1, 3), (0, 2), (2, 4), (4, 3)]);
    let mut pf = PathFinder::new(g.len());
    let p = pf.shortest_path(&g, 0, 3, &|v| v == 1).unwrap();
    assert_eq!(p, vec![0, 2, 4, 3]);
    assert!(!p.contains(&1));
}

#[test]
fn endpoints_are_never_banned() {
    // A ban predicate matching everything must still connect neighbours.
    let g = graph(2, &[(0, 1)]);
    let mut pf = PathFinder::new(g.len());
    assert_eq!(pf.shortest_path(&g, 0, 1, &|_| true), Some(vec![0, 1]));
}

#[test]
fn reused_finder_does_not_leak_state() {
    let g = graph(5, &[(0, 1), (1, 4), (0, 2), (2, 3), (3, 4)]);
    let mut pf = PathFinder::new(g.len());
    let first = pf.shortest_path(&g, 0, 4, &|_| false);
    let second = pf.shortest_path(&g, 0, 4, &|_| false);
    assert_eq!(first, second, "scratch space must reset between queries");
    // A different query in between must not corrupt the next one.
    pf.shortest_path(&g, 2, 4, &|_| false);
    assert_eq!(pf.shortest_path(&g, 0, 4, &|_| false), first);
}

#[test]
fn of_several_shortest_paths_the_first_links_decide() {
    // Three ways of length two, whatever was asked before.
    let g = graph(5, &[(0, 3), (0, 2), (0, 1), (1, 4), (2, 4), (3, 4)]);
    assert_eq!(path(&g, 0, 4), Some(vec![0, 1, 4]));
    let mut pf = PathFinder::new(g.len());
    pf.count_shortest_paths(&g, 0, 4, &|v| v == 2, 12);
    pf.shortest_path(&g, 2, 4, &|_| false);
    assert_eq!(pf.shortest_path(&g, 0, 4, &|_| false), path(&g, 0, 4));
    assert_eq!(pf.shortest_path(&g, 0, 4, &|v| v == 1), Some(vec![0, 2, 4]));
}

#[test]
fn counts_a_diamond() {
    //   0 -> 1 -> 3
    //   0 -> 2 -> 3      two shortest routes, both length 2
    let g = graph(4, &[(0, 1), (0, 2), (1, 3), (2, 3)]);
    assert_eq!(count(&g, 0, 3), Some((2, 2)));
}

#[test]
fn counts_parallel_diamonds_multiplicatively() {
    // Two diamonds in series: 2 ways through the first times 2 through the
    // second is 4 distinct shortest routes of length 4.
    let g = graph(
        7,
        &[(0, 1), (0, 2), (1, 3), (2, 3), (3, 4), (3, 5), (4, 6), (5, 6)],
    );
    assert_eq!(count(&g, 0, 6), Some((4, 4)));
}

#[test]
fn ignores_longer_routes() {
    // 0->1->4 is the only shortest; 0->2->3->4 is longer and must not be
    // counted even though it also arrives.
    let g = graph(5, &[(0, 1), (1, 4), (0, 2), (2, 3), (3, 4)]);
    assert_eq!(count(&g, 0, 4), Some((2, 1)));
}

#[test]
fn unreachable_and_self() {
    let g = graph(3, &[(0, 1)]);
    assert_eq!(count(&g, 0, 2), None);
    assert_eq!(count(&g, 1, 1), Some((0, 1)));
}

#[test]
fn respects_the_hub_ban() {
    // Every route runs through 1; banning it leaves nothing.
    let g = graph(3, &[(0, 1), (1, 2)]);
    let mut pf = PathFinder::new(g.len());
    assert_eq!(pf.count_shortest_paths(&g, 0, 2, &|v| v == 1, 12), None);
}

#[test]
fn depth_cap_gives_up_rather_than_lying() {
    let g = graph(5, &[(0, 1), (1, 2), (2, 3), (3, 4)]);
    let mut pf = PathFinder::new(g.len());
    assert_eq!(pf.count_shortest_paths(&g, 0, 4, &|_| false, 2), None);
    assert_eq!(pf.count_shortest_paths(&g, 0, 4, &|_| false, 4), Some((4, 1)));
}

#[test]
fn a_link_listed_twice_counts_twice() {
    let g = graph(3, &[(0, 1), (0, 1), (1, 2)]);
    assert_eq!(count(&g, 0, 2), Some((2, 2)));
    assert_eq!(g.forward.degree(0), 2);
}

#[test]
fn counting_outside_the_graph_is_none() {
    let g = graph(2, &[(0, 1)]);
    assert_eq!(count(&g, 0, 7), None);
    assert_eq!(count(&g, 7, 0), None);
    assert_eq!(count(&g, 7, 7), Some((0, 1)));
}

#[test]
fn counts_stop_at_what_fits() {
    // 70 diamonds in a row: two to the power of seventy routes.
    let mut edges = Vec::new();
    for k in 0..70u32 {
        let a = 3 * k;
        edges.push((a, a + 1));
        edges.push((a, a + 2));
        edges.push((a + 1, a + 3));
        edges.push((a + 2, a + 3));
    }
    let g = graph(211, &edges);
    let mut pf = PathFinder::new(g.len());
    assert_eq!(
        pf.count_shortest_paths(&g, 0, 210, &|_| false, 255),
        Some((140, u64::MAX))
    );
    assert_eq!(
        pf.count_shortest_paths(&g, 0, 90, &|_| false, 255),
        Some((60, 1 << 30))
    );
}

#[test]
fn paths_longer_than_a_byte_are_found() {
    let edges: Vec<(u32, u32)> = (0..999u32).map(|i| (i, i + 1)).collect();
    let g = graph(1000, &edges);
    let p = path(&g, 0, 999).unwrap();
    assert_eq!(p.len(), 1000);
    assert_eq!(p, (0..1000u32).collect::<Vec<_>>());
}

#[test]
fn distances_to_a_goal() {
    // 0 -> 1 -> 2 -> 3, and 4 apart.
    let g = graph(5, &[(0, 1), (1, 2), (2, 3)]);
    let mut pf = PathFinder::new(g.len());
    assert_eq!(pf.distances_to(&g, 3, 10), vec![3, 2, 1, 0, UNSEEN]);
    assert_eq!(pf.distances_to(&g, 3, 1), vec![UNSEEN, UNSEEN, 1, 0, UNSEEN]);
    assert_eq!(pf.distances_to(&g, 9, 10), vec![UNSEEN; 5]);
    assert_eq!(UNSEEN, 255);
    assert_eq!(NONE, u32::MAX);
}

#[test]
fn distances_stop_short_of_the_sentinel() {
    let edges: Vec<(u32, u32)> = (0..299u32).map(|i| (i, i + 1)).collect();
    let g = graph(300, &edges);
    let d = PathFinder::new(300).distances_to(&g, 299, 255);
    assert_eq!(d[299 - 254], 254);
    assert_eq!(d[299 - 255], UNSEEN);
    assert_eq!(d[0], UNSEEN);
}

#[test]
fn path_count_and_distance_agree() {
    let g = graph(6, &[(0, 1), (1, 2), (2, 3), (0, 4), (4, 3), (3, 5), (2, 5)]);
    let mut pf = PathFinder::new(g.len());
    for s in 0..6u32 {
        for t in 0..6u32 {
            let p = pf.shortest_path(&g, s, t, &|_| false);
            let c = pf.count_shortest_paths(&g, s, t, &|_| false, 20);
            let d = pf.distances_to(&g, t, 20)[s as usize];
            match p {
                Some(p) => {
                    assert_eq!(c.unwrap().0, p.len() - 1);
                    assert_eq!(d as usize, p.len() - 1);
                }
                None => {
                    assert_eq!(c, None);
                    assert_eq!(d, UNSEEN);
                }
            }
        }
    }
}

#[test]
fn edges_beyond_the_graph_are_left_out() {
    let g = graph(2, &[(0, 1), (0, 5), (7, 1)]);
    assert_eq!(g.forward.edges(), 1);
    assert_eq!(g.reverse.edges(), 1);
    assert_eq!(g.forward.neighbors(0), &[1]);
    assert_eq!(g.reverse.neighbors(1), &[0]);
    assert_eq!(g.forward.neighbors(1), &[] as &[u32]);
}

#[test]
fn offsets_are_running_sums() {
    let mut counts = vec![2u32, 0, 3];
    wiki_graph::csr::counts_to_offsets(&mut counts);
    assert_eq!(counts, vec![0, 2, 2, 5]);
}

#[test]
fn titles_are_placed_by_id_and_found() {
    let rows = vec![
        (2u32, "united states".to_string()),
        (0, "Cat".to_string()),
        (2, "United States".to_string()),
    ];
    let redirects = vec![
        (2u32, "USA".to_string()),
        (0, "United_States".to_string()),
        (9, "Nowhere".to_string()),
        (0, "USA".to_string()),
        (0, "#".to_string()),
    ];
    let g = Graph::load(&rows, &redirects, &[]);
    assert_eq!(g.len(), 3);
    assert!(!g.is_empty());
    assert_eq!(g.title(2), "United States");
    assert_eq!(g.title(1), "");
    assert_eq!(g.resolve("usa"), None, "only the first letter is folded");
    assert_eq!(g.resolve("USA"), Some(2));
    assert_eq!(g.resolve("United_States"), Some(2), "an alias never shadows an article");
    assert_eq!(g.resolve("cat#Diet"), Some(0));
    assert_eq!(g.resolve("Nowhere"), None);
    assert_eq!(g.resolve(""), None);
    assert_eq!(g.n_redirect_aliases, 1);
    assert_eq!(g.alias_entries(), &vec![("USA".to_string(), 2)]);
}

#[test]
fn of_two_articles_with_one_name_the_later_is_found() {
    let rows = vec![(0u32, "Cat".to_string()), (1, "cat".to_string())];
    let g = Graph::load(&rows, &[], &[]);
    assert_eq!(g.resolve("Cat"), Some(1));
}

#[test]
fn distances_to_measures_toward_the_goal() {
    // 0 -> 1 -> 2, and 3 is a dead end that reaches nothing.
    let g = graph(4, &[(0, 1), (1, 2)]);
    let d = PathFinder::new(g.len()).distances_to(&g, 2, 6);
    assert_eq!(d[2], 0, "the goal is zero from itself");
    assert_eq!(d[1], 1, "one click away");
    assert_eq!(d[0], 2, "two clicks away");
    assert_eq!(d[3], UNSEEN, "cannot reach the goal at all");
}

#[test]
fn distances_to_honours_the_cap() {
    let g = graph(4, &[(0, 1), (1, 2), (2, 3)]);
    let d = PathFinder::new(g.len()).distances_to(&g, 3, 1);
    assert_eq!(d[2], 1);
    assert_eq!(d[1], UNSEEN, "past the cap is indistinguishable from absent");
}

#[test]
fn the_nearest_link_is_one_click_nearer() {
    let g = graph(6, &[(0, 1), (0, 2), (1, 3), (2, 4), (3, 5), (4, 3), (1, 2)]);
    let d = PathFinder::new(g.len()).distances_to(&g, 5, 6);
    for v in 0..6u32 {
        if d[v as usize] != UNSEEN && d[v as usize] > 0 {
            let best = g.forward.neighbors(v).iter().map(|&w| d[w as usize]).min().unwrap();
            assert_eq!(best + 1, d[v as usize]);
        }
    }
}
