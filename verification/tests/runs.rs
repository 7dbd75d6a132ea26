use std::collections::HashSet;
use wiki_graph::board::{board_key, control, place};
use wiki_graph::graph::Graph;
use wiki_graph::runs::{
    clean_nickname, judge, Entry, Record, Registry, Run, RunError, RunSpec, LOG_FILE,
    MAX_LIVE_RUNS, MAX_RUN, RUN_TTL,
};

const MS: u64 = 1_000_000;
const SECOND: u64 = 1_000_000_000;

#[test]
fn nicknames_are_bounded_and_stripped() {
    assert_eq!(clean_nickname("  bob  "), "bob");
    assert_eq!(clean_nickname(""), "anonymous");
    assert_eq!(clean_nickname("   "), "anonymous");
    assert_eq!(clean_nickname("a\u{0}b\nc"), "abc");
    assert_eq!(clean_nickname(&"x".repeat(200)).len(), 20);
}

fn e(player: &str, clicks: usize, ms: u64) -> Entry {
    Entry { nickname: player.into(), clicks, ms, player: player.into() }
}

#[test]
fn one_entry_per_player_keeping_their_best() {
    let mut list = Vec::new();
    place(&mut list, e("ann", 6, 9000));
    place(&mut list, e("ann", 4, 9000));   // improvement
    place(&mut list, e("ann", 9, 1000));   // worse on clicks
    assert_eq!(list.len(), 1, "a player must not stack the board");
    assert_eq!(list[0].clicks, 4);
}

#[test]
fn ranks_by_clicks_then_time() {
    let mut list = Vec::new();
    place(&mut list, e("slow", 3, 90_000));
    place(&mut list, e("fast", 3, 10_000));
    place(&mut list, e("fewest", 2, 99_000));
    assert_eq!(
        list.iter().map(|x| x.nickname.as_str()).collect::<Vec<_>>(),
        ["fewest", "fast", "slow"],
        "clicks lead, time breaks ties"
    );
}

#[test]
fn anonymous_entries_are_not_merged_together() {
    // An empty player id means "unknown", not "the same person".
    let mut list = Vec::new();
    place(&mut list, Entry { nickname: "a".into(), clicks: 3, ms: 1, player: String::new() });
    place(&mut list, Entry { nickname: "b".into(), clicks: 4, ms: 1, player: String::new() });
    assert_eq!(list.len(), 2);
}

#[test]
fn board_key_separates_daily_from_free_play() {
    assert_ne!(board_key(Some(1), "hard"), board_key(None, "hard"));
    assert_ne!(board_key(Some(1), "hard"), board_key(Some(1), "easy"));
    assert_ne!(board_key(Some(1), "hard"), board_key(Some(2), "hard"));
}

#[test]
fn board_keys_are_spelled_out() {
    assert_eq!(board_key(Some(17), "hard"), "daily:17:hard");
    assert_eq!(board_key(None, "custom"), "free:custom");
}

#[test]
fn control_characters_are_those_of_unicode() {
    for c in (0..=0x10ffff).filter_map(char::from_u32) {
        assert_eq!(control(c), c.is_control(), "{c:?}");
    }
}

#[test]
fn boards_hold_a_hundred_and_keep_the_order_of_arrival_among_equals() {
    let mut list = Vec::new();
    for i in 0..130 {
        place(&mut list, e(&format!("p{i}"), 5, 1000));
    }
    assert_eq!(list.len(), 100);
    assert_eq!(list[0].player, "p0");
    assert_eq!(list[99].player, "p99");
    place(&mut list, e("best", 1, 1));
    assert_eq!(list.len(), 100);
    assert_eq!(list[0].player, "best");
    assert_eq!(list[99].player, "p98");
}

// ---------------------------------------------------------------------------
// The registry
// ---------------------------------------------------------------------------

/// 0 -> 1 -> 2 -> 3 and 0 -> 4 -> 3, where three articles link to 4.
fn graph() -> Graph {
    let names = ["Start", "One", "Two", "Goal", "Hub", "X", "Y"];
    let titles: Vec<(u32, String)> =
        names.iter().enumerate().map(|(i, t)| (i as u32, t.to_string())).collect();
    Graph::load(&titles, &[], &[(0, 1), (1, 2), (2, 3), (0, 4), (4, 3), (5, 4), (6, 4)])
}

fn spec(ban_degree: Option<usize>) -> RunSpec {
    RunSpec { start: 0, goal: 3, ban_degree, par: 2, difficulty: "hard".into(), number: Some(7) }
}

#[test]
fn a_run_is_issued_walked_and_ranked() {
    let g = graph();
    let mut reg = Registry::default();
    let id = reg.issue(spec(Some(2)), 5 * SECOND);
    let run = reg.get(id).unwrap();
    assert_eq!((run.start, run.goal, run.par, run.submitted), (0, 3, 2, false));
    let Ok(a) = reg.submit(&g, id, &[0, 1, 2, 3], " ann ", "id1", 15 * SECOND) else {
        panic!("a walk along links must count")
    };
    assert_eq!((a.clicks, a.par, a.ms, a.rank), (3, 2, 10_000, Some(1)));
    assert_eq!(a.record.board, "daily:7:hard");
    assert_eq!(a.record.entry.nickname, "ann");
    let board = reg.leaderboard(Some(7), "hard");
    assert_eq!(board.len(), 1);
    assert_eq!((board[0].clicks, board[0].ms, board[0].player.as_str()), (3, 10_000, "id1"));
    assert!(reg.leaderboard(None, "hard").is_empty());
    // A run counts once.
    assert_eq!(
        reg.submit(&g, id, &[0, 1, 2, 3], "ann", "id1", 16 * SECOND).err(),
        Some(RunError::AlreadySubmitted)
    );
    assert!(reg.get(id).unwrap().submitted);
}

#[test]
fn every_way_that_a_run_is_refused() {
    let g = graph();
    let mut reg = Registry::default();
    let id = reg.issue(spec(Some(2)), 0);
    let mut hand_in = |path: &[u32], now: u64| reg.submit(&g, id, path, "n", "p", now).err();
    assert_eq!(hand_in(&[], 60 * SECOND), Some(RunError::WrongStart));
    assert_eq!(hand_in(&[1, 2, 3], 60 * SECOND), Some(RunError::WrongStart));
    assert_eq!(hand_in(&[0, 1, 2], 60 * SECOND), Some(RunError::WrongGoal));
    // One article is a path too.
    assert_eq!(hand_in(&[0], 60 * SECOND), Some(RunError::WrongGoal));
    assert_eq!(hand_in(&[3], 60 * SECOND), Some(RunError::WrongStart));
    assert_eq!(hand_in(&[0; 501], 60 * SECOND), Some(RunError::PathTooLong));
    assert_eq!(hand_in(&[0, 2, 3], 60 * SECOND), Some(RunError::BrokenLink(0, 2)));
    assert_eq!(hand_in(&[0, 99, 3], 60 * SECOND), Some(RunError::BrokenLink(0, 99)));
    assert_eq!(hand_in(&[0, 4, 3], 60 * SECOND), Some(RunError::UsedBannedHub(4)));
    // Three clicks take 400 + 3 * 250 milliseconds at least.
    assert_eq!(hand_in(&[0, 1, 2, 3], 1149 * MS), Some(RunError::TooFast));
    assert_eq!(hand_in(&[0, 1, 2, 3], MAX_RUN + 1), Some(RunError::Expired));
    // What has expired is forgotten.
    assert_eq!(hand_in(&[0, 1, 2, 3], 60 * SECOND), Some(RunError::UnknownRun));
    assert!(reg.leaderboard(Some(7), "hard").is_empty());
}

#[test]
fn the_limits_are_inclusive() {
    let g = graph();
    let mut reg = Registry::new();
    let fast = reg.issue(spec(None), 0);
    assert!(reg.submit(&g, fast, &[0, 1, 2, 3], "n", "p", 1150 * MS).is_ok());
    let slow = reg.issue(spec(None), 0);
    assert!(reg.submit(&g, slow, &[0, 1, 2, 3], "n", "q", MAX_RUN).is_ok());
    // The hub is banned only where the run bans it.
    let hub = reg.issue(spec(None), 0);
    let Ok(a) = reg.submit(&g, hub, &[0, 4, 3], "n", "r", 60 * SECOND) else {
        panic!("nothing is banned")
    };
    assert_eq!((a.clicks, a.rank), (2, Some(1)));
}

#[test]
fn a_worse_run_of_a_known_player_has_no_rank() {
    let g = graph();
    let mut reg = Registry::default();
    let a = reg.issue(spec(None), 0);
    assert!(reg.submit(&g, a, &[0, 4, 3], "n", "p", 2 * SECOND).is_ok());
    let b = reg.issue(spec(None), 0);
    let Ok(worse) = reg.submit(&g, b, &[0, 1, 2, 3], "n", "p", 2 * SECOND) else {
        panic!("it counts all the same")
    };
    assert_eq!(worse.rank, None);
    assert_eq!(reg.leaderboard(Some(7), "hard").len(), 1);
}

#[test]
fn runs_are_judged_by_the_clock_of_the_server() {
    let g = graph();
    let run = Run {
        start: 0,
        goal: 3,
        ban_degree: None,
        par: 2,
        difficulty: "easy".into(),
        number: None,
        issued: 10 * SECOND,
        submitted: false,
        presses: 0,
    };
    assert_eq!(judge(&run, &g, &[0, 4, 3], 14 * SECOND), Ok((2, 4000)));
    // A clock that went back is no time at all.
    assert_eq!(judge(&run, &g, &[0, 4, 3], 0), Err(RunError::TooFast));
}

#[test]
fn a_compass_is_rationed() {
    let g = graph();
    let mut reg = Registry::new();
    let id = reg.issue(spec(Some(2)), 0);
    let other = reg.issue(spec(None), 0);
    assert_eq!(reg.spend_compass(id, 2), Ok((3, Some(2), 1)));
    assert_eq!(reg.spend_compass(id, 2), Ok((3, Some(2), 0)));
    assert_eq!(reg.spend_compass(id, 2), Err(RunError::NoChargesLeft));
    // Each run has charges of its own, and a refused press takes nothing.
    assert_eq!(reg.spend_compass(other, 1), Ok((3, None, 0)));
    assert_eq!(reg.get(id).unwrap().presses, 2);
    assert_eq!(reg.spend_compass(id ^ 1, 9), Err(RunError::UnknownRun));
    assert_eq!(RunError::NoChargesLeft.message(&g), "no compass charges left");
    // The run can still be handed in.
    assert!(reg.submit(&g, id, &[0, 1, 2, 3], "n", "p", 60 * SECOND).is_ok());
}

#[test]
fn messages_say_which_check_failed() {
    let g = graph();
    let say = |e: RunError| e.message(&g);
    assert_eq!(say(RunError::UnknownRun), "unknown or expired run");
    assert_eq!(say(RunError::AlreadySubmitted), "this run was already submitted");
    assert_eq!(say(RunError::WrongStart), "path does not begin at the start article");
    assert_eq!(say(RunError::WrongGoal), "path does not end at the goal article");
    assert_eq!(say(RunError::PathTooLong), "path longer than 500 steps");
    assert_eq!(say(RunError::BrokenLink(0, 2)), "\"Start\" does not link to \"Two\"");
    assert_eq!(say(RunError::UsedBannedHub(4)), "\"Hub\" is banned at this difficulty");
    assert_eq!(say(RunError::TooFast), "run completed implausibly fast");
    assert_eq!(say(RunError::Expired), "run expired");
}

#[test]
fn ids_are_mixed_and_distinct() {
    let mut reg = Registry::default();
    let mut seen = HashSet::new();
    for n in 1..=1000u64 {
        let id = reg.issue(spec(None), 0);
        assert_eq!(id, n.wrapping_mul(0x9E37_79B9_7F4A_7C15) ^ 0x5DEE_CE66_D1CE_4B9F);
        assert!(seen.insert(id));
    }
}

#[test]
fn room_is_made_when_too_many_runs_are_out() {
    let g = graph();
    let mut reg = Registry::default();
    let old = reg.issue(spec(None), 0);
    let mut last = 0;
    for _ in 1..MAX_LIVE_RUNS {
        last = reg.issue(spec(None), 10 * SECOND);
    }
    assert!(reg.submit(&g, last, &[0, 4, 3], "n", "p", 20 * SECOND).is_ok());
    // The next one drops the one that is too old and the one that was handed in.
    let next = reg.issue(spec(None), RUN_TTL + SECOND);
    assert!(reg.get(old).is_none());
    assert!(reg.get(last).is_none());
    assert!(reg.get(next).is_some());
}

#[test]
fn everything_goes_when_nothing_else_helps() {
    let mut reg = Registry::default();
    let mut ids = Vec::new();
    for _ in 0..MAX_LIVE_RUNS {
        ids.push(reg.issue(spec(None), 0));
    }
    assert!(reg.get(ids[0]).is_some());
    let next = reg.issue(spec(None), 0);
    assert!(reg.get(next).is_some());
    assert!(ids.iter().all(|&id| reg.get(id).is_none()));
}

#[test]
fn boards_survive_a_restart() {
    let g = graph();
    let mut reg = Registry::default();
    let mut log = Vec::new();
    for (i, path) in [vec![0, 1, 2, 3], vec![0, 4, 3], vec![0, 1, 2, 3]].into_iter().enumerate() {
        let id = reg.issue(spec(None), 0);
        let Ok(a) = reg.submit(&g, id, &path, "n", &format!("p{}", i % 2), (5 + i as u64) * SECOND)
        else {
            panic!("a walk along links must count")
        };
        log.push(a.record);
    }
    log.push(Record { board: "free:easy".into(), entry: e("z", 9, 9) });
    let again = Registry::open(log);
    let rows = |r: &Registry| {
        r.leaderboard(Some(7), "hard")
            .into_iter()
            .map(|e| (e.nickname, e.clicks, e.ms, e.player))
            .collect::<Vec<_>>()
    };
    assert_eq!(rows(&again), rows(&reg));
    assert_eq!(again.leaderboard(None, "easy").len(), 1);
    assert_eq!(LOG_FILE, "leaderboard.jsonl");
}
