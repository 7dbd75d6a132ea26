//! Runs: what a player was set, what they claim to have walked, and whether
//! it counts.
//!
//! A score is never taken on trust. A run is issued, and on submission the
//! claimed path is walked again over the graph: every hop has to be a link,
//! no banned hub may be passed, and the clock is the server's.

use crate::board::{
    BOARD_SIZE, board_key, in_rank_order, key_of, law_boards_are_in_order, law_players_come_once,
    lines, nickname_of, one_per_player, place, placed,
};
use crate::graph::{Graph, texts};
use crate::hubs::{is_hub, over_limit};
use crate::text::{decimal, push_decimal};
use crate::walks::Adj;
use std::collections::HashMap;
use vstd::hash_map::StringHashMap;
use vstd::prelude::*;
use vstd::string::StringExecFns;

pub use crate::board::{Entry, EntryView, clean_nickname};

verus! {

broadcast use vstd::std_specs::hash::group_hash_axioms;

/// Where accepted runs are logged, one to a line.
pub const LOG_FILE: &'static str = "leaderboard.jsonl";

/// Nobody reads a page and picks a link on it faster than this, in
/// milliseconds.
pub const MIN_MS_PER_CLICK: u64 = 250;

/// What the first page takes to load, in milliseconds.
pub const MIN_MS_BASE: u64 = 400;

/// After this long a run is stale, in nanoseconds: six hours.
pub const MAX_RUN: u64 = 21_600_000_000_000;

/// No race is anywhere near this long, in articles.
pub const MAX_PATH: usize = 500;

/// How long an issued run is kept where room is short, in nanoseconds: ten
/// minutes longer than it may take.
pub const RUN_TTL: u64 = 22_200_000_000_000;

/// How many runs are kept.
pub const MAX_LIVE_RUNS: usize = 20_000;

/// Nanoseconds in a millisecond.
pub const NS_PER_MS: u64 = 1_000_000;

// ---------------------------------------------------------------------------
// What a run is
// ---------------------------------------------------------------------------

/// A run that was issued.
pub struct Run {
    pub start: u32,
    pub goal: u32,
    pub ban_degree: Option<usize>,
    pub par: usize,
    pub difficulty: String,
    pub number: Option<u64>,
    /// When it was issued, in nanoseconds of the server's clock.
    pub issued: u64,
    pub submitted: bool,
    /// How often its compass was pressed.
    pub presses: u8,
}

/// A run, as a value.
pub struct RunView {
    pub start: u32,
    pub goal: u32,
    pub ban_degree: Option<usize>,
    pub par: usize,
    pub difficulty: Seq<char>,
    pub number: Option<u64>,
    pub issued: u64,
    pub submitted: bool,
    pub presses: u8,
}

impl View for Run {
    type V = RunView;

    open spec fn view(&self) -> RunView {
        RunView {
            start: self.start,
            goal: self.goal,
            ban_degree: self.ban_degree,
            par: self.par,
            difficulty: self.difficulty@,
            number: self.number,
            issued: self.issued,
            submitted: self.submitted,
            presses: self.presses,
        }
    }
}

/// A run to issue.
pub struct RunSpec {
    pub start: u32,
    pub goal: u32,
    pub ban_degree: Option<usize>,
    pub par: usize,
    pub difficulty: String,
    pub number: Option<u64>,
}

impl RunSpec {
    /// The run that is issued at a given time.
    pub open spec fn issued_at(&self, now: u64) -> RunView {
        RunView {
            start: self.start,
            goal: self.goal,
            ban_degree: self.ban_degree,
            par: self.par,
            difficulty: self.difficulty@,
            number: self.number,
            issued: now,
            submitted: false,
            presses: 0,
        }
    }
}

/// A line of the log: an accepted run and the board it stands on.
pub struct Record {
    pub board: String,
    pub entry: Entry,
}

/// What is said of an accepted run.
pub struct Accepted {
    pub clicks: usize,
    pub par: usize,
    pub ms: u64,
    /// The place on the board, from 1, where the run made it.
    pub rank: Option<usize>,
    /// What goes into the log.
    pub record: Record,
}

/// Why a run does not count.
#[derive(Debug, PartialEq, Eq, Structural)]
pub enum RunError {
    UnknownRun,
    AlreadySubmitted,
    WrongStart,
    WrongGoal,
    PathTooLong,
    /// The first does not link to the second.
    BrokenLink(u32, u32),
    /// The path leads through a hub that is banned at this difficulty.
    UsedBannedHub(u32),
    TooFast,
    Expired,
    /// The compass was pressed as often as it may be.
    NoChargesLeft,
}

// ---------------------------------------------------------------------------
// What counts
// ---------------------------------------------------------------------------

/// How long it was from one time to another. A clock that went back counts as
/// no time.
pub open spec fn elapsed(issued: u64, now: u64) -> u64 {
    if now < issued {
        0
    } else {
        (now - issued) as u64
    }
}

fn time_since(issued: u64, now: u64) -> (r: u64)
    ensures
        r == elapsed(issued, now),
{
    if now < issued {
        0
    } else {
        now - issued
    }
}

/// The first hop of a path, from hop `i` on, that is no link.
pub open spec fn broken_hop(fwd: Adj, path: Seq<u32>, i: int) -> Option<int>
    decreases path.len() - i,
{
    if i < 0 || i + 1 >= path.len() {
        None
    } else if !fwd[path[i] as int].contains(path[i + 1]) {
        Some(i)
    } else {
        broken_hop(fwd, path, i + 1)
    }
}

/// The first hub strictly inside a path, from place `i` on.
pub open spec fn banned_stop(rev: Adj, limit: Option<usize>, path: Seq<u32>, i: int) -> Option<int>
    decreases path.len() - i,
{
    if i < 0 || i + 1 >= path.len() {
        None
    } else if is_hub(rev, limit, path[i]) {
        Some(i)
    } else {
        banned_stop(rev, limit, path, i + 1)
    }
}

/// The fewest milliseconds that so many clicks take.
pub open spec fn least_ms(clicks: int) -> int {
    MIN_MS_BASE + MIN_MS_PER_CLICK * clicks
}

/// Whether a claimed path counts for a run: the clicks and the milliseconds
/// that it took, or why it does not.
pub open spec fn judged(
    fwd: Adj,
    rev: Adj,
    run: RunView,
    path: Seq<u32>,
    now: u64,
) -> Result<(usize, u64), RunError> {
    let time = elapsed(run.issued, now);
    let clicks = (path.len() - 1) as usize;
    let ms = time / NS_PER_MS;
    if run.submitted {
        Err(RunError::AlreadySubmitted)
    } else if time > MAX_RUN {
        Err(RunError::Expired)
    } else if path.len() > MAX_PATH {
        Err(RunError::PathTooLong)
    } else if path.len() == 0 || path.first() != run.start {
        Err(RunError::WrongStart)
    } else if path.last() != run.goal {
        Err(RunError::WrongGoal)
    } else {
        match broken_hop(fwd, path, 0) {
            Some(i) => Err(RunError::BrokenLink(path[i], path[i + 1])),
            None => match banned_stop(rev, run.ban_degree, path, 1) {
                Some(i) => Err(RunError::UsedBannedHub(path[i])),
                None => if ms < least_ms(clicks as int) {
                    Err(RunError::TooFast)
                } else {
                    Ok((clicks, ms))
                },
            },
        }
    }
}

/// The place, from 1, of the first entry with these clicks and this time,
/// looking from index `i` on.
pub open spec fn rank_of(list: Seq<EntryView>, clicks: usize, ms: u64, i: int) -> Option<usize>
    decreases list.len() - i,
{
    if i < 0 || i >= list.len() {
        None
    } else if list[i].clicks == clicks && list[i].ms == ms {
        Some((i + 1) as usize)
    } else {
        rank_of(list, clicks, ms, i + 1)
    }
}

fn find_rank(list: &Vec<Entry>, clicks: usize, ms: u64) -> (r: Option<usize>)
    ensures
        r == rank_of(lines(list@), clicks, ms, 0),
{
    let n: usize = list.len();
    let mut i: usize = 0;
    while i < n
        invariant
            n == list@.len(),
            i <= n,
            rank_of(lines(list@), clicks, ms, 0) == rank_of(lines(list@), clicks, ms, i as int),
        decreases n - i,
    {
        assert(lines(list@)[i as int] == list@[i as int]@);
        if list[i].clicks == clicks && list[i].ms == ms {
            return Some(i + 1);
        }
        i = i + 1;
    }
    None
}

fn links_to(list: &[u32], v: u32) -> (r: bool)
    ensures
        r == list@.contains(v),
{
    let n: usize = list.len();
    let mut i: usize = 0;
    while i < n
        invariant
            n == list@.len(),
            i <= n,
            forall|j: int| 0 <= j < i ==> list@[j] != v,
        decreases n - i,
    {
        if list[i] == v {
            return true;
        }
        i = i + 1;
    }
    false
}

fn find_broken_hop(g: &Graph, path: &[u32]) -> (r: Option<usize>)
    requires
        g.wf(),
        0 < path@.len() <= MAX_PATH,
        path@[0] < g.titles@.len(),
    ensures
        match r {
            Some(i) => broken_hop(g.forward@, path@, 0) == Some(i as int) && i + 1 < path@.len(),
            None => broken_hop(g.forward@, path@, 0) is None,
        },
{
    let n: usize = path.len();
    let mut i: usize = 0;
    while i + 1 < n
        invariant
            n == path@.len(),
            n <= MAX_PATH,
            i < n,
            g.wf(),
            path@[i as int] < g.titles@.len(),
            broken_hop(g.forward@, path@, 0) == broken_hop(g.forward@, path@, i as int),
        decreases n - i,
    {
        let a: u32 = path[i];
        let b: u32 = path[i + 1];
        if !links_to(g.forward.neighbors(a), b) {
            return Some(i);
        }
        proof {
            let k = choose|k: int|
                0 <= k < g.forward@[a as int].len() && g.forward@[a as int][k] == b;
            assert(g.forward@[a as int][k] < g.forward@.len());
        }
        i = i + 1;
    }
    None
}

fn find_banned_stop(g: &Graph, limit: Option<usize>, path: &[u32]) -> (r: Option<usize>)
    requires
        path@.len() <= MAX_PATH,
    ensures
        match r {
            Some(i) => banned_stop(g.reverse@, limit, path@, 1) == Some(i as int) && i + 1
                < path@.len(),
            None => banned_stop(g.reverse@, limit, path@, 1) is None,
        },
{
    let n: usize = path.len();
    let mut i: usize = 1;
    while i < n && i < n - 1
        invariant
            n == path@.len(),
            n <= MAX_PATH,
            1 <= i,
            banned_stop(g.reverse@, limit, path@, 1) == banned_stop(
                g.reverse@,
                limit,
                path@,
                i as int,
            ),
        decreases n - i,
    {
        if over_limit(&g.reverse, limit, path[i]) {
            return Some(i);
        }
        i = i + 1;
    }
    None
}

/// Whether a claimed path counts for a run that is out: the clicks and the
/// milliseconds that it took, or why it does not.
pub fn judge(run: &Run, g: &Graph, path: &[u32], now: u64) -> (r: Result<(usize, u64), RunError>)
    requires
        g.wf(),
        run.start < g.titles@.len(),
    ensures
        r == judged(g.forward@, g.reverse@, run@, path@, now),
{
    if run.submitted {
        return Err(RunError::AlreadySubmitted);
    }
    let time: u64 = time_since(run.issued, now);
    if time > MAX_RUN {
        return Err(RunError::Expired);
    }
    let n: usize = path.len();
    if n > MAX_PATH {
        return Err(RunError::PathTooLong);
    }
    if n == 0 || path[0] != run.start {
        return Err(RunError::WrongStart);
    }
    if path[n - 1] != run.goal {
        return Err(RunError::WrongGoal);
    }
    if let Some(i) = find_broken_hop(g, path) {
        return Err(RunError::BrokenLink(path[i], path[i + 1]));
    }
    if let Some(i) = find_banned_stop(g, run.ban_degree, path) {
        return Err(RunError::UsedBannedHub(path[i]));
    }
    let clicks: usize = n - 1;
    let floor: u64 = MIN_MS_BASE + MIN_MS_PER_CLICK * clicks as u64;
    let ms: u64 = time / NS_PER_MS;
    if ms < floor {
        return Err(RunError::TooFast);
    }
    Ok((clicks, ms))
}

// ---------------------------------------------------------------------------
// Messages
// ---------------------------------------------------------------------------

/// What `format!("{:?}", s)` gives for a text.
pub uninterp spec fn quoted_text(s: Seq<char>) -> Seq<char>;

/// `format!` with `{:?}` of a `str`: the text in double quotes, with what does
/// not print escaped. The result is a function of the text alone; how each
/// character is escaped is left to the name.
#[verifier::external_body]
fn quoted(s: &str) -> (r: String)
    ensures
        r@ == quoted_text(s@),
{
    format!("{:?}", s)
}

impl RunError {
    /// The articles that the error names are in the graph.
    pub open spec fn in_graph(&self, g: &Graph) -> bool {
        match self {
            RunError::BrokenLink(a, b) => *a < g.titles@.len() && *b < g.titles@.len(),
            RunError::UsedBannedHub(v) => *v < g.titles@.len(),
            _ => true,
        }
    }

    /// What a player is told.
    pub open spec fn text(&self, titles: Seq<Seq<char>>) -> Seq<char> {
        match self {
            RunError::UnknownRun => "unknown or expired run"@,
            RunError::AlreadySubmitted => "this run was already submitted"@,
            RunError::WrongStart => "path does not begin at the start article"@,
            RunError::WrongGoal => "path does not end at the goal article"@,
            RunError::PathTooLong => "path longer than "@ + decimal(MAX_PATH as nat) + " steps"@,
            RunError::BrokenLink(a, b) => quoted_text(titles[*a as int]) + " does not link to "@
                + quoted_text(titles[*b as int]),
            RunError::UsedBannedHub(v) => quoted_text(titles[*v as int])
                + " is banned at this difficulty"@,
            RunError::TooFast => "run completed implausibly fast"@,
            RunError::Expired => "run expired"@,
            RunError::NoChargesLeft => "no compass charges left"@,
        }
    }

    /// What a player is told.
    pub fn message(&self, g: &Graph) -> (r: String)
        requires
            self.in_graph(g),
        ensures
            r@ == self.text(texts(g.titles@)),
    {
        match self {
            RunError::UnknownRun => String::from_str("unknown or expired run"),
            RunError::AlreadySubmitted => String::from_str("this run was already submitted"),
            RunError::WrongStart => String::from_str("path does not begin at the start article"),
            RunError::WrongGoal => String::from_str("path does not end at the goal article"),
            RunError::PathTooLong => {
                let mut s = String::from_str("path longer than ");
                push_decimal(&mut s, MAX_PATH as u64);
                s.append(" steps");
                s
            },
            RunError::BrokenLink(a, b) => {
                let mut s = quoted(g.title(*a));
                s.append(" does not link to ");
                let t = quoted(g.title(*b));
                s.append(t.as_str());
                s
            },
            RunError::UsedBannedHub(v) => {
                let mut s = quoted(g.title(*v));
                s.append(" is banned at this difficulty");
                s
            },
            RunError::TooFast => String::from_str("run completed implausibly fast"),
            RunError::Expired => String::from_str("run expired"),
            RunError::NoChargesLeft => String::from_str("no compass charges left"),
        }
    }
}

// ---------------------------------------------------------------------------
// The registry
// ---------------------------------------------------------------------------

/// The runs that are out, and the boards.
pub struct Registry {
    runs: HashMap<u64, Run>,
    /// The ids of `runs`.
    ids: Vec<u64>,
    /// Where in `boards` a board of a given name is.
    at: StringHashMap<usize>,
    boards: Vec<Vec<Entry>>,
    next: u64,
}

/// The run ids that `count` runs lead to: the count, mixed so that ids do not
/// follow each other.
pub open spec fn run_id(count: u64) -> u64 {
    (((count * 0x9E37_79B9_7F4A_7C15) % 0x1_0000_0000_0000_0000) as u64) ^ 0x5DEE_CE66_D1CE_4B9F
}

/// What follows a count, back to zero after the last.
pub open spec fn next_count(count: u64) -> u64 {
    if count == u64::MAX {
        0
    } else {
        (count + 1) as u64
    }
}

/// A run is worth keeping where room is short.
pub open spec fn kept(run: RunView, now: u64) -> bool {
    elapsed(run.issued, now) < RUN_TTL && !run.submitted
}

/// The runs that are worth keeping.
pub open spec fn all_kept(runs: Map<u64, RunView>, now: u64) -> Map<u64, RunView> {
    runs.restrict(runs.dom().filter(|id: u64| kept(runs[id], now)))
}

/// The runs that are left once room is made for one more.
pub open spec fn with_room(runs: Map<u64, RunView>, now: u64) -> Map<u64, RunView> {
    if runs.len() < MAX_LIVE_RUNS {
        runs
    } else if all_kept(runs, now).len() < MAX_LIVE_RUNS {
        all_kept(runs, now)
    } else {
        Map::empty()
    }
}

/// The board of a given name, empty where there is none.
pub open spec fn board_of(boards: Map<Seq<char>, Seq<EntryView>>, name: Seq<char>) -> Seq<
    EntryView,
> {
    if boards.contains_key(name) {
        boards[name]
    } else {
        seq![]
    }
}

/// The boards with an entry added to one.
pub open spec fn with_record(
    boards: Map<Seq<char>, Seq<EntryView>>,
    name: Seq<char>,
    e: EntryView,
) -> Map<Seq<char>, Seq<EntryView>> {
    boards.insert(name, placed(board_of(boards, name), e))
}

/// The boards that a log leads to.
pub open spec fn replayed(log: Seq<Record>) -> Map<Seq<char>, Seq<EntryView>>
    decreases log.len(),
{
    if log.len() == 0 {
        Map::empty()
    } else {
        with_record(replayed(log.drop_last()), log.last().board@, log.last().entry@)
    }
}

/// A run that has been handed in.
pub open spec fn handed_in(run: RunView) -> RunView {
    RunView { submitted: true, ..run }
}

/// The runs that are under way and the boards.
pub struct Standing {
    pub runs: Map<u64, RunView>,
    pub boards: Map<Seq<char>, Seq<EntryView>>,
}

/// What comes of handing in a run under the nickname and for the player `by`,
/// and what stands then.
pub open spec fn settled(
    fwd: Adj,
    rev: Adj,
    s: Standing,
    id: u64,
    path: Seq<u32>,
    by: (Seq<char>, Seq<char>),
    now: u64,
) -> (Result<(usize, u64), RunError>, Standing) {
    if !s.runs.contains_key(id) {
        (Err(RunError::UnknownRun), s)
    } else {
        let run = s.runs[id];
        match judged(fwd, rev, run, path, now) {
            Err(e) => (
                Err(e),
                if e is Expired {
                    Standing { runs: s.runs.remove(id), ..s }
                } else {
                    s
                },
            ),
            Ok((clicks, ms)) => (
                Ok((clicks, ms)),
                Standing {
                    runs: s.runs.insert(id, handed_in(run)),
                    boards: with_record(
                        s.boards,
                        key_of(run.number, run.difficulty),
                        EntryView { nickname: nickname_of(by.0), clicks, ms, player: by.1 },
                    ),
                },
            ),
        }
    }
}

/// What comes of a press of the compass, and the runs after it.
pub open spec fn spent(runs: Map<u64, RunView>, id: u64, first: u8) -> (
    Result<(u32, Option<usize>, u8), RunError>,
    Map<u64, RunView>,
) {
    if !runs.contains_key(id) {
        (Err(RunError::UnknownRun), runs)
    } else {
        match pressed(runs[id], first) {
            None => (Err(RunError::NoChargesLeft), runs),
            Some(after) => (
                Ok((runs[id].goal, runs[id].ban_degree, (first - after.presses) as u8)),
                runs.insert(id, after),
            ),
        }
    }
}


/// A run after its compass was pressed, which takes one of its `first` charges.
pub open spec fn pressed(run: RunView, first: u8) -> Option<RunView> {
    if run.presses < first {
        Some(RunView { presses: (run.presses + 1) as u8, ..run })
    } else {
        None
    }
}

fn copy_run(run: &Run) -> (r: Run)
    ensures
        r@ == run@,
{
    Run {
        start: run.start,
        goal: run.goal,
        ban_degree: run.ban_degree,
        par: run.par,
        difficulty: run.difficulty.clone(),
        number: run.number,
        issued: run.issued,
        submitted: run.submitted,
        presses: run.presses,
    }
}

fn copy_entry(e: &Entry) -> (r: Entry)
    ensures
        r@ == e@,
{
    Entry {
        nickname: e.nickname.clone(),
        clicks: e.clicks,
        ms: e.ms,
        player: e.player.clone(),
    }
}

impl Registry {
    /// The runs that are out, by id.
    pub closed spec fn runs(&self) -> Map<u64, RunView> {
        self.runs@.map_values(|r: Run| r@)
    }

    /// The boards by name.
    pub closed spec fn boards(&self) -> Map<Seq<char>, Seq<EntryView>> {
        self.at@.map_values(|i: usize| lines(self.boards@[i as int]@))
    }

    /// How many runs were issued, counted modulo the range.
    pub closed spec fn count(&self) -> u64 {
        self.next
    }

    /// `ids` holds the ids of the runs, each once, and every name of a board
    /// leads to a board of its own.
    pub closed spec fn wf(&self) -> bool {
        &&& self.ids@.no_duplicates()
        &&& forall|id: u64| self.ids@.contains(id) <==> #[trigger] self.runs@.contains_key(id)
        &&& forall|k: Seq<char>| #[trigger]
            self.at@.contains_key(k) ==> self.at@[k] < self.boards@.len()
        &&& forall|k: Seq<char>, l: Seq<char>|
            #![trigger self.at@[k], self.at@[l]]
            self.at@.contains_key(k) && self.at@.contains_key(l) && k != l ==> self.at@[k]
                != self.at@[l]
    }

    pub fn new() -> (r: Registry)
        ensures
            r.wf(),
            r.runs() == Map::<u64, RunView>::empty(),
            r.boards() == Map::<Seq<char>, Seq<EntryView>>::empty(),
            r.count() == 0,
    {
        let r = Registry {
            runs: HashMap::new(),
            ids: Vec::new(),
            at: StringHashMap::new(),
            boards: Vec::new(),
            next: 0,
        };
        assert(r.runs() =~= Map::<u64, RunView>::empty());
        assert(r.boards() =~= Map::<Seq<char>, Seq<EntryView>>::empty());
        r
    }

    /// Replay a log, so that the boards survive a restart.
    pub fn open(log: Vec<Record>) -> (r: Registry)
        ensures
            r.wf(),
            r.runs() == Map::<u64, RunView>::empty(),
            r.boards() == replayed(log@),
            r.count() == 0,
    {
        let ghost all = log@;
        let mut log = log;
        let n: usize = log.len();
        let mut r = Registry::new();
        let mut i: usize = 0;
        assert(all.take(0) =~= Seq::<Record>::empty());
        while i < n
            invariant
                r.wf(),
                r.runs() == Map::<u64, RunView>::empty(),
                r.count() == 0,
                n == log@.len(),
                n == all.len(),
                i <= n,
                forall|j: int| i <= j < n ==> log@[j] == all[j],
                r.boards() == replayed(all.take(i as int)),
            decreases n - i,
        {
            let mut record = Record {
                board: String::new(),
                entry: Entry { nickname: String::new(), clicks: 0, ms: 0, player: String::new() },
            };
            core::mem::swap(&mut record, &mut log[i]);
            proof {
                assert(record == all[i as int]);
                assert(all.take(i + 1).drop_last() =~= all.take(i as int));
                assert(all.take(i + 1).last() == record);
            }
            let Record { board, entry } = record;
            r.record(board, entry);
            i = i + 1;
        }
        assert(all.take(n as int) =~= all);
        r
    }

    /// Add an entry to a board.
    fn record(&mut self, board: String, entry: Entry)
        requires
            old(self).wf(),
        ensures
            final(self).wf(),
            final(self).runs() == old(self).runs(),
            final(self).count() == old(self).count(),
            final(self).boards() == with_record(old(self).boards(), board@, entry@),
    {
        let ghost name = board@;
        let ghost before = self.boards();
        let ghost e = entry@;
        let known: Option<usize> = match self.at.get(board.as_str()) {
            Some(i) => Some(*i),
            None => None,
        };
        let i: usize = match known {
            Some(i) => i,
            None => {
                let i: usize = self.boards.len();
                self.boards.push(Vec::new());
                self.at.insert(board, i);
                i
            },
        };
        assert(lines(self.boards@[i as int]@) =~= board_of(before, name));
        let ghost mid = *self;
        let mut list: Vec<Entry> = Vec::new();
        core::mem::swap(&mut list, &mut self.boards[i]);
        place(&mut list, entry);
        self.boards.set(i, list);
        proof {
            assert(self.boards@ =~= mid.boards@.update(i as int, self.boards@[i as int]));
            let after = with_record(before, name, e);
            assert forall|k: Seq<char>| #[trigger] self.boards().contains_key(k) implies self.boards()[k]
                == after[k] by {
                if k != name {
                    assert(self.at@[k] != self.at@[name]);
                }
            }
            assert(self.boards().dom() =~= after.dom());
            assert(self.boards() =~= after);
            assert(self.runs() =~= old(self).runs());
        }
    }

    /// Drop what is not worth keeping.
    fn prune(&mut self, now: u64)
        requires
            old(self).wf(),
        ensures
            final(self).wf(),
            final(self).runs() == all_kept(old(self).runs(), now),
            final(self).boards() == old(self).boards(),
            final(self).count() == old(self).count(),
    {
        let ghost before = self.runs();
        let ghost given = self.runs@;
        let n: usize = self.ids.len();
        let mut left: HashMap<u64, Run> = HashMap::new();
        let mut ids: Vec<u64> = Vec::new();
        let mut i: usize = 0;
        while i < n
            invariant
                n == self.ids@.len(),
                i <= n,
                self.ids@ == old(self).ids@,
                self.at == old(self).at,
                self.boards == old(self).boards,
                self.next == old(self).next,
                self.ids@.no_duplicates(),
                given == old(self).runs@,
                before == old(self).runs(),
                forall|id: u64| self.ids@.contains(id) <==> #[trigger] given.contains_key(id),
                forall|j: int| i <= j < n ==> self.runs@.contains_key(#[trigger] self.ids@[j])
                    && self.runs@[self.ids@[j]] == given[self.ids@[j]],
                ids@.no_duplicates(),
                forall|id: u64| ids@.contains(id) <==> #[trigger] left@.contains_key(id),
                forall|id: u64| #[trigger]
                    left@.contains_key(id) <==> (given.contains_key(id) && kept(given[id]@, now)
                        && self.ids@.take(i as int).contains(id)),
                forall|id: u64| #[trigger] left@.contains_key(id) ==> left@[id] == given[id],
            decreases n - i,
        {
            let id: u64 = self.ids[i];
            assert(self.ids@.contains(id));
            assert(self.runs@.contains_key(self.ids@[i as int]));
            let ghost had = left@;
            proof {
                assert(!self.ids@.take(i as int).contains(id));
                assert(!had.contains_key(id));
                assert(self.ids@.take(i + 1) =~= self.ids@.take(i as int).push(id));
                assert forall|x: u64| self.ids@.take(i + 1).contains(x) <==> (x == id
                    || self.ids@.take(i as int).contains(x)) by {
                    let a = self.ids@.take(i as int);
                    if a.contains(x) {
                        let k = a.index_of(x);
                        assert(a.push(id)[k] == x);
                    }
                    assert(a.push(id)[i as int] == id);
                }
            }
            match self.runs.remove(&id) {
                Some(run) => {
                    assert(run == given[id]);
                    if time_since(run.issued, now) < RUN_TTL && !run.submitted {
                        let ghost was = ids@;
                        left.insert(id, run);
                        ids.push(id);
                        proof {
                            assert forall|x: u64| ids@.contains(x) <==> #[trigger] left@.contains_key(
                                x,
                            ) by {
                                if was.contains(x) {
                                    let k = was.index_of(x);
                                    assert(ids@[k] == x);
                                }
                                assert(ids@[was.len() as int] == id);
                            }
                        }
                    }
                },
                None => {},
            }
            i = i + 1;
        }
        self.runs = left;
        self.ids = ids;
        proof {
            assert(old(self).ids@.take(n as int) =~= old(self).ids@);
            let goal = all_kept(before, now);
            assert forall|id: u64| #[trigger] self.runs().contains_key(id) <==> goal.contains_key(
                id,
            ) by {
                assert(left@.contains_key(id) || !left@.contains_key(id));
            }
            assert(self.runs() =~= goal);
            assert(self.boards() =~= old(self).boards());
        }
    }

    /// Remember a run and give it an id. Where too many are out, those that
    /// cannot count any more go first, and all of them if that is not enough.
    pub fn issue(&mut self, run: RunSpec, now: u64) -> (id: u64)
        requires
            old(self).wf(),
        ensures
            final(self).wf(),
            final(self).count() == next_count(old(self).count()),
            id == run_id(final(self).count()),
            final(self).runs() == with_room(old(self).runs(), now).insert(id, run.issued_at(now)),
            final(self).boards() == old(self).boards(),
    {
        proof {
            assert(self.runs().dom() =~= self.runs@.dom());
        }
        if self.runs.len() >= MAX_LIVE_RUNS {
            self.prune(now);
            proof {
                assert(self.runs().dom() =~= self.runs@.dom());
            }
            if self.runs.len() >= MAX_LIVE_RUNS {
                self.runs.clear();
                self.ids.clear();
                assert(self.runs() =~= Map::<u64, RunView>::empty());
            }
        }
        let ghost room = self.runs();
        self.next = self.next.wrapping_add(1);
        let id: u64 = self.next.wrapping_mul(0x9E37_79B9_7F4A_7C15) ^ 0x5DEE_CE66_D1CE_4B9F;
        let ghost view = run.issued_at(now);
        let run = Run {
            start: run.start,
            goal: run.goal,
            ban_degree: run.ban_degree,
            par: run.par,
            difficulty: run.difficulty,
            number: run.number,
            issued: now,
            submitted: false,
            presses: 0,
        };
        let ghost ids = self.ids@;
        if !self.runs.contains_key(&id) {
            self.ids.push(id);
            proof {
                assert forall|x: u64| #[trigger] self.ids@.contains(x) <==> (ids.contains(x) || x == id) by {
                    if ids.contains(x) {
                        assert(self.ids@[ids.index_of(x)] == x);
                    }
                    assert(self.ids@[ids.len() as int] == id);
                }
            }
        }
        self.runs.insert(id, run);
        assert(self.runs() =~= room.insert(id, view));
        assert(self.boards() =~= old(self).boards());
        id
    }

    /// A run that is out.
    pub fn get(&self, id: u64) -> (r: Option<Run>)
        requires
            self.wf(),
        ensures
            r is Some <==> self.runs().contains_key(id),
            r matches Some(run) ==> run@ == self.runs()[id],
    {
        match self.runs.get(&id) {
            Some(run) => Some(copy_run(run)),
            None => None,
        }
    }

    /// Press the compass of a run that began with `first` charges: where the
    /// race leads, which hubs it bans, and how many charges are left.
    pub fn spend_compass(&mut self, id: u64, first: u8) -> (r: Result<
        (u32, Option<usize>, u8),
        RunError,
    >)
        requires
            old(self).wf(),
        ensures
            final(self).wf(),
            final(self).count() == old(self).count(),
            final(self).boards() == old(self).boards(),
            !old(self).runs().contains_key(id) ==> {
                &&& r == Err::<(u32, Option<usize>, u8), RunError>(RunError::UnknownRun)
                &&& final(self).runs() == old(self).runs()
            },
            old(self).runs().contains_key(id) ==> {
                let run = old(self).runs()[id];
                match pressed(run, first) {
                    None => {
                        &&& r == Err::<(u32, Option<usize>, u8), RunError>(RunError::NoChargesLeft)
                        &&& final(self).runs() == old(self).runs()
                    },
                    Some(after) => {
                        &&& r == Ok::<(u32, Option<usize>, u8), RunError>(
                            (run.goal, run.ban_degree, (first - after.presses) as u8),
                        )
                        &&& final(self).runs() == old(self).runs().insert(id, after)
                    },
                }
            },
            (r, final(self).runs()) == spent(old(self).runs(), id, first),
    {
        let ghost runs = self.runs();
        let mut run = match self.runs.get(&id) {
            Some(run) => copy_run(run),
            None => {
                return Err(RunError::UnknownRun);
            },
        };
        assert(runs[id] == run@);
        if run.presses >= first {
            return Err(RunError::NoChargesLeft);
        }
        let (goal, ban): (u32, Option<usize>) = (run.goal, run.ban_degree);
        run.presses = run.presses + 1;
        let left: u8 = first - run.presses;
        self.runs.insert(id, run);
        assert(self.runs() =~= runs.insert(id, pressed(runs[id], first)->0));
        assert(self.boards() =~= old(self).boards());
        Ok((goal, ban, left))
    }

    /// The run that a submission names is one of this graph.
    pub open spec fn can_judge(&self, g: &Graph, id: u64) -> bool {
        self.runs().contains_key(id) ==> self.runs()[id].start < g.titles@.len()
    }

    /// Hand in a run. It counts where the path does, and then it goes on its
    /// board. A run that took too long is forgotten.
    pub fn submit(
        &mut self,
        g: &Graph,
        id: u64,
        path: &[u32],
        nickname: &str,
        player: &str,
        now: u64,
    ) -> (r: Result<Accepted, RunError>)
        requires
            old(self).wf(),
            g.wf(),
            old(self).can_judge(g, id),
        ensures
            final(self).wf(),
            final(self).count() == old(self).count(),
            !old(self).runs().contains_key(id) ==> {
                &&& r == Err::<Accepted, RunError>(RunError::UnknownRun)
                &&& final(self).runs() == old(self).runs()
                &&& final(self).boards() == old(self).boards()
            },
            old(self).runs().contains_key(id) ==> {
                let run = old(self).runs()[id];
                match judged(g.forward@, g.reverse@, run, path@, now) {
                    Err(e) => {
                        &&& r == Err::<Accepted, RunError>(e)
                        &&& final(self).runs() == (if e is Expired {
                            old(self).runs().remove(id)
                        } else {
                            old(self).runs()
                        })
                        &&& final(self).boards() == old(self).boards()
                    },
                    Ok((clicks, ms)) => {
                        let name = key_of(run.number, run.difficulty);
                        let entry = EntryView {
                            nickname: nickname_of(nickname@),
                            clicks,
                            ms,
                            player: player@,
                        };
                        &&& final(self).runs() == old(self).runs().insert(id, handed_in(run))
                        &&& final(self).boards() == with_record(old(self).boards(), name, entry)
                        &&& r matches Ok(a) && {
                            &&& a.clicks == clicks
                            &&& a.par == run.par
                            &&& a.ms == ms
                            &&& a.rank == rank_of(final(self).boards()[name], clicks, ms, 0)
                            &&& a.record.board@ == name
                            &&& a.record.entry@ == entry
                        }
                    },
                }
            },
            ({
                let before = Standing { runs: old(self).runs(), boards: old(self).boards() };
                let after = Standing { runs: final(self).runs(), boards: final(self).boards() };
                let by = (nickname@, player@);
                (match r {
                    Ok(a) => Ok((a.clicks, a.ms)),
                    Err(e) => Err(e),
                }, after) == settled(g.forward@, g.reverse@, before, id, path@, by, now)
            }),
    {
        let ghost runs = self.runs();
        let ghost given = self.runs@;
        let run = match self.runs.get(&id) {
            Some(run) => copy_run(run),
            None => {
                return Err(RunError::UnknownRun);
            },
        };
        assert(runs[id] == run@);
        match judge(&run, g, path, now) {
            Err(RunError::Expired) => {
                self.forget(id);
                Err(RunError::Expired)
            },
            Err(e) => Err(e),
            Ok((clicks, ms)) => {
                let name = board_key(run.number, run.difficulty.as_str());
                let par: usize = run.par;
                let mut run = run;
                run.submitted = true;
                self.runs.insert(id, run);
                assert(self.runs() =~= runs.insert(id, handed_in(runs[id])));
                assert(self.boards() =~= old(self).boards());
                let entry = Entry {
                    nickname: clean_nickname(nickname),
                    clicks,
                    ms,
                    player: player.to_string(),
                };
                let record = Record { board: name.clone(), entry: copy_entry(&entry) };
                let ghost e = entry@;
                self.record(name, entry);
                let rank = match self.at.get(record.board.as_str()) {
                    Some(i) => find_rank(&self.boards[*i], clicks, ms),
                    None => None,
                };
                assert(self.boards().contains_key(record.board@));
                Ok(Accepted { clicks, par, ms, rank, record })
            },
        }
    }

    /// Drop a run.
    fn forget(&mut self, id: u64)
        requires
            old(self).wf(),
        ensures
            final(self).wf(),
            final(self).runs() == old(self).runs().remove(id),
            final(self).boards() == old(self).boards(),
            final(self).count() == old(self).count(),
    {
        let n: usize = self.ids.len();
        let mut i: usize = 0;
        while i < n && self.ids[i] != id
            invariant
                n == self.ids@.len(),
                i <= n,
                forall|j: int| 0 <= j < i ==> self.ids@[j] != id,
            decreases n - i,
        {
            i = i + 1;
        }
        let ghost ids = self.ids@;
        if i < n {
            self.ids.remove(i);
        }
        self.runs.remove(&id);
        proof {
            assert forall|x: u64| self.ids@.contains(x) <==> #[trigger] self.runs@.contains_key(x) by {
                if ids.contains(x) && x != id {
                    let k = ids.index_of(x);
                    let at = if k < i {
                        k
                    } else {
                        k - 1
                    };
                    assert(self.ids@[at] == x);
                }
                if self.ids@.contains(x) {
                    let k = self.ids@.index_of(x);
                    let at = if k < i {
                        k
                    } else {
                        k + 1
                    };
                    assert(ids[at] == x);
                }
                assert(old(self).runs@.contains_key(x) <==> ids.contains(x));
            }
            assert(self.runs() =~= old(self).runs().remove(id));
            assert(self.boards() =~= old(self).boards());
        }
    }

    /// A board.
    pub fn leaderboard(&self, number: Option<u64>, difficulty: &str) -> (r: Vec<Entry>)
        requires
            self.wf(),
        ensures
            lines(r@) == board_of(self.boards(), key_of(number, difficulty@)),
    {
        let name = board_key(number, difficulty);
        let mut out: Vec<Entry> = Vec::new();
        match self.at.get(name.as_str()) {
            Some(at) => {
                let list = &self.boards[*at];
                let n: usize = list.len();
                let mut i: usize = 0;
                while i < n
                    invariant
                        n == list@.len(),
                        i <= n,
                        lines(out@) == lines(list@).take(i as int),
                    decreases n - i,
                {
                    let ghost before = lines(out@);
                    let e = copy_entry(&list[i]);
                    out.push(e);
                    proof {
                        assert(lines(out@) =~= before.push(e@));
                        assert(lines(list@).take(i + 1) =~= lines(list@).take(i as int).push(e@));
                    }
                    i = i + 1;
                }
                assert(lines(list@).take(n as int) =~= lines(list@));
            },
            None => {
                assert(lines(out@) =~= Seq::<EntryView>::empty());
            },
        }
        out
    }
}

impl Default for Registry {
    fn default() -> (r: Self)
        ensures
            r.wf(),
            r.runs() == Map::<u64, RunView>::empty(),
            r.boards() == Map::<Seq<char>, Seq<EntryView>>::empty(),
            r.count() == 0,
    {
        Registry::new()
    }
}

// ---------------------------------------------------------------------------
// Laws
// ---------------------------------------------------------------------------

/// Multiplying by the inverse undoes the mixing.
pub proof fn lemma_unmixed(n: u64)
    ensures
        (((n * 0x9E37_79B9_7F4A_7C15) % 0x1_0000_0000_0000_0000) * 0xF1DE_83E1_9937_733D)
            % 0x1_0000_0000_0000_0000 == n,
{
    let m: int = 0x1_0000_0000_0000_0000;
    let a: int = n * 0x9E37_79B9_7F4A_7C15;
    let q = a / m;
    let r = a % m;
    assert(a == q * m + r);
    let z: int = n * 10771413168148108919 - q * 0xF1DE_83E1_9937_733D;
    assert(r * 0xF1DE_83E1_9937_733D == n + m * z);
    vstd::arithmetic::div_mod::lemma_mod_multiples_vanish(z, n as int, m);
    vstd::arithmetic::div_mod::lemma_small_mod(n as nat, m as nat);
}

/// No two counts give one id, so that an id is never given to two runs before
/// the count has gone once round.
pub proof fn law_ids_are_distinct(a: u64, b: u64)
    requires
        run_id(a) == run_id(b),
    ensures
        a == b,
{
    let x = ((a * 0x9E37_79B9_7F4A_7C15) % 0x1_0000_0000_0000_0000) as u64;
    let y = ((b * 0x9E37_79B9_7F4A_7C15) % 0x1_0000_0000_0000_0000) as u64;
    assert(x ^ 0x5DEE_CE66_D1CE_4B9F == y ^ 0x5DEE_CE66_D1CE_4B9F ==> x == y) by (bit_vector);
    lemma_unmixed(a);
    lemma_unmixed(b);
}

/// A run after its compass was pressed `n` times.
pub open spec fn pressed_often(run: RunView, first: u8, n: nat) -> Option<RunView>
    decreases n,
{
    if n == 0 {
        Some(run)
    } else {
        match pressed_often(run, first, (n - 1) as nat) {
            Some(before) => pressed(before, first),
            None => None,
        }
    }
}

/// A compass is rationed: each press takes one charge, as many presses as there
/// are charges are answered, and the next one is refused. Nothing else about
/// the run changes.
pub proof fn law_compass_is_rationed(run: RunView, first: u8, n: nat)
    requires
        run.presses == 0,
    ensures
        n <= first ==> pressed_often(run, first, n) == Some(
            (RunView { presses: n as u8, ..run }),
        ),
        n > first ==> pressed_often(run, first, n) is None,
    decreases n,
{
    if n > 0 {
        law_compass_is_rationed(run, first, (n - 1) as nat);
    }
}

/// A run counts once: as soon as it has been handed in, nothing that is handed
/// in for it counts again.
pub proof fn law_runs_count_once(fwd: Adj, rev: Adj, run: RunView, path: Seq<u32>, now: u64)
    ensures
        judged(fwd, rev, handed_in(run), path, now) == Err::<(usize, u64), RunError>(
            RunError::AlreadySubmitted,
        ),
{
}

proof fn lemma_no_broken_hop(fwd: Adj, path: Seq<u32>, i: int)
    requires
        0 <= i,
        broken_hop(fwd, path, i) is None,
    ensures
        forall|j: int, k: int|
            i <= j && k == j + 1 && k < path.len() ==> fwd[#[trigger] path[j] as int].contains(
                #[trigger] path[k],
            ),
    decreases path.len() - i,
{
    if i + 1 < path.len() {
        lemma_no_broken_hop(fwd, path, i + 1);
    }
}

proof fn lemma_no_banned_stop(rev: Adj, limit: Option<usize>, path: Seq<u32>, i: int)
    requires
        0 <= i,
        banned_stop(rev, limit, path, i) is None,
    ensures
        forall|j: int| i <= j < path.len() - 1 ==> !is_hub(rev, limit, #[trigger] path[j]),
    decreases path.len() - i,
{
    if i + 1 < path.len() {
        lemma_no_banned_stop(rev, limit, path, i + 1);
    }
}

/// What counts was walked: the path leads from the start to the goal, every
/// hop of it is a link, no hub inside it is banned, it has one click for every
/// hop, and it took no less time than so many clicks take.
pub proof fn law_scores_are_earned(fwd: Adj, rev: Adj, run: RunView, path: Seq<u32>, now: u64)
    requires
        judged(fwd, rev, run, path, now) is Ok,
    ensures
        0 < path.len() <= MAX_PATH,
        path.first() == run.start,
        path.last() == run.goal,
        forall|j: int, k: int|
            0 <= j && k == j + 1 && k < path.len() ==> fwd[#[trigger] path[j] as int].contains(
                #[trigger] path[k],
            ),
        forall|j: int|
            0 < j < path.len() - 1 ==> !is_hub(rev, run.ban_degree, #[trigger] path[j]),
        judged(fwd, rev, run, path, now)->Ok_0.0 == path.len() - 1,
        judged(fwd, rev, run, path, now)->Ok_0.1 == elapsed(run.issued, now) / NS_PER_MS,
        least_ms(path.len() - 1) <= judged(fwd, rev, run, path, now)->Ok_0.1,
{
    lemma_no_broken_hop(fwd, path, 0);
    lemma_no_banned_stop(rev, run.ban_degree, path, 1);
}

/// The boards are what the log leads to: where they were before a run was
/// accepted, they are again once its record has been appended. So a restart
/// loses nothing.
pub proof fn law_restarts_keep_the_boards(log: Seq<Record>, record: Record)
    ensures
        replayed(log.push(record)) == with_record(replayed(log), record.board@, record.entry@),
{
    assert(log.push(record).drop_last() =~= log);
}

/// Whatever the log holds, every board is fair: in order, no longer than a
/// board, and with no known player on it twice.
pub proof fn law_boards_are_fair(log: Seq<Record>, name: Seq<char>)
    ensures
        in_rank_order(board_of(replayed(log), name)),
        one_per_player(board_of(replayed(log), name)),
        board_of(replayed(log), name).len() <= BOARD_SIZE,
    decreases log.len(),
{
    if log.len() > 0 {
        let rest = replayed(log.drop_last());
        let record = log.last();
        law_boards_are_fair(log.drop_last(), name);
        if record.board@ == name {
            law_boards_are_in_order(board_of(rest, name), record.entry@);
            law_players_come_once(board_of(rest, name), record.entry@);
        }
    }
}

proof fn lemma_hops_hold(fwd: Adj, path: Seq<u32>, i: int)
    requires
        0 <= i,
        forall|j: int| i <= j < path.len() - 1 ==> fwd[path[j] as int].contains(
            #[trigger] path[j + 1],
        ),
    ensures
        broken_hop(fwd, path, i) is None,
    decreases path.len() - i,
{
    if i + 1 < path.len() {
        assert(fwd[path[i] as int].contains(path[i + 1]));
        lemma_hops_hold(fwd, path, i + 1);
    }
}

proof fn lemma_stops_hold(rev: Adj, limit: Option<usize>, path: Seq<u32>, i: int)
    requires
        0 <= i,
        forall|j: int|
            i <= j < path.len() - 1 ==> (limit matches Some(l) ==> rev[#[trigger] path[j] as int].len()
                <= l),
    ensures
        banned_stop(rev, limit, path, i) is None,
    decreases path.len() - i,
{
    if i + 1 < path.len() {
        assert(limit matches Some(l) ==> rev[path[i] as int].len() <= l);
        lemma_stops_hold(rev, limit, path, i + 1);
    }
}

/// An honest run counts. It was not handed in before, it is handed in within six
/// hours, its path has at most five hundred articles and leads along links from
/// its start to its goal, no article inside it has more links to it than the
/// limit, and it took four tenths of a second and a quarter of one for every
/// click. It counts with one click for each link, and the whole milliseconds
/// since it was issued.
pub proof fn law_honest_runs_count(fwd: Adj, rev: Adj, run: RunView, path: Seq<u32>, now: u64)
    requires
        !run.submitted,
        run.issued <= now <= run.issued + 6 * 3600 * 1_000_000_000,
        1 <= path.len() <= 500,
        path[0] == run.start,
        path[path.len() - 1] == run.goal,
        forall|j: int|
            0 <= j < path.len() - 1 ==> fwd[path[j] as int].contains(#[trigger] path[j + 1]),
        forall|j: int|
            1 <= j < path.len() - 1 ==> (run.ban_degree matches Some(l) ==> rev[
                #[trigger] path[j] as int
            ].len() <= l),
        (now - run.issued) / 1_000_000 >= 400 + 250 * (path.len() - 1),
    ensures
        judged(fwd, rev, run, path, now) == Ok::<(usize, u64), RunError>(
            ((path.len() - 1) as usize, ((now - run.issued) / 1_000_000) as u64),
        ),
{
    lemma_hops_hold(fwd, path, 0);
    lemma_stops_hold(rev, run.ban_degree, path, 1);
}

/// Only an honest run counts.
pub proof fn law_only_honest_runs_count(fwd: Adj, rev: Adj, run: RunView, path: Seq<u32>, now: u64)
    requires
        judged(fwd, rev, run, path, now) is Ok,
        forall|j: int| 0 <= j < path.len() ==> #[trigger] path[j] < rev.len(),
    ensures
        !run.submitted,
        now <= run.issued + 6 * 3600 * 1_000_000_000,
        1 <= path.len() <= 500,
        path[0] == run.start,
        path[path.len() - 1] == run.goal,
        forall|j: int|
            0 <= j < path.len() - 1 ==> fwd[path[j] as int].contains(#[trigger] path[j + 1]),
        forall|j: int|
            1 <= j < path.len() - 1 ==> (run.ban_degree matches Some(l) ==> rev[
                #[trigger] path[j] as int
            ].len() <= l),
        judged(fwd, rev, run, path, now)->Ok_0.0 == path.len() - 1,
        now >= run.issued ==> judged(fwd, rev, run, path, now)->Ok_0.1 == (now - run.issued)
            / 1_000_000,
        judged(fwd, rev, run, path, now)->Ok_0.1 >= 400 + 250 * (path.len() - 1),
{
    law_scores_are_earned(fwd, rev, run, path, now);
    assert forall|j: int| 0 <= j < path.len() - 1 implies fwd[path[j] as int].contains(
        #[trigger] path[j + 1],
    ) by {
        let k = j + 1;
        assert(fwd[path[j] as int].contains(path[k]));
    }
    assert forall|j: int| 1 <= j < path.len() - 1 implies (run.ban_degree matches Some(l) ==> rev[
        #[trigger] path[j] as int
    ].len() <= l) by {
        assert(!is_hub(rev, run.ban_degree, path[j]));
    }
}

proof fn lemma_broken_hop_is(fwd: Adj, path: Seq<u32>, i: int)
    requires
        0 <= i,
    ensures
        broken_hop(fwd, path, i) matches Some(k) ==> i <= k < path.len() - 1
            && !fwd[path[k] as int].contains(path[k + 1]) && forall|j: int|
            i <= j < k ==> fwd[path[j] as int].contains(#[trigger] path[j + 1]),
    decreases path.len() - i,
{
    if i + 1 < path.len() && fwd[path[i] as int].contains(path[i + 1]) {
        lemma_broken_hop_is(fwd, path, i + 1);
    }
}

proof fn lemma_banned_stop_is(rev: Adj, limit: Option<usize>, path: Seq<u32>, i: int)
    requires
        0 <= i,
    ensures
        banned_stop(rev, limit, path, i) matches Some(k) ==> i <= k < path.len() - 1 && is_hub(
            rev,
            limit,
            path[k],
        ) && forall|j: int| i <= j < k ==> !is_hub(rev, limit, #[trigger] path[j]),
    decreases path.len() - i,
{
    if i + 1 < path.len() && !is_hub(rev, limit, path[i]) {
        lemma_banned_stop_is(rev, limit, path, i + 1);
    }
}

/// A refusal names a fault that the run has, and the first of several: that it
/// was handed in before, that it took more than six hours, that the path has
/// more than five hundred articles, begins or ends in the wrong place, has a hop
/// that is no link, leads through a hub, or was walked too fast.
pub proof fn law_refusals_name_the_fault(
    fwd: Adj,
    rev: Adj,
    run: RunView,
    path: Seq<u32>,
    now: u64,
)
    requires
        run.issued <= now,
    ensures
        run.submitted <==> judged(fwd, rev, run, path, now) == Err::<(usize, u64), RunError>(
            RunError::AlreadySubmitted,
        ),
        !run.submitted && now - run.issued > 6 * 3600 * 1_000_000_000 <==> judged(
            fwd,
            rev,
            run,
            path,
            now,
        ) == Err::<(usize, u64), RunError>(RunError::Expired),
        !run.submitted && now - run.issued <= 6 * 3600 * 1_000_000_000 ==> {
            &&& path.len() > 500 <==> judged(fwd, rev, run, path, now) == Err::<
                (usize, u64),
                RunError,
            >(RunError::PathTooLong)
            &&& path.len() == 0 || path.len() <= 500 && path[0] != run.start <==> judged(
                fwd,
                rev,
                run,
                path,
                now,
            ) == Err::<(usize, u64), RunError>(RunError::WrongStart)
            &&& 1 <= path.len() <= 500 && path[0] == run.start && path[path.len() - 1] != run.goal
                <==> judged(fwd, rev, run, path, now) == Err::<(usize, u64), RunError>(
                RunError::WrongGoal,
            )
        },
        judged(fwd, rev, run, path, now) matches Err(RunError::BrokenLink(a, b)) ==> exists|k: int|
            0 <= k < path.len() - 1 && #[trigger] path[k] == a && path[k + 1] == b
                && !fwd[a as int].contains(b) && forall|j: int|
                0 <= j < k ==> fwd[path[j] as int].contains(#[trigger] path[j + 1]),
        judged(fwd, rev, run, path, now) matches Err(RunError::UsedBannedHub(v)) ==> exists|k: int|
            1 <= k < path.len() - 1 && #[trigger] path[k] == v && (run.ban_degree matches Some(l)
                && rev[v as int].len() > l),
        judged(fwd, rev, run, path, now) matches Err(RunError::TooFast) ==> (now - run.issued)
            / 1_000_000 < 400 + 250 * (path.len() - 1),
{
    lemma_broken_hop_is(fwd, path, 0);
    lemma_banned_stop_is(rev, run.ban_degree, path, 1);
}

/// A rank is the first place on the board with so many clicks in so much time,
/// counted from one. There is none where the board has no such entry.
pub proof fn law_ranks_are_places(list: Seq<EntryView>, clicks: usize, ms: u64, i: int)
    requires
        0 <= i,
        list.len() <= usize::MAX,
    ensures
        match rank_of(list, clicks, ms, i) {
            Some(k) => {
                &&& i < k <= list.len()
                &&& list[k - 1].clicks == clicks && list[k - 1].ms == ms
                &&& forall|j: int|
                    i <= j < k - 1 ==> (#[trigger] list[j]).clicks != clicks || list[j].ms != ms
            },
            None => forall|j: int|
                i <= j < list.len() ==> (#[trigger] list[j]).clicks != clicks || list[j].ms != ms,
        },
    decreases list.len() - i,
{
    if i < list.len() && !(list[i].clicks == clicks && list[i].ms == ms) {
        law_ranks_are_places(list, clicks, ms, i + 1);
    }
}

/// Issuing a run forgets no other as long as fewer than twenty thousand are out.
/// Beyond that those go first that were handed in or are older than six hours
/// and ten minutes, and no run changes.
pub proof fn law_runs_are_kept_while_there_is_room(runs: Map<u64, RunView>, now: u64, id: u64)
    requires
        runs.dom().finite(),
    ensures
        runs.len() < 20_000 ==> with_room(runs, now) == runs,
        with_room(runs, now).contains_key(id) ==> runs.contains_key(id) && with_room(runs, now)[id]
            == runs[id],
        runs.len() >= 20_000 && with_room(runs, now).contains_key(id) ==> !runs[id].submitted && (
        now < runs[id].issued || now - runs[id].issued < 22_200 * 1_000_000_000),
        with_room(runs, now).len() < 20_000,
        runs.contains_key(id) && !runs[id].submitted && now <= runs[id].issued && (forall|x: u64|
            runs.contains_key(x) && x != id ==> (#[trigger] runs[x]).submitted) ==> with_room(
            runs,
            now,
        ).contains_key(id),
{
    let left = all_kept(runs, now);
    if runs.contains_key(id) && !runs[id].submitted && now <= runs[id].issued && (forall|x: u64|
        runs.contains_key(x) && x != id ==> (#[trigger] runs[x]).submitted) {
        assert(left.contains_key(id));
        assert(left.dom() =~= set![id]);
    }
}
/// A run that is refused changes no board and no other run, and can be handed
/// in again, unless it has expired: then it is gone.
pub proof fn law_refused_runs_change_nothing(
    fwd: Adj,
    rev: Adj,
    s: Standing,
    id: u64,
    path: Seq<u32>,
    by: (Seq<char>, Seq<char>),
    now: u64,
    other: u64,
)
    requires
        settled(fwd, rev, s, id, path, by, now).0 is Err,
        other != id,
    ensures
        ({
            let (r, after) = settled(fwd, rev, s, id, path, by, now);
            &&& after.boards == s.boards
            &&& after.runs.contains_key(other) <==> s.runs.contains_key(other)
            &&& s.runs.contains_key(other) ==> after.runs[other] == s.runs[other]
            &&& r->Err_0 != RunError::Expired ==> after.runs == s.runs
            &&& r->Err_0 == RunError::Expired ==> !after.runs.contains_key(id)
            &&& r->Err_0 == RunError::UnknownRun <==> !s.runs.contains_key(id)
        }),
{
    if s.runs.contains_key(id) {
        let e = settled(fwd, rev, s, id, path, by, now).0->Err_0;
        assert(judged(fwd, rev, s.runs[id], path, now) == Err::<(usize, u64), RunError>(e));
        assert(e != RunError::UnknownRun);
    }
}

/// A run that counts is put on the board of its race and difficulty, under the
/// nickname that was given and for the player who handed it in. No other board
/// changes and no other run; and it counts only this once.
pub proof fn law_accepted_runs_are_recorded(
    fwd: Adj,
    rev: Adj,
    s: Standing,
    id: u64,
    path: Seq<u32>,
    by: (Seq<char>, Seq<char>),
    now: u64,
    other: u64,
    name: Seq<char>,
    again: Seq<u32>,
    later: u64,
)
    requires
        settled(fwd, rev, s, id, path, by, now).0 is Ok,
        other != id,
        name != key_of(s.runs[id].number, s.runs[id].difficulty),
    ensures
        ({
            let (r, after) = settled(fwd, rev, s, id, path, by, now);
            let board = key_of(s.runs[id].number, s.runs[id].difficulty);
            let entry = EntryView {
                nickname: nickname_of(by.0),
                clicks: (path.len() - 1) as usize,
                ms: r->Ok_0.1,
                player: by.1,
            };
            &&& r->Ok_0.0 == path.len() - 1
            &&& board_of(after.boards, board) == placed(board_of(s.boards, board), entry)
            &&& board_of(after.boards, name) == board_of(s.boards, name)
            &&& after.runs.contains_key(other) <==> s.runs.contains_key(other)
            &&& s.runs.contains_key(other) ==> after.runs[other] == s.runs[other]
            &&& after.runs.contains_key(id)
            &&& settled(fwd, rev, after, id, again, by, later) == (
                Err::<(usize, u64), RunError>(RunError::AlreadySubmitted),
                after,
            )
        }),
{
    law_scores_are_earned(fwd, rev, s.runs[id], path, now);
}

/// A press of the compass is answered with the goal of the run, its limit and
/// the charges that are left, which is one less than before; with none left it is
/// refused. No other run changes.
pub proof fn law_presses_cost_a_charge(
    runs: Map<u64, RunView>,
    id: u64,
    first: u8,
    other: u64,
)
    requires
        runs.contains_key(id),
        other != id,
    ensures
        ({
            let (r, after) = spent(runs, id, first);
            &&& runs[id].presses < first ==> r == Ok::<(u32, Option<usize>, u8), RunError>(
                (runs[id].goal, runs[id].ban_degree, (first - runs[id].presses - 1) as u8),
            ) && after[id] == (RunView { presses: (runs[id].presses + 1) as u8, ..runs[id] })
            &&& runs[id].presses >= first ==> r == Err::<(u32, Option<usize>, u8), RunError>(
                RunError::NoChargesLeft,
            ) && after == runs
            &&& after.contains_key(other) <==> runs.contains_key(other)
            &&& runs.contains_key(other) ==> after[other] == runs[other]
        }),
        !runs.contains_key(other) ==> spent(runs, other, first) == (
            Err::<(u32, Option<usize>, u8), RunError>(RunError::UnknownRun),
            runs,
        ),
{
}
} // verus!
