//! What the service decides about a request.

use crate::board::{Entry, EntryView, lines};
use crate::game::{Game, Puzzle, cut_limit};
use crate::graph::{Graph, looked_up};
use crate::hubs::{hub_ban, is_hub, over_limit};
use crate::identity::{law_bytes_are_spelled_in_hex, ID_BYTES, Identity, cookie_value, hex_of, law_issued_is_accepted, signed, verified,
};
use crate::levels::{Ban, open_between};
use crate::paths::{PathFinder, path_of, shortest_count};
use crate::runs::RunSpec;
use crate::sweep::{UNSEEN, anywhere, recorded};
use crate::text::{law_decimals_spell_their_number, law_decimals_are_digits, char_at, chars_of, decimal, eq_text, find_char, lemma_char_at, push_decimal, same, slice_from,
    string_of, trim, trimmed,
};
use crate::trails::found_path;
use crate::walks::{Adj, distance, is_shortest_walk};
use crate::extras::text_of;
use vstd::prelude::*;
use vstd::slice::slice_subrange;
use vstd::string::StringExecFns;

verus! {

/// How many rows of a board are shown.
pub const BOARD_ROWS: usize = 25;

/// How far the compass looks. No race is longer than a handful of clicks.
pub const COMPASS_DEPTH: u8 = 6;

/// For how many goals the compass is kept.
pub const COMPASS_CACHE: usize = 8;

// ---------------------------------------------------------------------------
// Who asks, and for what
// ---------------------------------------------------------------------------

/// A request that costs real work, or that changes a board.
pub open spec fn heavy(path: Seq<char>) -> bool {
    ||| path == "/api/search"@
    ||| path == "/api/path"@
    ||| path == "/api/puzzle"@
    ||| path == "/api/daily"@
    ||| path == "/api/course"@
    ||| path == "/api/submit"@
    ||| path == "/api/compass"@
    ||| path == "/api/routes"@
}

pub fn is_heavy(path: &str) -> (r: bool)
    ensures
        r == heavy(path@),
{
    eq_text(path, "/api/search") || eq_text(path, "/api/path") || eq_text(path, "/api/puzzle")
        || eq_text(path, "/api/daily") || eq_text(path, "/api/course") || eq_text(
        path,
        "/api/submit",
    ) || eq_text(path, "/api/compass") || eq_text(path, "/api/routes")
}

/// What stands before the first comma.
pub open spec fn first_listed(s: Seq<char>) -> Seq<char> {
    match char_at(s, ',', 0) {
        Some(k) => trimmed(s.take(k)),
        None => trimmed(s),
    }
}

/// The client that an `X-Forwarded-For` header names: the left-most entry.
pub fn forwarded_for(header: &str) -> (r: String)
    ensures
        r@ == first_listed(header@),
{
    let chars = chars_of(header);
    let end: usize = match find_char(chars.as_slice(), ',', 0) {
        Some(k) => k,
        None => chars.len(),
    };
    let part = slice_subrange(chars.as_slice(), 0, end);
    proof {
        if char_at(header@, ',', 0) is Some {
            assert(part@ =~= header@.take(end as int));
        } else {
            assert(part@ =~= header@);
        }
    }
    let s = trim(part);
    let r = string_of(s, 0, s.len());
    assert(r@ =~= s@);
    r
}

/// Who a request comes from.
pub struct Visitor {
    /// The player, empty where they cannot be known.
    pub player: String,
    /// A cookie to hand out.
    pub cookie: Option<String>,
}

/// The player that a `Cookie` header names, if its signature holds.
pub open spec fn known_player(secret: Seq<u8>, header: Option<&str>) -> Option<Seq<char>> {
    match header {
        Some(h) => match cookie_value(h@, 0) {
            Some(v) => verified(secret, v),
            None => None,
        },
        None => None,
    }
}

/// Who a request comes from, and the cookie that they are given, if any.
pub open spec fn recognized(
    secret: Seq<u8>,
    header: Option<&str>,
    entropy: Option<Seq<u8>>,
) -> (Seq<char>, Option<Seq<char>>) {
    match known_player(secret, header) {
        Some(id) => (id, None),
        None => match entropy {
            Some(e) => (hex_of(e), Some(signed(secret, hex_of(e)))),
            None => (seq![], None),
        },
    }
}

/// Find out who a request comes from, or mint an identity. A cookie that does
/// not hold counts as none, so that a forged one only makes a new player.
/// Without random bytes there is no new player either.
pub fn identify(identity: &Identity, header: Option<&str>, entropy: Option<&[u8]>) -> (r: Visitor)
    requires
        entropy matches Some(e) ==> e@.len() == ID_BYTES,
    ensures
        match known_player(identity.key(), header) {
            Some(id) => r.player@ == id && r.cookie is None,
            None => match entropy {
                Some(e) => {
                    &&& r.player@ == hex_of(e@)
                    &&& r.cookie matches Some(c) && c@ == signed(identity.key(), hex_of(e@))
                },
                None => r.player@ == Seq::<char>::empty() && r.cookie is None,
            },
        },
        (r.player@, text_of(r.cookie)) == recognized(
            identity.key(),
            header,
            match entropy {
                Some(e) => Some(e@),
                None => None,
            },
        ),
{
    if let Some(h) = header {
        if let Some(v) = Identity::from_header(h) {
            if let Some(id) = identity.verify(v.as_str()) {
                return Visitor { player: id, cookie: None };
            }
        }
    }
    match entropy {
        Some(e) => {
            let cookie = identity.issue(e);
            proof {
                law_issued_is_accepted(identity.key(), e@);
            }
            match identity.verify(cookie.as_str()) {
                Some(id) => Visitor { player: id, cookie: Some(cookie) },
                None => Visitor { player: String::new(), cookie: Some(cookie) },
            }
        },
        None => Visitor { player: String::new(), cookie: None },
    }
}

// ---------------------------------------------------------------------------
// Which race is asked for
// ---------------------------------------------------------------------------

/// A race that is asked for.
#[derive(Clone, Copy, Debug, PartialEq, Eq, Structural)]
pub enum Wanted {
    /// Between two articles.
    Between(u32, u32),
    /// Within a region of the map.
    Region(i32),
    /// Any.
    Any,
}

/// Why a race that is asked for cannot be set.
#[derive(Debug)]
pub enum Refusal {
    NoSuchTitle(String),
    HalfAPair,
    SameArticle,
    NoMap,
}

/// Why a race that is asked for cannot be set, as a value.
pub enum RefusalView {
    NoSuchTitle(Seq<char>),
    HalfAPair,
    SameArticle,
    NoMap,
}

impl View for Refusal {
    type V = RefusalView;

    open spec fn view(&self) -> RefusalView {
        match self {
            Refusal::NoSuchTitle(s) => RefusalView::NoSuchTitle(s@),
            Refusal::HalfAPair => RefusalView::HalfAPair,
            Refusal::SameArticle => RefusalView::SameArticle,
            Refusal::NoMap => RefusalView::NoMap,
        }
    }
}

impl RefusalView {
    /// What a player is told.
    pub open spec fn text(self) -> Seq<char> {
        match self {
            RefusalView::NoSuchTitle(s) => "no article called \""@ + s + "\""@,
            RefusalView::HalfAPair => "a custom race needs both from and to"@,
            RefusalView::SameArticle => "pick two different articles"@,
            RefusalView::NoMap => "topic races need the map data (nodes.parquet)"@,
        }
    }
}

impl Refusal {
    /// What a player is told.
    pub fn message(&self) -> (r: String)
        ensures
            r@ == self@.text(),
    {
        match self {
            Refusal::NoSuchTitle(name) => {
                let mut s = String::from_str("no article called \"");
                s.append(name.as_str());
                s.append("\"");
                s
            },
            Refusal::HalfAPair => String::from_str("a custom race needs both from and to"),
            Refusal::SameArticle => String::from_str("pick two different articles"),
            Refusal::NoMap => String::from_str("topic races need the map data (nodes.parquet)"),
        }
    }
}

/// What is asked for: ends by title or by id, and a region.
pub struct Asked<'a> {
    pub from_title: Option<&'a str>,
    pub to_title: Option<&'a str>,
    pub from: Option<u32>,
    pub to: Option<u32>,
    pub region: Option<i32>,
}

/// A title that is asked for and leads nowhere.
pub open spec fn unknown_title(table: Map<Seq<char>, u32>, title: Option<&str>) -> bool {
    title matches Some(t) && looked_up(table, t@) is None
}

/// An end that is asked for: by title, which goes before the id, or by id.
pub open spec fn end_of(
    table: Map<Seq<char>, u32>,
    title: Option<&str>,
    id: Option<u32>,
) -> Option<u32> {
    match title {
        Some(t) => looked_up(table, t@),
        None => id,
    }
}

/// The race that is asked for.
pub open spec fn wanted(table: Map<Seq<char>, u32>, has_map: bool, q: Asked<'_>) -> Result<
    Wanted,
    RefusalView,
> {
    if unknown_title(table, q.from_title) {
        Err(RefusalView::NoSuchTitle(q.from_title->0@))
    } else if unknown_title(table, q.to_title) {
        Err(RefusalView::NoSuchTitle(q.to_title->0@))
    } else {
        match (end_of(table, q.from_title, q.from), end_of(table, q.to_title, q.to)) {
            (Some(a), Some(b)) => if a == b {
                Err(RefusalView::SameArticle)
            } else {
                Ok(Wanted::Between(a, b))
            },
            (None, None) => match q.region {
                Some(c) => if has_map {
                    Ok(Wanted::Region(c))
                } else {
                    Err(RefusalView::NoMap)
                },
                None => Ok(Wanted::Any),
            },
            _ => Err(RefusalView::HalfAPair),
        }
    }
}

/// Find out which race is asked for. Ends go before a region, and one end
/// alone is refused rather than guessed at.
///
/// A title has a parameter of its own, as articles are called "1941" too.
pub fn plan_puzzle(g: &Graph, has_map: bool, q: Asked<'_>) -> (r: Result<Wanted, Refusal>)
    ensures
        match r {
            Ok(w) => wanted(g.lookup.table(), has_map, q) == Ok::<Wanted, RefusalView>(w),
            Err(e) => wanted(g.lookup.table(), has_map, q) == Err::<Wanted, RefusalView>(e@),
        },
{
    let mut from: Option<u32> = q.from;
    if let Some(t) = q.from_title {
        from = g.resolve(t);
        if from.is_none() {
            return Err(Refusal::NoSuchTitle(t.to_string()));
        }
    }
    let mut to: Option<u32> = q.to;
    if let Some(t) = q.to_title {
        to = g.resolve(t);
        if to.is_none() {
            return Err(Refusal::NoSuchTitle(t.to_string()));
        }
    }
    match (from, to) {
        (Some(a), Some(b)) => if a == b {
            Err(Refusal::SameArticle)
        } else {
            Ok(Wanted::Between(a, b))
        },
        (None, None) => match q.region {
            Some(c) => if has_map {
                Ok(Wanted::Region(c))
            } else {
                Err(Refusal::NoMap)
            },
            None => Ok(Wanted::Any),
        },
        _ => Err(Refusal::HalfAPair),
    }
}

/// The limit for a race between two articles: the one that is asked for, or
/// else that of a hub cut.
pub open spec fn custom_ban(
    game: &Game,
    ban_degree: Option<usize>,
    ban_top: Option<usize>,
) -> Option<usize> {
    match ban_degree {
        Some(l) => Some(l),
        None => match ban_top {
            Some(n) => if n == 0 {
                None
            } else {
                Some(cut_limit(game.graph.reverse@, game.hubs@, n as nat) as usize)
            },
            None => None,
        },
    }
}

pub fn custom_limit(game: &Game, ban_degree: Option<usize>, ban_top: Option<usize>) -> (r: Option<
    usize,
>)
    requires
        game.wf(),
    ensures
        r == custom_ban(game, ban_degree, ban_top),
{
    match ban_degree {
        Some(l) => Some(l),
        None => match ban_top {
            Some(n) => game.hub_cut(n, 0).0,
            None => None,
        },
    }
}

/// The run to issue for a race.
pub fn run_of(p: &Puzzle, difficulty: String, number: Option<u64>) -> (r: RunSpec)
    ensures
        r == (RunSpec {
            start: p.start,
            goal: p.goal,
            ban_degree: p.ban_degree,
            par: p.optimal,
            difficulty,
            number,
        }),
{
    RunSpec {
        start: p.start,
        goal: p.goal,
        ban_degree: p.ban_degree,
        par: p.optimal,
        difficulty,
        number,
    }
}

/// The board name of a race within a region.
pub fn topic_label(name: &str) -> (r: String)
    ensures
        r@ == "topic-"@ + name@,
{
    let mut s = String::from_str("topic-");
    s.append(name);
    s
}

/// The board name of a hole of a round, counted from 1.
pub fn hole_label(hole: u64) -> (r: String)
    ensures
        r@ == "round-h"@ + decimal(hole as nat),
{
    let mut s = String::from_str("round-h");
    push_decimal(&mut s, hole);
    s
}

// ---------------------------------------------------------------------------
// Articles, paths and routes
// ---------------------------------------------------------------------------

/// A link that cannot be taken. The goal itself can always be.
pub open spec fn blocked(rev: Adj, ban: Option<usize>, goal: Option<u32>, v: u32) -> bool {
    goal != Some(v) && is_hub(rev, ban, v)
}

/// Which links of an article cannot be taken.
pub fn blocked_links(g: &Graph, id: u32, ban: Option<usize>, goal: Option<u32>) -> (r: Vec<bool>)
    requires
        g.wf(),
        id < g.titles@.len(),
    ensures
        r@ == g.forward@[id as int].map_values(|v: u32| blocked(g.reverse@, ban, goal, v)),
{
    let links = g.forward.neighbors(id);
    let n: usize = links.len();
    let mut out: Vec<bool> = Vec::new();
    let mut i: usize = 0;
    while i < n
        invariant
            n == links@.len(),
            i <= n,
            out@.len() == i,
            forall|k: int| 0 <= k < i ==> out@[k] == blocked(g.reverse@, ban, goal, links@[k]),
        decreases n - i,
    {
        let v: u32 = links[i];
        let is_goal = match goal {
            Some(t) => t == v,
            None => false,
        };
        out.push(!is_goal && over_limit(&g.reverse, ban, v));
        i = i + 1;
    }
    assert(out@ =~= links@.map_values(|v: u32| blocked(g.reverse@, ban, goal, v)));
    out
}

/// A shortest path around hubs.
pub fn path_between(
    g: &Graph,
    pf: &mut PathFinder,
    from: u32,
    to: u32,
    ban: Option<usize>,
) -> (r: Option<Vec<u32>>)
    requires
        g.wf(),
        old(pf).wf(),
        g.titles@.len() <= old(pf).size(),
        from < g.titles@.len(),
        to < g.titles@.len(),
    ensures
        final(pf).wf(),
        final(pf).size() == old(pf).size(),
        match r {
            Some(p) => is_shortest_walk(
                g.forward@,
                open_between(from, to, hub_ban(g.reverse@, ban)),
                p@,
                from,
                to,
            ),
            None => distance(
                g.forward@,
                open_between(from, to, hub_ban(g.reverse@, ban)),
                from,
                to,
            ) is None,
        },
        path_of(r) == found_path(
            g.forward@,
            g.reverse@,
            open_between(from, to, hub_ban(g.reverse@, ban)),
            from,
            to,
        ),
{
    let rev = &g.reverse;
    let banned = |v: u32| -> (x: bool)
        ensures
            x == is_hub(rev@, ban, v),
        { over_limit(rev, ban, v) };
    pf.route(g, from, to, &banned, Ghost(hub_ban(g.reverse@, ban)))
}

/// A ban on hubs other than the two ends.
pub open spec fn inner_ban(rev: Adj, limit: Option<usize>, start: u32, goal: u32) -> Ban {
    |v: u32| v != start && v != goal && is_hub(rev, limit, v)
}

/// How many shortest paths around hubs a race had, and how long they are.
/// Nothing where there is none within one click of par.
pub fn route_count(
    g: &Graph,
    pf: &mut PathFinder,
    start: u32,
    goal: u32,
    ban: Option<usize>,
    par: usize,
) -> (r: Option<(usize, u64)>)
    requires
        g.wf(),
        old(pf).wf(),
        g.titles@.len() <= old(pf).size(),
        par < usize::MAX,
    ensures
        final(pf).wf(),
        final(pf).size() == old(pf).size(),
        r == shortest_count(
            g.forward@,
            open_between(start, goal, inner_ban(g.reverse@, ban, start, goal)),
            start,
            goal,
            ((par + 1) % 256) as u8,
        ),
{
    let rev = &g.reverse;
    let banned = |v: u32| -> (x: bool)
        ensures
            x == (v != start && v != goal && is_hub(rev@, ban, v)),
        { v != start && v != goal && over_limit(rev, ban, v) };
    let depth: u8 = ((par + 1) % 256) as u8;
    pf.count_routes(
        g,
        start,
        goal,
        &banned,
        depth,
        Ghost(inner_ban(g.reverse@, ban, start, goal)),
    )
}

// ---------------------------------------------------------------------------
// The compass
// ---------------------------------------------------------------------------

/// What the compass says of a link.
#[derive(Clone, Copy, Debug, PartialEq, Eq, Structural)]
pub struct CompassLink {
    pub id: u32,
    /// How far the goal is from there, if that is known.
    pub dist: Option<u8>,
    pub banned: bool,
}

/// What is known of a recorded distance. Nothing is said where the goal is
/// too far away or out of reach: a large number would read as a real distance.
pub open spec fn known(d: u8) -> Option<u8> {
    if d == UNSEEN {
        None
    } else {
        Some(d)
    }
}

/// The recorded distance of every article to a goal.
pub open spec fn goal_row(fwd: Adj, goal: u32) -> Seq<u8> {
    Seq::new(
        fwd.len(),
        |v: int|
            if goal < fwd.len() {
                recorded(distance(fwd, anywhere(), v as u32, goal), COMPASS_DEPTH)
            } else {
                UNSEEN
            },
    )
}

/// What the compass says of a link.
pub open spec fn reading(
    fwd: Adj,
    rev: Adj,
    goal: u32,
    ban: Option<usize>,
    w: u32,
) -> CompassLink {
    CompassLink {
        id: w,
        dist: known(goal_row(fwd, goal)[w as int]),
        banned: blocked(rev, ban, Some(goal), w),
    }
}

/// The goals that are kept once one has been looked up: a new one goes to the
/// end, and the oldest goes where there are too many.
pub open spec fn with_goal(goals: Seq<u32>, goal: u32) -> Seq<u32> {
    if goals.contains(goal) {
        goals
    } else if goals.len() + 1 > COMPASS_CACHE {
        goals.push(goal).drop_first()
    } else {
        goals.push(goal)
    }
}

/// Distances to the goals that were looked up last. Everyone who plays the
/// race of the day shares one of them.
pub struct Compass {
    pub goals: Vec<u32>,
    pub rows: Vec<Vec<u8>>,
}

impl Compass {
    /// Each goal has its row of distances in a graph.
    pub open spec fn wf(&self, fwd: Adj) -> bool {
        &&& self.goals@.len() == self.rows@.len()
        &&& self.goals@.len() <= COMPASS_CACHE
        &&& forall|i: int|
            0 <= i < self.goals@.len() ==> (#[trigger] self.rows@[i])@ == goal_row(
                fwd,
                self.goals@[i],
            )
    }

    pub fn new() -> (r: Compass)
        ensures
            r.goals@ == Seq::<u32>::empty(),
            forall|fwd: Adj| r.wf(fwd),
    {
        Compass { goals: Vec::new(), rows: Vec::new() }
    }

    /// Look up a goal, and keep it.
    fn look_up(&mut self, g: &Graph, pf: &mut PathFinder, goal: u32) -> (r: usize)
        requires
            g.wf(),
            old(self).wf(g.forward@),
        ensures
            final(self).wf(g.forward@),
            *final(pf) == *old(pf),
            final(self).goals@ == with_goal(old(self).goals@, goal),
            r < final(self).goals@.len(),
            final(self).goals@[r as int] == goal,
    {
        let n: usize = self.goals.len();
        let mut i: usize = 0;
        while i < n
            invariant
                n == self.goals@.len(),
                i <= n,
                forall|j: int| 0 <= j < i ==> self.goals@[j] != goal,
                self.wf(g.forward@),
                self.goals@ == old(self).goals@,
                *pf == *old(pf),
            decreases n - i,
        {
            if self.goals[i] == goal {
                return i;
            }
            i = i + 1;
        }
        let row = pf.distances_to(g, goal, COMPASS_DEPTH);
        assert(row@ =~= goal_row(g.forward@, goal));
        self.goals.push(goal);
        self.rows.push(row);
        if self.goals.len() > COMPASS_CACHE {
            self.goals.remove(0);
            self.rows.remove(0);
        }
        self.goals.len() - 1
    }

    /// How far the goal is from each link of an article.
    pub fn links(
        &mut self,
        g: &Graph,
        pf: &mut PathFinder,
        from: u32,
        goal: u32,
        ban: Option<usize>,
    ) -> (r: Vec<CompassLink>)
        requires
            g.wf(),
            old(self).wf(g.forward@),
            from < g.titles@.len(),
        ensures
            final(self).wf(g.forward@),
            *final(pf) == *old(pf),
            final(self).goals@ == with_goal(old(self).goals@, goal),
            r@ == g.forward@[from as int].map_values(
                |w: u32| reading(g.forward@, g.reverse@, goal, ban, w),
            ),
    {
        let at: usize = self.look_up(g, pf, goal);
        let row = &self.rows[at];
        let links = g.forward.neighbors(from);
        let n: usize = links.len();
        let mut out: Vec<CompassLink> = Vec::new();
        let mut i: usize = 0;
        while i < n
            invariant
                g.wf(),
                from < g.titles@.len(),
                n == links@.len(),
                links@ == g.forward@[from as int],
                row@ == goal_row(g.forward@, goal),
                i <= n,
                out@.len() == i,
                forall|k: int|
                    0 <= k < i ==> out@[k] == reading(
                        g.forward@,
                        g.reverse@,
                        goal,
                        ban,
                        links@[k],
                    ),
            decreases n - i,
        {
            let w: u32 = links[i];
            assert(g.forward@[from as int][i as int] < g.forward@.len());
            let d: u8 = row[w as usize];
            let dist: Option<u8> = if d == UNSEEN {
                None
            } else {
                Some(d)
            };
            let banned = w != goal && over_limit(&g.reverse, ban, w);
            out.push(CompassLink { id: w, dist, banned });
            i = i + 1;
        }
        assert(out@ =~= links@.map_values(
            |w: u32| reading(g.forward@, g.reverse@, goal, ban, w),
        ));
        out
    }
}

// ---------------------------------------------------------------------------
// Boards
// ---------------------------------------------------------------------------

/// A row of a board as it is shown.
pub struct BoardRow {
    pub rank: usize,
    pub nickname: String,
    pub clicks: usize,
    pub ms: u64,
}

/// How many rows are shown of a board with `n` entries.
pub open spec fn rows_shown(n: nat) -> nat {
    if n < BOARD_ROWS {
        n
    } else {
        BOARD_ROWS as nat
    }
}

/// The rows of a board as they are shown: the first of them, numbered from 1.
pub fn board_rows(board: &Vec<Entry>) -> (r: Vec<BoardRow>)
    ensures
        r@.len() == (if board@.len() < BOARD_ROWS {
            board@.len()
        } else {
            BOARD_ROWS as nat
        }),
        r@.len() == rows_shown(board@.len()),
        forall|i: int|
            0 <= i < r@.len() ==> {
                let row = #[trigger] r@[i];
                &&& row.rank == i + 1
                &&& row.nickname@ == board@[i].nickname@
                &&& row.clicks == board@[i].clicks
                &&& row.ms == board@[i].ms
            },
{
    let all: usize = board.len();
    let n: usize = if all < BOARD_ROWS {
        all
    } else {
        BOARD_ROWS
    };
    let mut out: Vec<BoardRow> = Vec::new();
    let mut i: usize = 0;
    while i < n
        invariant
            n <= board@.len(),
            i <= n,
            out@.len() == i,
            forall|k: int|
                0 <= k < i ==> {
                    let row = #[trigger] out@[k];
                    &&& row.rank == k + 1
                    &&& row.nickname@ == board@[k].nickname@
                    &&& row.clicks == board@[k].clicks
                    &&& row.ms == board@[k].ms
                },
        decreases n - i,
    {
        let e = &board[i];
        out.push(
            BoardRow { rank: i + 1, nickname: e.nickname.clone(), clicks: e.clicks, ms: e.ms },
        );
        i = i + 1;
    }
    out
}

/// How many entries took so many clicks.
pub open spec fn with_clicks(list: Seq<EntryView>, clicks: usize) -> nat
    decreases list.len(),
{
    if list.len() == 0 {
        0
    } else {
        with_clicks(list.drop_last(), clicks) + (if list.last().clicks == clicks {
            1nat
        } else {
            0
        })
    }
}

/// Each number of clicks that occurs, in order, with how often it does.
pub open spec fn is_histogram(list: Seq<EntryView>, r: Seq<(usize, usize)>) -> bool {
    &&& forall|i: int, j: int| 0 <= i < j < r.len() ==> (#[trigger] r[i]).0 < (#[trigger] r[j]).0
    &&& forall|i: int|
        0 <= i < r.len() ==> (#[trigger] r[i]).1 > 0 && r[i].1 == with_clicks(list, r[i].0)
    &&& forall|c: usize| #[trigger]
        with_clicks(list, c) > 0 ==> exists|i: int| 0 <= i < r.len() && (#[trigger] r[i]).0 == c
}

/// How often each number of clicks occurs on a board.
pub fn histogram(board: &Vec<Entry>) -> (r: Vec<(usize, usize)>)
    ensures
        is_histogram(lines(board@), r@),
{
    let n: usize = board.len();
    let ghost list = lines(board@);
    let mut out: Vec<(usize, usize)> = Vec::new();
    let mut i: usize = 0;
    assert(list.take(0) =~= Seq::<EntryView>::empty());
    while i < n
        invariant
            n == board@.len(),
            i <= n,
            list == lines(board@),
            is_histogram(list.take(i as int), out@),
        decreases n - i,
    {
        let c: usize = board[i].clicks;
        let ghost so_far = list.take(i as int);
        let ghost next = list.take(i + 1);
        let ghost before = out@;
        proof {
            assert(next.drop_last() =~= so_far);
            assert(next.last().clicks == c);
            lemma_with_clicks_bound(so_far, c);
        }
        let m: usize = out.len();
        let mut k: usize = 0;
        while k < m && out[k].0 < c
            invariant
                m == out@.len(),
                k <= m,
                forall|j: int| 0 <= j < k ==> (#[trigger] out@[j]).0 < c,
            decreases m - k,
        {
            k = k + 1;
        }
        if k < m && out[k].0 == c {
            let count: usize = out[k].1;
            out.set(k, (c, count + 1));
            proof {
                assert forall|x: usize| #[trigger] with_clicks(next, x) > 0 implies exists|j: int|
                    0 <= j < out@.len() && (#[trigger] out@[j]).0 == x by {
                    if x == c {
                        assert(out@[k as int].0 == x);
                    } else {
                        assert(with_clicks(so_far, x) > 0);
                        let j = choose|j: int| 0 <= j < before.len() && (#[trigger] before[j]).0 == x;
                        assert(out@[j].0 == x);
                    }
                }
            }
        } else {
            out.insert(k, (c, 1));
            proof {
                assert(with_clicks(so_far, c) == 0) by {
                    if with_clicks(so_far, c) > 0 {
                        let j = choose|j: int|
                            0 <= j < before.len() && (#[trigger] before[j]).0 == c;
                        if j < k {
                        } else if j > k {
                            assert(before[k as int].0 < before[j].0);
                        }
                    }
                }
                assert forall|a: int, b: int| 0 <= a < b < out@.len() implies (
                #[trigger] out@[a]).0 < (#[trigger] out@[b]).0 by {
                    let x = if a < k {
                        a
                    } else {
                        a - 1
                    };
                    let y = if b < k {
                        b
                    } else {
                        b - 1
                    };
                    if a != k {
                        assert(out@[a] == before[x]);
                    }
                    if b != k {
                        assert(out@[b] == before[y]);
                    }
                    if a == k {
                        assert(before[k as int].0 > c);
                        assert(before[k as int].0 <= before[y].0);
                    }
                }
                assert forall|a: int| 0 <= a < out@.len() implies (#[trigger] out@[a]).1 > 0
                    && out@[a].1 == with_clicks(next, out@[a].0) by {
                    let x = if a < k {
                        a
                    } else {
                        a - 1
                    };
                    if a != k {
                        assert(out@[a] == before[x]);
                        assert(before[x].0 != c) by {
                            if before[x].0 == c {
                                assert(with_clicks(so_far, c) == before[x].1);
                            }
                        }
                    }
                }
                assert forall|x: usize| #[trigger] with_clicks(next, x) > 0 implies exists|j: int|
                    0 <= j < out@.len() && (#[trigger] out@[j]).0 == x by {
                    if x == c {
                        assert(out@[k as int].0 == x);
                    } else {
                        assert(with_clicks(so_far, x) > 0);
                        let j = choose|j: int| 0 <= j < before.len() && (#[trigger] before[j]).0 == x;
                        let at = if j < k {
                            j
                        } else {
                            j + 1
                        };
                        assert(out@[at].0 == x);
                    }
                }
            }
        }
        i = i + 1;
    }
    assert(list.take(n as int) =~= list);
    out
}

proof fn lemma_with_clicks_bound(list: Seq<EntryView>, clicks: usize)
    ensures
        with_clicks(list, clicks) <= list.len(),
    decreases list.len(),
{
    if list.len() > 0 {
        lemma_with_clicks_bound(list.drop_last(), clicks);
    }
}

// ---------------------------------------------------------------------------
// The map
// ---------------------------------------------------------------------------

/// The tag of a map: the shape of the graph tells one dump from another.
pub open spec fn tag_text(articles: nat, edges: nat, n: nat) -> Seq<char> {
    "\""@ + decimal(articles) + "-"@ + decimal(edges) + "-"@ + decimal(n) + "\""@
}

pub fn map_tag(articles: u64, edges: u64, n: u64) -> (r: String)
    ensures
        r@ == tag_text(articles as nat, edges as nat, n as nat),
{
    let mut s = String::from_str("\"");
    push_decimal(&mut s, articles);
    s.append("-");
    push_decimal(&mut s, edges);
    s.append("-");
    push_decimal(&mut s, n);
    s.append("\"");
    s
}

/// A tag is one of a list with commas between.
pub open spec fn lists_tag(header: Seq<char>, tag: Seq<char>) -> bool
    decreases header.len(),
    via lists_tag_decreases
{
    match char_at(header, ',', 0) {
        Some(k) => trimmed(header.take(k)) == tag || lists_tag(header.skip(k + 1), tag),
        None => trimmed(header) == tag,
    }
}

#[via_fn]
proof fn lists_tag_decreases(header: Seq<char>, tag: Seq<char>) {
    lemma_char_at(header, ',', 0);
}

/// Whether an `If-None-Match` header has a tag, so that nothing need be sent.
pub fn not_modified(header: &str, tag: &str) -> (r: bool)
    ensures
        r == lists_tag(header@, tag@),
{
    let chars = chars_of(header);
    let wanted = chars_of(tag);
    let mut rest: &[char] = chars.as_slice();
    loop
        invariant
            wanted@ == tag@,
            lists_tag(header@, tag@) == lists_tag(rest@, tag@),
        decreases rest@.len(),
    {
        proof {
            lemma_char_at(rest@, ',', 0);
        }
        match find_char(rest, ',', 0) {
            Some(k) => {
                let part = slice_subrange(rest, 0, k);
                assert(part@ =~= rest@.take(k as int));
                if same(trim(part), wanted.as_slice()) {
                    return true;
                }
                let n: usize = rest.len();
                let tail = slice_from(rest, k + 1);
                assert(tail@ =~= rest@.skip(k + 1));
                rest = tail;
            },
            None => {
                return same(trim(rest), wanted.as_slice());
            },
        }
    }
}

/// What is asked for, or the default where nothing is, but no more than the most.
pub open spec fn within(asked: Option<usize>, default: usize, most: usize) -> usize {
    let n = match asked {
        Some(n) => n,
        None => default,
    };
    if n < most {
        n
    } else {
        most
    }
}

/// How many are sent: as many as are asked for, or else a default, but no more
/// than a most.
pub fn limited(asked: Option<usize>, default: usize, most: usize) -> (r: usize)
    ensures
        r == ({
            let n = match asked {
                Some(n) => n,
                None => default,
            };
            if n < most {
                n
            } else {
                most
            }
        }),
        r == within(asked, default, most),
{
    let n: usize = match asked {
        Some(n) => n,
        None => default,
    };
    if n < most {
        n
    } else {
        most
    }
}

// ---------------------------------------------------------------------------
// Laws
// ---------------------------------------------------------------------------

/// A visitor who hands back the cookie that they were given is the same
/// player.
pub proof fn law_visitors_are_known_again(secret: Seq<u8>, entropy: Seq<u8>, header: &str)
    requires
        entropy.len() == ID_BYTES,
        cookie_value(header@, 0) == Some(signed(secret, hex_of(entropy))),
    ensures
        known_player(secret, Some(header)) == Some(hex_of(entropy)),
{
    law_issued_is_accepted(secret, entropy);
}

/// The goal of a race can always be taken, however many articles link to it.
pub proof fn law_goals_are_never_blocked(rev: Adj, ban: Option<usize>, goal: u32)
    ensures
        !blocked(rev, ban, Some(goal), goal),
{
}

/// What was looked up last is kept, and no more goals are kept than allowed.
pub proof fn law_compass_keeps_the_last_goal(goals: Seq<u32>, goal: u32)
    requires
        goals.len() <= COMPASS_CACHE,
    ensures
        with_goal(goals, goal).contains(goal),
        with_goal(goals, goal).len() <= COMPASS_CACHE,
{
    if !goals.contains(goal) {
        let all = goals.push(goal);
        assert(all[goals.len() as int] == goal);
        if goals.len() + 1 > COMPASS_CACHE {
            assert(all.drop_first()[goals.len() - 1] == goal);
        }
    }
}

/// The compass tells how many clicks the goal is from a link, up to six and
/// whatever hubs are in between, and nothing where it is further or there is no
/// way. It says that a link is banned where more articles lead to it than the
/// limit and it is not the goal.
pub proof fn law_compass_tells_the_distance(
    fwd: Adj,
    rev: Adj,
    goal: u32,
    ban: Option<usize>,
    w: u32,
    d: u8,
)
    requires
        w < fwd.len() == rev.len(),
        goal < fwd.len(),
    ensures
        reading(fwd, rev, goal, ban, w).id == w,
        reading(fwd, rev, goal, ban, w).dist == Some(d) <==> distance(
            fwd,
            |v: u32| true,
            w,
            goal,
        ) == Some(d as nat) && d <= 6,
        reading(fwd, rev, goal, ban, w).dist is None <==> !(distance(fwd, |v: u32| true, w, goal)
            matches Some(n) && n <= 6),
        reading(fwd, rev, goal, ban, w).banned <==> w != goal && (ban matches Some(l)
            && rev[w as int].len() > l),
{
    assert(anywhere() =~= (|v: u32| true));
}
/// Of a list with commas the first item is taken, without white space around.
pub proof fn law_the_first_item_is_taken(item: Seq<char>, rest: Seq<char>)
    requires
        !item.contains(','),
    ensures
        first_listed(item + seq![','] + rest) == trimmed(item),
        first_listed(item) == trimmed(item),
{
    lemma_item_ends(item, rest);
    lemma_char_at(item, ',', 0);
    let s = item + seq![','] + rest;
    assert(s.take(item.len() as int) =~= item);
}

proof fn lemma_item_ends(item: Seq<char>, rest: Seq<char>)
    requires
        !item.contains(','),
    ensures
        char_at(item + seq![','] + rest, ',', 0) == Some(item.len() as int),
{
    let s = item + seq![','] + rest;
    lemma_char_at(s, ',', 0);
    assert(s[item.len() as int] == ',');
    let k = char_at(s, ',', 0)->0;
    if k < item.len() {
        assert(s[k] == item[k]);
    }
}

/// A tag is listed if it is one of the items, without white space around.
pub proof fn law_tags_are_looked_for_in_turn(item: Seq<char>, rest: Seq<char>, tag: Seq<char>)
    requires
        !item.contains(','),
    ensures
        lists_tag(item, tag) <==> trimmed(item) == tag,
        lists_tag(item + seq![','] + rest, tag) <==> trimmed(item) == tag || lists_tag(rest, tag),
{
    lemma_item_ends(item, rest);
    lemma_char_at(item, ',', 0);
    let s = item + seq![','] + rest;
    assert(s.take(item.len() as int) =~= item);
    assert(s.skip(item.len() as int + 1) =~= rest);
}

/// A race between two articles that are both named, by title or by id, is that
/// race; a title counts before an id. The two have to differ.
pub proof fn law_custom_races_need_two_articles(
    table: Map<Seq<char>, u32>,
    has_map: bool,
    q: Asked<'_>,
)
    ensures
        (q.from_title matches Some(t) && looked_up(table, t@) is None) ==> wanted(table, has_map, q)
            == Err::<Wanted, RefusalView>(RefusalView::NoSuchTitle(q.from_title->0@)),
        !(q.from_title matches Some(t) && looked_up(table, t@) is None) && (q.to_title matches Some(
            t,
        ) && looked_up(table, t@) is None) ==> wanted(table, has_map, q) == Err::<
            Wanted,
            RefusalView,
        >(RefusalView::NoSuchTitle(q.to_title->0@)),
        q.from_title is None && q.to_title is None && q.from is Some && q.to is Some ==> wanted(
            table,
            has_map,
            q,
        ) == (if q.from == q.to {
            Err(RefusalView::SameArticle)
        } else {
            Ok(Wanted::Between(q.from->0, q.to->0))
        }),
        q.from_title is None && q.to_title is None && (q.from is Some) != (q.to is Some) ==> wanted(
            table,
            has_map,
            q,
        ) == Err::<Wanted, RefusalView>(RefusalView::HalfAPair),
        q.from_title is Some && q.to_title is Some && looked_up(table, q.from_title->0@) is Some
            && looked_up(table, q.to_title->0@) is Some && looked_up(table, q.from_title->0@)
            != looked_up(table, q.to_title->0@) ==> wanted(table, has_map, q) == Ok::<
            Wanted,
            RefusalView,
        >(
            Wanted::Between(
                looked_up(table, q.from_title->0@)->0,
                looked_up(table, q.to_title->0@)->0,
            ),
        ),
        q.from_title is None && q.to_title is None && q.from is None && q.to is None ==> wanted(
            table,
            has_map,
            q,
        ) == (match q.region {
            Some(c) => if has_map {
                Ok(Wanted::Region(c))
            } else {
                Err(RefusalView::NoMap)
            },
            None => Ok(Wanted::Any),
        }),
        wanted(table, has_map, q) matches Ok(Wanted::Between(a, b)) ==> a != b,
{
}

/// A limit that is named counts before a number of hubs to cut; to cut none is
/// to ban nothing.
pub proof fn law_named_limits_come_first(game: &Game, limit: usize, top: Option<usize>, n: usize)
    requires
        game.wf(),
        0 < n < game.hubs@.len(),
    ensures
        custom_ban(game, Some(limit), top) == Some(limit),
        custom_ban(game, None, None) is None,
        custom_ban(game, None, Some(0)) is None,
        custom_ban(game, None, Some(n)) matches Some(l) && l
            == game.graph.reverse@[game.hubs@[n as int] as int].len() as usize,
{
}

/// Rows for eight goals are kept. A goal that is known moves nothing; with a
/// ninth the one that came first is forgotten.
pub proof fn law_eight_goals_are_kept(goals: Seq<u32>, goal: u32)
    ensures
        with_goal(goals, goal).contains(goal),
        goals.contains(goal) ==> with_goal(goals, goal) == goals,
        !goals.contains(goal) && goals.len() < 8 ==> with_goal(goals, goal) == goals.push(goal),
        !goals.contains(goal) && goals.len() == 8 ==> with_goal(goals, goal) == goals.skip(1).push(
            goal,
        ),
{
    if !goals.contains(goal) {
        let r = with_goal(goals, goal);
        assert(r[r.len() - 1] == goal);
        if goals.len() == 8 {
            assert(goals.push(goal).drop_first() =~= goals.skip(1).push(goal));
        }
    }
}

/// A run more is one more of its number of clicks, and of no other.
pub proof fn law_runs_are_counted_by_clicks(list: Seq<EntryView>, e: EntryView, clicks: usize)
    ensures
        with_clicks(list.push(e), clicks) == with_clicks(list, clicks) + (if e.clicks == clicks {
            1int
        } else {
            0
        }),
        with_clicks(Seq::<EntryView>::empty(), clicks) == 0,
{
    assert(list.push(e).drop_last() =~= list);
}

/// Two graphs with different numbers of articles or links, or lists of
/// different lengths, have different tags.
pub proof fn law_tags_tell_graphs_apart(a: (nat, nat, nat), b: (nat, nat, nat))
    requires
        tag_text(a.0, a.1, a.2) == tag_text(b.0, b.1, b.2),
    ensures
        a == b,
{
    reveal_strlit("\"");
    reveal_strlit("-");
    let quote = "\""@;
    let dash = "-"@;
    let xs = decimal(a.1) + (dash + (decimal(a.2) + quote));
    let ys = decimal(b.1) + (dash + (decimal(b.2) + quote));
    lemma_tag_parts(a.0, a.1, a.2);
    lemma_tag_parts(b.0, b.1, b.2);
    lemma_number_then(a.0, b.0, dash, xs, ys);
    lemma_number_then(a.1, b.1, dash, decimal(a.2) + quote, decimal(b.2) + quote);
    let none = Seq::<char>::empty();
    assert(quote + none =~= quote);
    lemma_number_then(a.2, b.2, quote, none, none);
}

proof fn lemma_tag_parts(articles: nat, edges: nat, n: nat)
    ensures
        tag_text(articles, edges, n).skip(1) == decimal(articles) + ("-"@ + (decimal(edges) + ("-"@
            + (decimal(n) + "\""@)))),
{
    reveal_strlit("\"");
    let quote = "\""@;
    let dash = "-"@;
    lemma_regrouped(quote, decimal(articles), dash, decimal(edges), dash, decimal(n), quote);
    let rest = decimal(articles) + (dash + (decimal(edges) + (dash + (decimal(n) + quote))));
    assert((quote + rest).skip(1) =~= rest);
}

proof fn lemma_regrouped(
    a: Seq<char>,
    b: Seq<char>,
    c: Seq<char>,
    d: Seq<char>,
    e: Seq<char>,
    f: Seq<char>,
    g: Seq<char>,
)
    ensures
        a + b + c + d + e + f + g == a + (b + (c + (d + (e + (f + g))))),
{
    assert(a + b + c + d + e + f + g =~= a + b + c + d + e + (f + g));
    assert(a + b + c + d + e + (f + g) =~= a + b + c + d + (e + (f + g)));
    assert(a + b + c + d + (e + (f + g)) =~= a + b + c + (d + (e + (f + g))));
    assert(a + b + c + (d + (e + (f + g))) =~= a + b + (c + (d + (e + (f + g)))));
    assert(a + b + (c + (d + (e + (f + g)))) =~= a + (b + (c + (d + (e + (f + g))))));
}

/// Two texts that begin with a number and go on with the same character, which
/// is no digit, are only the same if the numbers are and what follows is.
proof fn lemma_number_then(a: nat, b: nat, mark: Seq<char>, xs: Seq<char>, ys: Seq<char>)
    requires
        mark.len() == 1,
        !('0' <= mark[0] <= '9'),
        decimal(a) + (mark + xs) == decimal(b) + (mark + ys),
    ensures
        a == b,
        xs == ys,
{
    let x = decimal(a);
    let y = decimal(b);
    let s = x + (mark + xs);
    let t = y + (mark + ys);
    law_decimals_are_digits(a);
    law_decimals_are_digits(b);
    assert(s[x.len() as int] == mark[0]);
    assert(t[y.len() as int] == mark[0]);
    if x.len() < y.len() {
        assert(t[x.len() as int] == y[x.len() as int]);
    } else if y.len() < x.len() {
        assert(s[y.len() as int] == x[y.len() as int]);
    }
    assert(x.len() == y.len());
    assert(x =~= s.take(x.len() as int));
    assert(y =~= t.take(x.len() as int));
    assert(xs =~= s.skip(x.len() as int + 1));
    assert(ys =~= t.skip(x.len() as int + 1));
    law_decimals_spell_their_number(a);
    law_decimals_spell_their_number(b);
}

/// The requests that cost the most are those for searches, ways, puzzles of each
/// sort, handed in runs, the compass and the count of ways, and no others.
pub proof fn law_heavy_requests_are_named(path: Seq<char>)
    ensures
        heavy("/api/search"@),
        heavy("/api/path"@),
        heavy("/api/puzzle"@),
        heavy("/api/daily"@),
        heavy("/api/course"@),
        heavy("/api/submit"@),
        heavy("/api/compass"@),
        heavy("/api/routes"@),
        path.len() < 9 || path.len() > 12 ==> !heavy(path),
{
    reveal_strlit("/api/search");
    reveal_strlit("/api/path");
    reveal_strlit("/api/puzzle");
    reveal_strlit("/api/daily");
    reveal_strlit("/api/course");
    reveal_strlit("/api/submit");
    reveal_strlit("/api/compass");
    reveal_strlit("/api/routes");
}
/// Who is known gets no new cookie. Who is not gets one under which they are
/// known from then on as the same player, unless there are no random bytes: then
/// they are nobody.
pub proof fn law_visitors_get_one_cookie(
    secret: Seq<u8>,
    header: Option<&str>,
    entropy: Seq<u8>,
    next: &str,
)
    requires
        entropy.len() == 16,
    ensures
        ({
            let (player, cookie) = recognized(secret, header, Some(entropy));
            &&& known_player(secret, header) matches Some(id) ==> player == id && cookie is None
            &&& known_player(secret, header) is None ==> player.len() == 32 && cookie is Some
            &&& cookie is Some && cookie_value(next@, 0) == cookie ==> recognized(
                secret,
                Some(next),
                Some(entropy),
            ) == (player, None::<Seq<char>>)
        }),
        header is None ==> recognized(secret, header, None) == (
            Seq::<char>::empty(),
            None::<Seq<char>>,
        ),
{
    law_issued_is_accepted(secret, entropy);
    law_bytes_are_spelled_in_hex(entropy, 0);
}

/// An article is blocked if it has more incoming links than the limit and is not
/// the goal; without a limit nothing is.
pub proof fn law_hubs_are_blocked(rev: Adj, limit: usize, goal: Option<u32>, v: u32)
    requires
        v < rev.len(),
    ensures
        blocked(rev, Some(limit), goal, v) <==> goal != Some(v) && rev[v as int].len() > limit,
        !blocked(rev, None, goal, v),
        inner_ban(rev, Some(limit), v, v)(v) == false,
        forall|a: u32, b: u32|
            a != v && b != v ==> (#[trigger] inner_ban(rev, Some(limit), a, b)(v)
                <==> rev[v as int].len() > limit),
{
}
/// Of a board the first twenty-five rows are shown, or all where it has fewer.
pub proof fn law_twenty_five_rows_are_shown(n: nat)
    ensures
        n <= 25 ==> rows_shown(n) == n,
        n >= 25 ==> rows_shown(n) == 25,
{
}

/// Whoever asks for a number gets it, up to the most that there is; whoever asks
/// for none gets the default.
pub proof fn law_what_is_asked_for_is_given(asked: usize, default: usize, most: usize)
    ensures
        asked <= most ==> within(Some(asked), default, most) == asked,
        asked > most ==> within(Some(asked), default, most) == most,
        within(None, default, most) == within(Some(default), asked, most),
{
}
} // verus!
