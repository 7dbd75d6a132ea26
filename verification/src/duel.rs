//! Rooms in which players race each other live.
//!
//! A room is a pair of articles, a code to be read aloud to a friend, and the
//! players who are in. It goes when the last of them leaves, or with age.

use crate::graph::texts;
use crate::rng::{Rng, next_number, next_state, seeded};
use crate::runs::elapsed;
use crate::text::{chars_of, eq_text};
use vstd::prelude::*;
use vstd::string::StringExecFns;

verus! {

/// How many rooms there are at most.
pub const MAX_ROOMS: usize = 1_000;

/// How many players a room holds.
pub const MAX_PLAYERS: usize = 8;

/// How long a room lasts, in nanoseconds: two hours.
pub const ROOM_TTL: u64 = 7_200_000_000_000;

/// How many letters a code has.
pub const CODE_LEN: usize = 6;

/// How often a code is drawn before the search for a free one is given up.
pub const MAX_DRAWS: u64 = u64::MAX;

/// A room.
pub struct Room {
    pub code: String,
    pub start: u32,
    pub goal: u32,
    pub par: usize,
    /// When it was made, in nanoseconds of the server's clock.
    pub created: u64,
    /// Who is in, in the order they came.
    pub players: Vec<String>,
}

/// A room, as a value.
pub struct RoomView {
    pub code: Seq<char>,
    pub start: u32,
    pub goal: u32,
    pub par: usize,
    pub created: u64,
    pub players: Seq<Seq<char>>,
}

impl View for Room {
    type V = RoomView;

    open spec fn view(&self) -> RoomView {
        RoomView {
            code: self.code@,
            start: self.start,
            goal: self.goal,
            par: self.par,
            created: self.created,
            players: texts(self.players@),
        }
    }
}

/// The rooms of a list.
pub open spec fn views(v: Seq<Room>) -> Seq<RoomView> {
    Seq::new(v.len(), |i: int| v[i]@)
}

/// Why a player cannot come in.
#[derive(Debug, PartialEq, Eq, Structural)]
pub enum JoinError {
    NoSuchRoom,
    Full,
    NameTaken,
}

// ---------------------------------------------------------------------------
// Codes
// ---------------------------------------------------------------------------

/// The letters of a code: none that could be taken for another.
pub open spec fn alphabet() -> Seq<char> {
    "ABCDEFGHJKLMNPQRSTUVWXYZ23456789"@
}

/// The letter that a random number stands for.
pub open spec fn letter(x: u64) -> char {
    alphabet()[((x >> 59) % 32) as int]
}

/// The first `n` letters drawn by a generator in a given state.
pub open spec fn drawn(state: u64, n: nat) -> Seq<char>
    decreases n,
{
    if n == 0 {
        seq![]
    } else {
        seq![letter(next_number(state))] + drawn(next_state(state), (n - 1) as nat)
    }
}

/// The state after `n` draws.
pub open spec fn state_after(state: u64, n: nat) -> u64
    decreases n,
{
    if n == 0 {
        state
    } else {
        state_after(next_state(state), (n - 1) as nat)
    }
}

/// Where the room of a given code stands in a list, from place `i` on.
pub open spec fn room_at(rooms: Seq<RoomView>, code: Seq<char>, i: int) -> Option<int>
    decreases rooms.len() - i,
{
    if i < 0 || i >= rooms.len() {
        None
    } else if rooms[i].code == code {
        Some(i)
    } else {
        room_at(rooms, code, i + 1)
    }
}

/// The first code, of the next `tries` that a generator gives, that no room
/// has.
pub open spec fn free_code(rooms: Seq<RoomView>, state: u64, tries: nat) -> Option<Seq<char>>
    decreases tries,
{
    if tries == 0 {
        None
    } else if room_at(rooms, drawn(state, CODE_LEN as nat), 0) is None {
        Some(drawn(state, CODE_LEN as nat))
    } else {
        free_code(rooms, state_after(state, CODE_LEN as nat), (tries - 1) as nat)
    }
}

/// Draw a code.
fn draw_code(rng: &mut Rng) -> (r: String)
    ensures
        r@ == drawn(old(rng).state(), CODE_LEN as nat),
        final(rng).state() == state_after(old(rng).state(), CODE_LEN as nat),
{
    let letters = chars_of("ABCDEFGHJKLMNPQRSTUVWXYZ23456789");
    proof {
        reveal_strlit("ABCDEFGHJKLMNPQRSTUVWXYZ23456789");
    }
    let ghost first = rng.state();
    let mut code = String::new();
    let mut i: usize = 0;
    assert(code@ =~= Seq::<char>::empty());
    assert(code@ + drawn(first, CODE_LEN as nat) =~= drawn(first, CODE_LEN as nat));
    while i < CODE_LEN
        invariant
            i <= CODE_LEN,
            letters@ == alphabet(),
            letters@.len() == 32,
            code@ + drawn(rng.state(), (CODE_LEN - i) as nat) == drawn(first, CODE_LEN as nat),
            state_after(rng.state(), (CODE_LEN - i) as nat) == state_after(first, CODE_LEN as nat),
        decreases CODE_LEN - i,
    {
        let ghost state = rng.state();
        let ghost before = code@;
        let x: u64 = rng.next_u64();
        let c: char = letters[((x >> 59) % 32) as usize];
        code.push(c);
        proof {
            let rest = drawn(next_state(state), (CODE_LEN - i - 1) as nat);
            assert(before + (seq![c] + rest) =~= code@ + rest);
        }
        i = i + 1;
    }
    assert(code@ + Seq::<char>::empty() =~= code@);
    code
}

// ---------------------------------------------------------------------------
// Frames
// ---------------------------------------------------------------------------

/// What `serde_json::to_string` gives for a text.
pub uninterp spec fn json_text(s: Seq<char>) -> Seq<char>;

/// `serde_json::to_string` of a `str`: the text as a JSON string. The result is
/// a function of the text alone, and writing a text to memory does not fail;
/// how each character is escaped is left to the name.
#[verifier::external_body]
fn json_string(s: &str) -> (r: String)
    ensures
        r@ == json_text(s@),
{
    serde_json::to_string(s).unwrap()
}

/// Some texts as the items of a JSON array.
pub open spec fn json_items(v: Seq<Seq<char>>) -> Seq<char>
    decreases v.len(),
{
    if v.len() == 0 {
        seq![]
    } else if v.len() == 1 {
        json_text(v[0])
    } else {
        json_items(v.drop_last()) + ","@ + json_text(v.last())
    }
}

/// What everybody in a room is told when somebody comes or goes: who, and who
/// is in now.
pub open spec fn frame_text(kind: Seq<char>, name: Seq<char>, players: Seq<Seq<char>>) -> Seq<
    char,
> {
    "{\"name\":"@ + json_text(name) + ",\"players\":["@ + json_items(players) + "],\"type\":\""@
        + kind + "\"}"@
}

fn frame(kind: &str, name: &str, players: &Vec<String>) -> (r: String)
    ensures
        r@ == frame_text(kind@, name@, texts(players@)),
{
    let mut items = String::new();
    let n: usize = players.len();
    let mut i: usize = 0;
    let ghost all = texts(players@);
    assert(all.take(0) =~= Seq::<Seq<char>>::empty());
    assert(items@ =~= Seq::<char>::empty());
    while i < n
        invariant
            n == players@.len(),
            i <= n,
            all == texts(players@),
            items@ == json_items(all.take(i as int)),
        decreases n - i,
    {
        let item = json_string(players[i].as_str());
        if i > 0 {
            items.append(",");
        }
        items.append(item.as_str());
        proof {
            let next = all.take(i + 1);
            assert(next.drop_last() =~= all.take(i as int));
            assert(next.last() == players@[i as int]@);
            if i == 0 {
                assert(items@ =~= item@);
            }
        }
        i = i + 1;
    }
    assert(all.take(n as int) =~= all);
    let mut s = String::from_str("{\"name\":");
    let who = json_string(name);
    s.append(who.as_str());
    s.append(",\"players\":[");
    s.append(items.as_str());
    s.append("],\"type\":\"");
    s.append(kind);
    s.append("\"}");
    s
}

// ---------------------------------------------------------------------------
// Rooms
// ---------------------------------------------------------------------------

/// The rooms that are not too old.
pub open spec fn open_rooms(rooms: Seq<RoomView>, now: u64) -> Seq<RoomView>
    decreases rooms.len(),
{
    if rooms.len() == 0 {
        seq![]
    } else {
        let rest = open_rooms(rooms.drop_last(), now);
        if elapsed(rooms.last().created, now) < ROOM_TTL {
            rest.push(rooms.last())
        } else {
            rest
        }
    }
}

/// The players without those of a given name.
pub open spec fn without(players: Seq<Seq<char>>, name: Seq<char>) -> Seq<Seq<char>>
    decreases players.len(),
{
    if players.len() == 0 {
        seq![]
    } else {
        let rest = without(players.drop_last(), name);
        if players.last() == name {
            rest
        } else {
            rest.push(players.last())
        }
    }
}

/// The rooms after one has been made for a race from the first article of
/// `terms` to the second, of the par that comes third: those that are too old
/// are gone, and the new one is last, unless there is no room for it.
pub open spec fn opened(
    rooms: Seq<RoomView>,
    terms: (u32, u32, usize),
    seed: u64,
    now: u64,
) -> Seq<RoomView> {
    let left = open_rooms(rooms, now);
    match free_code(left, seeded(seed), MAX_DRAWS as nat) {
        Some(code) => if left.len() < MAX_ROOMS {
            left.push(
                RoomView {
                    code,
                    start: terms.0,
                    goal: terms.1,
                    par: terms.2,
                    created: now,
                    players: seq![],
                },
            )
        } else {
            left
        },
        None => left,
    }
}

/// The rooms after a player has come into one, or why they cannot.
pub open spec fn joined(rooms: Seq<RoomView>, code: Seq<char>, name: Seq<char>) -> Result<
    Seq<RoomView>,
    JoinError,
> {
    match room_at(rooms, code, 0) {
        None => Err(JoinError::NoSuchRoom),
        Some(i) => if rooms[i].players.len() >= MAX_PLAYERS {
            Err(JoinError::Full)
        } else if rooms[i].players.contains(name) {
            Err(JoinError::NameTaken)
        } else {
            Ok(rooms.update(i, RoomView { players: rooms[i].players.push(name), ..rooms[i] }))
        },
    }
}

/// The rooms after a player has left one. A room that nobody is left in is gone.
pub open spec fn left_by(rooms: Seq<RoomView>, code: Seq<char>, name: Seq<char>) -> Seq<RoomView> {
    match room_at(rooms, code, 0) {
        None => rooms,
        Some(i) => {
            let players = without(rooms[i].players, name);
            if players.len() == 0 {
                rooms.remove(i)
            } else {
                rooms.update(i, RoomView { players, ..rooms[i] })
            }
        },
    }
}


/// There are no more rooms than allowed, no two have one code, no room holds
/// more players than it may, and no two players in a room have one name.
pub open spec fn rooms_ok(rooms: Seq<RoomView>) -> bool {
    &&& rooms.len() <= MAX_ROOMS
    &&& forall|i: int, j: int|
        0 <= i < j < rooms.len() ==> (#[trigger] rooms[i]).code != (#[trigger] rooms[j]).code
    &&& forall|i: int|
        0 <= i < rooms.len() ==> (#[trigger] rooms[i]).players.len() <= MAX_PLAYERS
            && rooms[i].players.no_duplicates()
}

/// All rooms.
pub struct Duels {
    pub rooms: Vec<Room>,
}

proof fn lemma_room_at(rooms: Seq<RoomView>, code: Seq<char>, i: int)
    requires
        0 <= i,
    ensures
        match room_at(rooms, code, i) {
            Some(k) => i <= k < rooms.len() && rooms[k].code == code,
            None => forall|k: int| i <= k < rooms.len() ==> (#[trigger] rooms[k]).code != code,
        },
    decreases rooms.len() - i,
{
    if i < rooms.len() && rooms[i].code != code {
        lemma_room_at(rooms, code, i + 1);
    }
}

proof fn lemma_open_rooms(rooms: Seq<RoomView>, now: u64)
    ensures
        open_rooms(rooms, now).len() <= rooms.len(),
        forall|k: int|
            0 <= k < open_rooms(rooms, now).len() ==> exists|i: int|
                0 <= i < rooms.len() && rooms[i] == #[trigger] open_rooms(rooms, now)[k],
        rooms_ok(rooms) ==> rooms_ok(open_rooms(rooms, now)),
    decreases rooms.len(),
{
    if rooms.len() > 0 {
        let front = rooms.drop_last();
        lemma_open_rooms(front, now);
        let rest = open_rooms(front, now);
        let all = open_rooms(rooms, now);
        assert forall|k: int| 0 <= k < all.len() implies exists|i: int|
            0 <= i < rooms.len() && rooms[i] == #[trigger] all[k] by {
            if k < rest.len() {
                assert(all[k] == rest[k]);
                let i = choose|i: int| 0 <= i < front.len() && front[i] == rest[k];
                assert(rooms[i] == all[k]);
            } else {
                assert(rooms[rooms.len() - 1] == all[k]);
            }
        }
        if rooms_ok(rooms) {
            assert forall|i: int, j: int| 0 <= i < j < front.len() implies (
            #[trigger] front[i]).code != (#[trigger] front[j]).code by {
                assert(rooms[i] == front[i] && rooms[j] == front[j]);
            }
            assert forall|i: int| 0 <= i < front.len() implies (#[trigger] front[i]).players.len()
                <= MAX_PLAYERS && front[i].players.no_duplicates() by {
                assert(rooms[i] == front[i]);
            }
            assert forall|i: int, j: int| 0 <= i < j < all.len() implies (#[trigger] all[i]).code
                != (#[trigger] all[j]).code by {
                if j < rest.len() {
                    assert(all[i] == rest[i] && all[j] == rest[j]);
                } else {
                    assert(all[i] == rest[i]);
                    let k = choose|k: int| 0 <= k < front.len() && front[k] == rest[i];
                    assert(rooms[k] == front[k]);
                    assert(all[j] == rooms[rooms.len() - 1]);
                }
            }
            assert forall|i: int| 0 <= i < all.len() implies (#[trigger] all[i]).players.len()
                <= MAX_PLAYERS && all[i].players.no_duplicates() by {
                if i < rest.len() {
                    assert(all[i] == rest[i]);
                } else {
                    assert(all[i] == rooms[rooms.len() - 1]);
                }
            }
        }
    }
}

proof fn lemma_without(players: Seq<Seq<char>>, name: Seq<char>)
    ensures
        without(players, name).len() <= players.len(),
        forall|p: Seq<char>| #[trigger]
            without(players, name).contains(p) <==> players.contains(p) && p != name,
        players.no_duplicates() ==> without(players, name).no_duplicates(),
    decreases players.len(),
{
    if players.len() > 0 {
        let front = players.drop_last();
        lemma_without(front, name);
        let rest = without(front, name);
        let all = without(players, name);
        let last = players.last();
        assert forall|p: Seq<char>| players.contains(p) <==> (front.contains(p) || p == last) by {
            if front.contains(p) {
                assert(players[front.index_of(p)] == p);
            }
            if players.contains(p) && p != last {
                assert(front[players.index_of(p)] == p);
            }
            assert(players[players.len() - 1] == last);
        }
        assert forall|p: Seq<char>| #[trigger] all.contains(p) <==> players.contains(p) && p
            != name by {
            if rest.contains(p) {
                assert(all[rest.index_of(p)] == p);
            }
            if all.contains(p) {
                let k = all.index_of(p);
                if k < rest.len() {
                    assert(rest[k] == p);
                }
            }
            if last != name {
                assert(all[rest.len() as int] == last);
            }
            assert(rest.contains(p) <==> front.contains(p) && p != name);
        }
        if players.no_duplicates() {
            assert(front.no_duplicates());
            assert(!front.contains(last)) by {
                if front.contains(last) {
                    let k = front.index_of(last);
                    assert(players[k] == players[players.len() - 1]);
                }
            }
            assert(!rest.contains(last));
        }
    }
}

impl Duels {
    pub open spec fn wf(&self) -> bool {
        rooms_ok(views(self.rooms@))
    }

    pub fn new() -> (r: Duels)
        ensures
            r.wf(),
            views(r.rooms@) == Seq::<RoomView>::empty(),
    {
        let r = Duels { rooms: Vec::new() };
        assert(views(r.rooms@) =~= Seq::<RoomView>::empty());
        r
    }

    fn find(&self, code: &str) -> (r: Option<usize>)
        ensures
            match r {
                Some(i) => room_at(views(self.rooms@), code@, 0) == Some(i as int) && i
                    < self.rooms@.len(),
                None => room_at(views(self.rooms@), code@, 0) is None,
            },
    {
        let n: usize = self.rooms.len();
        let mut i: usize = 0;
        while i < n
            invariant
                n == self.rooms@.len(),
                i <= n,
                room_at(views(self.rooms@), code@, 0) == room_at(
                    views(self.rooms@),
                    code@,
                    i as int,
                ),
            decreases n - i,
        {
            assert(views(self.rooms@)[i as int] == self.rooms@[i as int]@);
            if eq_text(self.rooms[i].code.as_str(), code) {
                return Some(i);
            }
            i = i + 1;
        }
        None
    }

    /// Drop the rooms that are too old.
    fn prune(&mut self, now: u64)
        ensures
            views(final(self).rooms@) == open_rooms(views(old(self).rooms@), now),
    {
        let ghost all = views(self.rooms@);
        let ghost mut done: int = 0;
        let mut given: Vec<Room> = Vec::new();
        core::mem::swap(&mut given, &mut self.rooms);
        let mut left: Vec<Room> = Vec::new();
        assert(all.take(0) =~= Seq::<RoomView>::empty());
        assert(all.skip(0) =~= all);
        assert(views(left@) =~= Seq::<RoomView>::empty());
        while given.len() > 0
            invariant
                0 <= done <= all.len(),
                views(given@) == all.skip(done),
                given@.len() == all.len() - done,
                views(left@) == open_rooms(all.take(done), now),
            decreases given@.len(),
        {
            let ghost before = views(given@);
            let ghost had = views(left@);
            let room = given.remove(0);
            proof {
                assert(room@ == before[0]);
                assert(views(given@) =~= before.drop_first());
                assert(all.skip(done).drop_first() =~= all.skip(done + 1));
                assert(all.take(done + 1).drop_last() =~= all.take(done));
                assert(all.take(done + 1).last() == all[done]);
            }
            let age: u64 = if now < room.created {
                0
            } else {
                now - room.created
            };
            if age < ROOM_TTL {
                let ghost view = room@;
                left.push(room);
                assert(views(left@) =~= had.push(view));
            }
            proof {
                done = done + 1;
            }
        }
        assert(all.take(done) =~= all);
        self.rooms = left;
    }

    /// Make a room for a race that has been set, and give it a code. Rooms
    /// that are too old go first; where there are still too many, there is no
    /// room for another.
    pub fn create(&mut self, start: u32, goal: u32, par: usize, seed: u64, now: u64) -> (r: Option<
        String,
    >)
        requires
            old(self).wf(),
        ensures
            final(self).wf(),
            ({
                let left = open_rooms(views(old(self).rooms@), now);
                let code = free_code(left, seeded(seed), MAX_DRAWS as nat);
                if left.len() >= MAX_ROOMS || code is None {
                    r is None && views(final(self).rooms@) == left
                } else {
                    &&& r matches Some(c) && c@ == code->Some_0
                    &&& views(final(self).rooms@) == left.push(
                        RoomView {
                            code: code->Some_0,
                            start,
                            goal,
                            par,
                            created: now,
                            players: seq![],
                        },
                    )
                }
            }),
            views(final(self).rooms@) == opened(
                views(old(self).rooms@),
                (start, goal, par),
                seed,
                now,
            ),
    {
        proof {
            lemma_open_rooms(views(self.rooms@), now);
        }
        self.prune(now);
        if self.rooms.len() >= MAX_ROOMS {
            return None;
        }
        let ghost left = views(self.rooms@);
        let mut rng = Rng::new(seed);
        let mut tries: u64 = MAX_DRAWS;
        while tries > 0
            invariant
                left == views(self.rooms@),
                left.len() < MAX_ROOMS,
                rooms_ok(left),
                left == open_rooms(views(old(self).rooms@), now),
                free_code(left, seeded(seed), MAX_DRAWS as nat) == free_code(
                    left,
                    rng.state(),
                    tries as nat,
                ),
            decreases tries,
        {
            let code = draw_code(&mut rng);
            if self.find(code.as_str()).is_none() {
                let room = Room {
                    code: code.clone(),
                    start,
                    goal,
                    par,
                    created: now,
                    players: Vec::new(),
                };
                let ghost view = room@;
                proof {
                    lemma_room_at(left, code@, 0);
                    assert(view.players =~= Seq::<Seq<char>>::empty());
                }
                self.rooms.push(room);
                assert(views(self.rooms@) =~= left.push(view));
                return Some(code);
            }
            tries = tries - 1;
        }
        None
    }

    /// Come into a room: its start, goal and par, and what everybody who was
    /// in before is told.
    pub fn join(&mut self, code: &str, name: &str) -> (r: Result<
        ((u32, u32, usize), String),
        JoinError,
    >)
        requires
            old(self).wf(),
        ensures
            final(self).wf(),
            ({
                let rooms = views(old(self).rooms@);
                let after = views(final(self).rooms@);
                match room_at(rooms, code@, 0) {
                    None => {
                        &&& r == Err::<((u32, u32, usize), String), JoinError>(
                            JoinError::NoSuchRoom,
                        )
                        &&& after == rooms
                    },
                    Some(i) => if rooms[i].players.len() >= MAX_PLAYERS {
                        &&& r == Err::<((u32, u32, usize), String), JoinError>(JoinError::Full)
                        &&& after == rooms
                    } else if rooms[i].players.contains(name@) {
                        &&& r == Err::<((u32, u32, usize), String), JoinError>(
                            JoinError::NameTaken,
                        )
                        &&& after == rooms
                    } else {
                        let players = rooms[i].players.push(name@);
                        &&& r matches Ok((terms, said)) && terms == (
                            rooms[i].start,
                            rooms[i].goal,
                            rooms[i].par,
                        ) && said@ == frame_text("joined"@, name@, players)
                        &&& after == rooms.update(i, RoomView { players, ..rooms[i] })
                    },
                }
            }),
            match joined(views(old(self).rooms@), code@, name@) {
                Ok(after) => r is Ok && views(final(self).rooms@) == after,
                Err(e) => r is Err && r->Err_0 == e,
            },
    {
        let ghost rooms = views(self.rooms@);
        let i: usize = match self.find(code) {
            Some(i) => i,
            None => {
                return Err(JoinError::NoSuchRoom);
            },
        };
        assert(rooms[i as int] == self.rooms@[i as int]@);
        if self.rooms[i].players.len() >= MAX_PLAYERS {
            return Err(JoinError::Full);
        }
        if is_in(&self.rooms[i].players, name) {
            return Err(JoinError::NameTaken);
        }
        let ghost was = self.rooms@[i as int];
        let terms: (u32, u32, usize) = (
            self.rooms[i].start,
            self.rooms[i].goal,
            self.rooms[i].par,
        );
        self.rooms[i].players.push(name.to_string());
        let said = frame("joined", name, &self.rooms[i].players);
        proof {
            let players = rooms[i as int].players.push(name@);
            assert(texts(self.rooms@[i as int].players@) =~= players);
            assert(views(self.rooms@) =~= rooms.update(
                i as int,
                RoomView { players, ..rooms[i as int] },
            ));
            let after = views(self.rooms@);
            assert forall|a: int, b: int| 0 <= a < b < after.len() implies (
            #[trigger] after[a]).code != (#[trigger] after[b]).code by {
                assert(after[a].code == rooms[a].code && after[b].code == rooms[b].code);
            }
            assert forall|a: int| 0 <= a < after.len() implies (#[trigger] after[a]).players.len()
                <= MAX_PLAYERS && after[a].players.no_duplicates() by {
                assert(rooms[a].players.no_duplicates());
            }
        }
        Ok((terms, said))
    }

    /// Leave a room, which goes with the last player: what everybody who is
    /// left is told, or nothing where there is no such room.
    pub fn leave(&mut self, code: &str, name: &str) -> (r: Option<String>)
        requires
            old(self).wf(),
        ensures
            final(self).wf(),
            ({
                let rooms = views(old(self).rooms@);
                let after = views(final(self).rooms@);
                match room_at(rooms, code@, 0) {
                    None => r is None && after == rooms,
                    Some(i) => {
                        let players = without(rooms[i].players, name@);
                        &&& r matches Some(said) && said@ == frame_text("left"@, name@, players)
                        &&& after == (if players.len() == 0 {
                            rooms.remove(i)
                        } else {
                            rooms.update(i, RoomView { players, ..rooms[i] })
                        })
                    },
                }
            }),
            views(final(self).rooms@) == left_by(views(old(self).rooms@), code@, name@),
    {
        let ghost rooms = views(self.rooms@);
        let i: usize = match self.find(code) {
            Some(i) => i,
            None => {
                return None;
            },
        };
        assert(rooms[i as int] == self.rooms@[i as int]@);
        let mut given: Vec<String> = Vec::new();
        core::mem::swap(&mut given, &mut self.rooms[i].players);
        let players = keep_others(given, name);
        proof {
            lemma_without(rooms[i as int].players, name@);
        }
        let said = frame("left", name, &players);
        if players.len() == 0 {
            self.rooms.remove(i);
            proof {
                let after = views(self.rooms@);
                assert(after =~= rooms.remove(i as int));
                assert forall|a: int, b: int| 0 <= a < b < after.len() implies (
                #[trigger] after[a]).code != (#[trigger] after[b]).code by {
                    let x = if a < i {
                        a
                    } else {
                        a + 1
                    };
                    let y = if b < i {
                        b
                    } else {
                        b + 1
                    };
                    assert(after[a] == rooms[x] && after[b] == rooms[y]);
                }
                assert forall|a: int| 0 <= a < after.len() implies (
                #[trigger] after[a]).players.len() <= MAX_PLAYERS
                    && after[a].players.no_duplicates() by {
                    let x = if a < i {
                        a
                    } else {
                        a + 1
                    };
                    assert(after[a] == rooms[x]);
                }
            }
        } else {
            self.rooms[i].players = players;
            proof {
                let left = without(rooms[i as int].players, name@);
                assert(views(self.rooms@) =~= rooms.update(
                    i as int,
                    RoomView { players: left, ..rooms[i as int] },
                ));
                let after = views(self.rooms@);
                assert forall|a: int, b: int| 0 <= a < b < after.len() implies (
                #[trigger] after[a]).code != (#[trigger] after[b]).code by {
                    assert(after[a].code == rooms[a].code && after[b].code == rooms[b].code);
                }
                assert forall|a: int| 0 <= a < after.len() implies (
                #[trigger] after[a]).players.len() <= MAX_PLAYERS
                    && after[a].players.no_duplicates() by {
                    assert(rooms[a].players.no_duplicates());
                }
            }
        }
        Some(said)
    }

    /// The start, goal and par of a room.
    pub fn room_terms(&self, code: &str) -> (r: Option<(u32, u32, usize)>)
        ensures
            r == match room_at(views(self.rooms@), code@, 0) {
                Some(i) => Some(
                    (
                        views(self.rooms@)[i].start,
                        views(self.rooms@)[i].goal,
                        views(self.rooms@)[i].par,
                    ),
                ),
                None => None,
            },
    {
        match self.find(code) {
            Some(i) => {
                assert(views(self.rooms@)[i as int] == self.rooms@[i as int]@);
                Some((self.rooms[i].start, self.rooms[i].goal, self.rooms[i].par))
            },
            None => None,
        }
    }
}

impl Default for Duels {
    fn default() -> (r: Self)
        ensures
            r.wf(),
            views(r.rooms@) == Seq::<RoomView>::empty(),
    {
        Duels::new()
    }
}

fn is_in(players: &Vec<String>, name: &str) -> (r: bool)
    ensures
        r == texts(players@).contains(name@),
{
    let n: usize = players.len();
    let mut i: usize = 0;
    while i < n
        invariant
            n == players@.len(),
            i <= n,
            forall|j: int| 0 <= j < i ==> texts(players@)[j] != name@,
        decreases n - i,
    {
        assert(texts(players@)[i as int] == players@[i as int]@);
        if eq_text(players[i].as_str(), name) {
            return true;
        }
        i = i + 1;
    }
    false
}

fn keep_others(given: Vec<String>, name: &str) -> (r: Vec<String>)
    ensures
        texts(r@) == without(texts(given@), name@),
{
    let mut given = given;
    let ghost all = texts(given@);
    let ghost mut done: int = 0;
    let mut left: Vec<String> = Vec::new();
    assert(all.take(0) =~= Seq::<Seq<char>>::empty());
    assert(all.skip(0) =~= all);
    assert(texts(left@) =~= Seq::<Seq<char>>::empty());
    while given.len() > 0
        invariant
            0 <= done <= all.len(),
            texts(given@) == all.skip(done),
            given@.len() == all.len() - done,
            texts(left@) == without(all.take(done), name@),
        decreases given@.len(),
    {
        let ghost before = texts(given@);
        let ghost had = texts(left@);
        let p = given.remove(0);
        proof {
            assert(p@ == before[0]);
            assert(texts(given@) =~= before.drop_first());
            assert(all.skip(done).drop_first() =~= all.skip(done + 1));
            assert(all.take(done + 1).drop_last() =~= all.take(done));
            assert(all.take(done + 1).last() == all[done]);
        }
        if !eq_text(p.as_str(), name) {
            let ghost view = p@;
            left.push(p);
            assert(texts(left@) =~= had.push(view));
        }
        proof {
            done = done + 1;
        }
    }
    assert(all.take(done) =~= all);
    left
}

// ---------------------------------------------------------------------------
// Laws
// ---------------------------------------------------------------------------

/// A code has six letters, and none of them is an O, an I, a zero or a one.
pub proof fn law_codes_read_well(state: u64, n: nat)
    ensures
        drawn(state, n).len() == n,
        forall|i: int|
            0 <= i < n ==> {
                let c = #[trigger] drawn(state, n)[i];
                c != 'O' && c != 'I' && c != '0' && c != '1'
            },
    decreases n,
{
    if n > 0 {
        law_codes_read_well(next_state(state), (n - 1) as nat);
        reveal_strlit("ABCDEFGHJKLMNPQRSTUVWXYZ23456789");
        let rest = drawn(next_state(state), (n - 1) as nat);
        let all = drawn(state, n);
        assert forall|i: int| 0 <= i < n implies {
            let c = #[trigger] all[i];
            c != 'O' && c != 'I' && c != '0' && c != '1'
        } by {
            if i > 0 {
                assert(all[i] == rest[i - 1]);
            }
        }
    }
}

/// A code that is given out is free: no room has it.
pub proof fn law_codes_are_free(rooms: Seq<RoomView>, state: u64, tries: nat)
    ensures
        free_code(rooms, state, tries) matches Some(code) ==> room_at(rooms, code, 0) is None
            && code.len() == CODE_LEN,
    decreases tries,
{
    if tries > 0 {
        law_codes_read_well(state, CODE_LEN as nat);
        law_codes_are_free(rooms, state_after(state, CODE_LEN as nat), (tries - 1) as nat);
    }
}

/// Who comes in and leaves again has changed nothing for the others.
pub proof fn law_leaving_undoes_joining(players: Seq<Seq<char>>, name: Seq<char>)
    requires
        !players.contains(name),
    ensures
        without(players.push(name), name) == players,
{
    assert(players.push(name).drop_last() =~= players);
    lemma_without_absent(players, name);
}

proof fn lemma_without_absent(players: Seq<Seq<char>>, name: Seq<char>)
    requires
        !players.contains(name),
    ensures
        without(players, name) == players,
    decreases players.len(),
{
    if players.len() > 0 {
        let front = players.drop_last();
        assert(!front.contains(name)) by {
            if front.contains(name) {
                assert(players[front.index_of(name)] == name);
            }
        }
        assert(players[players.len() - 1] != name);
        lemma_without_absent(front, name);
        assert(front.push(players.last()) =~= players);
    } else {
        assert(players =~= Seq::<Seq<char>>::empty());
    }
}

/// A code is six letters or digits long, capitals all, and no letter in it is
/// taken for a digit.
pub proof fn law_codes_are_six_letters(rooms: Seq<RoomView>, state: u64, tries: nat, i: int)
    requires
        0 <= i < 6,
    ensures
        free_code(rooms, state, tries) matches Some(code) ==> code.len() == 6 && ('A' <= code[i]
            <= 'Z' || '2' <= code[i] <= '9') && code[i] != 'O' && code[i] != 'I',
        tries > 0 && rooms.len() == 0 ==> free_code(rooms, state, tries) is Some,
    decreases tries,
{
    if tries > 0 {
        law_codes_read_well(state, 6);
        lemma_letters(state, 6);
        law_codes_are_six_letters(rooms, state_after(state, 6), (tries - 1) as nat, i);
    }
}

proof fn lemma_letters(state: u64, n: nat)
    ensures
        drawn(state, n).len() == n,
        forall|i: int|
            0 <= i < n ==> 'A' <= #[trigger] drawn(state, n)[i] <= 'Z' || '2' <= drawn(state, n)[i]
                <= '9',
    decreases n,
{
    if n > 0 {
        lemma_letters(next_state(state), (n - 1) as nat);
        reveal_strlit("ABCDEFGHJKLMNPQRSTUVWXYZ23456789");
        let rest = drawn(next_state(state), (n - 1) as nat);
        let all = drawn(state, n);
        assert forall|i: int| 0 <= i < n implies 'A' <= #[trigger] all[i] <= 'Z' || '2' <= all[i]
            <= '9' by {
            if i > 0 {
                assert(all[i] == rest[i - 1]);
            } else {
                let x = next_number(state);
                let k = ((x >> 59) % 32) as int;
                assert(0 <= k < 32);
            }
        }
    }
}

/// A room stays open for two hours, and then it is gone; what stays keeps its
/// order and everything in it.
pub proof fn law_rooms_close_after_two_hours(rooms: Seq<RoomView>, room: RoomView, now: u64)
    ensures
        open_rooms(rooms.push(room), now) == (if now < room.created + 7_200 * 1_000_000_000 {
            open_rooms(rooms, now).push(room)
        } else {
            open_rooms(rooms, now)
        }),
        open_rooms(Seq::<RoomView>::empty(), now).len() == 0,
{
    assert(rooms.push(room).drop_last() =~= rooms);
}

/// There are a thousand rooms at most, of eight players at most, and no two
/// have one code.
pub proof fn law_rooms_are_small(rooms: Seq<RoomView>, i: int, j: int)
    requires
        rooms_ok(rooms),
        0 <= i < j < rooms.len(),
    ensures
        rooms.len() <= 1_000,
        rooms[i].players.len() <= 8,
        rooms[i].code != rooms[j].code,
        MAX_ROOMS == 1_000,
        MAX_PLAYERS == 8,
{
}

/// The room with a code is found, and nothing where there is none.
pub proof fn law_rooms_are_found_by_code(rooms: Seq<RoomView>, code: Seq<char>, i: int)
    requires
        0 <= i <= rooms.len(),
    ensures
        match room_at(rooms, code, i) {
            Some(k) => i <= k < rooms.len() && rooms[k].code == code && forall|j: int|
                i <= j < k ==> (#[trigger] rooms[j]).code != code,
            None => forall|j: int| i <= j < rooms.len() ==> (#[trigger] rooms[j]).code != code,
        },
    decreases rooms.len() - i,
{
    if i < rooms.len() && rooms[i].code != code {
        law_rooms_are_found_by_code(rooms, code, i + 1);
    }
}

/// Who leaves is gone, and all others stay in their order.
pub proof fn law_only_who_leaves_is_gone(players: Seq<Seq<char>>, name: Seq<char>, other: Seq<char>)
    ensures
        !without(players, name).contains(name),
        other != name ==> (without(players, name).contains(other) <==> players.contains(other)),
        without(players.push(other), name) == (if other == name {
            without(players, name)
        } else {
            without(players, name).push(other)
        }),
    decreases players.len(),
{
    assert(players.push(other).drop_last() =~= players);
    if players.len() > 0 {
        let front = players.drop_last();
        law_only_who_leaves_is_gone(front, name, other);
        let a = without(front, name);
        let b = without(players, name);
        assert(players =~= front.push(players.last()));
        if front.contains(other) {
            let i = choose|i: int| 0 <= i < front.len() && front[i] == other;
            assert(players[i] == other);
        }
        if players.last() == other {
            assert(players[players.len() - 1] == other);
        }
        if players.last() != name {
            assert(b =~= a.push(players.last()));
            assert(b[b.len() - 1] == players.last());
            if a.contains(other) {
                let i = choose|i: int| 0 <= i < a.len() && a[i] == other;
                assert(b[i] == other);
            }
            assert(b.contains(other) ==> a.contains(other) || players.last() == other);
        }
    }
}
proof fn lemma_room_is(rooms: Seq<RoomView>, i: int)
    requires
        rooms_ok(rooms),
        0 <= i < rooms.len(),
    ensures
        room_at(rooms, rooms[i].code, 0) == Some(i),
{
    law_rooms_are_found_by_code(rooms, rooms[i].code, 0);
    let k = room_at(rooms, rooms[i].code, 0)->0;
    if k < i {
        assert(rooms[k].code != rooms[i].code);
    }
}

/// Up to eight players come into a room, each with a name of their own, and the
/// last to come is the last in it. No other room changes.
pub proof fn law_eight_players_come_in(rooms: Seq<RoomView>, i: int, name: Seq<char>, j: int)
    requires
        rooms_ok(rooms),
        0 <= i < rooms.len(),
        0 <= j < rooms.len(),
    ensures
        rooms[i].players.len() == 8 <==> joined(rooms, rooms[i].code, name) is Err && joined(
            rooms,
            rooms[i].code,
            name,
        )->Err_0 == JoinError::Full,
        rooms[i].players.len() < 8 && rooms[i].players.contains(name) <==> joined(
            rooms,
            rooms[i].code,
            name,
        ) is Err && joined(rooms, rooms[i].code, name)->Err_0 == JoinError::NameTaken,
        rooms[i].players.len() < 8 && !rooms[i].players.contains(name) <==> joined(
            rooms,
            rooms[i].code,
            name,
        ) is Ok,
        joined(rooms, rooms[i].code, name) matches Ok(after) ==> after.len() == rooms.len()
            && after[i].players == rooms[i].players.push(name) && after[i].code == rooms[i].code
            && after[i].start == rooms[i].start && after[i].goal == rooms[i].goal && after[i].par
            == rooms[i].par && after[i].created == rooms[i].created && (i != j ==> after[j]
            == rooms[j]),
{
    lemma_room_is(rooms, i);
}

/// Nobody comes into a room that is not there, and nobody leaves one.
pub proof fn law_unknown_codes_lead_nowhere(rooms: Seq<RoomView>, code: Seq<char>, name: Seq<char>)
    requires
        forall|j: int| 0 <= j < rooms.len() ==> (#[trigger] rooms[j]).code != code,
    ensures
        joined(rooms, code, name) is Err,
        joined(rooms, code, name)->Err_0 == JoinError::NoSuchRoom,
        left_by(rooms, code, name) == rooms,
{
    law_rooms_are_found_by_code(rooms, code, 0);
}

/// Who comes in and leaves again leaves the rooms as they were; where nobody
/// else was in the room, it is gone with them.
pub proof fn law_rooms_outlive_visitors(rooms: Seq<RoomView>, i: int, name: Seq<char>)
    requires
        rooms_ok(rooms),
        0 <= i < rooms.len(),
        rooms[i].players.len() < 8,
        !rooms[i].players.contains(name),
    ensures
        joined(rooms, rooms[i].code, name) matches Ok(after) && left_by(after, rooms[i].code, name)
            == (if rooms[i].players.len() > 0 {
            rooms
        } else {
            rooms.remove(i)
        }),
{
    lemma_room_is(rooms, i);
    let code = rooms[i].code;
    let after = joined(rooms, code, name)->Ok_0;
    law_leaving_undoes_joining(rooms[i].players, name);
    law_rooms_are_found_by_code(after, code, 0);
    let k = room_at(after, code, 0)->0;
    assert(after[i].code == code);
    if k < i {
        assert(rooms[k].code != rooms[i].code);
        assert(after[k].code == rooms[k].code);
    }
    assert(k == i);
    if rooms[i].players.len() > 0 {
        assert(left_by(after, code, name) =~= rooms);
    } else {
        assert(after.remove(i) =~= rooms.remove(i));
    }
}

/// A new room is the last, has the terms that it was made for and nobody in it,
/// and a code that no open room has. It is made while there are fewer than a
/// thousand open ones, if a code is free.
pub proof fn law_new_rooms_are_empty(
    rooms: Seq<RoomView>,
    terms: (u32, u32, usize),
    seed: u64,
    now: u64,
)
    ensures
        ({
            let left = open_rooms(rooms, now);
            let after = opened(rooms, terms, seed, now);
            &&& left.len() >= 1_000 ==> after == left
            &&& after != left ==> {
                &&& after.len() == left.len() + 1
                &&& after.take(left.len() as int) == left
                &&& after.last().start == terms.0
                &&& after.last().goal == terms.1
                &&& after.last().par == terms.2
                &&& after.last().created == now
                &&& after.last().players.len() == 0
                &&& after.last().code.len() == 6
                &&& forall|i: int|
                    0 <= i < left.len() ==> (#[trigger] left[i]).code != after.last().code
            }
            &&& left.len() == 0 ==> after.len() == 1
        }),
{
    let left = open_rooms(rooms, now);
    law_codes_are_free(left, seeded(seed), MAX_DRAWS as nat);
    law_codes_are_six_letters(left, seeded(seed), MAX_DRAWS as nat, 0);
    let after = opened(rooms, terms, seed, now);
    if after != left {
        law_rooms_are_found_by_code(left, after.last().code, 0);
        assert(after.take(left.len() as int) =~= left);
    }
}
} // verus!
