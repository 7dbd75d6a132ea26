//! The leaderboard: who reached a goal in the fewest clicks.

use crate::text::{law_only_white_space_is_trimmed, is_space, chars_of, decimal, push_decimal, same, string_of, trim, trimmed};
use vstd::prelude::*;
use vstd::string::StringExecFns;

verus! {

/// How many entries a board holds.
pub const BOARD_SIZE: usize = 100;

/// The most characters of a nickname.
pub const MAX_NICKNAME: usize = 20;

/// One line of a board.
pub struct Entry {
    pub nickname: String,
    pub clicks: usize,
    pub ms: u64,
    /// The player's id, empty where it is not known. One entry per player and
    /// board, so that nobody can fill a board under many nicknames.
    pub player: String,
}

/// One line of a board, as a value.
pub struct EntryView {
    pub nickname: Seq<char>,
    pub clicks: usize,
    pub ms: u64,
    pub player: Seq<char>,
}

impl View for Entry {
    type V = EntryView;

    open spec fn view(&self) -> EntryView {
        EntryView {
            nickname: self.nickname@,
            clicks: self.clicks,
            ms: self.ms,
            player: self.player@,
        }
    }
}

/// The lines of a board.
pub open spec fn lines(v: Seq<Entry>) -> Seq<EntryView> {
    Seq::new(v.len(), |i: int| v[i]@)
}

// ---------------------------------------------------------------------------
// Nicknames
// ---------------------------------------------------------------------------

/// A control character.
pub open spec fn is_control(c: char) -> bool {
    c <= '\u{1f}' || '\u{7f}' <= c <= '\u{9f}'
}

/// Whether a character is a control character.
pub fn control(c: char) -> (r: bool)
    ensures
        r == is_control(c),
{
    c <= '\u{1f}' || ('\u{7f}' <= c && c <= '\u{9f}')
}

/// The first characters that are no control characters, as many as a nickname
/// holds.
pub open spec fn printable(s: Seq<char>) -> Seq<char>
    decreases s.len(),
{
    if s.len() == 0 {
        seq![]
    } else {
        let rest = printable(s.drop_last());
        if !is_control(s.last()) && rest.len() < MAX_NICKNAME {
            rest.push(s.last())
        } else {
            rest
        }
    }
}

/// A nickname as it is stored.
pub open spec fn nickname_of(raw: Seq<char>) -> Seq<char> {
    let s = trimmed(printable(raw));
    if s.len() == 0 {
        "anonymous"@
    } else {
        s
    }
}

/// Make a nickname something to store: of bounded length, without control
/// characters, and without white space at its ends.
pub fn clean_nickname(raw: &str) -> (r: String)
    ensures
        r@ == nickname_of(raw@),
{
    let chars = chars_of(raw);
    let n: usize = chars.len();
    let mut kept: Vec<char> = Vec::new();
    let mut i: usize = 0;
    assert(chars@.take(0) =~= Seq::<char>::empty());
    while i < n
        invariant
            n == chars@.len(),
            i <= n,
            kept@ == printable(chars@.take(i as int)),
        decreases n - i,
    {
        assert(chars@.take(i + 1).drop_last() =~= chars@.take(i as int));
        let c: char = chars[i];
        if !control(c) && kept.len() < MAX_NICKNAME {
            kept.push(c);
        }
        i = i + 1;
    }
    assert(chars@.take(n as int) =~= chars@);
    let s = trim(kept.as_slice());
    if s.len() == 0 {
        String::from_str("anonymous")
    } else {
        let r = string_of(s, 0, s.len());
        assert(r@ =~= s@);
        r
    }
}

// ---------------------------------------------------------------------------
// Order
// ---------------------------------------------------------------------------

/// Fewer clicks are better, and of equal clicks less time.
pub open spec fn better(a: EntryView, b: EntryView) -> bool {
    a.clicks < b.clicks || (a.clicks == b.clicks && a.ms < b.ms)
}

/// Where an entry belongs in a list in order: after all that are no worse.
pub open spec fn spot(list: Seq<EntryView>, e: EntryView) -> int
    decreases list.len(),
{
    if list.len() == 0 {
        0
    } else if better(e, list.last()) {
        spot(list.drop_last(), e)
    } else {
        list.len() as int
    }
}

/// The list in order. Entries that are equally good stay in the order they
/// came in.
pub open spec fn ranked(list: Seq<EntryView>) -> Seq<EntryView>
    decreases list.len(),
{
    if list.len() == 0 {
        seq![]
    } else {
        let rest = ranked(list.drop_last());
        rest.insert(spot(rest, list.last()), list.last())
    }
}

/// Where a known player stands on a list, from place `i` on.
pub open spec fn place_of_player(list: Seq<EntryView>, player: Seq<char>, i: int) -> Option<int>
    decreases list.len() - i,
{
    if i < 0 || i >= list.len() {
        None
    } else if list[i].player.len() > 0 && list[i].player == player {
        Some(i)
    } else {
        place_of_player(list, player, i + 1)
    }
}

/// A list with an entry added. A player who is there already keeps the better
/// of the two.
pub open spec fn with_entry(list: Seq<EntryView>, e: EntryView) -> Seq<EntryView> {
    match place_of_player(list, e.player, 0) {
        Some(i) => if better(e, list[i]) {
            list.update(i, e)
        } else {
            list
        },
        None => list.push(e),
    }
}

/// A board with an entry added.
pub open spec fn placed(list: Seq<EntryView>, e: EntryView) -> Seq<EntryView> {
    let all = ranked(with_entry(list, e));
    if all.len() > BOARD_SIZE {
        all.take(BOARD_SIZE as int)
    } else {
        all
    }
}

proof fn lemma_spot(list: Seq<EntryView>, e: EntryView)
    ensures
        0 <= spot(list, e) <= list.len(),
    decreases list.len(),
{
    if list.len() > 0 {
        lemma_spot(list.drop_last(), e);
    }
}

/// Whether an entry is better than another.
fn is_better(a: &Entry, b: &Entry) -> (r: bool)
    ensures
        r == better(a@, b@),
{
    a.clicks < b.clicks || (a.clicks == b.clicks && a.ms < b.ms)
}

fn find_player(list: &Vec<Entry>, player: &str) -> (r: Option<usize>)
    ensures
        match r {
            Some(i) => place_of_player(lines(list@), player@, 0) == Some(i as int) && i
                < list@.len(),
            None => place_of_player(lines(list@), player@, 0) is None,
        },
{
    let n: usize = list.len();
    let wanted = chars_of(player);
    let mut i: usize = 0;
    while i < n
        invariant
            n == list@.len(),
            i <= n,
            wanted@ == player@,
            place_of_player(lines(list@), player@, 0) == place_of_player(
                lines(list@),
                player@,
                i as int,
            ),
        decreases n - i,
    {
        let here = chars_of(list[i].player.as_str());
        assert(lines(list@)[i as int].player == here@);
        if here.len() > 0 && same(here.as_slice(), wanted.as_slice()) {
            return Some(i);
        }
        i = i + 1;
    }
    None
}

/// Put a list in order. Entries that are equally good stay in the order they
/// came in.
fn rank(list: Vec<Entry>) -> (r: Vec<Entry>)
    ensures
        lines(r@) == ranked(lines(list@)),
{
    let mut list = list;
    let ghost all = lines(list@);
    let ghost mut done: int = 0;
    let n: usize = list.len();
    let mut out: Vec<Entry> = Vec::new();
    proof {
        assert(all.take(0) =~= Seq::<EntryView>::empty());
        assert(lines(out@) =~= Seq::<EntryView>::empty());
        assert(all.skip(0) =~= all);
    }
    while list.len() > 0
        invariant
            0 <= done <= n,
            n == all.len(),
            list@.len() == n - done,
            lines(list@) == all.skip(done),
            lines(out@) == ranked(all.take(done)),
        decreases list@.len(),
    {
        let ghost before = lines(list@);
        let e = list.remove(0);
        let ghost so_far = lines(out@);
        proof {
            assert(e@ == before[0]);
            assert(lines(list@) =~= before.drop_first());
            assert(all.skip(done).drop_first() =~= all.skip(done + 1));
            assert(all.take(done + 1).drop_last() =~= all.take(done));
            assert(all.take(done + 1).last() == all[done]);
        }
        let mut k: usize = out.len();
        assert(so_far.take(so_far.len() as int) =~= so_far);
        while k > 0 && is_better(&e, &out[k - 1])
            invariant
                k <= out@.len(),
                so_far == lines(out@),
                spot(so_far, e@) == spot(so_far.take(k as int), e@),
            decreases k,
        {
            assert(so_far.take(k as int).drop_last() =~= so_far.take(k - 1));
            assert(so_far.take(k as int).last() == out@[k - 1]@);
            k = k - 1;
        }
        proof {
            if k > 0 {
                assert(so_far.take(k as int).last() == out@[k - 1]@);
            }
            assert(spot(so_far, e@) == k);
        }
        out.insert(k, e);
        proof {
            assert(lines(out@) =~= so_far.insert(k as int, e@));
            done = done + 1;
        }
    }
    assert(all.take(n as int) =~= all);
    out
}

/// Add an entry to a board: one entry per player, in order, and no more than a
/// board holds.
pub fn place(list: &mut Vec<Entry>, entry: Entry)
    ensures
        lines(final(list)@) == placed(lines(old(list)@), entry@),
{
    let ghost given = lines(list@);
    let ghost e = entry@;
    match find_player(list, entry.player.as_str()) {
        Some(i) => {
            assert(given[i as int] == list@[i as int]@);
            if is_better(&entry, &list[i]) {
                list.set(i, entry);
                assert(lines(list@) =~= given.update(i as int, e));
            }
        },
        None => {
            list.push(entry);
            assert(lines(list@) =~= given.push(e));
        },
    }
    let mut all: Vec<Entry> = Vec::new();
    core::mem::swap(&mut all, list);
    let mut sorted = rank(all);
    let ghost full = lines(sorted@);
    if sorted.len() > BOARD_SIZE {
        sorted.truncate(BOARD_SIZE);
        assert(lines(sorted@) =~= full.take(BOARD_SIZE as int));
    }
    *list = sorted;
}

// ---------------------------------------------------------------------------
// Boards
// ---------------------------------------------------------------------------

/// The name of a board.
pub open spec fn key_of(number: Option<u64>, difficulty: Seq<char>) -> Seq<char> {
    match number {
        Some(n) => "daily:"@ + decimal(n as nat) + ":"@ + difficulty,
        None => "free:"@ + difficulty,
    }
}

/// The name of a board: one for each daily race and difficulty, and one for
/// free play at each difficulty.
pub fn board_key(number: Option<u64>, difficulty: &str) -> (r: String)
    ensures
        r@ == key_of(number, difficulty@),
{
    match number {
        Some(n) => {
            let mut s = String::from_str("daily:");
            push_decimal(&mut s, n);
            s.append(":");
            s.append(difficulty);
            s
        },
        None => {
            let mut s = String::from_str("free:");
            s.append(difficulty);
            s
        },
    }
}

// ---------------------------------------------------------------------------
// Laws
// ---------------------------------------------------------------------------

/// No entry is better than one before it.
pub open spec fn in_rank_order(list: Seq<EntryView>) -> bool {
    forall|i: int, j: int|
        0 <= i < j < list.len() ==> !better(#[trigger] list[j], #[trigger] list[i])
}

/// No known player is there twice.
pub open spec fn one_per_player(list: Seq<EntryView>) -> bool {
    forall|i: int, j: int|
        0 <= i < j < list.len() && (#[trigger] list[i]).player.len() > 0 ==> list[i].player != (
        #[trigger] list[j]).player
}

proof fn lemma_spot_splits(list: Seq<EntryView>, e: EntryView)
    requires
        in_rank_order(list),
    ensures
        0 <= spot(list, e) <= list.len(),
        forall|i: int| 0 <= i < spot(list, e) ==> !better(e, #[trigger] list[i]),
        forall|i: int| spot(list, e) <= i < list.len() ==> better(e, #[trigger] list[i]),
    decreases list.len(),
{
    if list.len() > 0 {
        let rest = list.drop_last();
        assert forall|i: int, j: int| 0 <= i < j < rest.len() implies !better(
            #[trigger] rest[j],
            #[trigger] rest[i],
        ) by {
            assert(rest[i] == list[i] && rest[j] == list[j]);
        }
        lemma_spot_splits(rest, e);
        let last = list[list.len() - 1];
        if better(e, last) {
            assert forall|i: int| 0 <= i < spot(list, e) implies !better(e, #[trigger] list[i]) by {
                assert(rest[i] == list[i]);
            }
            assert forall|i: int| spot(list, e) <= i < list.len() implies better(
                e,
                #[trigger] list[i],
            ) by {
                if i < rest.len() {
                    assert(rest[i] == list[i]);
                }
            }
        } else {
            assert forall|i: int| 0 <= i < spot(list, e) implies !better(e, #[trigger] list[i]) by {
                if i < list.len() - 1 {
                    assert(!better(last, list[i]));
                }
            }
        }
    }
}

proof fn lemma_ranked_in_order(list: Seq<EntryView>)
    ensures
        in_rank_order(ranked(list)),
    decreases list.len(),
{
    if list.len() > 0 {
        lemma_ranked_in_order(list.drop_last());
        let rest = ranked(list.drop_last());
        let e = list.last();
        lemma_spot_splits(rest, e);
        let k = spot(rest, e);
        let all = rest.insert(k, e);
        assert forall|i: int, j: int| 0 <= i < j < all.len() implies !better(
            #[trigger] all[j],
            #[trigger] all[i],
        ) by {
            let a = if i < k {
                i
            } else {
                i - 1
            };
            let b = if j < k {
                j
            } else {
                j - 1
            };
            if i != k {
                assert(all[i] == rest[a]);
            }
            if j != k {
                assert(all[j] == rest[b]);
            }
        }
    }
}

proof fn lemma_ranked_members(list: Seq<EntryView>, e: EntryView)
    ensures
        ranked(list).contains(e) <==> list.contains(e),
    decreases list.len(),
{
    if list.len() > 0 {
        let rest = list.drop_last();
        let sorted = ranked(rest);
        lemma_ranked_members(rest, e);
        lemma_spot(sorted, list.last());
        let k = spot(sorted, list.last());
        let all = sorted.insert(k, list.last());
        if all.contains(e) {
            let i = choose|i: int| 0 <= i < all.len() && all[i] == e;
            if i == k {
                assert(list[list.len() - 1] == e);
            } else {
                let a = if i < k {
                    i
                } else {
                    i - 1
                };
                assert(sorted[a] == e);
                let b = choose|b: int| 0 <= b < rest.len() && rest[b] == e;
                assert(list[b] == e);
            }
        }
        if list.contains(e) {
            let i = choose|i: int| 0 <= i < list.len() && list[i] == e;
            if i < rest.len() {
                assert(rest[i] == e);
                let a = choose|a: int| 0 <= a < sorted.len() && sorted[a] == e;
                if a < k {
                    assert(all[a] == e);
                } else {
                    assert(all[a + 1] == e);
                }
            } else {
                assert(all[k] == e);
            }
        }
    }
}

proof fn lemma_ranked_one_per_player(list: Seq<EntryView>)
    requires
        one_per_player(list),
    ensures
        one_per_player(ranked(list)),
    decreases list.len(),
{
    if list.len() > 0 {
        let rest = list.drop_last();
        assert forall|i: int, j: int|
            0 <= i < j < rest.len() && (#[trigger] rest[i]).player.len() > 0 implies rest[i].player
            != (#[trigger] rest[j]).player by {
            assert(rest[i] == list[i] && rest[j] == list[j]);
        }
        lemma_ranked_one_per_player(rest);
        let sorted = ranked(rest);
        let e = list[list.len() - 1];
        lemma_spot(sorted, e);
        let k = spot(sorted, e);
        let all = sorted.insert(k, e);
        assert forall|a: int| 0 <= a < sorted.len() && (#[trigger] sorted[a]).player.len()
            > 0 implies sorted[a].player != e.player by {
            lemma_ranked_members(rest, sorted[a]);
            assert(sorted.contains(sorted[a]));
            let b = choose|b: int| 0 <= b < rest.len() && rest[b] == sorted[a];
            assert(list[b] == sorted[a]);
        }
        assert forall|i: int, j: int|
            0 <= i < j < all.len() && (#[trigger] all[i]).player.len() > 0 implies all[i].player
            != (#[trigger] all[j]).player by {
            let a = if i < k {
                i
            } else {
                i - 1
            };
            let b = if j < k {
                j
            } else {
                j - 1
            };
            if i != k {
                assert(all[i] == sorted[a]);
            }
            if j != k {
                assert(all[j] == sorted[b]);
            }
        }
    }
}

proof fn lemma_place_of_player(list: Seq<EntryView>, player: Seq<char>, i: int)
    requires
        0 <= i,
    ensures
        match place_of_player(list, player, i) {
            Some(k) => i <= k < list.len() && list[k].player == player && player.len() > 0,
            None => forall|k: int|
                i <= k < list.len() && (#[trigger] list[k]).player.len() > 0 ==> list[k].player
                    != player,
        },
    decreases list.len() - i,
{
    if i < list.len() && !(list[i].player.len() > 0 && list[i].player == player) {
        lemma_place_of_player(list, player, i + 1);
    }
}

/// A board is in order after every entry, and never longer than a board.
pub proof fn law_boards_are_in_order(list: Seq<EntryView>, e: EntryView)
    ensures
        in_rank_order(placed(list, e)),
        placed(list, e).len() <= BOARD_SIZE,
{
    let all = ranked(with_entry(list, e));
    lemma_ranked_in_order(with_entry(list, e));
    let r = placed(list, e);
    assert forall|i: int, j: int| 0 <= i < j < r.len() implies !better(
        #[trigger] r[j],
        #[trigger] r[i],
    ) by {
        assert(r[i] == all[i] && r[j] == all[j]);
    }
}

/// A known player never has two entries on a board.
pub proof fn law_players_come_once(list: Seq<EntryView>, e: EntryView)
    requires
        one_per_player(list),
    ensures
        one_per_player(placed(list, e)),
{
    let after = with_entry(list, e);
    lemma_place_of_player(list, e.player, 0);
    assert forall|i: int, j: int|
        0 <= i < j < after.len() && (#[trigger] after[i]).player.len() > 0 implies after[i].player
        != (#[trigger] after[j]).player by {
        match place_of_player(list, e.player, 0) {
            Some(k) => {
                assert(after[i].player == list[i].player);
                assert(after[j].player == list[j].player);
            },
            None => {
                if j == list.len() {
                    assert(after[i] == list[i]);
                } else {
                    assert(after[i] == list[i] && after[j] == list[j]);
                }
            },
        }
    }
    lemma_ranked_one_per_player(after);
    let all = ranked(after);
    let r = placed(list, e);
    assert forall|i: int, j: int|
        0 <= i < j < r.len() && (#[trigger] r[i]).player.len() > 0 implies r[i].player != (
    #[trigger] r[j]).player by {
        assert(r[i] == all[i] && r[j] == all[j]);
    }
}

/// A worse run never takes the place of a better one of the same player.
pub proof fn law_players_keep_their_best(list: Seq<EntryView>, e: EntryView, i: int)
    requires
        one_per_player(list),
        0 <= i < list.len(),
    ensures
        i < with_entry(list, e).len(),
        !better(list[i], with_entry(list, e)[i]),
        with_entry(list, e)[i].player == list[i].player,
{
    lemma_place_of_player(list, e.player, 0);
}

proof fn lemma_decimal_digits(n: nat)
    ensures
        decimal(n).len() >= 1,
        forall|i: int| 0 <= i < decimal(n).len() ==> '0' <= #[trigger] decimal(n)[i] <= '9',
    decreases n,
{
    if n >= 10 {
        lemma_decimal_digits(n / 10);
        let rest = decimal(n / 10);
        let all = decimal(n);
        assert forall|i: int| 0 <= i < all.len() implies '0' <= #[trigger] all[i] <= '9' by {
            if i < rest.len() {
                assert(all[i] == rest[i]);
            }
        }
    }
}

proof fn lemma_decimal_injective(a: nat, b: nat)
    requires
        decimal(a) == decimal(b),
    ensures
        a == b,
    decreases a,
{
    let x = decimal(a);
    let y = decimal(b);
    assert(x.last() == y.last());
    if a < 10 {
        if b >= 10 {
            lemma_decimal_digits(b / 10);
        }
    } else {
        lemma_decimal_digits(a / 10);
        if b >= 10 {
            assert(x.drop_last() =~= decimal(a / 10));
            assert(y.drop_last() =~= decimal(b / 10));
            lemma_decimal_injective(a / 10, b / 10);
        }
    }
}

/// Where both go on after a run of digits with something else, equal texts
/// have equal runs.
proof fn lemma_digits_then(a: Seq<char>, x: Seq<char>, b: Seq<char>, y: Seq<char>)
    requires
        a + x == b + y,
        x.len() > 0,
        y.len() > 0,
        !('0' <= x[0] <= '9'),
        !('0' <= y[0] <= '9'),
        forall|i: int| 0 <= i < a.len() ==> '0' <= #[trigger] a[i] <= '9',
        forall|i: int| 0 <= i < b.len() ==> '0' <= #[trigger] b[i] <= '9',
    ensures
        a == b,
        x == y,
{
    let s = a + x;
    let t = b + y;
    assert(s[a.len() as int] == x[0]);
    assert(t[b.len() as int] == y[0]);
    if a.len() < b.len() {
        assert(t[a.len() as int] == b[a.len() as int]);
        assert(false);
    }
    if b.len() < a.len() {
        assert(s[b.len() as int] == a[b.len() as int]);
        assert(false);
    }
    assert forall|i: int| 0 <= i < a.len() implies a[i] == b[i] by {
        assert(s[i] == a[i]);
        assert(t[i] == b[i]);
    }
    assert(a =~= b);
    assert(s.len() == a.len() + x.len() && t.len() == b.len() + y.len());
    assert forall|i: int| 0 <= i < x.len() implies x[i] == y[i] by {
        assert(s[a.len() + i] == x[i]);
        assert(t[b.len() + i] == y[i]);
    }
    assert(x =~= y);
}

/// Every daily race and difficulty has a board of its own, and so has free play
/// at every difficulty.
pub proof fn law_boards_are_separate(
    n: Option<u64>,
    a: Seq<char>,
    m: Option<u64>,
    b: Seq<char>,
)
    requires
        key_of(n, a) == key_of(m, b),
    ensures
        n == m,
        a == b,
{
    reveal_strlit("daily:");
    reveal_strlit("free:");
    reveal_strlit(":");
    let x = key_of(n, a);
    let y = key_of(m, b);
    match (n, m) {
        (Some(p), Some(q)) => {
            let s = x.skip(6);
            let t = y.skip(6);
            let ta = ":"@ + a;
            let tb = ":"@ + b;
            assert(s =~= decimal(p as nat) + ta);
            assert(t =~= decimal(q as nat) + tb);
            lemma_decimal_digits(p as nat);
            lemma_decimal_digits(q as nat);
            lemma_digits_then(decimal(p as nat), ta, decimal(q as nat), tb);
            lemma_decimal_injective(p as nat, q as nat);
            assert(a =~= ta.skip(1));
            assert(b =~= tb.skip(1));
        },
        (None, None) => {
            assert(a =~= x.skip(5));
            assert(b =~= y.skip(5));
        },
        (Some(p), None) => {
            assert(x[0] == 'd');
            assert(y[0] == 'f');
        },
        (None, Some(q)) => {
            assert(x[0] == 'f');
            assert(y[0] == 'd');
        },
    }
}

proof fn lemma_ranked_then(s: Seq<EntryView>, t: Seq<EntryView>)
    requires
        in_rank_order(ranked(s) + t),
    ensures
        ranked(s + t) == ranked(s) + t,
    decreases t.len(),
{
    let all = ranked(s) + t;
    if t.len() == 0 {
        assert(s + t =~= s);
        assert(all =~= ranked(s));
    } else {
        let u = t.drop_last();
        let last = t.last();
        let part = ranked(s) + u;
        assert forall|i: int, j: int| 0 <= i < j < part.len() implies !better(
            #[trigger] part[j],
            #[trigger] part[i],
        ) by {
            assert(part[i] == all[i] && part[j] == all[j]);
        }
        lemma_ranked_then(s, u);
        assert((s + t).drop_last() =~= s + u);
        assert((s + t).last() == last);
        assert(all[all.len() - 1] == last);
        if part.len() > 0 {
            assert(part.last() == all[part.len() - 1]);
            assert(!better(last, part.last()));
        }
        assert(spot(part, last) == part.len());
        assert(part.insert(part.len() as int, last) =~= all);
    }
}

/// `all` is `list` with `e` put in at place `p`: after whatever has fewer clicks
/// or as many in no more time, and before all that is worse.
pub open spec fn slots_in(list: Seq<EntryView>, e: EntryView, p: int, all: Seq<EntryView>) -> bool {
    &&& 0 <= p <= list.len()
    &&& all == list.take(p).push(e) + list.skip(p)
    &&& forall|i: int|
        0 <= i < p ==> (#[trigger] list[i]).clicks < e.clicks || (list[i].clicks == e.clicks
            && list[i].ms <= e.ms)
    &&& forall|i: int|
        p <= i < list.len() ==> (#[trigger] list[i]).clicks > e.clicks || (list[i].clicks
            == e.clicks && list[i].ms > e.ms)
}

/// A run of someone who is not on the board goes in where it belongs, and the
/// board is cut at a hundred entries.
pub proof fn law_new_players_slot_in(list: Seq<EntryView>, e: EntryView)
    requires
        in_rank_order(list),
        forall|i: int| 0 <= i < list.len() ==> e.player.len() == 0 || (#[trigger] list[i]).player
            != e.player,
    ensures
        exists|p: int, all: Seq<EntryView>| #[trigger]
            slots_in(list, e, p, all) && placed(list, e) == (if all.len() > 100 {
                all.take(100)
            } else {
                all
            }),
{
    lemma_place_of_player(list, e.player, 0);
    if place_of_player(list, e.player, 0) is Some {
        let k = place_of_player(list, e.player, 0)->0;
        assert(list[k].player == e.player);
    }
    let none = Seq::<EntryView>::empty();
    assert(ranked(none) + list =~= list);
    lemma_ranked_then(none, list);
    assert(none + list =~= list);
    let p = spot(list, e);
    lemma_spot_splits(list, e);
    assert(list.push(e).drop_last() =~= list);
    let all = list.take(p).push(e) + list.skip(p);
    assert(list.insert(p, e) =~= all);
    assert(slots_in(list, e, p, all));
}

proof fn lemma_slotted_in_order(rest: Seq<EntryView>, e: EntryView, p: int)
    requires
        in_rank_order(rest),
        0 <= p <= rest.len(),
        forall|a: int| 0 <= a < p ==> !better(e, #[trigger] rest[a]),
        forall|a: int| p <= a < rest.len() ==> better(e, #[trigger] rest[a]),
    ensures
        in_rank_order(rest.take(p).push(e) + rest.skip(p)),
{
    let all = rest.take(p).push(e) + rest.skip(p);
    assert forall|a: int, b: int| 0 <= a < b < all.len() implies !better(
        #[trigger] all[b],
        #[trigger] all[a],
    ) by {
        let x = if a < p {
            a
        } else {
            a - 1
        };
        let y = if b < p {
            b
        } else {
            b - 1
        };
        if a == p {
            assert(all[b] == rest[y]);
            assert(better(e, rest[y]));
        } else if b == p {
            assert(all[a] == rest[x]);
            assert(!better(e, rest[x]));
        } else {
            assert(all[a] == rest[x] && all[b] == rest[y]);
        }
    }
}

/// A better run of someone who is on the board takes the place of the old one:
/// one with fewer clicks, or with as many in less time. Any other changes
/// nothing.
#[verifier::rlimit(60)]
pub proof fn law_better_runs_replace(list: Seq<EntryView>, e: EntryView, i: int)
    requires
        in_rank_order(list),
        one_per_player(list),
        list.len() <= 100,
        0 <= i < list.len(),
        list[i].player == e.player,
        e.player.len() > 0,
    ensures
        e.clicks < list[i].clicks || (e.clicks == list[i].clicks && e.ms < list[i].ms) ==> exists|
            p: int,
        | #[trigger]
            slots_in(list.remove(i), e, p, placed(list, e)),
        !(e.clicks < list[i].clicks || (e.clicks == list[i].clicks && e.ms < list[i].ms))
            ==> placed(list, e) == list,
{
    lemma_place_of_player(list, e.player, 0);
    if place_of_player(list, e.player, 0) is None {
        assert(list[i].player != e.player);
    }
    let k = place_of_player(list, e.player, 0)->0;
    if k < i {
        assert(list[k].player != list[i].player);
    } else if i < k {
        assert(list[i].player != list[k].player);
    }
    let none = Seq::<EntryView>::empty();
    assert(ranked(none) + list =~= list);
    if better(e, list[i]) {
        let front = list.take(i);
        let tail = list.skip(i + 1);
        assert forall|a: int, b: int| 0 <= a < b < front.len() implies !better(
            #[trigger] front[b],
            #[trigger] front[a],
        ) by {
            assert(front[a] == list[a] && front[b] == list[b]);
        }
        assert(ranked(none) + front =~= front);
        lemma_ranked_then(none, front);
        assert(none + front =~= front);
        let p = spot(front, e);
        lemma_spot_splits(front, e);
        let s = front.push(e);
        assert(s.drop_last() =~= front);
        let mid = front.insert(p, e);
        assert(ranked(s) == mid);
        let all = mid + tail;
        let rest = list.remove(i);
        assert(all =~= rest.take(p).push(e) + rest.skip(p));
        assert forall|a: int| 0 <= a < p implies !better(e, #[trigger] rest[a]) by {
            assert(rest[a] == front[a]);
        }
        assert forall|a: int| p <= a < rest.len() implies better(e, #[trigger] rest[a]) by {
            if a < i {
                assert(rest[a] == front[a]);
            } else {
                assert(rest[a] == list[a + 1]);
                assert(!better(list[a + 1], list[i]));
            }
        }
        assert forall|a: int, b: int| 0 <= a < b < rest.len() implies !better(
            #[trigger] rest[b],
            #[trigger] rest[a],
        ) by {
            let x = if a < i {
                a
            } else {
                a + 1
            };
            let y = if b < i {
                b
            } else {
                b + 1
            };
            assert(rest[a] == list[x] && rest[b] == list[y]);
        }
        lemma_slotted_in_order(rest, e, p);
        lemma_ranked_then(s, tail);
        assert(s + tail =~= list.update(i, e));
        assert(slots_in(rest, e, p, placed(list, e)));
    } else {
        lemma_ranked_then(none, list);
        assert(none + list =~= list);
    }
}
proof fn lemma_printable(s: Seq<char>)
    ensures
        printable(s).len() <= 20,
        forall|i: int| 0 <= i < printable(s).len() ==> !is_control(#[trigger] printable(s)[i]),
        s.len() <= 20 && (forall|i: int| 0 <= i < s.len() ==> !is_control(#[trigger] s[i]))
            ==> printable(s) == s,
    decreases s.len(),
{
    if s.len() > 0 {
        let front = s.drop_last();
        lemma_printable(front);
        if s.len() <= 20 && (forall|i: int| 0 <= i < s.len() ==> !is_control(#[trigger] s[i])) {
            assert(forall|i: int| 0 <= i < front.len() ==> front[i] == s[i]);
            assert(!is_control(s[s.len() - 1]));
            assert(printable(s) =~= s);
        }
    }
}

/// A nickname has one to twenty characters. None of them is a control
/// character, and none at an end is white space. A name that is so already is
/// left as it is, and who gives none is anonymous.
pub proof fn law_nicknames_can_be_shown(raw: Seq<char>)
    ensures
        1 <= nickname_of(raw).len() <= 20,
        forall|i: int|
            0 <= i < nickname_of(raw).len() ==> {
                let c = #[trigger] nickname_of(raw)[i];
                c > '\u{1f}' && !('\u{7f}' <= c <= '\u{9f}')
            },
        !is_space(nickname_of(raw)[0]),
        !is_space(nickname_of(raw).last()),
        0 < raw.len() <= 20 && !is_space(raw[0]) && !is_space(raw.last()) && (forall|i: int|
            0 <= i < raw.len() ==> (#[trigger] raw[i]) > '\u{1f}' && !('\u{7f}' <= raw[i]
                <= '\u{9f}')) ==> nickname_of(raw) == raw,
        (forall|i: int| 0 <= i < raw.len() ==> is_space(#[trigger] raw[i])) ==> nickname_of(raw)
            == "anonymous"@,
{
    reveal_strlit("anonymous");
    let p = printable(raw);
    lemma_printable(raw);
    let (a, b) = law_only_white_space_is_trimmed(p);
    let t = trimmed(p);
    if t.len() > 0 {
        assert forall|i: int| 0 <= i < t.len() implies !is_control(#[trigger] t[i]) by {
            assert(t[i] == p[a + i]);
        }
        assert(t[0] == p[a]);
        assert(t.last() == p[b - 1]);
    }
    if 0 < raw.len() <= 20 && !is_space(raw[0]) && !is_space(raw.last()) && (forall|i: int|
        0 <= i < raw.len() ==> (#[trigger] raw[i]) > '\u{1f}' && !('\u{7f}' <= raw[i]
            <= '\u{9f}')) {
        assert(forall|i: int| 0 <= i < raw.len() ==> !is_control(#[trigger] raw[i]));
        assert(p == raw);
        assert(a == 0) by {
            if a > 0 {
                assert(is_space(p[0]));
            }
        }
        assert(b == raw.len()) by {
            if b < raw.len() {
                assert(is_space(p[raw.len() - 1]));
            }
        }
        assert(t =~= raw);
    }
    if forall|i: int| 0 <= i < raw.len() ==> is_space(#[trigger] raw[i]) {
        lemma_printable_spaces(raw);
        if t.len() > 0 {
            assert(is_space(p[a]));
        }
    }
}

proof fn lemma_printable_spaces(s: Seq<char>)
    requires
        forall|i: int| 0 <= i < s.len() ==> is_space(#[trigger] s[i]),
    ensures
        forall|i: int| 0 <= i < printable(s).len() ==> is_space(#[trigger] printable(s)[i]),
    decreases s.len(),
{
    if s.len() > 0 {
        let front = s.drop_last();
        assert(forall|i: int| 0 <= i < front.len() ==> front[i] == s[i]);
        assert(is_space(s[s.len() - 1]));
        lemma_printable_spaces(front);
        let rest = printable(front);
        let all = printable(s);
        assert forall|i: int| 0 <= i < all.len() implies is_space(#[trigger] all[i]) by {
            if i < rest.len() {
                assert(all[i] == rest[i]);
            }
        }
    }
}

/// Control characters are dropped from a name, and of what is left the first
/// twenty characters are kept.
pub proof fn law_the_first_characters_are_kept(s: Seq<char>, c: char)
    ensures
        printable(s.push(c)) == (if c > '\u{1f}' && !('\u{7f}' <= c <= '\u{9f}') && printable(
            s,
        ).len() < 20 {
            printable(s).push(c)
        } else {
            printable(s)
        }),
        printable(Seq::<char>::empty()).len() == 0,
{
    assert(s.push(c).drop_last() =~= s);
}
} // verus!
