//! The race of the day, and the round of the day: the same for everyone.

use crate::difficulty::Difficulty;
use crate::game::{
    law_races_keep_the_rules, Game, Puzzle, cut_limit, race};
use crate::paths::PathFinder;
use crate::pools::{PAR_SPAN, Pools};
use crate::rng::{Rng, next_number, next_state, seeded};
use crate::runs::lemma_unmixed;
use crate::text::eq_text;
use vstd::prelude::*;

verus! {

/// The day of the first race, as a number of days since 1970: the first of
/// January 2026.
pub const DAILY_EPOCH_DAY: u64 = 20_454;

/// How many seeds are tried before a race is given up.
pub const SEED_TRIES: usize = 6;

/// The fewest clicks of a race whose hub cut a player chose.
pub const CUSTOM_MIN_LEN: usize = 3;

// ---------------------------------------------------------------------------
// Numbers and days
// ---------------------------------------------------------------------------

/// The number of the race of a day. The first is number 1, and the days before
/// it have the same.
pub open spec fn number_on(day: u64) -> u64 {
    if day < DAILY_EPOCH_DAY {
        1
    } else {
        (day - DAILY_EPOCH_DAY + 1) as u64
    }
}

pub fn number_of_day(day: u64) -> (r: u64)
    ensures
        r == number_on(day),
{
    if day < DAILY_EPOCH_DAY {
        1
    } else {
        day - DAILY_EPOCH_DAY + 1
    }
}

/// The number that is played on a day: the one that is asked for, if it has
/// been already, or else that of the day. Tomorrow's race is tomorrow's.
pub open spec fn played(day: u64, asked: Option<u64>) -> Option<u64> {
    match asked {
        None => Some(number_on(day)),
        Some(n) => if 1 <= n <= number_on(day) {
            Some(n)
        } else {
            None
        },
    }
}

pub fn number_played(day: u64, asked: Option<u64>) -> (r: Option<u64>)
    ensures
        r == played(day, asked),
{
    let today: u64 = number_of_day(day);
    match asked {
        None => Some(today),
        Some(n) => if n >= 1 && n <= today {
            Some(n)
        } else {
            None
        },
    }
}

/// The day of a race.
pub fn day_of_number(number: u64) -> (r: u64)
    requires
        1 <= number,
        DAILY_EPOCH_DAY + number - 1 <= u64::MAX,
    ensures
        r == DAILY_EPOCH_DAY + number - 1,
{
    DAILY_EPOCH_DAY + (number - 1)
}

// ---------------------------------------------------------------------------
// Seeds
// ---------------------------------------------------------------------------

/// A product, modulo the range.
pub open spec fn wrapped(a: u64, b: u64) -> u64 {
    ((a * b) % 0x1_0000_0000_0000_0000) as u64
}

/// The seed of the race of a day. The difficulty is part of it, so that each
/// has a race of its own.
pub open spec fn day_seed(day: u64, d: Difficulty) -> u64 {
    wrapped(day, 0x9E37_79B9_7F4A_7C15) ^ wrapped(d.spec_number(), 0xBF58_476D_1CE4_E5B9)
}

pub fn daily_seed(day: u64, d: Difficulty) -> (r: u64)
    ensures
        r == day_seed(day, d),
{
    day.wrapping_mul(0x9E37_79B9_7F4A_7C15) ^ d.number().wrapping_mul(0xBF58_476D_1CE4_E5B9)
}

/// The seed of the round of a day. The number of holes is part of it, so that
/// the short and the long round differ.
pub open spec fn round_seed(day: u64, holes: u64) -> u64 {
    wrapped(day, 0xD1B5_4A32_D192_ED03) ^ 0xC0FF_EE00_C0FF_EE00 ^ (holes << 56)
}

pub fn course_seed(day: u64, holes: usize) -> (r: u64)
    ensures
        r == round_seed(day, holes as u64),
{
    day.wrapping_mul(0xD1B5_4A32_D192_ED03) ^ 0xC0FF_EE00_C0FF_EE00 ^ ((holes as u64) << 56)
}

/// The pars of a round: nine holes where nine are asked for, and else three.
pub open spec fn round_pars(holes: Option<&str>) -> Seq<usize> {
    if holes matches Some(s) && s@ == "9"@ {
        seq![3, 3, 4, 3, 3, 5, 3, 4, 3]
    } else {
        seq![3, 3, 4]
    }
}

pub fn course_pars(holes: Option<&str>) -> (r: Vec<usize>)
    ensures
        r@ == round_pars(holes),
{
    let nine = match holes {
        Some(s) => eq_text(s, "9"),
        None => false,
    };
    let v: Vec<usize> = if nine {
        vec![3, 3, 4, 3, 3, 5, 3, 4, 3]
    } else {
        vec![3, 3, 4]
    };
    assert(v@ =~= round_pars(holes));
    v
}

// ---------------------------------------------------------------------------
// Races from seeds
// ---------------------------------------------------------------------------

/// The hub cut that a player chose, if they chose one.
pub open spec fn chosen_cut(game: &Game, ban_top: Option<usize>) -> Option<Option<usize>> {
    match ban_top {
        None => None,
        Some(n) => Some(
            if n == 0 {
                None
            } else {
                Some(cut_limit(game.graph.reverse@, game.hubs@, n as nat) as usize)
            },
        ),
    }
}

/// The seed that is tried after a seed.
pub open spec fn next_seed(seed: u64) -> u64 {
    ((wrapped(seed, 6_364_136_223_846_793_005) + 1) % 0x1_0000_0000_0000_0000) as u64
}

/// The race of a seed: the first that it or the seeds after it come to.
pub open spec fn seeded_race(
    game: &Game,
    d: Difficulty,
    cut: Option<Option<usize>>,
    seed: u64,
    tries: nat,
) -> Option<Puzzle>
    decreases tries,
{
    if tries == 0 {
        None
    } else {
        let found = match cut {
            Some(ban) => game.spec_puzzle_with(ban, CUSTOM_MIN_LEN as nat, seeded(seed)).0,
            None => game.spec_puzzle(d, seeded(seed)).0,
        };
        if found is Some {
            found
        } else {
            seeded_race(game, d, cut, next_seed(seed), (tries - 1) as nat)
        }
    }
}

/// The race of a seed. Where a seed comes to none, others derived from it are
/// tried, so that everyone gets the same race all the same.
///
/// A hub cut that a player chose goes before that of the difficulty.
pub fn puzzle_from_seed(
    game: &Game,
    pf: &mut PathFinder,
    d: Difficulty,
    seed: u64,
    ban_top: Option<usize>,
) -> (r: Option<Puzzle>)
    requires
        game.wf(),
        old(pf).wf(),
        game.graph.titles@.len() <= old(pf).size(),
    ensures
        final(pf).wf(),
        final(pf).size() == old(pf).size(),
        r == seeded_race(game, d, chosen_cut(game, ban_top), seed, SEED_TRIES as nat),
{
    let cut: Option<Option<usize>> = match ban_top {
        Some(n) => Some(game.hub_cut(n, 0).0),
        None => None,
    };
    let ghost goal = seeded_race(game, d, cut, seed, SEED_TRIES as nat);
    let mut s: u64 = seed;
    let mut k: usize = SEED_TRIES;
    while k > 0
        invariant
            game.wf(),
            pf.wf(),
            pf.size() == old(pf).size(),
            game.graph.titles@.len() <= pf.size(),
            goal == seeded_race(game, d, cut, seed, SEED_TRIES as nat),
            goal == seeded_race(game, d, cut, s, k as nat),
            cut == chosen_cut(game, ban_top),
        decreases k,
    {
        let mut rng = Rng::new(s);
        let found = match cut {
            Some(ban) => game.puzzle_with(pf, ban, CUSTOM_MIN_LEN, &mut rng),
            None => game.puzzle(pf, d, &mut rng),
        };
        if found.is_some() {
            return found;
        }
        s = s.wrapping_mul(6_364_136_223_846_793_005).wrapping_add(1);
        k = k - 1;
    }
    None
}

// ---------------------------------------------------------------------------
// Rounds
// ---------------------------------------------------------------------------

/// The pair that pools come to for a hole of a given par, and the state of the
/// generator then.
pub open spec fn pool_hole(pools: Pools, par: usize, state: u64) -> (Option<(u32, u32)>, u64) {
    let off = par - Difficulty::Easy.min_len();
    if off < 0 || off >= PAR_SPAN || pools.bucket(Difficulty::Easy, off).len() == 0 {
        (None, state)
    } else {
        let b = pools.bucket(Difficulty::Easy, off);
        let k = next_number(state) as int % b.len() as int;
        (Some((b[k].0, b[k].1)), next_state(state))
    }
}

/// A hole of a round, and the state of the generator then.
pub open spec fn hole(game: &Game, par: usize, state: u64) -> (Option<Puzzle>, u64) {
    match game.pools {
        Some(p) => {
            let (pair, after) = pool_hole(p, par, state);
            let found = match pair {
                Some((a, b)) => race(
                    game.graph.forward@,
                    game.graph.reverse@,
                    a,
                    b,
                    None,
                    par as nat,
                    par as nat,
                ),
                None => None,
            };
            if found is Some {
                (found, after)
            } else {
                game.spec_puzzle_with(None, CUSTOM_MIN_LEN as nat, after)
            }
        },
        None => game.spec_puzzle_with(None, CUSTOM_MIN_LEN as nat, state),
    }
}

/// A hole of a round: a pair from the pools at its exact par, or any race
/// where they have none.
pub fn course_hole(game: &Game, pf: &mut PathFinder, par: usize, rng: &mut Rng) -> (r: Option<
    Puzzle,
>)
    requires
        game.wf(),
        old(pf).wf(),
        game.graph.titles@.len() <= old(pf).size(),
    ensures
        final(pf).wf(),
        final(pf).size() == old(pf).size(),
        (r, final(rng).state()) == hole(game, par, old(rng).state()),
{
    if let Some(pools) = &game.pools {
        if let Some((a, b)) = pools.pick_par(Difficulty::Easy, par, rng) {
            let found = game.try_race(pf, a, b, None, par, par);
            if found.is_some() {
                return found;
            }
        }
    }
    game.puzzle_with(pf, None, CUSTOM_MIN_LEN, rng)
}

/// The holes of a round, if there is one for every par.
pub open spec fn holes(game: &Game, pars: Seq<usize>, state: u64) -> Option<Seq<Puzzle>>
    decreases pars.len(),
{
    if pars.len() == 0 {
        Some(seq![])
    } else {
        let (first, after) = hole(game, pars[0], state);
        match (first, holes(game, pars.drop_first(), after)) {
            (Some(p), Some(rest)) => Some(seq![p] + rest),
            _ => None,
        }
    }
}

/// The round of a seed, if there is a hole for every par.
pub fn course(game: &Game, pf: &mut PathFinder, pars: &Vec<usize>, seed: u64) -> (r: Option<
    Vec<Puzzle>,
>)
    requires
        game.wf(),
        old(pf).wf(),
        game.graph.titles@.len() <= old(pf).size(),
    ensures
        final(pf).wf(),
        final(pf).size() == old(pf).size(),
        match r {
            Some(v) => holes(game, pars@, seeded(seed)) == Some(v@),
            None => holes(game, pars@, seeded(seed)) is None,
        },
{
    let mut rng = Rng::new(seed);
    let mut out: Vec<Puzzle> = Vec::new();
    let n: usize = pars.len();
    let mut i: usize = 0;
    let ghost goal = holes(game, pars@, seeded(seed));
    proof {
        assert(pars@.skip(0) =~= pars@);
        if goal is Some {
            assert(Seq::<Puzzle>::empty() + goal->0 =~= goal->0);
        }
    }
    while i < n
        invariant
            game.wf(),
            pf.wf(),
            pf.size() == old(pf).size(),
            game.graph.titles@.len() <= pf.size(),
            n == pars@.len(),
            i <= n,
            goal == (match holes(game, pars@.skip(i as int), rng.state()) {
                Some(rest) => Some(out@ + rest),
                None => None,
            }),
            goal == holes(game, pars@, seeded(seed)),
        decreases n - i,
    {
        let ghost state = rng.state();
        let ghost before = out@;
        assert(pars@.skip(i as int).drop_first() =~= pars@.skip(i + 1));
        match course_hole(game, pf, pars[i], &mut rng) {
            Some(p) => {
                out.push(p);
                proof {
                    match holes(game, pars@.skip(i + 1), rng.state()) {
                        Some(rest) => {
                            assert(before + (seq![p] + rest) =~= out@ + rest);
                        },
                        None => {},
                    }
                }
            },
            None => {
                return None;
            },
        }
        i = i + 1;
    }
    assert(out@ + Seq::<Puzzle>::empty() =~= out@);
    Some(out)
}

// ---------------------------------------------------------------------------
// Laws
// ---------------------------------------------------------------------------

/// Every race that can be played has a day, and every day since the first has
/// the race of its number.
pub proof fn law_numbers_and_days_agree(day: u64)
    requires
        DAILY_EPOCH_DAY <= day,
    ensures
        DAILY_EPOCH_DAY + number_on(day) - 1 == day,
{
}

/// What is sealed stays sealed: no number after that of the day is played.
pub proof fn law_the_future_is_sealed(day: u64, asked: Option<u64>)
    ensures
        played(day, asked) matches Some(n) ==> 1 <= n <= number_on(day),
        asked is None ==> played(day, asked) is Some,
{
}

/// No two days have one seed, and on one day no two difficulties have.
pub proof fn law_seeds_are_distinct(a: u64, b: u64, c: Difficulty, d: Difficulty)
    ensures
        day_seed(a, d) == day_seed(b, d) ==> a == b,
        day_seed(a, c) == day_seed(a, d) ==> c == d,
{
    let x = wrapped(a, 0x9E37_79B9_7F4A_7C15);
    let y = wrapped(b, 0x9E37_79B9_7F4A_7C15);
    let s = wrapped(c.spec_number(), 0xBF58_476D_1CE4_E5B9);
    let t = wrapped(d.spec_number(), 0xBF58_476D_1CE4_E5B9);
    assert(x ^ t == y ^ t ==> x == y) by (bit_vector);
    assert(x ^ s == x ^ t ==> s == t) by (bit_vector);
    lemma_unmixed(a);
    lemma_unmixed(b);
}

/// A round that comes about has a hole for every par.
pub proof fn law_rounds_have_a_hole_for_every_par(game: &Game, pars: Seq<usize>, state: u64)
    ensures
        holes(game, pars, state) matches Some(v) ==> v.len() == pars.len(),
    decreases pars.len(),
{
    if pars.len() > 0 {
        let after = hole(game, pars[0], state).1;
        law_rounds_have_a_hole_for_every_par(game, pars.drop_first(), after);
    }
}

/// The first daily race was on the day twenty thousand four hundred and fifty-four
/// of the epoch, and has the number one; each day has the next number. Earlier
/// days count as the first.
pub proof fn law_each_day_has_its_number(day: u64)
    ensures
        number_on(20_454) == 1,
        day <= 20_454 ==> number_on(day) == 1,
        20_454 <= day < u64::MAX ==> number_on((day + 1) as u64) == number_on(day) + 1,
{
}

/// Every race up to today's can be played, and none that is still to come;
/// whoever asks for none in particular gets today's.
pub proof fn law_past_races_stay_open(day: u64, n: u64)
    ensures
        played(day, None) == Some(number_on(day)),
        1 <= n <= number_on(day) ==> played(day, Some(n)) == Some(n),
        n == 0 || n > number_on(day) ==> played(day, Some(n)) is None,
{
}

/// A round has three holes, or nine where nine are asked for, of par three to
/// five.
pub proof fn law_rounds_have_three_or_nine_holes(holes: Option<&str>, i: int)
    ensures
        round_pars(holes).len() == 9 <==> (holes matches Some(s) && s@ == seq!['9']),
        round_pars(holes).len() == 3 || round_pars(holes).len() == 9,
        0 <= i < round_pars(holes).len() ==> 3 <= round_pars(holes)[i] <= 5,
        0 <= i < round_pars(holes).len() && i != 5 ==> (round_pars(holes)[i] == 4 <==> i == 2 || i
            == 7),
        round_pars(holes).len() == 9 ==> round_pars(holes)[5] == 5,
{
    reveal_strlit("9");
    assert("9"@ =~= seq!['9']);
}

/// A hole with a pool has its par, where the pool has a pair of that par that
/// keeps it; else it takes three to six clicks. No hole bans anything.
pub proof fn law_holes_keep_their_par(game: &Game, par: usize, state: u64)
    requires
        game.wf(),
    ensures
        hole(game, par, state).0 matches Some(p) ==> p.ban_degree is None && (p.optimal == par || 3
            <= p.optimal <= 6) && crate::game::par(
            game.graph.forward@,
            game.graph.reverse@,
            p.start,
            p.goal,
            None,
        ) == Some(p.optimal as nat),
        game.pools is Some && pool_hole(game.pools->0, par, state).0 is Some ==> ({
            let pair = pool_hole(game.pools->0, par, state).0->0;
            crate::game::par(game.graph.forward@, game.graph.reverse@, pair.0, pair.1, None) == Some(
                par as nat,
            ) ==> (hole(game, par, state).0 matches Some(p) && p.start == pair.0 && p.goal == pair.1
                && p.optimal == par)
        }),
{
    let fwd = game.graph.forward@;
    let rev = game.graph.reverse@;
    let after = match game.pools {
        Some(p) => pool_hole(p, par, state).1,
        None => state,
    };
    if game.playable@.len() >= 2 {
        law_races_keep_the_rules(fwd, rev, game.playable@, None, 3, 6, after, 60);
    }
}

/// The holes of a round are drawn one after another, each with what is left of
/// the luck of those before; a round without one of its holes is none.
pub proof fn law_holes_are_drawn_in_turn(game: &Game, first: usize, rest: Seq<usize>, state: u64)
    ensures
        ({
            let (p, after) = hole(game, first, state);
            let others = holes(game, rest, after);
            match holes(game, seq![first] + rest, state) {
                Some(v) => {
                    &&& p == Some(v[0])
                    &&& others == Some(v.skip(1))
                    &&& v.len() == 1 + rest.len()
                },
                None => p is None || others is None,
            }
        }),
        holes(game, Seq::empty(), state) == Some(Seq::<Puzzle>::empty()),
{
    let pars = seq![first] + rest;
    assert(pars[0] == first);
    assert(pars.drop_first() =~= rest);
    let (p, after) = hole(game, first, state);
    law_rounds_have_a_hole_for_every_par(game, rest, after);
    if p is Some && holes(game, rest, after) is Some {
        let v = seq![p->0] + holes(game, rest, after)->0;
        assert(v.skip(1) =~= holes(game, rest, after)->0);
    }
}
/// A seed that makes no race is followed by the next one, six in all. A cut of
/// one's own makes races of three to six clicks.
pub proof fn law_seeds_are_tried_in_turn(
    game: &Game,
    d: Difficulty,
    cut: Option<Option<usize>>,
    seed: u64,
    tries: nat,
)
    requires
        tries > 0,
    ensures
        SEED_TRIES == 6,
        ({
            let first = match cut {
                Some(ban) => game.spec_puzzle_with(ban, 3, seed | 1).0,
                None => game.spec_puzzle(d, seed | 1).0,
            };
            seeded_race(game, d, cut, seed, tries) == (if first is Some {
                first
            } else {
                seeded_race(
                    game,
                    d,
                    cut,
                    ((seed * 6_364_136_223_846_793_005 + 1) % 0x1_0000_0000_0000_0000) as u64,
                    (tries - 1) as nat,
                )
            })
        }),
        seeded_race(game, d, cut, seed, 0) is None,
{
    let m = 0x1_0000_0000_0000_0000int;
    let x = seed * 6_364_136_223_846_793_005;
    vstd::arithmetic::div_mod::lemma_add_mod_noop(x, 1, m);
    vstd::arithmetic::div_mod::lemma_add_mod_noop(x % m, 1, m);
    assert((x % m) % m == x % m);
}

/// Rounds of different lengths on one day have different seeds, and so have
/// rounds of one length on different days.
pub proof fn law_rounds_have_their_own_seeds(a: u64, b: u64)
    ensures
        round_seed(a, 3) != round_seed(a, 9),
        round_seed(a, 3) == round_seed(b, 3) ==> wrapped(a, 0xD1B5_4A32_D192_ED03) == wrapped(
            b,
            0xD1B5_4A32_D192_ED03,
        ),
{
    let x = wrapped(a, 0xD1B5_4A32_D192_ED03);
    let y = wrapped(b, 0xD1B5_4A32_D192_ED03);
    assert(x ^ 0xC0FF_EE00_C0FF_EE00 ^ (3u64 << 56) != x ^ 0xC0FF_EE00_C0FF_EE00 ^ (9u64 << 56))
        by (bit_vector);
    assert(x ^ 0xC0FF_EE00_C0FF_EE00 ^ (3u64 << 56) == y ^ 0xC0FF_EE00_C0FF_EE00 ^ (3u64 << 56)
        ==> x == y) by (bit_vector);
}
/// A cut of no hubs bans nothing, and any other bans what has more incoming
/// links than the first hub behind it; without a cut the difficulty decides.
pub proof fn law_cuts_are_made_as_asked(game: &Game, n: usize)
    requires
        0 < n < game.hubs@.len(),
    ensures
        chosen_cut(game, None) is None,
        chosen_cut(game, Some(0)) == Some(None::<usize>),
        chosen_cut(game, Some(n)) == Some(
            Some(game.graph.reverse@[game.hubs@[n as int] as int].len() as usize),
        ),
{
}
/// A hole from a pool is one of the easy pairs that are kept under its par,
/// which is three to six, from start to goal. There is one where any is kept.
pub proof fn law_pool_holes_are_easy_pairs(pools: Pools, par: usize, state: u64)
    ensures
        pool_hole(pools, par, state).0 is Some <==> 3 <= par <= 6 && pools.bucket(
            Difficulty::Easy,
            par - 3,
        ).len() > 0,
        pool_hole(pools, par, state).0 matches Some(pair) ==> exists|k: int|
            0 <= k < pools.bucket(Difficulty::Easy, par - 3).len() && (#[trigger] pools.bucket(
                Difficulty::Easy,
                par - 3,
            )[k]).0 == pair.0 && pools.bucket(Difficulty::Easy, par - 3)[k].1 == pair.1,
{
    let b = pools.bucket(Difficulty::Easy, par - 3);
    if 3 <= par <= 6 && b.len() > 0 {
        let k = next_number(state) as int % b.len() as int;
        assert(0 <= k < b.len());
        assert(b[k] == pools.bucket(Difficulty::Easy, par - 3)[k]);
    }
}
} // verus!
