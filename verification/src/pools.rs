//! Precomputed races: the designed difficulty curve.
//!
//! Sampling at random cannot make hard races: most pairs of articles are three
//! clicks apart, and five is one in a thousand. Pairs are therefore computed
//! beforehand, bucketed by difficulty and par with the number of shortest
//! routes attached, and drawn with weights that favour interesting races.
//!
//! Ids only mean something against the dump they come from, so that stored
//! pairs carry the size of their graph and are refused by any other.

use crate::difficulty::Difficulty;
use crate::rng::{Rng, next_number, next_state};
use crate::sorting::{Order, in_order, sort_by};
use crate::text::{chars_of, decimal, parse_u64, push_decimal, spelled};
use vstd::prelude::*;
use vstd::string::StringExecFns;

pub use crate::generate::{attach_routes, generate};

verus! {

/// Pars per difficulty: from the shortest that is worth playing on.
pub const PAR_SPAN: usize = 4;

/// The number of buckets.
const N_BUCKETS: usize = 12;

/// (start, goal, number of shortest routes, at most `u32::MAX`).
pub type Pair = (u32, u32, u32);

/// How often each par is drawn. Empty buckets drop out and the rest share.
pub open spec fn spec_weight(d: Difficulty, off: int) -> u64 {
    match d {
        Difficulty::Easy => if off == 0 {
            60
        } else if off == 1 {
            30
        } else if off == 2 {
            8
        } else {
            2
        },
        Difficulty::Medium => if off == 0 {
            40
        } else if off == 1 {
            40
        } else if off == 2 {
            15
        } else {
            5
        },
        Difficulty::Hard => if off == 0 {
            50
        } else if off == 1 {
            35
        } else if off == 2 {
            10
        } else {
            5
        },
    }
}

fn weight(d: Difficulty, off: usize) -> (r: u64)
    ensures
        r == spec_weight(d, off as int),
        0 < r <= 60,
{
    match d {
        Difficulty::Easy => if off == 0 {
            60
        } else if off == 1 {
            30
        } else if off == 2 {
            8
        } else {
            2
        },
        Difficulty::Medium => if off == 0 {
            40
        } else if off == 1 {
            40
        } else if off == 2 {
            15
        } else {
            5
        },
        Difficulty::Hard => if off == 0 {
            50
        } else if off == 1 {
            35
        } else if off == 2 {
            10
        } else {
            5
        },
    }
}

/// The number that stands for a difficulty in stored rows.
pub open spec fn spec_diff_index(d: Difficulty) -> int {
    match d {
        Difficulty::Easy => 0,
        Difficulty::Medium => 1,
        Difficulty::Hard => 2,
    }
}

fn diff_index(d: Difficulty) -> (r: usize)
    ensures
        r == spec_diff_index(d),
        r < 3,
{
    match d {
        Difficulty::Easy => 0,
        Difficulty::Medium => 1,
        Difficulty::Hard => 2,
    }
}

/// The difficulty that a number stands for.
pub open spec fn spec_diff_from_index(i: int) -> Difficulty {
    if i == 0 {
        Difficulty::Easy
    } else if i == 1 {
        Difficulty::Medium
    } else {
        Difficulty::Hard
    }
}

fn diff_from_index(i: usize) -> (r: Difficulty)
    ensures
        r == spec_diff_from_index(i as int),
{
    if i == 0 {
        Difficulty::Easy
    } else if i == 1 {
        Difficulty::Medium
    } else {
        Difficulty::Hard
    }
}

/// Pairs with fewer routes come first.
pub open spec fn pair_leq(a: Pair, b: Pair) -> bool {
    ||| a.2 < b.2
    ||| a.2 == b.2 && a.0 < b.0
    ||| a.2 == b.2 && a.0 == b.0 && a.1 <= b.1
}

pub open spec fn pair_order() -> Order<Pair> {
    |a: Pair, b: Pair| pair_leq(a, b)
}

/// Races by difficulty and par.
pub struct Pools {
    /// Pairs by difficulty and par, each list sorted by routes so that `pick`
    /// can take the precise or the forgiving end.
    buckets: Vec<Vec<Pair>>,
}

/// The bucket that a draw falls in, from bucket `i` on.
pub open spec fn drawn(buckets: Seq<Seq<Pair>>, d: Difficulty, r: int, i: int) -> Option<int>
    decreases PAR_SPAN - i,
{
    if i < 0 || i >= PAR_SPAN {
        None
    } else if buckets[i].len() == 0 {
        drawn(buckets, d, r, i + 1)
    } else if r < spec_weight(d, i) {
        Some(i)
    } else {
        drawn(buckets, d, r - spec_weight(d, i), i + 1)
    }
}

/// The weight of the buckets from `i` on that hold anything.
pub open spec fn weight_from(buckets: Seq<Seq<Pair>>, d: Difficulty, i: int) -> int
    decreases PAR_SPAN - i,
{
    if i < 0 || i >= PAR_SPAN {
        0
    } else {
        (if buckets[i].len() == 0 {
            0
        } else {
            spec_weight(d, i) as int
        }) + weight_from(buckets, d, i + 1)
    }
}

/// The part of a bucket of `n` pairs that a difficulty draws from: the
/// forgiving half, all of it, or the precise half. Halves share their middle.
pub open spec fn draw_range(d: Difficulty, n: int) -> (int, int) {
    match d {
        Difficulty::Easy => (n / 2, n),
        Difficulty::Medium => (0, n),
        Difficulty::Hard => (0, (n + 1) / 2),
    }
}

/// A draw below the weight of all buckets falls in a bucket that holds
/// something.
pub proof fn lemma_drawn(buckets: Seq<Seq<Pair>>, d: Difficulty, r: int, i: int)
    requires
        0 <= i <= PAR_SPAN,
        0 <= r < weight_from(buckets, d, i),
    ensures
        drawn(buckets, d, r, i) matches Some(k) && i <= k < PAR_SPAN && buckets[k].len() > 0,
    decreases PAR_SPAN - i,
{
    if i < PAR_SPAN {
        if buckets[i].len() == 0 {
            lemma_drawn(buckets, d, r, i + 1);
        } else if r >= spec_weight(d, i) {
            lemma_drawn(buckets, d, r - spec_weight(d, i), i + 1);
        }
    }
}

/// Weights are never negative.
pub proof fn lemma_weight_bound(buckets: Seq<Seq<Pair>>, d: Difficulty, i: int)
    requires
        0 <= i <= PAR_SPAN,
    ensures
        0 <= weight_from(buckets, d, i) <= 60 * (PAR_SPAN - i),
    decreases PAR_SPAN - i,
{
    if i < PAR_SPAN {
        lemma_weight_bound(buckets, d, i + 1);
    }
}

impl Pools {
    pub closed spec fn wf(&self) -> bool {
        self.buckets@.len() == N_BUCKETS
    }

    /// The pairs of a difficulty and a par, `off` clicks above its shortest.
    pub closed spec fn bucket(&self, d: Difficulty, off: int) -> Seq<Pair> {
        self.buckets@[spec_diff_index(d) * 4 + off]@
    }

    /// The buckets of a difficulty.
    pub open spec fn row(&self, d: Difficulty) -> Seq<Seq<Pair>> {
        Seq::new(PAR_SPAN as nat, |off: int| self.bucket(d, off))
    }

    pub fn empty() -> (r: Pools)
        ensures
            r.wf(),
            forall|d: Difficulty, off: int|
                0 <= off < PAR_SPAN ==> #[trigger] r.bucket(d, off) == Seq::<Pair>::empty(),
    {
        let mut buckets: Vec<Vec<Pair>> = Vec::new();
        let mut i: usize = 0;
        while i < N_BUCKETS
            invariant
                i <= N_BUCKETS,
                buckets@.len() == i,
                forall|k: int| 0 <= k < i ==> #[trigger] buckets@[k]@ == Seq::<Pair>::empty(),
            decreases N_BUCKETS - i,
        {
            let b: Vec<Pair> = Vec::new();
            assert(b@ =~= Seq::<Pair>::empty());
            buckets.push(b);
            i = i + 1;
        }
        Pools { buckets }
    }

    fn bucket_of(&self, d: Difficulty, off: usize) -> (r: &Vec<Pair>)
        requires
            self.wf(),
            off < PAR_SPAN,
        ensures
            r@ == self.bucket(d, off as int),
    {
        &self.buckets[diff_index(d) * 4 + off]
    }

    pub fn is_empty(&self) -> (r: bool)
        requires
            self.wf(),
        ensures
            r == forall|d: Difficulty, off: int|
                0 <= off < PAR_SPAN ==> (#[trigger] self.bucket(d, off)).len() == 0,
    {
        let mut i: usize = 0;
        while i < N_BUCKETS
            invariant
                self.buckets@.len() == N_BUCKETS,
                i <= N_BUCKETS,
                forall|k: int| 0 <= k < i ==> (#[trigger] self.buckets@[k])@.len() == 0,
            decreases N_BUCKETS - i,
        {
            if self.buckets[i].len() > 0 {
                proof {
                    let d = spec_diff_from_index(i as int / 4);
                    assert(self.bucket(d, i as int % 4).len() > 0);
                }
                return false;
            }
            i = i + 1;
        }
        true
    }

    /// Fill a bucket.
    pub fn set(&mut self, d: Difficulty, par_offset: usize, pairs: Vec<Pair>)
        requires
            old(self).wf(),
            par_offset < PAR_SPAN,
        ensures
            final(self).wf(),
            in_order(final(self).bucket(d, par_offset as int), pair_order()),
            final(self).bucket(d, par_offset as int).to_multiset() == pairs@.to_multiset(),
            forall|e: Difficulty, off: int|
                #![trigger final(self).bucket(e, off)]
                0 <= off < PAR_SPAN && (e != d || off != par_offset) ==> final(self).bucket(e, off)
                    == old(self).bucket(e, off),
    {
        let f = |a: Pair, b: Pair| -> (r: bool)
            ensures
                r == pair_leq(a, b),
            { a.2 < b.2 || (a.2 == b.2 && (a.0 < b.0 || (a.0 == b.0 && a.1 <= b.1))) };
        let sorted = sort_by(&pairs, &f, Ghost(pair_order()));
        let k: usize = diff_index(d) * 4 + par_offset;
        self.buckets.set(k, sorted);
    }

    fn total_weight(&self, d: Difficulty) -> (r: u64)
        requires
            self.wf(),
        ensures
            r == weight_from(self.row(d), d, 0),
            r <= 240,
    {
        let mut total: u64 = 0;
        let mut i: usize = PAR_SPAN;
        while i > 0
            invariant
                self.wf(),
                i <= PAR_SPAN,
                total == weight_from(self.row(d), d, i as int),
                total <= 60 * (PAR_SPAN - i),
            decreases i,
        {
            i = i - 1;
            let w: u64 = weight(d, i);
            if self.bucket_of(d, i).len() > 0 {
                total = total + w;
            }
        }
        total
    }

    fn choose_bucket(&self, d: Difficulty, draw: u64) -> (r: usize)
        requires
            self.wf(),
            draw < weight_from(self.row(d), d, 0),
        ensures
            drawn(self.row(d), d, draw as int, 0) == Some(r as int),
            r < PAR_SPAN,
            self.bucket(d, r as int).len() > 0,
    {
        let mut left: u64 = draw;
        let mut i: usize = 0;
        proof {
            lemma_drawn(self.row(d), d, draw as int, 0);
        }
        loop
            invariant
                self.wf(),
                i < PAR_SPAN,
                left < weight_from(self.row(d), d, i as int),
                drawn(self.row(d), d, draw as int, 0) == drawn(
                    self.row(d),
                    d,
                    left as int,
                    i as int,
                ),
            decreases PAR_SPAN - i,
        {
            proof {
                lemma_drawn(self.row(d), d, left as int, i as int);
            }
            if self.bucket_of(d, i).len() > 0 {
                let w: u64 = weight(d, i);
                if left < w {
                    return i;
                }
                left = left - w;
            }
            i = i + 1;
        }
    }

    /// Draw one pair: a bucket by its weight, and any pair of the part that
    /// the difficulty draws from. A function of the generator alone, so that
    /// a seeded race stays the same for everyone.
    pub fn pick(&self, d: Difficulty, rng: &mut Rng) -> (r: Option<(u32, u32)>)
        requires
            self.wf(),
        ensures
            ({
                let total = weight_from(self.row(d), d, 0);
                let s = old(rng).state();
                if total == 0 {
                    r is None && final(rng).state() == s
                } else {
                    let b = self.bucket(
                        d,
                        drawn(self.row(d), d, next_number(s) as int % total, 0)->0,
                    );
                    let (lo, hi) = draw_range(d, b.len() as int);
                    let k = lo + next_number(next_state(s)) as int % (hi - lo);
                    &&& 0 <= k < b.len()
                    &&& r == Some((b[k].0, b[k].1))
                    &&& final(rng).state() == next_state(next_state(s))
                }
            }),
    {
        let total: u64 = self.total_weight(d);
        if total == 0 {
            return None;
        }
        let draw: u64 = rng.next_u64() % total;
        let off: usize = self.choose_bucket(d, draw);
        let b = self.bucket_of(d, off);
        let n: usize = b.len();
        let (lo, hi): (usize, usize) = match d {
            Difficulty::Easy => (n / 2, n),
            Difficulty::Medium => (0, n),
            Difficulty::Hard => (0, n - n / 2),
        };
        let k: usize = lo + (rng.next_u64() % (hi - lo) as u64) as usize;
        Some((b[k].0, b[k].1))
    }

    /// Draw one pair from the whole of a bucket, with its par and its number
    /// of routes.
    pub fn pick_full(&self, d: Difficulty, rng: &mut Rng) -> (r: Option<(u32, u32, usize, u32)>)
        requires
            self.wf(),
        ensures
            ({
                let total = weight_from(self.row(d), d, 0);
                let s = old(rng).state();
                if total == 0 {
                    r is None && final(rng).state() == s
                } else {
                    let off = drawn(self.row(d), d, next_number(s) as int % total, 0)->0;
                    let b = self.bucket(d, off);
                    let k = next_number(next_state(s)) as int % b.len() as int;
                    &&& 0 <= k < b.len()
                    &&& r == Some((b[k].0, b[k].1, (d.min_len() + off) as usize, b[k].2))
                    &&& final(rng).state() == next_state(next_state(s))
                }
            }),
            r == full_pick(*self, d, old(rng).state()),
    {
        let total: u64 = self.total_weight(d);
        if total == 0 {
            return None;
        }
        let (_, min_len) = d.rules();
        let draw: u64 = rng.next_u64() % total;
        let off: usize = self.choose_bucket(d, draw);
        let b = self.bucket_of(d, off);
        let k: usize = rng.below(b.len());
        Some((b[k].0, b[k].1, min_len + off, b[k].2))
    }

    /// Draw from one par exactly.
    pub fn pick_par(&self, d: Difficulty, par: usize, rng: &mut Rng) -> (r: Option<(u32, u32)>)
        requires
            self.wf(),
        ensures
            ({
                let off = par - d.min_len();
                let s = old(rng).state();
                if off < 0 || off >= PAR_SPAN || self.bucket(d, off).len() == 0 {
                    r is None && final(rng).state() == s
                } else {
                    let b = self.bucket(d, off);
                    let k = next_number(s) as int % b.len() as int;
                    &&& 0 <= k < b.len()
                    &&& r == Some((b[k].0, b[k].1))
                    &&& final(rng).state() == next_state(s)
                }
            }),
    {
        let (_, min_len) = d.rules();
        if par < min_len || par - min_len >= PAR_SPAN {
            return None;
        }
        let b = self.bucket_of(d, par - min_len);
        if b.len() == 0 {
            return None;
        }
        let k: usize = rng.below(b.len());
        Some((b[k].0, b[k].1))
    }
}

// ---------------------------------------------------------------------------
// Summary
// ---------------------------------------------------------------------------

/// What a draw from all puzzles of a difficulty gives: the two ends, the par and
/// the number of ways.
pub open spec fn full_pick(p: Pools, d: Difficulty, state: u64) -> Option<(u32, u32, usize, u32)> {
    let total = weight_from(p.row(d), d, 0);
    if total == 0 {
        None
    } else {
        let off = drawn(p.row(d), d, next_number(state) as int % total, 0)->0;
        let b = p.bucket(d, off);
        let k = next_number(next_state(state)) as int % b.len() as int;
        Some((b[k].0, b[k].1, (d.min_len() + off) as usize, b[k].2))
    }
}

/// How a bucket is summed up.
pub open spec fn bucket_text(d: Difficulty, off: int, n: nat) -> Seq<char> {
    "par"@ + decimal((d.min_len() + off) as nat) + ":"@ + decimal(n)
}

/// How the buckets of a difficulty are summed up.
pub open spec fn row_text(row: Seq<Seq<Pair>>, d: Difficulty) -> Seq<char> {
    d.spec_name() + " ["@ + bucket_text(d, 0, row[0].len()) + " "@ + bucket_text(
        d,
        1,
        row[1].len(),
    ) + " "@ + bucket_text(d, 2, row[2].len()) + " "@ + bucket_text(d, 3, row[3].len()) + "]"@
}

impl Pools {
    fn push_bucket(&self, out: &mut String, d: Difficulty, off: usize)
        requires
            self.wf(),
            off < PAR_SPAN,
        ensures
            final(out)@ == old(out)@ + bucket_text(
                d,
                off as int,
                self.bucket(d, off as int).len(),
            ),
    {
        let ghost before = out@;
        let (_, min_len) = d.rules();
        out.append("par");
        push_decimal(out, (min_len + off) as u64);
        out.append(":");
        push_decimal(out, self.bucket_of(d, off).len() as u64);
        assert(out@ =~= before + bucket_text(d, off as int, self.bucket(d, off as int).len()));
    }

    fn push_row(&self, out: &mut String, d: Difficulty)
        requires
            self.wf(),
        ensures
            final(out)@ == old(out)@ + row_text(self.row(d), d),
    {
        let ghost before = out@;
        out.append(d.name());
        out.append(" [");
        self.push_bucket(out, d, 0);
        out.append(" ");
        self.push_bucket(out, d, 1);
        out.append(" ");
        self.push_bucket(out, d, 2);
        out.append(" ");
        self.push_bucket(out, d, 3);
        out.append("]");
        assert(out@ =~= before + row_text(self.row(d), d));
    }

    /// How many pairs there are of each difficulty and par, for logs.
    pub fn summary(&self) -> (r: String)
        requires
            self.wf(),
        ensures
            r@ == row_text(self.row(Difficulty::Easy), Difficulty::Easy) + "  "@ + row_text(
                self.row(Difficulty::Medium),
                Difficulty::Medium,
            ) + "  "@ + row_text(self.row(Difficulty::Hard), Difficulty::Hard),
    {
        let mut out = String::new();
        assert(out@ =~= Seq::<char>::empty());
        self.push_row(&mut out, Difficulty::Easy);
        out.append("  ");
        self.push_row(&mut out, Difficulty::Medium);
        out.append("  ");
        self.push_row(&mut out, Difficulty::Hard);
        assert(out@ =~= row_text(self.row(Difficulty::Easy), Difficulty::Easy) + "  "@ + row_text(
            self.row(Difficulty::Medium),
            Difficulty::Medium,
        ) + "  "@ + row_text(self.row(Difficulty::Hard), Difficulty::Hard));
        out
    }
}

// ---------------------------------------------------------------------------
// Stored rows
// ---------------------------------------------------------------------------

/// (difficulty, par, start, goal, routes).
pub type PoolRow = (u8, u8, u32, u32, u32);

/// Why stored rows are refused.
#[derive(Clone, Copy, Debug, PartialEq, Eq, Structural)]
pub enum PoolsError {
    /// Nothing says which graph the rows belong to.
    NoFingerprint,
    /// The rows belong to a graph with these many articles and links.
    Stale { articles: u64, edges: u64 },
    BadDifficulty { value: u8 },
    BadPar { par: u8, difficulty: Difficulty },
    /// A row names an article beyond the graph.
    BadArticle,
}

/// The difficulty and the offset of the `k`th bucket.
pub open spec fn nth_difficulty(k: int) -> Difficulty {
    spec_diff_from_index(k / 4)
}

/// How a pair of the `k`th bucket is stored.
pub open spec fn stored_pair(k: int, p: Pair) -> PoolRow {
    ((k / 4) as u8, (nth_difficulty(k).min_len() + k % 4) as u8, p.0, p.1, p.2)
}

pub open spec fn stored_bucket(k: int, pairs: Seq<Pair>) -> Seq<PoolRow> {
    Seq::new(pairs.len(), |i: int| stored_pair(k, pairs[i]))
}

/// The first `k` buckets, as they are stored.
pub open spec fn stored(p: Pools, k: int) -> Seq<PoolRow>
    decreases k,
{
    if k <= 0 {
        seq![]
    } else {
        stored(p, k - 1) + stored_bucket(k - 1, p.bucket(nth_difficulty(k - 1), (k - 1) % 4))
    }
}

/// What is wrong with a row, for a graph of `n` articles.
pub open spec fn row_error(row: PoolRow, n: nat) -> Option<PoolsError> {
    let d = spec_diff_from_index(row.0 as int);
    if row.0 > 2 {
        Some(PoolsError::BadDifficulty { value: row.0 })
    } else if row.1 < d.min_len() || row.1 >= d.min_len() + PAR_SPAN {
        Some(PoolsError::BadPar { par: row.1, difficulty: d })
    } else if row.2 >= n || row.3 >= n {
        Some(PoolsError::BadArticle)
    } else {
        None
    }
}

/// What is wrong with the first row that has something wrong.
pub open spec fn rows_error(rows: Seq<PoolRow>, n: nat) -> Option<PoolsError>
    decreases rows.len(),
{
    if rows.len() == 0 {
        None
    } else {
        match rows_error(rows.drop_last(), n) {
            Some(e) => Some(e),
            None => row_error(rows.last(), n),
        }
    }
}

/// The pairs that rows hold for a difficulty and a par.
pub open spec fn row_pairs(rows: Seq<PoolRow>, d: Difficulty, off: int) -> Seq<Pair>
    decreases rows.len(),
{
    if rows.len() == 0 {
        seq![]
    } else {
        let rest = row_pairs(rows.drop_last(), d, off);
        let row = rows.last();
        if row.0 == spec_diff_index(d) && row.1 == d.min_len() + off {
            rest.push((row.2, row.3, row.4))
        } else {
            rest
        }
    }
}

impl Pools {
    /// The rows to store.
    pub fn write(&self) -> (r: Vec<PoolRow>)
        requires
            self.wf(),
        ensures
            r@ == stored(*self, 12),
    {
        let mut rows: Vec<PoolRow> = Vec::new();
        let mut k: usize = 0;
        while k < N_BUCKETS
            invariant
                self.wf(),
                k <= N_BUCKETS,
                rows@ == stored(*self, k as int),
            decreases N_BUCKETS - k,
        {
            let d = diff_from_index(k / 4);
            let (_, min_len) = d.rules();
            let bucket = self.bucket_of(d, k % 4);
            let ghost pairs = self.bucket(nth_difficulty(k as int), k as int % 4);
            let ghost before = rows@;
            let n: usize = bucket.len();
            let mut i: usize = 0;
            assert(before + stored_bucket(k as int, pairs).take(0) =~= before);
            while i < n
                invariant
                    k < N_BUCKETS,
                    n == bucket@.len(),
                    i <= n,
                    bucket@ == pairs,
                    d == nth_difficulty(k as int),
                    min_len == d.min_len(),
                    rows@ == before + stored_bucket(k as int, pairs).take(i as int),
                decreases n - i,
            {
                let (s, t, routes) = bucket[i];
                rows.push(((k / 4) as u8, (min_len + k % 4) as u8, s, t, routes));
                i = i + 1;
                assert(rows@ =~= before + stored_bucket(k as int, pairs).take(i as int));
            }
            assert(stored_bucket(k as int, pairs).take(n as int) =~= stored_bucket(
                k as int,
                pairs,
            ));
            k = k + 1;
        }
        rows
    }

    /// The count of a graph that stored rows say they belong to.
    pub fn fingerprint(text: &str) -> (r: Option<u64>)
        ensures
            match r {
                Some(n) => spelled(text@, 10, false) == Some(n as int),
                None => match spelled(text@, 10, false) {
                    Some(n) => n > u64::MAX,
                    None => true,
                },
            },
    {
        let chars = chars_of(text);
        parse_u64(chars.as_slice())
    }

    /// Take in stored rows, for a graph of `n_articles` and `n_edges`.
    ///
    /// Rows that say they belong to another graph are refused: every id in
    /// them means another article.
    pub fn load(
        file_articles: Option<u64>,
        file_edges: Option<u64>,
        n_articles: usize,
        n_edges: usize,
        rows: &[PoolRow],
    ) -> (r: Result<Pools, PoolsError>)
        ensures
            match (file_articles, file_edges) {
                (Some(a), Some(e)) => if a != n_articles || e != n_edges {
                    r == Err::<Pools, PoolsError>(PoolsError::Stale { articles: a, edges: e })
                } else {
                    match rows_error(rows@, n_articles as nat) {
                        Some(err) => r == Err::<Pools, PoolsError>(err),
                        None => r matches Ok(p) && p.wf() && forall|d: Difficulty, off: int|
                            #![trigger p.bucket(d, off)]
                            0 <= off < PAR_SPAN ==> in_order(p.bucket(d, off), pair_order())
                                && p.bucket(d, off).to_multiset() == row_pairs(
                                rows@,
                                d,
                                off,
                            ).to_multiset(),
                    }
                },
                _ => r == Err::<Pools, PoolsError>(PoolsError::NoFingerprint),
            },
    {
        let (fa, fe): (u64, u64) = match (file_articles, file_edges) {
            (Some(a), Some(e)) => (a, e),
            _ => {
                return Err(PoolsError::NoFingerprint);
            },
        };
        if fa != n_articles as u64 || fe != n_edges as u64 {
            return Err(PoolsError::Stale { articles: fa, edges: fe });
        }
        let mut raw: Vec<Vec<Pair>> = Vec::new();
        let mut k: usize = 0;
        assert(rows@.take(0) =~= Seq::<PoolRow>::empty());
        while k < N_BUCKETS
            invariant
                k <= N_BUCKETS,
                raw@.len() == k,
                forall|i: int| 0 <= i < k ==> #[trigger] raw@[i]@ == Seq::<Pair>::empty(),
            decreases N_BUCKETS - k,
        {
            let b: Vec<Pair> = Vec::new();
            assert(b@ =~= Seq::<Pair>::empty());
            raw.push(b);
            k = k + 1;
        }
        let n: usize = rows.len();
        let mut i: usize = 0;
        while i < n
            invariant
                file_articles == Some(n_articles as u64),
                file_edges == Some(n_edges as u64),
                n == rows@.len(),
                i <= n,
                raw@.len() == N_BUCKETS,
                rows_error(rows@.take(i as int), n_articles as nat) is None,
                forall|k: int|
                    0 <= k < N_BUCKETS ==> #[trigger] raw@[k]@ == row_pairs(
                        rows@.take(i as int),
                        nth_difficulty(k),
                        k % 4,
                    ),
            decreases n - i,
        {
            let (di, par, s, t, routes) = rows[i];
            proof {
                assert(rows@.take(i + 1).drop_last() =~= rows@.take(i as int));
                assert(rows@.take(i + 1).last() == rows@[i as int]);
                lemma_rows_error_prefix(rows@, n_articles as nat, i + 1, n as int);
                assert(rows@.take(n as int) =~= rows@);
            }
            if di > 2 {
                return Err(PoolsError::BadDifficulty { value: di });
            }
            let d = diff_from_index(di as usize);
            let (_, min_len) = d.rules();
            if (par as usize) < min_len || par as usize >= min_len + PAR_SPAN {
                return Err(PoolsError::BadPar { par, difficulty: d });
            }
            if s as usize >= n_articles || t as usize >= n_articles {
                return Err(PoolsError::BadArticle);
            }
            let at: usize = di as usize * 4 + (par as usize - min_len);
            let ghost before = raw@;
            let mut bucket: Vec<Pair> = Vec::new();
            core::mem::swap(&mut bucket, &mut raw[at]);
            bucket.push((s, t, routes));
            core::mem::swap(&mut bucket, &mut raw[at]);
            proof {
                assert forall|k: int| 0 <= k < N_BUCKETS implies #[trigger] raw@[k]@ == row_pairs(
                    rows@.take(i + 1),
                    nth_difficulty(k),
                    k % 4,
                ) by {
                    assert(before[k]@ == row_pairs(
                        rows@.take(i as int),
                        nth_difficulty(k),
                        k % 4,
                    ));
                }
            }
            i = i + 1;
        }
        assert(rows@.take(n as int) =~= rows@);
        let mut pools = Pools::empty();
        let mut k: usize = 0;
        while k < N_BUCKETS
            invariant
                k <= N_BUCKETS,
                pools.wf(),
                raw@.len() == N_BUCKETS,
                forall|j: int|
                    k <= j < N_BUCKETS ==> #[trigger] raw@[j]@ == row_pairs(
                        rows@,
                        nth_difficulty(j),
                        j % 4,
                    ),
                forall|j: int|
                    #![trigger pools.bucket(nth_difficulty(j), j % 4)]
                    0 <= j < k ==> in_order(pools.bucket(nth_difficulty(j), j % 4), pair_order())
                        && pools.bucket(nth_difficulty(j), j % 4).to_multiset() == row_pairs(
                        rows@,
                        nth_difficulty(j),
                        j % 4,
                    ).to_multiset(),
            decreases N_BUCKETS - k,
        {
            let d = diff_from_index(k / 4);
            let ghost before = pools;
            let mut bucket: Vec<Pair> = Vec::new();
            core::mem::swap(&mut bucket, &mut raw[k]);
            pools.set(d, k % 4, bucket);
            proof {
                assert forall|j: int|
                    #![trigger pools.bucket(nth_difficulty(j), j % 4)]
                    0 <= j < k + 1 implies in_order(
                    pools.bucket(nth_difficulty(j), j % 4),
                    pair_order(),
                ) && pools.bucket(nth_difficulty(j), j % 4).to_multiset() == row_pairs(
                    rows@,
                    nth_difficulty(j),
                    j % 4,
                ).to_multiset() by {
                    if j < k {
                        assert(nth_difficulty(j) != nth_difficulty(k as int) || j % 4 != k % 4);
                        assert(pools.bucket(nth_difficulty(j), j % 4) == before.bucket(
                            nth_difficulty(j),
                            j % 4,
                        ));
                    }
                }
            }
            k = k + 1;
        }
        proof {
            assert forall|d: Difficulty, off: int|
                #![trigger pools.bucket(d, off)]
                0 <= off < PAR_SPAN implies in_order(pools.bucket(d, off), pair_order())
                && pools.bucket(d, off).to_multiset() == row_pairs(rows@, d, off).to_multiset() by {
                let j = spec_diff_index(d) * 4 + off;
                assert(nth_difficulty(j) == d && j % 4 == off);
            }
        }
        Ok(pools)
    }
}

proof fn lemma_rows_error_prefix(rows: Seq<PoolRow>, n: nat, i: int, j: int)
    requires
        0 <= i <= j <= rows.len(),
    ensures
        rows_error(rows.take(i), n) is Some ==> rows_error(rows.take(j), n) == rows_error(
            rows.take(i),
            n,
        ),
    decreases j - i,
{
    if i < j {
        lemma_rows_error_prefix(rows, n, i, j - 1);
        assert(rows.take(j).drop_last() =~= rows.take(j - 1));
    }
}

// ---------------------------------------------------------------------------
// Laws
// ---------------------------------------------------------------------------

proof fn lemma_row_pairs_joined(a: Seq<PoolRow>, b: Seq<PoolRow>, d: Difficulty, off: int)
    ensures
        row_pairs(a + b, d, off) == row_pairs(a, d, off) + row_pairs(b, d, off),
    decreases b.len(),
{
    if b.len() == 0 {
        assert(a + b =~= a);
        assert(row_pairs(a, d, off) + row_pairs(b, d, off) =~= row_pairs(a, d, off));
    } else {
        assert((a + b).drop_last() =~= a + b.drop_last());
        assert((a + b).last() == b.last());
        lemma_row_pairs_joined(a, b.drop_last(), d, off);
        assert(row_pairs(a + b, d, off) =~= row_pairs(a, d, off) + row_pairs(b, d, off));
    }
}

proof fn lemma_rows_error_joined(a: Seq<PoolRow>, b: Seq<PoolRow>, n: nat)
    requires
        rows_error(a, n) is None,
        rows_error(b, n) is None,
    ensures
        rows_error(a + b, n) is None,
    decreases b.len(),
{
    if b.len() == 0 {
        assert(a + b =~= a);
    } else {
        assert((a + b).drop_last() =~= a + b.drop_last());
        assert((a + b).last() == b.last());
        lemma_rows_error_joined(a, b.drop_last(), n);
    }
}

proof fn lemma_stored_bucket(k: int, pairs: Seq<Pair>, n: nat, d: Difficulty, off: int)
    requires
        0 <= k < 12,
        0 <= off < PAR_SPAN,
        forall|i: int| 0 <= i < pairs.len() ==> (#[trigger] pairs[i]).0 < n && pairs[i].1 < n,
    ensures
        rows_error(stored_bucket(k, pairs), n) is None,
        row_pairs(stored_bucket(k, pairs), d, off) == (if d == nth_difficulty(k) && off == k % 4 {
            pairs
        } else {
            seq![]
        }),
    decreases pairs.len(),
{
    let all = stored_bucket(k, pairs);
    if pairs.len() > 0 {
        let rest = pairs.drop_last();
        assert forall|i: int| 0 <= i < rest.len() implies (#[trigger] rest[i]).0 < n && rest[i].1
            < n by {
            assert(rest[i] == pairs[i]);
        }
        lemma_stored_bucket(k, rest, n, d, off);
        assert(all.drop_last() =~= stored_bucket(k, rest));
        assert(all.last() == stored_pair(k, pairs.last()));
        assert(pairs[pairs.len() - 1].0 < n);
        assert(rest.push(pairs.last()) =~= pairs);
    } else {
        assert(row_pairs(all, d, off) =~= pairs);
    }
}

proof fn lemma_stored_upto(p: Pools, k: int, n: nat, d: Difficulty, off: int)
    requires
        0 <= k <= 12,
        0 <= off < PAR_SPAN,
        forall|e: Difficulty, o: int, i: int|
            0 <= o < PAR_SPAN && 0 <= i < p.bucket(e, o).len() ==> (#[trigger] p.bucket(e, o)[i]).0
                < n && p.bucket(e, o)[i].1 < n,
    ensures
        rows_error(stored(p, k), n) is None,
        row_pairs(stored(p, k), d, off) == (if spec_diff_index(d) * 4 + off < k {
            p.bucket(d, off)
        } else {
            seq![]
        }),
    decreases k,
{
    if k > 0 {
        let e = nth_difficulty(k - 1);
        let o = (k - 1) % 4;
        let pairs = p.bucket(e, o);
        lemma_stored_upto(p, k - 1, n, d, off);
        assert forall|i: int| 0 <= i < pairs.len() implies (#[trigger] pairs[i]).0 < n && pairs[i].1
            < n by {
            assert(p.bucket(e, o)[i].0 < n);
        }
        lemma_stored_bucket(k - 1, pairs, n, d, off);
        lemma_row_pairs_joined(stored(p, k - 1), stored_bucket(k - 1, pairs), d, off);
        lemma_rows_error_joined(stored(p, k - 1), stored_bucket(k - 1, pairs), n);
        assert(row_pairs(stored(p, k), d, off) =~= (if spec_diff_index(d) * 4 + off < k {
            p.bucket(d, off)
        } else {
            seq![]
        }));
    }
}

/// What is stored comes back: the rows of some pools are accepted by a graph
/// that has all their articles, and a list with the pairs that the rows hold
/// for a bucket, put in order, is that bucket.
pub proof fn law_stored_rows_come_back(
    p: Pools,
    n: nat,
    d: Difficulty,
    off: int,
    back: Seq<Pair>,
)
    requires
        0 <= off < PAR_SPAN,
        forall|e: Difficulty, o: int, i: int|
            0 <= o < PAR_SPAN && 0 <= i < p.bucket(e, o).len() ==> (#[trigger] p.bucket(e, o)[i]).0
                < n && p.bucket(e, o)[i].1 < n,
        in_order(p.bucket(d, off), pair_order()),
        in_order(back, pair_order()),
        back.to_multiset() == row_pairs(stored(p, 12), d, off).to_multiset(),
    ensures
        rows_error(stored(p, 12), n) is None,
        back == p.bucket(d, off),
{
    lemma_stored_upto(p, 12, n, d, off);
    lemma_order_is_unique(back, p.bucket(d, off));
}

proof fn lemma_order_is_unique(a: Seq<Pair>, b: Seq<Pair>)
    requires
        in_order(a, pair_order()),
        in_order(b, pair_order()),
        a.to_multiset() == b.to_multiset(),
    ensures
        a == b,
{
    let leq = pair_order();
    assert(vstd::relations::total_ordering(leq)) by {
        assert(vstd::relations::reflexive(leq));
        assert(vstd::relations::antisymmetric(leq));
        assert(vstd::relations::transitive(leq));
        assert(vstd::relations::strongly_connected(leq));
    }
    assert(vstd::relations::sorted_by(a, leq));
    assert(vstd::relations::sorted_by(b, leq));
    vstd::seq_lib::lemma_sorted_unique(a, b, leq);
}

/// Where every length has puzzles, a draw out of a hundred picks the length: for
/// easy ones the shortest sixty times, then thirty, eight and two; for medium
/// ones forty, forty, fifteen and five; for hard ones fifty, thirty-five, ten
/// and five.
pub proof fn law_lengths_are_weighed(row: Seq<Seq<Pair>>, d: Difficulty, r: int)
    requires
        row.len() == 4,
        forall|i: int| 0 <= i < 4 ==> (#[trigger] row[i]).len() > 0,
        0 <= r < 100,
    ensures
        weight_from(row, d, 0) == 100,
        d is Easy ==> drawn(row, d, r, 0) == Some(
            if r < 60 {
                0int
            } else if r < 90 {
                1
            } else if r < 98 {
                2
            } else {
                3
            },
        ),
        d is Medium ==> drawn(row, d, r, 0) == Some(
            if r < 40 {
                0int
            } else if r < 80 {
                1
            } else if r < 95 {
                2
            } else {
                3
            },
        ),
        d is Hard ==> drawn(row, d, r, 0) == Some(
            if r < 50 {
                0int
            } else if r < 85 {
                1
            } else if r < 95 {
                2
            } else {
                3
            },
        ),
{
    assert(row[0].len() > 0 && row[1].len() > 0 && row[2].len() > 0 && row[3].len() > 0);
    reveal_with_fuel(weight_from, 5);
    reveal_with_fuel(drawn, 5);
}

/// A length without puzzles is never drawn, and takes no weight; every draw
/// below the sum of the weights finds one.
pub proof fn law_empty_lengths_are_not_drawn(row: Seq<Seq<Pair>>, d: Difficulty, r: int, i: int)
    requires
        row.len() == 4,
        0 <= i <= 4,
        0 <= r,
    ensures
        r < weight_from(row, d, i) ==> (drawn(row, d, r, i) matches Some(k) && i <= k < 4
            && row[k].len() > 0),
        r >= weight_from(row, d, i) ==> drawn(row, d, r, i) is None,
        i < 4 ==> weight_from(row, d, i) - weight_from(row, d, i + 1) == (if row[i].len() == 0 {
            0int
        } else {
            spec_weight(d, i) as int
        }),
        weight_from(row, d, i) >= 0,
    decreases 4 - i,
{
    if i < 4 {
        law_empty_lengths_are_not_drawn(row, d, r, i + 1);
        if r >= spec_weight(d, i) {
            law_empty_lengths_are_not_drawn(row, d, r - spec_weight(d, i), i + 1);
        }
    }
}

/// Puzzles of one length are ordered by the number of their ways. Easy ones are
/// drawn from the half that has more, hard ones from the half that has fewer,
/// and medium ones from all.
pub proof fn law_easy_puzzles_have_more_ways(b: Seq<Pair>, i: int, j: int)
    requires
        in_order(b, pair_order()),
        0 <= i < b.len(),
        0 <= j < b.len(),
    ensures
        i < j ==> b[i].2 <= b[j].2,
        draw_range(Difficulty::Easy, b.len() as int).1 == b.len(),
        b.len() - 2 * draw_range(Difficulty::Easy, b.len() as int).0 == b.len() % 2,
        draw_range(Difficulty::Hard, b.len() as int).0 == 0,
        2 * draw_range(Difficulty::Hard, b.len() as int).1 - b.len() == b.len() % 2,
        draw_range(Difficulty::Medium, b.len() as int) == (0int, b.len() as int),
        i < draw_range(Difficulty::Easy, b.len() as int).0 <= j ==> b[i].2 <= b[j].2,
        i < draw_range(Difficulty::Hard, b.len() as int).1 <= j ==> b[i].2 <= b[j].2,
{
    if i < j {
        assert(pair_order()(b[i], b[j]));
    }
}

/// A row is sound if its difficulty is one of the three, its par one of the four
/// that the difficulty has, and its articles are there. What is wrong with it is
/// said in that order.
pub proof fn law_unsound_rows_are_told(row: PoolRow, n: nat)
    ensures
        row_error(row, n) is None <==> {
            &&& row.0 <= 2
            &&& row.0 < 2 ==> 3 <= row.1 <= 6
            &&& row.0 == 2 ==> 4 <= row.1 <= 7
            &&& row.2 < n
            &&& row.3 < n
        },
        row.0 > 2 <==> row_error(row, n) == Some(PoolsError::BadDifficulty { value: row.0 }),
        row.0 <= 1 && !(3 <= row.1 <= 6) ==> (row_error(row, n) matches Some(
            PoolsError::BadPar { par, difficulty },
        ) && par == row.1 && difficulty.spec_number() == row.0),
        row.0 == 2 && !(4 <= row.1 <= 7) ==> row_error(row, n) == Some(
            PoolsError::BadPar { par: row.1, difficulty: Difficulty::Hard },
        ),
        row.0 <= 1 && 3 <= row.1 <= 6 && (row.2 >= n || row.3 >= n) ==> row_error(row, n) == Some(
            PoolsError::BadArticle,
        ),
{
}

/// The first unsound row of a list is what is wrong with the list; a list whose
/// rows are all sound is sound.
pub proof fn law_the_first_fault_is_told(rows: Seq<PoolRow>, n: nat, k: int)
    requires
        0 <= k <= rows.len(),
        forall|i: int| 0 <= i < k ==> row_error(#[trigger] rows[i], n) is None,
        k < rows.len() ==> row_error(rows[k], n) is Some,
    ensures
        rows_error(rows, n) == (if k < rows.len() {
            row_error(rows[k], n)
        } else {
            None
        }),
    decreases rows.len(),
{
    if rows.len() > 0 {
        let rest = rows.drop_last();
        assert(forall|i: int| 0 <= i < rest.len() ==> rest[i] == rows[i]);
        assert(rows[rows.len() - 1] == rows.last());
        if k < rows.len() {
            law_the_first_fault_is_told(rest, n, if k < rest.len() { k } else { rest.len() as int });
        } else {
            law_the_first_fault_is_told(rest, n, k - 1);
        }
    }
}

/// A row adds its pair, with its number of ways, to the puzzles of its
/// difficulty and par, and to no others.
pub proof fn law_rows_go_to_their_lengths(
    rows: Seq<PoolRow>,
    row: PoolRow,
    d: Difficulty,
    off: int,
)
    ensures
        row.0 == d.spec_number() && row.1 == d.min_len() + off ==> row_pairs(
            rows.push(row),
            d,
            off,
        ) == row_pairs(rows, d, off).push((row.2, row.3, row.4)),
        row.0 != d.spec_number() || row.1 != d.min_len() + off ==> row_pairs(rows.push(row), d, off)
            == row_pairs(rows, d, off),
        row_pairs(Seq::<PoolRow>::empty(), d, off).len() == 0,
{
    assert(rows.push(row).drop_last() =~= rows);
}
/// A draw gives a puzzle that is in the pool, with the par that it is kept under
/// and its number of ways. There is one unless the difficulty has none.
pub proof fn law_draws_come_from_the_pool(p: Pools, d: Difficulty, state: u64)
    ensures
        full_pick(p, d, state) is None <==> forall|off: int|
            0 <= off < 4 ==> (#[trigger] p.bucket(d, off)).len() == 0,
        full_pick(p, d, state) matches Some((a, b, par, ways)) ==> exists|off: int|
            0 <= off < 4 && (#[trigger] p.bucket(d, off)).contains((a, b, ways)) && par == off + (
            if d is Hard {
                4int
            } else {
                3
            }),
{
    let row = p.row(d);
    let total = weight_from(row, d, 0);
    assert forall|i: int| 0 <= i < 4 implies #[trigger] row[i] == p.bucket(d, i) by {}
    law_empty_lengths_are_not_drawn(row, d, 0, 4);
    law_empty_lengths_are_not_drawn(row, d, 0, 3);
    law_empty_lengths_are_not_drawn(row, d, 0, 2);
    law_empty_lengths_are_not_drawn(row, d, 0, 1);
    law_empty_lengths_are_not_drawn(row, d, 0, 0);
    if total == 0 {
        assert forall|off: int| 0 <= off < 4 implies (#[trigger] p.bucket(d, off)).len() == 0 by {
            assert(row[off] == p.bucket(d, off));
        }
    } else {
        let r = next_number(state) as int % total;
        law_empty_lengths_are_not_drawn(row, d, r, 0);
        let off = drawn(row, d, r, 0)->0;
        assert(row[off] == p.bucket(d, off));
        let b = p.bucket(d, off);
        let k = next_number(next_state(state)) as int % b.len() as int;
        assert(0 <= k < b.len());
        assert(b[k] == (b[k].0, b[k].1, b[k].2));
        assert(b.contains(b[k]));
    }
}
} // verus!
