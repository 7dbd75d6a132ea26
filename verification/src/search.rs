//! Finding articles by what someone types.

use crate::sorting::{Order, is_order, lemma_same_members, sort_by};
use crate::text::{
    begins, chars_of, contains, holds, occurs_at, same, starts_with, string_of, trim, trimmed,
};
use crate::unicode::{is_alphanumeric, is_letter_or_digit, lowercase_of, to_lowercase};
use vstd::prelude::*;

verus! {

/// The score of a title that is what was typed.
pub const EXACT: u64 = 0x1000_0000_0000_0000;

/// `q` stands in `s` at `i` and begins a word there that holds all of it.
pub open spec fn begins_word_at(s: Seq<char>, q: Seq<char>, i: int) -> bool {
    &&& occurs_at(s, q, i)
    &&& i == 0 || !is_letter_or_digit(s[i - 1])
    &&& forall|k: int| 0 <= k < q.len() ==> is_letter_or_digit(#[trigger] q[k])
}

/// Some word of `s` begins with `q`.
pub open spec fn begins_a_word(s: Seq<char>, q: Seq<char>) -> bool {
    exists|i: int| #[trigger] begins_word_at(s, q, i)
}

/// How well a title in lower case matches a query.
///
/// The quality of the match and the number of links count together: with
/// quality alone a bagel shop would come before Albert Einstein for "einst".
/// An exact match always wins.
pub open spec fn score(title: Seq<char>, q: Seq<char>, in_degree: nat) -> Option<u64> {
    if title == q {
        Some(EXACT)
    } else if begins(title, q) {
        Some((100 * (in_degree + 1)) as u64)
    } else if begins_a_word(title, q) {
        Some((30 * (in_degree + 1)) as u64)
    } else if holds(title, q) {
        Some((in_degree + 1) as u64)
    } else {
        None
    }
}

fn starts_a_word(s: &[char], q: &[char]) -> (r: bool)
    requires
        q@.len() > 0,
    ensures
        r == begins_a_word(s@, q@),
{
    let m: usize = q.len();
    let n: usize = s.len();
    let mut k: usize = 0;
    while k < m
        invariant
            m == q@.len(),
            k <= m,
            forall|j: int| 0 <= j < k ==> is_letter_or_digit(#[trigger] q@[j]),
        decreases m - k,
    {
        if !is_alphanumeric(q[k]) {
            proof {
                assert(!is_letter_or_digit(q@[k as int]));
                assert forall|i: int| !#[trigger] begins_word_at(s@, q@, i) by {}
            }
            return false;
        }
        k = k + 1;
    }
    let mut i: usize = 0;
    while i < n
        invariant
            n == s@.len(),
            m == q@.len(),
            m > 0,
            i <= n,
            forall|j: int| 0 <= j < m ==> is_letter_or_digit(#[trigger] q@[j]),
            forall|j: int| 0 <= j < i ==> !#[trigger] begins_word_at(s@, q@, j),
        decreases n - i,
    {
        let fresh = i == 0 || !is_alphanumeric(s[i - 1]);
        if fresh {
            let tail = crate::text::slice_from(s, i);
            if starts_with(tail, q) {
                proof {
                    assert(s@.subrange(i as int, i + m) =~= tail@.subrange(0, m as int));
                    assert(begins_word_at(s@, q@, i as int));
                }
                return true;
            }
            proof {
                if occurs_at(s@, q@, i as int) {
                    assert(s@.subrange(i as int, i + m) =~= tail@.subrange(0, m as int));
                }
            }
        }
        i = i + 1;
    }
    proof {
        assert forall|j: int| !#[trigger] begins_word_at(s@, q@, j) by {
            if begins_word_at(s@, q@, j) {
                assert(j < n);
            }
        }
    }
    false
}

/// Rank a title in lower case against a query in lower case.
pub fn search_score(title_lower: &str, q: &str, in_degree: u32) -> (r: Option<u64>)
    ensures
        r == score(title_lower@, q@, in_degree as nat),
{
    let title = chars_of(title_lower);
    let query = chars_of(q);
    score_of(title.as_slice(), query.as_slice(), in_degree)
}

/// `search_score`, on characters.
fn score_of(title: &[char], q: &[char], in_degree: u32) -> (r: Option<u64>)
    ensures
        r == score(title@, q@, in_degree as nat),
{
    if same(title, q) {
        return Some(EXACT);
    }
    let popular: u64 = in_degree as u64 + 1;
    if starts_with(title, q) {
        return Some(100 * popular);
    }
    proof {
        if q@.len() == 0 {
            assert(title@.subrange(0, 0) =~= q@);
        }
    }
    if starts_a_word(title, q) {
        Some(30 * popular)
    } else if contains(title, q) {
        Some(popular)
    } else {
        None
    }
}

/// An exact match beats every other, however many links lead there.
pub proof fn law_exact_match_wins(title: Seq<char>, q: Seq<char>, in_degree: u32)
    requires
        title != q,
    ensures
        score(q, q, 0) == Some(EXACT),
        score(title, q, in_degree as nat) matches Some(s) ==> s < EXACT && s <= 100 * (in_degree
            + 1),
{
}

// ---------------------------------------------------------------------------
// Alphabetical order
// ---------------------------------------------------------------------------

/// Alphabetical order, by the codes of the characters.
pub open spec fn text_leq(a: Seq<char>, b: Seq<char>) -> bool
    decreases a.len(),
{
    if a.len() == 0 {
        true
    } else if b.len() == 0 {
        false
    } else if a[0] == b[0] {
        text_leq(a.drop_first(), b.drop_first())
    } else {
        a[0] < b[0]
    }
}

proof fn lemma_text_leq_total(a: Seq<char>, b: Seq<char>)
    ensures
        text_leq(a, b) || text_leq(b, a),
        text_leq(a, b) && text_leq(b, a) ==> a == b,
    decreases a.len(),
{
    if a.len() == 0 {
        if b.len() == 0 {
            assert(a =~= b);
        }
    } else if b.len() > 0 && a[0] == b[0] {
        lemma_text_leq_total(a.drop_first(), b.drop_first());
        if text_leq(a, b) && text_leq(b, a) {
            assert(a =~= seq![a[0]] + a.drop_first());
            assert(b =~= seq![b[0]] + b.drop_first());
        }
    }
}

proof fn lemma_text_leq_transitive(a: Seq<char>, b: Seq<char>, c: Seq<char>)
    requires
        text_leq(a, b),
        text_leq(b, c),
    ensures
        text_leq(a, c),
    decreases a.len(),
{
    if a.len() > 0 && b.len() > 0 && c.len() > 0 && a[0] == b[0] && b[0] == c[0] {
        lemma_text_leq_transitive(a.drop_first(), b.drop_first(), c.drop_first());
    }
}

fn text_not_after(a: &[char], b: &[char]) -> (r: bool)
    ensures
        r == text_leq(a@, b@),
{
    let n: usize = a.len();
    let m: usize = b.len();
    let mut i: usize = 0;
    assert(a@.skip(0) =~= a@);
    assert(b@.skip(0) =~= b@);
    loop
        invariant
            n == a@.len(),
            m == b@.len(),
            i <= n,
            i <= m,
            text_leq(a@, b@) == text_leq(a@.skip(i as int), b@.skip(i as int)),
        decreases n - i,
    {
        if i == n {
            return true;
        }
        if i == m {
            return false;
        }
        if a[i] != b[i] {
            return a[i] < b[i];
        }
        proof {
            assert(a@.skip(i as int).drop_first() =~= a@.skip(i + 1));
            assert(b@.skip(i as int).drop_first() =~= b@.skip(i + 1));
        }
        i = i + 1;
    }
}

// ---------------------------------------------------------------------------
// The index
// ---------------------------------------------------------------------------

/// One entry per title and per redirect alias, with two orderings: by text, so
/// that exact matches are found by halving, and by links, so that a scan can
/// stop as soon as nothing that follows could do better.
pub struct SearchIndex {
    lower: Vec<Vec<char>>,
    /// Entry -> the article it names.
    owner: Vec<u32>,
    /// Article -> how many articles link to it.
    degree: Vec<u32>,
    by_degree: Vec<u32>,
    alpha: Vec<u32>,
}

/// What can be searched: the text in lower case of each entry, and the article
/// it names.
pub open spec fn search_entries(
    titles: Seq<String>,
    aliases: Seq<(String, u32)>,
) -> Seq<(Seq<char>, u32)> {
    Seq::new(titles.len(), |i: int| (lowercase_of(titles[i]@), i as u32)) + Seq::new(
        aliases.len(),
        |i: int| (lowercase_of(aliases[i].0@), aliases[i].1),
    )
}

/// A permutation of the first `n` numbers.
pub open spec fn is_permutation(s: Seq<u32>, n: nat) -> bool {
    &&& s.len() == n
    &&& forall|x: u32| #![trigger s.contains(x)] s.contains(x) <==> x < n
}

impl SearchIndex {
    /// The entries.
    pub closed spec fn entries(&self) -> Seq<(Seq<char>, u32)> {
        Seq::new(self.lower@.len(), |i: int| (self.lower@[i]@, self.owner@[i]))
    }

    /// How many articles link to each article.
    pub closed spec fn degrees(&self) -> Seq<u32> {
        self.degree@
    }

    pub closed spec fn wf(&self) -> bool {
        let n = self.lower@.len();
        &&& n < u32::MAX
        &&& self.owner@.len() == n
        &&& forall|i: int| 0 <= i < n ==> #[trigger] self.owner@[i] < self.degree@.len()
        &&& is_permutation(self.by_degree@, n)
        &&& is_permutation(self.alpha@, n)
        &&& forall|i: int, j: int|
            0 <= i < j < n ==> self.degree@[self.owner@[#[trigger] self.by_degree@[i] as int] as int]
                >= self.degree@[self.owner@[#[trigger] self.by_degree@[j] as int] as int]
        &&& forall|i: int, j: int|
            0 <= i < j < n ==> text_leq(
                self.lower@[#[trigger] self.alpha@[i] as int]@,
                self.lower@[#[trigger] self.alpha@[j] as int]@,
            )
    }
}

fn first_numbers(n: usize) -> (r: Vec<u32>)
    requires
        n < u32::MAX,
    ensures
        is_permutation(r@, n as nat),
{
    let mut r: Vec<u32> = Vec::with_capacity(n);
    let mut i: usize = 0;
    while i < n
        invariant
            i <= n,
            n < u32::MAX,
            r@.len() == i,
            forall|k: int| 0 <= k < i ==> r@[k] == k,
        decreases n - i,
    {
        r.push(i as u32);
        i = i + 1;
    }
    proof {
        assert forall|x: u32| #![trigger r@.contains(x)] r@.contains(x) <==> x < n by {
            if x < n {
                assert(r@[x as int] == x);
            }
        }
    }
    r
}

fn title_entries(titles: &[String]) -> (r: (Vec<Vec<char>>, Vec<u32>))
    requires
        titles@.len() < u32::MAX,
    ensures
        r.0@.len() == titles@.len(),
        r.1@.len() == titles@.len(),
        forall|k: int|
            0 <= k < titles@.len() ==> (#[trigger] r.0@[k])@ == lowercase_of(titles@[k]@)
                && r.1@[k] == k,
{
    let mut lower: Vec<Vec<char>> = Vec::new();
    let mut owner: Vec<u32> = Vec::new();
    let nt: usize = titles.len();
    let mut i: usize = 0;
    while i < nt
        invariant
            nt == titles@.len(),
            nt < u32::MAX,
            i <= nt,
            lower@.len() == i,
            owner@.len() == i,
            forall|k: int|
                0 <= k < i ==> (#[trigger] lower@[k])@ == lowercase_of(titles@[k]@) && owner@[k]
                    == k,
        decreases nt - i,
    {
        let text = to_lowercase(titles[i].as_str());
        lower.push(chars_of(text.as_str()));
        owner.push(i as u32);
        i = i + 1;
    }
    (lower, owner)
}

impl SearchIndex {
    /// Build the index from the titles of the articles, the redirect aliases
    /// with the articles they lead to, and how many articles link to each.
    pub fn build(titles: &[String], aliases: &[(String, u32)], degrees: &[u32]) -> (r: SearchIndex)
        requires
            titles@.len() + aliases@.len() < u32::MAX,
            titles@.len() <= degrees@.len(),
            forall|i: int| 0 <= i < aliases@.len() ==> #[trigger] aliases@[i].1 < degrees@.len(),
        ensures
            r.wf(),
            r.entries() == search_entries(titles@, aliases@),
            r.degrees() == degrees@,
    {
        let (mut lower, mut owner) = title_entries(titles);
        let nt: usize = titles.len();
        let na: usize = aliases.len();
        let ghost all = search_entries(titles@, aliases@);
        let mut j: usize = 0;
        while j < na
            invariant
                nt == titles@.len(),
                na == aliases@.len(),
                j <= na,
                lower@.len() == nt + j,
                owner@.len() == nt + j,
                forall|k: int|
                    0 <= k < nt ==> (#[trigger] lower@[k])@ == lowercase_of(titles@[k]@)
                        && owner@[k] == k,
                forall|k: int|
                    nt <= k < nt + j ==> (#[trigger] lower@[k])@ == lowercase_of(
                        aliases@[k - nt].0@,
                    ) && owner@[k] == aliases@[k - nt].1,
            decreases na - j,
        {
            let text = to_lowercase(aliases[j].0.as_str());
            lower.push(chars_of(text.as_str()));
            owner.push(aliases[j].1);
            assert(lower@[nt + j]@ == lowercase_of(aliases@[j as int].0@));
            assert(owner@[nt + j] == aliases@[j as int].1);
            j = j + 1;
        }
        let mut degree: Vec<u32> = Vec::new();
        let nd: usize = degrees.len();
        let mut k: usize = 0;
        while k < nd
            invariant
                nd == degrees@.len(),
                k <= nd,
                degree@ == degrees@.take(k as int),
            decreases nd - k,
        {
            degree.push(degrees[k]);
            k = k + 1;
            assert(degree@ =~= degrees@.take(k as int));
        }
        assert(degree@ =~= degrees@);
        let n: usize = owner.len();
        proof {
            assert forall|e: int| 0 <= e < n implies #[trigger] owner@[e] < degree@.len() by {
                if e < nt {
                    assert(lower@[e]@ == lowercase_of(titles@[e]@));
                } else {
                    assert(lower@[e]@ == lowercase_of(aliases@[e - nt].0@));
                    assert(aliases@[e - nt].1 < degrees@.len());
                }
            }
        }
        let by_degree = sort_by_degree(&owner, &degree);
        let alpha = sort_by_text(&lower);
        let r = SearchIndex { lower, owner, degree, by_degree, alpha };
        proof {
            assert forall|e: int| 0 <= e < n implies #[trigger] r.entries()[e] == all[e] by {
                if e < nt {
                    assert(lower@[e]@ == lowercase_of(titles@[e]@));
                } else {
                    assert(lower@[e]@ == lowercase_of(aliases@[e - nt].0@));
                }
            }
            assert(r.entries() =~= all);
        }
        r
    }
}

fn sort_by_degree(owner: &Vec<u32>, degree: &Vec<u32>) -> (r: Vec<u32>)
    requires
        owner@.len() < u32::MAX,
        forall|e: int| 0 <= e < owner@.len() ==> #[trigger] owner@[e] < degree@.len(),
    ensures
        is_permutation(r@, owner@.len()),
        forall|i: int, j: int|
            0 <= i < j < owner@.len() ==> degree@[owner@[#[trigger] r@[i] as int] as int]
                >= degree@[owner@[#[trigger] r@[j] as int] as int],
{
    let n: usize = owner.len();
    let plain = first_numbers(n);
    let ghost links = |e: u32|
        if e < owner@.len() {
            degree@[owner@[e as int] as int] as int
        } else {
            0int
        };
    let ghost leq: Order<u32> = |a: u32, b: u32| links(a) >= links(b);
    let f = |a: u32, b: u32| -> (r: bool)
        ensures
            r == ((if a < owner@.len() {
                degree@[owner@[a as int] as int] as int
            } else {
                0int
            }) >= (if b < owner@.len() {
                degree@[owner@[b as int] as int] as int
            } else {
                0int
            })),
        {
            let x: u32 = if (a as usize) < n {
                degree[owner[a as usize] as usize]
            } else {
                0
            };
            let y: u32 = if (b as usize) < n {
                degree[owner[b as usize] as usize]
            } else {
                0
            };
            x >= y
        };
    let r = sort_by(&plain, &f, Ghost(leq));
    proof {
        lemma_same_members(r@, plain@);
        assert forall|i: int, j: int| 0 <= i < j < n implies degree@[owner@[#[trigger] r@[i] as int] as int]
            >= degree@[owner@[#[trigger] r@[j] as int] as int] by {
            assert(r@.contains(r@[i]) && r@.contains(r@[j]));
            assert(leq(r@[i], r@[j]));
        }
    }
    r
}

fn sort_by_text(lower: &Vec<Vec<char>>) -> (r: Vec<u32>)
    requires
        lower@.len() < u32::MAX,
    ensures
        is_permutation(r@, lower@.len()),
        forall|i: int, j: int|
            0 <= i < j < lower@.len() ==> text_leq(
                lower@[#[trigger] r@[i] as int]@,
                lower@[#[trigger] r@[j] as int]@,
            ),
{
    let n: usize = lower.len();
    let plain = first_numbers(n);
    let ghost text = |e: u32|
        if e < lower@.len() {
            lower@[e as int]@
        } else {
            Seq::<char>::empty()
        };
    let ghost leq: Order<u32> = |a: u32, b: u32| text_leq(text(a), text(b));
    let f = |a: u32, b: u32| -> (r: bool)
        ensures
            r == text_leq(
                if a < lower@.len() {
                    lower@[a as int]@
                } else {
                    Seq::<char>::empty()
                },
                if b < lower@.len() {
                    lower@[b as int]@
                } else {
                    Seq::<char>::empty()
                },
            ),
        {
            let none: Vec<char> = Vec::new();
            assert(none@ =~= Seq::<char>::empty());
            let x: &[char] = if (a as usize) < n {
                lower[a as usize].as_slice()
            } else {
                none.as_slice()
            };
            let y: &[char] = if (b as usize) < n {
                lower[b as usize].as_slice()
            } else {
                none.as_slice()
            };
            text_not_after(x, y)
        };
    proof {
        assert(is_order(leq)) by {
            assert forall|a: u32, b: u32| #[trigger] leq(a, b) || leq(b, a) by {
                lemma_text_leq_total(text(a), text(b));
            }
            assert forall|a: u32, b: u32, c: u32| #[trigger] leq(a, b) && #[trigger] leq(
                b,
                c,
            ) implies leq(a, c) by {
                lemma_text_leq_transitive(text(a), text(b), text(c));
            }
        }
    }
    let r = sort_by(&plain, &f, Ghost(leq));
    proof {
        lemma_same_members(r@, plain@);
        assert forall|i: int, j: int| 0 <= i < j < n implies text_leq(
            lower@[#[trigger] r@[i] as int]@,
            lower@[#[trigger] r@[j] as int]@,
        ) by {
            assert(r@.contains(r@[i]) && r@.contains(r@[j]));
            assert(leq(r@[i], r@[j]));
        }
    }
    r
}

// ---------------------------------------------------------------------------
// Ranking
// ---------------------------------------------------------------------------

/// A score and the article it belongs to.
pub type Hit = (u64, u32);

/// The better score comes first, and of two equal ones the smaller id.
pub open spec fn ranks_before(a: Hit, b: Hit) -> bool {
    a.0 > b.0 || (a.0 == b.0 && a.1 < b.1)
}

/// `top` holds the best `cap` articles of some hits, each with its best score,
/// best first.
pub open spec fn is_top(top: Seq<Hit>, hits: spec_fn(Hit) -> bool, cap: nat) -> bool {
    &&& top.len() <= cap
    &&& forall|i: int, j: int|
        0 <= i < j < top.len() ==> ranks_before(#[trigger] top[i], #[trigger] top[j]) && top[i].1
            != top[j].1
    &&& forall|i: int| 0 <= i < top.len() ==> hits(#[trigger] top[i])
    &&& covers(top, hits, cap)
}

/// Every hit is accounted for: its article is listed, or as many as can be
/// listed come before it.
#[verifier::opaque]
pub open spec fn covers(top: Seq<Hit>, hits: spec_fn(Hit) -> bool, cap: nat) -> bool {
    forall|h: Hit| #[trigger] hits(h) ==> is_listed(top, h) || (top.len() == cap && beats(top, h))
}

/// The article of a hit is listed, with a score no worse.
pub open spec fn is_listed(top: Seq<Hit>, h: Hit) -> bool {
    exists|i: int| 0 <= i < top.len() && (#[trigger] top[i]).1 == h.1 && top[i].0 >= h.0
}

/// All that is listed comes before a hit.
pub open spec fn beats(top: Seq<Hit>, h: Hit) -> bool {
    forall|i: int| 0 <= i < top.len() ==> ranks_before(#[trigger] top[i], h)
}

/// The hits of a query: for every entry that matches, its score and its
/// article.
pub open spec fn is_hit(
    entries: Seq<(Seq<char>, u32)>,
    degrees: Seq<u32>,
    q: Seq<char>,
    h: Hit,
) -> bool {
    exists|e: int| #[trigger] hit_by(entries, degrees, q, h, e)
}

/// Entry `e` gives a hit.
pub open spec fn hit_by(
    entries: Seq<(Seq<char>, u32)>,
    degrees: Seq<u32>,
    q: Seq<char>,
    h: Hit,
    e: int,
) -> bool {
    &&& 0 <= e < entries.len()
    &&& entries[e].1 == h.1
    &&& score(entries[e].0, q, degrees[h.1 as int] as nat) == Some(h.0)
}

/// The articles of some hits.
pub open spec fn articles_of(top: Seq<Hit>) -> Seq<u32> {
    Seq::new(top.len(), |i: int| top[i].1)
}

/// The best hits once one more is known.
fn rank_in(
    top: &mut Vec<Hit>,
    h: Hit,
    cap: usize,
    Ghost(hits): Ghost<spec_fn(Hit) -> bool>,
    Ghost(more): Ghost<spec_fn(Hit) -> bool>,
)
    requires
        cap >= 1,
        is_top(old(top)@, hits, cap as nat),
        forall|x: Hit| #[trigger] more(x) <==> hits(x) || x == h,
    ensures
        is_top(final(top)@, more, cap as nat),
{
    let ghost t0 = top@;
    let n: usize = top.len();
    let mut k: usize = 0;
    while k < n && top[k].1 != h.1
        invariant
            n == top@.len(),
            k <= n,
            forall|i: int| 0 <= i < k ==> (#[trigger] top@[i]).1 != h.1,
        decreases n - k,
    {
        k = k + 1;
    }
    if k < n {
        if top[k].0 >= h.0 {
            proof {
                assert(is_listed(t0, h));
                lemma_covers_one_more(t0, h, cap as nat, hits, more);
            }
            return;
        }
        top.remove(k);
    }
    let ghost t1 = top@;
    let m: usize = top.len();
    proof {
        assert forall|i: int, j: int| 0 <= i < j < m implies ranks_before(
            #[trigger] t1[i],
            #[trigger] t1[j],
        ) && t1[i].1 != t1[j].1 by {
            if k < n {
                let a = if i < k {
                    i
                } else {
                    i + 1
                };
                let b = if j < k {
                    j
                } else {
                    j + 1
                };
                assert(t1[i] == t0[a] && t1[j] == t0[b]);
            }
        }
        assert forall|i: int| 0 <= i < m implies (#[trigger] t1[i]).1 != h.1 by {
            if k < n {
                let a = if i < k {
                    i
                } else {
                    i + 1
                };
                assert(t1[i] == t0[a]);
                if a > k {
                    assert(t0[k as int].1 != t0[a].1);
                }
            }
        }
    }
    let mut p: usize = 0;
    while p < m && (top[p].0 > h.0 || (top[p].0 == h.0 && top[p].1 < h.1))
        invariant
            m == top@.len(),
            top@ == t1,
            p <= m,
            forall|i: int| 0 <= i < p ==> ranks_before(#[trigger] t1[i], h),
        decreases m - p,
    {
        p = p + 1;
    }
    proof {
        if p < m {
            assert(t1[p as int].1 != h.1);
            assert(ranks_before(h, t1[p as int]));
        }
    }
    if p >= cap {
        proof {
            assert(t1 == t0);
            assert(p == cap && m == cap);
            assert(beats(t0, h));
            lemma_covers_one_more(t0, h, cap as nat, hits, more);
        }
        return;
    }
    top.insert(p, h);
    let ghost t2 = top@;
    if top.len() > cap {
        top.pop();
    }
    proof {
        lemma_ranked_in(t0, t1, t2, top@, h, k as int, p as int, cap as nat, hits, more);
    }
}

proof fn lemma_covers_one_more(
    top: Seq<Hit>,
    h: Hit,
    cap: nat,
    hits: spec_fn(Hit) -> bool,
    more: spec_fn(Hit) -> bool,
)
    requires
        is_top(top, hits, cap),
        forall|x: Hit| #[trigger] more(x) <==> hits(x) || x == h,
        is_listed(top, h) || (top.len() == cap && beats(top, h)),
    ensures
        is_top(top, more, cap),
{
    reveal(covers);
    assert forall|i: int| 0 <= i < top.len() implies more(#[trigger] top[i]) by {
        assert(hits(top[i]));
    }
    assert forall|x: Hit| #[trigger] more(x) implies is_listed(top, x) || (top.len() == cap
        && beats(top, x)) by {}
}

/// The new list is in order.
proof fn lemma_replaced_in_order(t1: Seq<Hit>, h: Hit, p: int)
    requires
        forall|i: int, j: int|
            0 <= i < j < t1.len() ==> ranks_before(#[trigger] t1[i], #[trigger] t1[j]) && t1[i].1
                != t1[j].1,
        forall|i: int| 0 <= i < t1.len() ==> (#[trigger] t1[i]).1 != h.1,
        0 <= p <= t1.len(),
        forall|i: int| 0 <= i < p ==> ranks_before(#[trigger] t1[i], h),
        p < t1.len() ==> ranks_before(h, t1[p]),
    ensures
        forall|i: int, j: int|
            0 <= i < j < t1.len() + 1 ==> ranks_before(
                #[trigger] t1.insert(p, h)[i],
                #[trigger] t1.insert(p, h)[j],
            ) && t1.insert(p, h)[i].1 != t1.insert(p, h)[j].1,
{
    let t2 = t1.insert(p, h);
    assert forall|i: int, j: int| 0 <= i < j < t2.len() implies ranks_before(
        #[trigger] t2[i],
        #[trigger] t2[j],
    ) && t2[i].1 != t2[j].1 by {
        let a = if i < p {
            i
        } else {
            i - 1
        };
        let b = if j < p {
            j
        } else {
            j - 1
        };
        if i == p {
            assert(t2[j] == t1[b]);
            if b > p {
                assert(ranks_before(t1[p], t1[b]));
            }
        } else if j == p {
            assert(t2[i] == t1[a]);
        } else {
            assert(t2[i] == t1[a] && t2[j] == t1[b]);
        }
    }
}

/// A hit that was accounted for is accounted for in the new list.
proof fn lemma_replaced_covers(
    t0: Seq<Hit>,
    t1: Seq<Hit>,
    t2: Seq<Hit>,
    t3: Seq<Hit>,
    h: Hit,
    k: int,
    p: int,
    cap: nat,
    x: Hit,
)
    requires
        t0.len() <= cap,
        is_listed(t0, x) || (t0.len() == cap && beats(t0, x)),
        0 <= k <= t0.len(),
        k < t0.len() ==> t0[k].1 == h.1 && t0[k].0 < h.0 && t1 == t0.remove(k),
        k == t0.len() ==> t1 == t0,
        0 <= p <= t1.len(),
        p < cap,
        p < t1.len() ==> ranks_before(h, t1[p]),
        t2 == t1.insert(p, h),
        t3 == (if t2.len() > cap {
            t2.drop_last()
        } else {
            t2
        }),
        forall|i: int, j: int|
            0 <= i < j < t2.len() ==> ranks_before(#[trigger] t2[i], #[trigger] t2[j]),
    ensures
        is_listed(t3, x) || (t3.len() == cap && beats(t3, x)),
{
    assert(t3[p] == h);
    if is_listed(t0, x) {
        let i = choose|i: int| 0 <= i < t0.len() && (#[trigger] t0[i]).1 == x.1 && t0[i].0 >= x.0;
        if i == k {
            assert(t3[p].1 == x.1 && t3[p].0 >= x.0);
            assert(is_listed(t3, x));
        } else {
            let a = if k < t0.len() && i > k {
                i - 1
            } else {
                i
            };
            assert(t1[a] == t0[i]);
            let b = if a < p {
                a
            } else {
                a + 1
            };
            assert(t2[b] == t1[a]);
            if b < t3.len() {
                assert(t3[b] == t2[b]);
                assert(is_listed(t3, x));
            } else {
                assert forall|j: int| 0 <= j < t3.len() implies ranks_before(#[trigger] t3[j], x) by {
                    assert(t3[j] == t2[j]);
                    assert(ranks_before(t2[j], t2[b]));
                }
                assert(beats(t3, x));
            }
        }
    } else {
        assert forall|j: int| 0 <= j < t3.len() implies ranks_before(#[trigger] t3[j], x) by {
            assert(t3[j] == t2[j]);
            if j == p {
                if k < t0.len() {
                    assert(ranks_before(t0[k], x));
                } else {
                    assert(ranks_before(t0[p], x));
                    assert(t1[p] == t0[p]);
                }
            } else {
                let a = if j < p {
                    j
                } else {
                    j - 1
                };
                assert(t2[j] == t1[a]);
                let b = if k < t0.len() && a >= k {
                    a + 1
                } else {
                    a
                };
                assert(t1[a] == t0[b]);
                assert(ranks_before(t0[b], x));
            }
        }
        assert(beats(t3, x));
    }
}

proof fn lemma_ranked_in(
    t0: Seq<Hit>,
    t1: Seq<Hit>,
    t2: Seq<Hit>,
    t3: Seq<Hit>,
    h: Hit,
    k: int,
    p: int,
    cap: nat,
    hits: spec_fn(Hit) -> bool,
    more: spec_fn(Hit) -> bool,
)
    requires
        is_top(t0, hits, cap),
        forall|x: Hit| #[trigger] more(x) <==> hits(x) || x == h,
        0 <= k <= t0.len(),
        k < t0.len() ==> t0[k].1 == h.1 && t0[k].0 < h.0 && t1 == t0.remove(k),
        k == t0.len() ==> t1 == t0,
        forall|i: int, j: int|
            0 <= i < j < t1.len() ==> ranks_before(#[trigger] t1[i], #[trigger] t1[j]) && t1[i].1
                != t1[j].1,
        forall|i: int| 0 <= i < t1.len() ==> (#[trigger] t1[i]).1 != h.1,
        0 <= p <= t1.len(),
        p < cap,
        forall|i: int| 0 <= i < p ==> ranks_before(#[trigger] t1[i], h),
        p < t1.len() ==> ranks_before(h, t1[p]),
        t2 == t1.insert(p, h),
        t3 == (if t2.len() > cap {
            t2.drop_last()
        } else {
            t2
        }),
    ensures
        is_top(t3, more, cap),
{
    lemma_replaced_in_order(t1, h, p);
    assert forall|i: int, j: int| 0 <= i < j < t3.len() implies ranks_before(
        #[trigger] t3[i],
        #[trigger] t3[j],
    ) && t3[i].1 != t3[j].1 by {
        assert(t3[i] == t2[i] && t3[j] == t2[j]);
    }
    assert forall|i: int| 0 <= i < t3.len() implies more(#[trigger] t3[i]) by {
        assert(t3[i] == t2[i]);
        if i == p {
            assert(t2[i] == h);
        } else {
            let a = if i < p {
                i
            } else {
                i - 1
            };
            assert(t2[i] == t1[a]);
            let b = if k < t0.len() && a >= k {
                a + 1
            } else {
                a
            };
            assert(t1[a] == t0[b]);
            assert(hits(t0[b]));
        }
    }
    assert(covers(t3, more, cap)) by {
        assert forall|x: Hit| #[trigger] more(x) implies is_listed(t3, x) || (t3.len() == cap
            && beats(t3, x)) by {
            if x == h {
                assert(t3[p] == h);
                assert(is_listed(t3, x));
            } else {
                assert(is_listed(t0, x) || (t0.len() == cap && beats(t0, x))) by {
                    reveal(covers);
                }
                lemma_replaced_covers(t0, t1, t2, t3, h, k, p, cap, x);
            }
        }
        reveal(covers);
    }
}

impl SearchIndex {
    /// Where, in alphabetical order, the entries begin that do not come before
    /// `q`.
    fn first_exact(&self, q: &[char]) -> (r: usize)
        requires
            self.wf(),
        ensures
            r <= self.alpha@.len(),
            forall|i: int|
                0 <= i < r ==> !text_leq(q@, self.lower@[#[trigger] self.alpha@[i] as int]@),
            forall|i: int|
                r <= i < self.alpha@.len() ==> text_leq(
                    q@,
                    self.lower@[#[trigger] self.alpha@[i] as int]@,
                ),
    {
        let mut lo: usize = 0;
        let mut hi: usize = self.alpha.len();
        while lo < hi
            invariant
                self.wf(),
                lo <= hi <= self.alpha@.len(),
                forall|i: int|
                    0 <= i < lo ==> !text_leq(q@, self.lower@[#[trigger] self.alpha@[i] as int]@),
                forall|i: int|
                    hi <= i < self.alpha@.len() ==> text_leq(
                        q@,
                        self.lower@[#[trigger] self.alpha@[i] as int]@,
                    ),
            decreases hi - lo,
        {
            let mid: usize = lo + (hi - lo) / 2;
            let e: usize = self.alpha[mid] as usize;
            assert(self.alpha@.contains(self.alpha@[mid as int]));
            if text_not_after(q, self.lower[e].as_slice()) {
                proof {
                    assert forall|i: int| mid <= i < self.alpha@.len() implies text_leq(
                        q@,
                        self.lower@[#[trigger] self.alpha@[i] as int]@,
                    ) by {
                        if i > mid {
                            lemma_text_leq_transitive(
                                q@,
                                self.lower@[e as int]@,
                                self.lower@[self.alpha@[i] as int]@,
                            );
                        }
                    }
                }
                hi = mid;
            } else {
                proof {
                    assert forall|i: int| 0 <= i < mid + 1 implies !text_leq(
                        q@,
                        self.lower@[#[trigger] self.alpha@[i] as int]@,
                    ) by {
                        if i < mid && text_leq(q@, self.lower@[self.alpha@[i] as int]@) {
                            lemma_text_leq_transitive(
                                q@,
                                self.lower@[self.alpha@[i] as int]@,
                                self.lower@[e as int]@,
                            );
                        }
                    }
                }
                lo = mid + 1;
            }
        }
        lo
    }
}

/// The hits of the entries that were gone through.
spec fn hits_so_far(
    entries: Seq<(Seq<char>, u32)>,
    degrees: Seq<u32>,
    q: Seq<char>,
    done: spec_fn(int) -> bool,
) -> spec_fn(Hit) -> bool {
    |h: Hit| exists|e: int| done(e) && #[trigger] hit_by(entries, degrees, q, h, e)
}

/// The articles that match a query best: by score, best first, and of equal
/// scores the smaller id first. Every article comes once, with the best score
/// of its title and its aliases.
pub fn search_ranked(idx: &SearchIndex, query: &str, limit: usize) -> (r: Vec<u32>)
    requires
        idx.wf(),
    ensures
        ({
            let q = lowercase_of(trimmed(query@));
            if q.len() == 0 {
                r@.len() == 0
            } else {
                exists|top: Seq<Hit>|
                    r@ == #[trigger] articles_of(top) && is_top(
                        top,
                        |h: Hit| is_hit(idx.entries(), idx.degrees(), q, h),
                        limit as nat,
                    )
            }
        }),
{
    let chars = chars_of(query);
    let core_part = trim(chars.as_slice());
    let text = string_of(core_part, 0, core_part.len());
    assert(text@ =~= core_part@);
    let low = to_lowercase(text.as_str());
    let wanted = chars_of(low.as_str());
    let q: &[char] = wanted.as_slice();
    if q.len() == 0 {
        return Vec::new();
    }
    let cap: usize = if limit > 0 {
        limit
    } else {
        1
    };
    let n: usize = idx.lower.len();
    let ghost entries = idx.entries();
    let ghost degrees = idx.degrees();
    let mut top: Vec<Hit> = Vec::new();
    let ghost mut done: spec_fn(int) -> bool = |e: int| false;
    proof {
        assert(covers(top@, hits_so_far(entries, degrees, q@, done), cap as nat)) by {
            reveal(covers);
        }
        assert forall|k: int| 0 <= k < n implies (#[trigger] idx.alpha@[k]) < n by {
            assert(idx.alpha@.contains(idx.alpha@[k]));
        }
    }
    // Exact matches first. Entries can share a text, so take them all.
    let mut i: usize = idx.first_exact(q);
    let ghost first = i;
    while i < n && same(idx.lower[idx.alpha[i] as usize].as_slice(), q)
        invariant
            idx.wf(),
            n == idx.lower@.len(),
            entries == idx.entries(),
            degrees == idx.degrees(),
            q@.len() > 0,
            cap >= 1,
            first <= i <= n,
            is_top(top@, hits_so_far(entries, degrees, q@, done), cap as nat),
            forall|k: int|
                0 <= k < i && k >= first ==> done(#[trigger] idx.alpha@[k] as int),
            forall|k: int|
                0 <= k < first ==> !text_leq(q@, idx.lower@[#[trigger] idx.alpha@[k] as int]@),
            forall|k: int|
                first <= k < n ==> text_leq(q@, idx.lower@[#[trigger] idx.alpha@[k] as int]@),
            forall|k: int| 0 <= k < n ==> (#[trigger] idx.alpha@[k]) < n,
        decreases n - i,
    {
        let e: usize = idx.alpha[i] as usize;
        top = take_entry(idx, top, e, q, cap, Ghost(done));
        proof {
            let was = done;
            done = |x: int| was(x) || x == e;
        }
        i = i + 1;
    }
    proof {
        assert forall|e: int| 0 <= e < n && #[trigger] entries[e].0 == q@ implies done(e) by {
            assert(idx.alpha@.contains(e as u32));
            let k = choose|k: int| 0 <= k < idx.alpha@.len() && idx.alpha@[k] == e as u32;
            assert(idx.lower@[e]@ == q@);
            lemma_text_leq_total(q@, q@);
            assert(k >= first);
            if k >= i {
                assert(idx.alpha@[i as int] < n);
                let other = idx.lower@[idx.alpha@[i as int] as int]@;
                if k > i {
                    assert(text_leq(other, q@));
                }
                lemma_text_leq_total(q@, other);
            }
        }
    }
    // Then by links, up to where nothing that follows could do better.
    let mut j: usize = 0;
    let mut over = false;
    while j < n && !over
        invariant
            idx.wf(),
            n == idx.lower@.len(),
            entries == idx.entries(),
            degrees == idx.degrees(),
            q@.len() > 0,
            cap >= 1,
            j <= n,
            is_top(top@, hits_so_far(entries, degrees, q@, done), cap as nat),
            forall|e: int| 0 <= e < n && #[trigger] entries[e].0 == q@ ==> done(e),
            forall|k: int| 0 <= k < j ==> done(#[trigger] idx.by_degree@[k] as int),
            over ==> is_top(
                top@,
                |h: Hit| is_hit(idx.entries(), idx.degrees(), q@, h),
                cap as nat,
            ),
        decreases n - j + (if over { 0int } else { 1int }),
    {
        let e: usize = idx.by_degree[j] as usize;
        assert(idx.by_degree@.contains(idx.by_degree@[j as int]));
        let deg: u32 = idx.degree[idx.owner[e] as usize];
        if top.len() == cap && 100 * (deg as u64 + 1) < top[cap - 1].0 {
            proof {
                lemma_rest_is_beaten(idx, q@, top@, done, cap as nat, j as int);
            }
            over = true;
        } else {
            top = take_entry(idx, top, e, q, cap, Ghost(done));
            proof {
                let was = done;
                done = |x: int| was(x) || x == e;
            }
            j = j + 1;
        }
    }
    proof {
        if !over {
            lemma_all_gone_through(idx, q@, top@, done, cap as nat);
        }
    }
    let mut out: Vec<u32> = Vec::new();
    let m: usize = if limit < top.len() {
        limit
    } else {
        top.len()
    };
    let mut k: usize = 0;
    while k < m
        invariant
            m <= top@.len(),
            k <= m,
            out@ == articles_of(top@.take(k as int)),
        decreases m - k,
    {
        out.push(top[k].1);
        k = k + 1;
        assert(out@ =~= articles_of(top@.take(k as int)));
    }
    proof {
        let t = top@.take(m as int);
        assert(is_top(t, |h: Hit| is_hit(idx.entries(), idx.degrees(), q@, h), limit as nat)) by {
            if limit > 0 {
                assert(t =~= top@);
            } else {
                reveal(covers);
            }
        }
        assert(out@ == articles_of(t));
    }
    out
}

/// Take one entry into account.
fn take_entry(
    idx: &SearchIndex,
    mut top: Vec<Hit>,
    e: usize,
    q: &[char],
    cap: usize,
    Ghost(done): Ghost<spec_fn(int) -> bool>,
) -> (r: Vec<Hit>)
    requires
        idx.wf(),
        e < idx.lower@.len(),
        cap >= 1,
        is_top(top@, hits_so_far(idx.entries(), idx.degrees(), q@, done), cap as nat),
    ensures
        is_top(
            r@,
            hits_so_far(idx.entries(), idx.degrees(), q@, |x: int| done(x) || x == e),
            cap as nat,
        ),
{
    let ghost entries = idx.entries();
    let ghost degrees = idx.degrees();
    let ghost hits = hits_so_far(entries, degrees, q@, done);
    let ghost after = |x: int| done(x) || x == e;
    let ghost more = hits_so_far(entries, degrees, q@, after);
    let owner: u32 = idx.owner[e];
    let deg: u32 = idx.degree[owner as usize];
    match score_of(idx.lower[e].as_slice(), q, deg) {
        Some(s) => {
            proof {
                assert forall|x: Hit| #[trigger] more(x) <==> hits(x) || x == (s, owner) by {
                    if more(x) {
                        let y = choose|y: int|
                            after(y) && #[trigger] hit_by(entries, degrees, q@, x, y);
                        if y != e {
                            assert(done(y) && hit_by(entries, degrees, q@, x, y));
                        }
                    }
                    if hits(x) {
                        let y = choose|y: int|
                            done(y) && #[trigger] hit_by(entries, degrees, q@, x, y);
                        assert(after(y) && hit_by(entries, degrees, q@, x, y));
                    }
                    if x == (s, owner) {
                        assert(after(e as int) && hit_by(entries, degrees, q@, x, e as int));
                    }
                }
            }
            rank_in(&mut top, (s, owner), cap, Ghost(hits), Ghost(more));
        },
        None => {
            proof {
                assert forall|x: Hit| #[trigger] more(x) <==> hits(x) by {
                    if more(x) {
                        let y = choose|y: int|
                            after(y) && #[trigger] hit_by(entries, degrees, q@, x, y);
                        assert(y != e);
                        assert(done(y) && hit_by(entries, degrees, q@, x, y));
                    }
                    if hits(x) {
                        let y = choose|y: int|
                            done(y) && #[trigger] hit_by(entries, degrees, q@, x, y);
                        assert(after(y) && hit_by(entries, degrees, q@, x, y));
                    }
                }
                assert(more =~= hits);
            }
        },
    }
    top
}

/// Where every entry was gone through, the hits are all hits.
proof fn lemma_all_gone_through(
    idx: &SearchIndex,
    q: Seq<char>,
    top: Seq<Hit>,
    done: spec_fn(int) -> bool,
    cap: nat,
)
    requires
        idx.wf(),
        is_top(top, hits_so_far(idx.entries(), idx.degrees(), q, done), cap),
        forall|k: int|
            0 <= k < idx.lower@.len() ==> done(#[trigger] idx.by_degree@[k] as int),
    ensures
        is_top(top, |h: Hit| is_hit(idx.entries(), idx.degrees(), q, h), cap),
{
    let entries = idx.entries();
    let degrees = idx.degrees();
    let hits = hits_so_far(entries, degrees, q, done);
    let all = |h: Hit| is_hit(entries, degrees, q, h);
    assert forall|i: int| 0 <= i < top.len() implies all(#[trigger] top[i]) by {
        assert(hits(top[i]));
    }
    assert forall|h: Hit| #[trigger] all(h) implies is_listed(top, h) || (top.len() == cap && beats(
        top,
        h,
    )) by {
        let e = choose|e: int| #[trigger] hit_by(entries, degrees, q, h, e);
        assert(idx.by_degree@.contains(e as u32));
        let k = choose|k: int| 0 <= k < idx.by_degree@.len() && idx.by_degree@[k] == e as u32;
        assert(done(idx.by_degree@[k] as int));
        assert(done(e) && hit_by(entries, degrees, q, h, e));
        assert(hits(h));
        reveal(covers);
    }
    reveal(covers);
}

/// Where even a match of the best kind would score less than the last that is
/// listed, nothing that follows changes the list.
proof fn lemma_rest_is_beaten(
    idx: &SearchIndex,
    q: Seq<char>,
    top: Seq<Hit>,
    done: spec_fn(int) -> bool,
    cap: nat,
    j: int,
)
    requires
        idx.wf(),
        cap >= 1,
        0 <= j < idx.lower@.len(),
        is_top(top, hits_so_far(idx.entries(), idx.degrees(), q, done), cap),
        forall|e: int| 0 <= e < idx.lower@.len() && #[trigger] idx.entries()[e].0 == q ==> done(e),
        forall|k: int| 0 <= k < j ==> done(#[trigger] idx.by_degree@[k] as int),
        top.len() == cap,
        100 * (idx.degree@[idx.owner@[idx.by_degree@[j] as int] as int] + 1) < top[cap - 1].0,
    ensures
        is_top(top, |h: Hit| is_hit(idx.entries(), idx.degrees(), q, h), cap),
{
    let entries = idx.entries();
    let degrees = idx.degrees();
    let hits = hits_so_far(entries, degrees, q, done);
    let all = |h: Hit| is_hit(entries, degrees, q, h);
    assert forall|i: int| 0 <= i < top.len() implies all(#[trigger] top[i]) by {
        assert(hits(top[i]));
    }
    assert forall|h: Hit| #[trigger] all(h) implies is_listed(top, h) || (top.len() == cap && beats(
        top,
        h,
    )) by {
        let e = choose|e: int| #[trigger] hit_by(entries, degrees, q, h, e);
        if done(e) {
            assert(done(e) && hit_by(entries, degrees, q, h, e));
            assert(hits(h));
            reveal(covers);
        } else {
            assert(idx.by_degree@.contains(e as u32));
            let k = choose|k: int| 0 <= k < idx.by_degree@.len() && idx.by_degree@[k] == e as u32;
            assert(k >= j) by {
                if k < j {
                    assert(done(idx.by_degree@[k] as int));
                }
            }
            assert(entries[e].0 != q);
            law_exact_match_wins(entries[e].0, q, degrees[h.1 as int]);
            assert(degrees[h.1 as int] <= idx.degree@[idx.owner@[idx.by_degree@[j] as int] as int]);
            assert forall|i: int| 0 <= i < top.len() implies ranks_before(#[trigger] top[i], h) by {
                if i < cap - 1 {
                    assert(ranks_before(top[i], top[cap - 1]));
                }
            }
            assert(beats(top, h));
        }
    }
    reveal(covers);
}

/// There is only one way to rank hits: two lists of the best articles of the
/// same hits are the same.
pub proof fn law_ranking_is_unique(
    a: Seq<Hit>,
    b: Seq<Hit>,
    hits: spec_fn(Hit) -> bool,
    cap: nat,
    k: int,
)
    requires
        is_top(a, hits, cap),
        is_top(b, hits, cap),
        0 <= k < a.len(),
    ensures
        k < b.len(),
        a[k] == b[k],
    decreases k,
{
    if k > 0 {
        law_ranking_is_unique(a, b, hits, cap, k - 1);
    }
    assert forall|i: int| 0 <= i < k implies i < b.len() && a[i] == b[i] by {
        law_ranking_is_unique(a, b, hits, cap, i);
    }
    let x = a[k];
    assert(hits(x));
    if k >= b.len() {
        // Everything in `b` is in `a` before `x`, so `x` would be listed.
        assert(is_listed(b, x) || (b.len() == cap && beats(b, x))) by {
            reveal(covers);
        }
        if is_listed(b, x) {
            let i = choose|i: int| 0 <= i < b.len() && (#[trigger] b[i]).1 == x.1 && b[i].0 >= x.0;
            assert(a[i] == b[i]);
            assert(a[i].1 != a[k].1);
        }
        assert(false);
    }
    let y = b[k];
    assert(hits(y));
    if x != y {
        lemma_first_difference(a, b, hits, cap, k);
        lemma_first_difference(b, a, hits, cap, k);
    }
}

/// Where two lists agree up to place `k`, the second does not have the better
/// hit there.
proof fn lemma_first_difference(
    a: Seq<Hit>,
    b: Seq<Hit>,
    hits: spec_fn(Hit) -> bool,
    cap: nat,
    k: int,
)
    requires
        is_top(a, hits, cap),
        is_top(b, hits, cap),
        0 <= k < a.len(),
        k < b.len(),
        forall|i: int| 0 <= i < k ==> #[trigger] a[i] == b[i],
    ensures
        !ranks_before(b[k], a[k]),
        a[k].1 == b[k].1 ==> a[k] == b[k] || ranks_before(a[k], b[k]) || ranks_before(b[k], a[k]),
{
    let y = b[k];
    assert(hits(y));
    if ranks_before(y, a[k]) {
        assert(is_listed(a, y) || (a.len() == cap && beats(a, y))) by {
            reveal(covers);
        }
        if is_listed(a, y) {
            let i = choose|i: int| 0 <= i < a.len() && (#[trigger] a[i]).1 == y.1 && a[i].0 >= y.0;
            if i < k {
                assert(a[i] == b[i]);
                assert(b[i].1 != b[k].1);
            } else if i > k {
                assert(ranks_before(a[k], a[i]));
            }
        } else {
            assert(beats(a, y));
            assert(ranks_before(a[k], y));
        }
    }
}

/// What a match is worth, for so many links to the article: a title that begins
/// with the query a hundred times one more than the links, one in which a later
/// word does thirty times, one that merely holds it once, and any other nothing.
pub proof fn law_matches_are_weighed(title: Seq<char>, q: Seq<char>, links: u32)
    requires
        title != q,
    ensures
        q.len() <= title.len() && title.subrange(0, q.len() as int) == q ==> score(
            title,
            q,
            links as nat,
        ) == Some((100 * (links + 1)) as u64),
        !(q.len() <= title.len() && title.subrange(0, q.len() as int) == q) && (exists|i: int|
            #![trigger title[i - 1]]
            1 <= i && i + q.len() <= title.len() && title.subrange(i, i + q.len()) == q
                && !is_letter_or_digit(title[i - 1]) && forall|k: int|
                0 <= k < q.len() ==> is_letter_or_digit(#[trigger] q[k])) ==> score(
            title,
            q,
            links as nat,
        ) == Some((30 * (links + 1)) as u64),
        score(title, q, links as nat) matches Some(s) ==> s == 100 * (links + 1) || s == 30 * (links
            + 1) || s == links + 1,
        score(title, q, links as nat) is None <==> forall|i: int| !#[trigger] occurs_at(title, q, i),
{
    if exists|i: int|
        #![trigger title[i - 1]]
        1 <= i && i + q.len() <= title.len() && title.subrange(i, i + q.len()) == q
            && !is_letter_or_digit(title[i - 1]) && forall|k: int|
            0 <= k < q.len() ==> is_letter_or_digit(#[trigger] q[k]) {
        let i = choose|i: int|
            #![trigger title[i - 1]]
            1 <= i && i + q.len() <= title.len() && title.subrange(i, i + q.len()) == q
                && !is_letter_or_digit(title[i - 1]) && forall|k: int|
                0 <= k < q.len() ==> is_letter_or_digit(#[trigger] q[k]);
        assert(begins_word_at(title, q, i));
    }
    if begins_a_word(title, q) {
        let i = choose|i: int| #[trigger] begins_word_at(title, q, i);
        assert(occurs_at(title, q, i));
    }
    if begins(title, q) {
        assert(occurs_at(title, q, 0));
    }
}

proof fn lemma_listed_or_beaten(top: Seq<Hit>, hits: spec_fn(Hit) -> bool, cap: nat, h: Hit)
    requires
        is_top(top, hits, cap),
        hits(h),
    ensures
        is_listed(top, h) || (top.len() == cap && beats(top, h)),
{
    reveal(covers);
}

/// The better match is worth more for as many links, and of two matches of one
/// sort the one with more links.
pub proof fn law_better_matches_score_more(
    a: Seq<char>,
    b: Seq<char>,
    c: Seq<char>,
    q: Seq<char>,
    links: u32,
    more: u32,
)
    requires
        a != q && q.len() <= a.len() && a.subrange(0, q.len() as int) == q,
        !begins(b, q) && begins_a_word(b, q),
        !begins(c, q) && !begins_a_word(c, q) && holds(c, q),
        links < more,
    ensures
        score(a, q, links as nat)->0 > score(b, q, links as nat)->0 > score(c, q, links as nat)->0,
        score(q, q, 0)->0 > score(a, q, u32::MAX as nat)->0,
        score(a, q, links as nat)->0 < score(a, q, more as nat)->0,
        score(b, q, links as nat)->0 < score(b, q, more as nat)->0,
        score(c, q, links as nat)->0 < score(c, q, more as nat)->0,
        score(c, q, links as nat) is Some && score(b, q, links as nat) is Some,
{
    assert(b != q) by {
        assert(q.subrange(0, q.len() as int) =~= q);
    }
    assert(c != q) by {
        assert(q.subrange(0, q.len() as int) =~= q);
    }
}

/// Results come best first, and the smaller id first of those that score alike.
/// Each article comes once and matches, no more come than asked for, and what
/// matches and does not come scores no more than any that does, of which there
/// are then as many as asked for.
pub proof fn law_results_are_the_best(
    top: Seq<Hit>,
    hits: spec_fn(Hit) -> bool,
    entries: Seq<(Seq<char>, u32)>,
    degrees: Seq<u32>,
    q: Seq<char>,
    cap: nat,
    e: int,
)
    requires
        forall|h: Hit| #[trigger] hits(h) <==> is_hit(entries, degrees, q, h),
        is_top(top, hits, cap),
        0 <= e < entries.len(),
    ensures
        top.len() <= cap,
        forall|i: int, j: int|
            0 <= i < j < top.len() ==> (#[trigger] top[i]).1 != (#[trigger] top[j]).1 && (top[i].0
                > top[j].0 || (top[i].0 == top[j].0 && top[i].1 < top[j].1)),
        forall|i: int|
            0 <= i < top.len() ==> exists|k: int|
                0 <= k < entries.len() && (#[trigger] entries[k]).1 == (#[trigger] top[i]).1
                    && score(entries[k].0, q, degrees[top[i].1 as int] as nat) == Some(top[i].0),
        score(entries[e].0, q, degrees[entries[e].1 as int] as nat) matches Some(s) ==> (exists|
            i: int,
        |
            0 <= i < top.len() && (#[trigger] top[i]).1 == entries[e].1 && top[i].0 >= s) || (
        top.len() == cap && forall|i: int|
            0 <= i < top.len() ==> (#[trigger] top[i]).0 > s || (top[i].0 == s && top[i].1
                < entries[e].1)),
{
    assert forall|i: int| 0 <= i < top.len() implies exists|k: int|
        0 <= k < entries.len() && (#[trigger] entries[k]).1 == (#[trigger] top[i]).1 && score(
            entries[k].0,
            q,
            degrees[top[i].1 as int] as nat,
        ) == Some(top[i].0) by {
        assert(hits(top[i]));
        let k = choose|k: int| #[trigger] hit_by(entries, degrees, q, top[i], k);
        assert(entries[k].1 == top[i].1);
    }
    if score(entries[e].0, q, degrees[entries[e].1 as int] as nat) is Some {
        let h: Hit = (
            score(entries[e].0, q, degrees[entries[e].1 as int] as nat)->0,
            entries[e].1,
        );
        assert(hit_by(entries, degrees, q, h, e));
        assert(is_hit(entries, degrees, q, h));
        assert(hits(h));
        lemma_listed_or_beaten(top, hits, cap, h);
        if is_listed(top, h) {
            let i = choose|i: int| 0 <= i < top.len() && (#[trigger] top[i]).1 == h.1 && top[i].0
                >= h.0;
            assert(top[i].1 == entries[e].1);
        } else {
            assert(beats(top, h));
        }
    }
}
} // verus!
