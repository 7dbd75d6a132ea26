//! What is known of each article besides its links.

use crate::graph::texts;
use vstd::prelude::*;

verus! {

/// A number per article. Where an id comes twice the later row counts, and
/// where it never comes the number is zero.
pub open spec fn column(rows: Seq<(u32, u32)>, n: nat) -> Seq<u32>
    decreases rows.len(),
{
    if rows.len() == 0 {
        Seq::new(n, |i: int| 0u32)
    } else {
        let rest = column(rows.drop_last(), n);
        let (id, value) = rows.last();
        if id < n {
            rest.update(id as int, value)
        } else {
            rest
        }
    }
}

/// Spread rows of ids and numbers over `n` articles. Ids beyond are passed
/// over.
pub fn u32_column(rows: &[(u32, u32)], n: usize) -> (r: Vec<u32>)
    ensures
        r@ == column(rows@, n as nat),
        r@.len() == n,
{
    let mut out: Vec<u32> = Vec::with_capacity(n);
    let mut i: usize = 0;
    while i < n
        invariant
            i <= n,
            out@.len() == i,
            forall|k: int| 0 <= k < i ==> out@[k] == 0,
        decreases n - i,
    {
        out.push(0);
        i = i + 1;
    }
    let m: usize = rows.len();
    let mut j: usize = 0;
    assert(rows@.take(0) =~= Seq::<(u32, u32)>::empty());
    assert(out@ =~= column(rows@.take(0), n as nat));
    while j < m
        invariant
            m == rows@.len(),
            j <= m,
            out@.len() == n,
            out@ == column(rows@.take(j as int), n as nat),
        decreases m - j,
    {
        assert(rows@.take(j + 1).drop_last() =~= rows@.take(j as int));
        let (id, value) = rows[j];
        if (id as usize) < n {
            out.set(id as usize, value);
        }
        j = j + 1;
    }
    assert(rows@.take(m as int) =~= rows@);
    out
}

// ---------------------------------------------------------------------------
// Lists of texts
// ---------------------------------------------------------------------------

/// Texts per article, packed: article -> its categories, or article -> the
/// redirects that lead to it.
pub struct PerArticle {
    offsets: Vec<usize>,
    values: Vec<String>,
}

/// The texts that rows hold for an article, at most `cap` of them.
pub open spec fn texts_of(rows: Seq<(u32, String)>, id: int, cap: nat) -> Seq<Seq<char>>
    decreases rows.len(),
{
    if rows.len() == 0 {
        seq![]
    } else {
        let rest = texts_of(rows.drop_last(), id, cap);
        if rows.last().0 == id && rest.len() < cap {
            rest.push(rows.last().1@)
        } else {
            rest
        }
    }
}

/// The texts of each of `n` articles.
pub open spec fn texts_by_article(rows: Seq<(u32, String)>, n: nat, cap: nat) -> Seq<
    Seq<Seq<char>>,
> {
    Seq::new(n, |i: int| texts_of(rows, i, cap))
}

/// How many texts there are in all.
pub open spec fn total_texts(lists: Seq<Seq<Seq<char>>>, k: int) -> nat
    decreases k,
{
    if k <= 0 {
        0
    } else {
        total_texts(lists, k - 1) + lists[k - 1].len()
    }
}

impl View for PerArticle {
    type V = Seq<Seq<Seq<char>>>;

    closed spec fn view(&self) -> Seq<Seq<Seq<char>>> {
        if self.offsets@.len() == 0 {
            Seq::empty()
        } else {
            Seq::new(
                (self.offsets@.len() - 1) as nat,
                |v: int|
                    texts(self.values@).subrange(
                        self.offsets@[v] as int,
                        self.offsets@[v + 1] as int,
                    ),
            )
        }
    }
}

impl PerArticle {
    #[verifier::type_invariant]
    spec fn inv(self) -> bool {
        &&& self.offsets@.len() > 0 ==> self.offsets@[0] == 0 && self.offsets@.last()
            == self.values@.len()
        &&& self.offsets@.len() == 0 ==> self.values@.len() == 0
        &&& forall|i: int, j: int|
            0 <= i <= j < self.offsets@.len() ==> self.offsets@[i] <= self.offsets@[j]
    }

    /// The texts of an article, none where it is not known.
    pub fn get(&self, id: u32) -> (r: &[String])
        ensures
            texts(r@) == (if id < self@.len() {
                self@[id as int]
            } else {
                Seq::empty()
            }),
    {
        proof {
            use_type_invariant(self);
        }
        let n: usize = self.offsets.len();
        let i: usize = id as usize;
        let (a, b): (usize, usize) = if n == 0 || i >= n - 1 {
            (0, 0)
        } else {
            (self.offsets[i], self.offsets[i + 1])
        };
        let r = vstd::slice::slice_subrange(self.values.as_slice(), a, b);
        assert(texts(r@) =~= texts(self.values@).subrange(a as int, b as int));
        r
    }

    pub fn is_empty(&self) -> (r: bool)
        ensures
            r == (total_texts(self@, self@.len() as int) == 0),
    {
        proof {
            use_type_invariant(self);
            if self.offsets@.len() > 0 {
                self.lemma_total(self@.len() as int);
            }
        }
        self.values.len() == 0
    }

    proof fn lemma_total(&self, k: int)
        requires
            self.inv(),
            0 <= k < self.offsets@.len(),
        ensures
            total_texts(self@, k) == self.offsets@[k],
        decreases k,
    {
        if k > 0 {
            self.lemma_total(k - 1);
            assert(self.offsets@[k - 1] <= self.offsets@[k]);
            assert(self.offsets@[k] <= self.offsets@[self.offsets@.len() - 1]);
            assert(self@[k - 1].len() == self.offsets@[k] - self.offsets@[k - 1]);
        }
    }

    /// How many texts there are in all.
    pub fn total(&self) -> (r: usize)
        ensures
            r == total_texts(self@, self@.len() as int),
    {
        proof {
            use_type_invariant(self);
            if self.offsets@.len() > 0 {
                self.lemma_total(self@.len() as int);
            }
        }
        self.values.len()
    }

    /// Pack rows of ids and texts, keeping at most `cap` texts per article.
    /// Ids beyond the `n` articles are passed over.
    pub fn load(rows: &[(u32, String)], n: usize, cap: usize) -> (r: PerArticle)
        requires
            n < usize::MAX,
        ensures
            r@ == texts_by_article(rows@, n as nat, cap as nat),
    {
        let m: usize = rows.len();
        let mut counts: Vec<usize> = Vec::with_capacity(n);
        let mut k: usize = 0;
        while k < n
            invariant
                k <= n,
                counts@.len() == k,
                forall|v: int| 0 <= v < k ==> counts@[v] == 0,
            decreases n - k,
        {
            counts.push(0);
            k = k + 1;
        }
        let mut total: usize = 0;
        let mut i: usize = 0;
        proof {
            lemma_sum_zero(counts@, n as int);
            assert(rows@.take(0) =~= Seq::<(u32, String)>::empty());
        }
        while i < m
            invariant
                m == rows@.len(),
                i <= m,
                counts@.len() == n,
                total <= i,
                total == sum_before(counts@, n as int),
                forall|v: int|
                    0 <= v < n ==> #[trigger] counts@[v] == texts_of(
                        rows@.take(i as int),
                        v,
                        cap as nat,
                    ).len(),
                forall|v: int| 0 <= v < n ==> #[trigger] counts@[v] <= i,
            decreases m - i,
        {
            let id: u32 = rows[i].0;
            let ghost before = counts@;
            proof {
                assert(rows@.take(i + 1).drop_last() =~= rows@.take(i as int));
            }
            if (id as usize) < n {
                let c: usize = counts[id as usize];
                if c < cap {
                    counts.set(id as usize, c + 1);
                    total = total + 1;
                    proof {
                        lemma_sum_bump(before, id as int, n as int);
                    }
                }
            }
            proof {
                assert forall|v: int| 0 <= v < n implies #[trigger] counts@[v] == texts_of(
                    rows@.take(i + 1),
                    v,
                    cap as nat,
                ).len() by {
                    assert(before[v] == texts_of(
                        rows@.take(i as int),
                        v,
                        cap as nat,
                    ).len());
                }
            }
            i = i + 1;
        }
        let ghost sizes = counts@;
        assert(rows@.take(m as int) =~= rows@);
        let offsets = offsets_of(&counts, Ghost(total as int));
        let ghost offs = offsets@;
        proof {
            assert forall|a: int, b: int| 0 <= a <= b < offs.len() implies offs[a] <= offs[b] by {
                lemma_sum_monotone(sizes, a, b);
            }
            assert forall|v: int| 0 <= v < n implies #[trigger] offs[v + 1] == offs[v] + texts_of(
                rows@,
                v,
                cap as nat,
            ).len() by {
                assert(sizes[v] == texts_of(rows@, v, cap as nat).len());
            }
        }
        let values = fill_texts(rows, n, cap, total, &offsets);
        let r = PerArticle { offsets, values };
        proof {
            assert forall|v: int| 0 <= v < n implies r@[v] == texts_by_article(
                rows@,
                n as nat,
                cap as nat,
            )[v] by {
                assert(texts(values@).subrange(offs[v] as int, offs[v + 1] as int) == texts_of(
                    rows@,
                    v,
                    cap as nat,
                ));
            }
            assert(r@ =~= texts_by_article(rows@, n as nat, cap as nat));
        }
        r
    }
}

/// The sum of the first `k` counts.
spec fn sum_before(counts: Seq<usize>, k: int) -> int
    decreases k,
{
    if k <= 0 {
        0
    } else {
        sum_before(counts, k - 1) + counts[k - 1]
    }
}

proof fn lemma_sum_monotone(counts: Seq<usize>, i: int, j: int)
    requires
        0 <= i <= j <= counts.len(),
    ensures
        sum_before(counts, i) <= sum_before(counts, j),
    decreases j,
{
    if i < j {
        lemma_sum_monotone(counts, i, j - 1);
    }
}

proof fn lemma_sum_bump(counts: Seq<usize>, at: int, k: int)
    requires
        0 <= at < counts.len(),
        0 <= k <= counts.len(),
        counts[at] < usize::MAX,
    ensures
        sum_before(counts.update(at, (counts[at] + 1) as usize), k) == sum_before(counts, k) + (
        if at < k {
            1int
        } else {
            0int
        }),
    decreases k,
{
    if k > 0 {
        lemma_sum_bump(counts, at, k - 1);
    }
}

proof fn lemma_sum_zero(counts: Seq<usize>, k: int)
    requires
        0 <= k <= counts.len(),
        forall|i: int| 0 <= i < counts.len() ==> counts[i] == 0,
    ensures
        sum_before(counts, k) == 0,
    decreases k,
{
    if k > 0 {
        lemma_sum_zero(counts, k - 1);
    }
}

/// Where the texts of each article begin, and at last where they all end.
fn offsets_of(counts: &Vec<usize>, Ghost(total): Ghost<int>) -> (r: Vec<usize>)
    requires
        sum_before(counts@, counts@.len() as int) == total,
        total <= usize::MAX,
    ensures
        r@.len() == counts@.len() + 1,
        forall|i: int| 0 <= i < r@.len() ==> r@[i] == sum_before(counts@, i),
{
    let n: usize = counts.len();
    let mut out: Vec<usize> = Vec::with_capacity(n);
    let mut running: usize = 0;
    let mut i: usize = 0;
    while i < n
        invariant
            n == counts@.len(),
            i <= n,
            sum_before(counts@, n as int) == total,
            total <= usize::MAX,
            running == sum_before(counts@, i as int),
            out@.len() == i,
            forall|k: int| 0 <= k < i ==> out@[k] == sum_before(counts@, k),
        decreases n - i,
    {
        out.push(running);
        proof {
            lemma_sum_monotone(counts@, i + 1, n as int);
        }
        running = running + counts[i];
        i = i + 1;
    }
    out.push(running);
    out
}

impl Default for PerArticle {
    fn default() -> (r: Self)
        ensures
            r@ == Seq::<Seq<Seq<char>>>::empty(),
    {
        PerArticle { offsets: Vec::new(), values: Vec::new() }
    }
}

proof fn lemma_texts_of_grow(rows: Seq<(u32, String)>, id: int, cap: nat, i: int, j: int)
    requires
        0 <= i <= j <= rows.len(),
    ensures
        texts_of(rows.take(i), id, cap).len() <= texts_of(rows.take(j), id, cap).len(),
    decreases j - i,
{
    if i < j {
        lemma_texts_of_grow(rows, id, cap, i, j - 1);
        assert(rows.take(j).drop_last() =~= rows.take(j - 1));
    }
}

/// Put every text where its article's texts stand.
fn fill_texts(
    rows: &[(u32, String)],
    n: usize,
    cap: usize,
    total: usize,
    offsets: &Vec<usize>,
) -> (r: Vec<String>)
    requires
        offsets@.len() == n + 1,
        offsets@[n as int] == total,
        forall|a: int, b: int| 0 <= a <= b < offsets@.len() ==> offsets@[a] <= offsets@[b],
        forall|v: int|
            0 <= v < n ==> #[trigger] offsets@[v + 1] == offsets@[v] + texts_of(
                rows@,
                v,
                cap as nat,
            ).len(),
    ensures
        r@.len() == total,
        forall|v: int|
            0 <= v < n ==> #[trigger] texts(r@).subrange(
                offsets@[v] as int,
                offsets@[v + 1] as int,
            ) == texts_of(rows@, v, cap as nat),
{
    let ghost offs = offsets@;
    let mut values: Vec<String> = Vec::with_capacity(total);
    let mut k: usize = 0;
    while k < total
        invariant
            k <= total,
            values@.len() == k,
        decreases total - k,
    {
        values.push(String::new());
        k = k + 1;
    }
    let mut fill: Vec<usize> = Vec::with_capacity(n);
    let mut k: usize = 0;
    while k < n
        invariant
            k <= n,
            offs == offsets@,
            offs.len() == n + 1,
            fill@.len() == k,
            forall|v: int| 0 <= v < k ==> fill@[v] == offs[v],
        decreases n - k,
    {
        fill.push(offsets[k]);
        k = k + 1;
    }
    let m: usize = rows.len();
    let mut i: usize = 0;
    proof {
        assert(rows@.take(0) =~= Seq::<(u32, String)>::empty());
        assert forall|v: int| 0 <= v < n implies texts(values@).subrange(
            offs[v] as int,
            #[trigger] fill@[v] as int,
        ) == texts_of(rows@.take(0), v, cap as nat) by {
            assert(offs[v] <= offs[n as int]);
            assert(texts(values@).subrange(offs[v] as int, offs[v] as int) =~= Seq::<
                Seq<char>,
            >::empty());
        }
    }
    while i < m
        invariant
            m == rows@.len(),
            i <= m,
            offs == offsets@,
            offs.len() == n + 1,
            offs[n as int] == total,
            fill@.len() == n,
            values@.len() == total,
            forall|a: int, b: int| 0 <= a <= b < offs.len() ==> offs[a] <= offs[b],
            forall|v: int|
                0 <= v < n ==> #[trigger] offs[v + 1] == offs[v] + texts_of(
                    rows@,
                    v,
                    cap as nat,
                ).len(),
            forall|v: int|
                0 <= v < n ==> #[trigger] fill@[v] == offs[v] + texts_of(
                    rows@.take(i as int),
                    v,
                    cap as nat,
                ).len(),
            forall|v: int|
                0 <= v < n ==> texts(values@).subrange(
                    offs[v] as int,
                    #[trigger] fill@[v] as int,
                ) == texts_of(rows@.take(i as int), v, cap as nat),
        decreases m - i,
    {
        let id: u32 = rows[i].0;
        let ghost before = texts(values@);
        let ghost cur = fill@;
        proof {
            assert(rows@.take(i + 1).drop_last() =~= rows@.take(i as int));
            assert(rows@.take(m as int) =~= rows@);
            assert forall|v: int| 0 <= v < n implies #[trigger] cur[v] <= offs[v + 1] by {
                lemma_texts_of_grow(rows@, v, cap as nat, i as int, m as int);
            }
        }
        if (id as usize) < n {
            let s: usize = id as usize;
            let at: usize = fill[s];
            proof {
                lemma_texts_of_grow(rows@, id as int, cap as nat, i + 1, m as int);
                assert(offs[s + 1] == offs[s as int] + texts_of(rows@, id as int, cap as nat).len());
                lemma_texts_of_cap(rows@, id as int, cap as nat);
                if texts_of(rows@.take(i as int), id as int, cap as nat).len() == texts_of(
                    rows@,
                    id as int,
                    cap as nat,
                ).len() {
                    lemma_texts_of_full(rows@, id as int, cap as nat, i as int, m as int);
                }
            }
            if at < offsets[s + 1] {
                let text = rows[i].1.as_str().to_owned();
                proof {
                    assert(offs[s + 1] <= offs[n as int]);
                }
                values.set(at, text);
                fill.set(s, at + 1);
                proof {
                    assert(texts(values@) =~= before.update(at as int, text@));
                    assert forall|v: int| 0 <= v < n implies texts(values@).subrange(
                        offs[v] as int,
                        #[trigger] fill@[v] as int,
                    ) == texts_of(rows@.take(i + 1), v, cap as nat) && fill@[v] == offs[v]
                        + texts_of(rows@.take(i + 1), v, cap as nat).len() by {
                        assert(cur[v] <= offs[v + 1]);
                        if v == s {
                            assert(texts(values@).subrange(offs[v] as int, at as int)
                                =~= before.subrange(offs[v] as int, at as int));
                            assert(texts(values@).subrange(offs[v] as int, at + 1) =~= texts(
                                values@,
                            ).subrange(offs[v] as int, at as int).push(text@));
                        } else {
                            if v < s {
                                assert(offs[v + 1] <= offs[s as int]);
                            } else {
                                assert(offs[s + 1] <= offs[v]);
                            }
                            assert(offs[v + 1] <= offs[n as int]);
                            assert(texts(values@).subrange(offs[v] as int, cur[v] as int)
                                =~= before.subrange(offs[v] as int, cur[v] as int));
                        }
                    }
                }
            }
        }
        proof {
            assert forall|v: int| 0 <= v < n implies texts(values@).subrange(
                offs[v] as int,
                #[trigger] fill@[v] as int,
            ) == texts_of(rows@.take(i + 1), v, cap as nat) && fill@[v] == offs[v]
                + texts_of(rows@.take(i + 1), v, cap as nat).len() by {
                assert(cur[v] == offs[v] + texts_of(
                    rows@.take(i as int),
                    v,
                    cap as nat,
                ).len());
            }
        }
        i = i + 1;
    }
    proof {
        assert(rows@.take(m as int) =~= rows@);
        assert forall|v: int| 0 <= v < n implies #[trigger] texts(values@).subrange(
            offs[v] as int,
            offs[v + 1] as int,
        ) == texts_of(rows@, v, cap as nat) by {
            assert(fill@[v] == offs[v + 1]);
        }
    }
    values
}

proof fn lemma_texts_of_cap(rows: Seq<(u32, String)>, id: int, cap: nat)
    ensures
        texts_of(rows, id, cap).len() <= cap,
    decreases rows.len(),
{
    if rows.len() > 0 {
        lemma_texts_of_cap(rows.drop_last(), id, cap);
    }
}

/// An article whose texts are all there takes no more.
proof fn lemma_texts_of_full(rows: Seq<(u32, String)>, id: int, cap: nat, i: int, j: int)
    requires
        0 <= i < j <= rows.len(),
        rows[i].0 == id,
        texts_of(rows.take(i), id, cap).len() == texts_of(rows.take(j), id, cap).len(),
    ensures
        texts_of(rows.take(i + 1), id, cap) == texts_of(rows.take(i), id, cap),
        texts_of(rows.take(i), id, cap).len() >= cap,
{
    lemma_texts_of_grow(rows, id, cap, i + 1, j);
    assert(rows.take(i + 1).drop_last() =~= rows.take(i));
}

/// The last row with an id gives the number of that article, and an article
/// that no row names has zero.
pub proof fn law_the_last_row_counts(rows: Seq<(u32, u32)>, n: nat, id: u32, value: u32, v: int)
    requires
        0 <= v < n,
    ensures
        column(rows.push((id, value)), n)[v] == (if v == id {
            value
        } else {
            column(rows, n)[v]
        }),
        column(Seq::<(u32, u32)>::empty(), n)[v] == 0,
        column(rows, n).len() == n,
{
    lemma_column_length(rows, n);
    assert(rows.push((id, value)).drop_last() =~= rows);
}

proof fn lemma_column_length(rows: Seq<(u32, u32)>, n: nat)
    ensures
        column(rows, n).len() == n,
    decreases rows.len(),
{
    if rows.len() > 0 {
        lemma_column_length(rows.drop_last(), n);
    }
}

/// An article has the texts of its rows, in their order and as many as are
/// asked for at most.
pub proof fn law_the_first_texts_are_kept(
    rows: Seq<(u32, String)>,
    row: (u32, String),
    id: int,
    cap: nat,
)
    ensures
        texts_of(rows.push(row), id, cap) == (if row.0 == id && texts_of(rows, id, cap).len() < cap {
            texts_of(rows, id, cap).push(row.1@)
        } else {
            texts_of(rows, id, cap)
        }),
        texts_of(Seq::<(u32, String)>::empty(), id, cap).len() == 0,
{
    assert(rows.push(row).drop_last() =~= rows);
}
} // verus!
