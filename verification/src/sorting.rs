//! Sorting.

use vstd::prelude::*;
use vstd::seq_lib::{lemma_multiset_commutative, to_multiset_build};

verus! {

/// A way to put values in order.
pub type Order<T> = spec_fn(T, T) -> bool;

/// Any two values compare, and comparisons chain.
pub open spec fn is_order<T>(leq: Order<T>) -> bool {
    &&& forall|a: T, b: T| #[trigger] leq(a, b) || leq(b, a)
    &&& forall|a: T, b: T, c: T| #[trigger] leq(a, b) && #[trigger] leq(b, c) ==> leq(a, c)
}

/// Each value is no greater than those after it.
pub open spec fn in_order<T>(s: Seq<T>, leq: Order<T>) -> bool {
    forall|i: int, j: int| 0 <= i < j < s.len() ==> leq(#[trigger] s[i], #[trigger] s[j])
}

/// `f` computes `leq`.
pub open spec fn computes<T, F: Fn(T, T) -> bool>(f: F, leq: Order<T>) -> bool {
    &&& forall|a: T, b: T| #[trigger] call_requires(f, (a, b))
    &&& forall|a: T, b: T, r: bool| #[trigger] call_ensures(f, (a, b), r) ==> r == leq(a, b)
}

fn merge<T: Copy, F: Fn(T, T) -> bool>(
    a: &Vec<T>,
    b: &Vec<T>,
    f: &F,
    Ghost(leq): Ghost<Order<T>>,
) -> (r: Vec<T>)
    requires
        is_order(leq),
        computes(*f, leq),
        in_order(a@, leq),
        in_order(b@, leq),
        a@.len() + b@.len() <= usize::MAX,
    ensures
        in_order(r@, leq),
        r@.to_multiset() == a@.to_multiset().add(b@.to_multiset()),
        r@.len() == a@.len() + b@.len(),
{
    let n: usize = a.len();
    let m: usize = b.len();
    let mut out: Vec<T> = Vec::with_capacity(n + m);
    let mut i: usize = 0;
    let mut j: usize = 0;
    proof {
        assert(a@.take(0) =~= Seq::<T>::empty());
        assert(b@.take(0) =~= Seq::<T>::empty());
        assert(out@ =~= Seq::<T>::empty());
        out@.to_multiset_ensures();
        assert(out@.to_multiset() =~= a@.take(0).to_multiset().add(b@.take(0).to_multiset()));
    }
    while i < n || j < m
        invariant
            is_order(leq),
            computes(*f, leq),
            in_order(a@, leq),
            in_order(b@, leq),
            n == a@.len(),
            m == b@.len(),
            i <= n,
            j <= m,
            out@.len() == i + j,
            in_order(out@, leq),
            out@.to_multiset() == a@.take(i as int).to_multiset().add(
                b@.take(j as int).to_multiset(),
            ),
            forall|x: int, y: int|
                0 <= x < out@.len() && i <= y < n ==> leq(#[trigger] out@[x], #[trigger] a@[y]),
            forall|x: int, y: int|
                0 <= x < out@.len() && j <= y < m ==> leq(#[trigger] out@[x], #[trigger] b@[y]),
        decreases n - i + m - j,
    {
        let ghost before = out@;
        let left = if i >= n {
            false
        } else if j >= m {
            true
        } else {
            f(a[i], b[j])
        };
        if left {
            let x = a[i];
            proof {
                if j < m {
                    assert(leq(x, b@[j as int]));
                }
                assert forall|y: int| j <= y < m implies leq(x, #[trigger] b@[y]) by {
                    if y > j {
                        assert(leq(b@[j as int], b@[y]));
                    }
                }
                assert(a@.take(i + 1) =~= a@.take(i as int).push(x));
                to_multiset_build(a@.take(i as int), x);
                to_multiset_build(before, x);
                assert(before.push(x).to_multiset() =~= a@.take(i + 1).to_multiset().add(
                    b@.take(j as int).to_multiset(),
                ));
                assert(leq(x, x));
            }
            out.push(x);
            i = i + 1;
        } else {
            let x = b[j];
            proof {
                if i < n {
                    assert(leq(x, a@[i as int]) || leq(a@[i as int], x));
                }
                assert forall|y: int| i <= y < n implies leq(x, #[trigger] a@[y]) by {
                    if y > i {
                        assert(leq(a@[i as int], a@[y]));
                    }
                }
                assert(b@.take(j + 1) =~= b@.take(j as int).push(x));
                to_multiset_build(b@.take(j as int), x);
                to_multiset_build(before, x);
                assert(before.push(x).to_multiset() =~= a@.take(i as int).to_multiset().add(
                    b@.take(j + 1).to_multiset(),
                ));
                assert(leq(x, x));
            }
            out.push(x);
            j = j + 1;
        }
    }
    proof {
        assert(a@.take(n as int) =~= a@);
        assert(b@.take(m as int) =~= b@);
    }
    out
}

fn sort_range<T: Copy, F: Fn(T, T) -> bool>(
    v: &Vec<T>,
    lo: usize,
    hi: usize,
    f: &F,
    Ghost(leq): Ghost<Order<T>>,
) -> (r: Vec<T>)
    requires
        lo <= hi <= v@.len(),
        is_order(leq),
        computes(*f, leq),
    ensures
        in_order(r@, leq),
        r@.to_multiset() == v@.subrange(lo as int, hi as int).to_multiset(),
        r@.len() == hi - lo,
    decreases hi - lo,
{
    if hi - lo <= 1 {
        let mut r: Vec<T> = Vec::new();
        if lo < hi {
            r.push(v[lo]);
        }
        assert(r@ =~= v@.subrange(lo as int, hi as int));
        r
    } else {
        let mid: usize = lo + (hi - lo) / 2;
        let a = sort_range(v, lo, mid, f, Ghost(leq));
        let b = sort_range(v, mid, hi, f, Ghost(leq));
        let total: usize = v.len();
        let r = merge(&a, &b, f, Ghost(leq));
        proof {
            let x = v@.subrange(lo as int, mid as int);
            let y = v@.subrange(mid as int, hi as int);
            assert(v@.subrange(lo as int, hi as int) =~= x + y);
            lemma_multiset_commutative(x, y);
        }
        r
    }
}

/// Put values in order. What `f` computes is `leq`.
pub(crate) fn sort_by<T: Copy, F: Fn(T, T) -> bool>(
    v: &Vec<T>,
    f: &F,
    Ghost(leq): Ghost<Order<T>>,
) -> (r: Vec<T>)
    requires
        is_order(leq),
        computes(*f, leq),
    ensures
        in_order(r@, leq),
        r@.to_multiset() == v@.to_multiset(),
        r@.len() == v@.len(),
{
    let r = sort_range(v, 0, v.len(), f, Ghost(leq));
    assert(v@.subrange(0, v@.len() as int) =~= v@);
    r
}

/// Lists with the same values hold the same values.
pub proof fn lemma_same_members<T>(a: Seq<T>, b: Seq<T>)
    requires
        a.to_multiset() == b.to_multiset(),
    ensures
        forall|x: T| #![trigger a.contains(x)] #![trigger b.contains(x)] a.contains(x) == b.contains(x),
        a.len() == b.len(),
        a.no_duplicates() ==> b.no_duplicates(),
{
    a.to_multiset_ensures();
    b.to_multiset_ensures();
    assert forall|x: T| #![trigger a.contains(x)] a.contains(x) == b.contains(x) by {
        assert(a.contains(x) <==> a.to_multiset().count(x) > 0);
        assert(b.contains(x) <==> b.to_multiset().count(x) > 0);
    }
    if a.no_duplicates() {
        a.lemma_multiset_has_no_duplicates();
        assert forall|x: T| #[trigger] b.to_multiset().contains(x) implies b.to_multiset().count(x)
            == 1 by {
            assert(a.to_multiset().contains(x));
        }
        b.lemma_multiset_has_no_duplicates_conv();
    }
}

/// The numbers in increasing order, each once.
pub open spec fn increasing(s: Seq<u32>) -> bool {
    forall|i: int, j: int| 0 <= i < j < s.len() ==> #[trigger] s[i] < #[trigger] s[j]
}

/// Sort numbers and keep each once.
pub fn sort_dedup(v: &Vec<u32>) -> (r: Vec<u32>)
    ensures
        increasing(r@),
        forall|x: u32| #![trigger r@.contains(x)] r@.contains(x) <==> v@.contains(x),
        r@.len() <= v@.len(),
{
    let ghost leq = |a: u32, b: u32| a <= b;
    let f = |a: u32, b: u32| -> (r: bool)
        ensures
            r == (a <= b),
        { a <= b };
    let sorted = sort_by(v, &f, Ghost(leq));
    proof {
        lemma_same_members(sorted@, v@);
    }
    let n: usize = sorted.len();
    let mut out: Vec<u32> = Vec::new();
    let mut i: usize = 0;
    while i < n
        invariant
            n == sorted@.len(),
            i <= n,
            in_order(sorted@, |a: u32, b: u32| a <= b),
            increasing(out@),
            out@.len() <= i,
            i > 0 ==> out@.len() > 0 && out@.last() == sorted@[i - 1],
            forall|x: u32| #[trigger] out@.contains(x) ==> sorted@.contains(x),
            forall|k: int| 0 <= k < i ==> out@.contains(#[trigger] sorted@[k]),
        decreases n - i,
    {
        let x: u32 = sorted[i];
        if out.len() == 0 || out[out.len() - 1] != x {
            let ghost before = out@;
            proof {
                if i > 0 {
                    assert(sorted@[i - 1] <= sorted@[i as int]);
                }
            }
            out.push(x);
            proof {
                assert forall|y: u32| #[trigger] out@.contains(y) implies sorted@.contains(y) by {
                    let k = choose|k: int| 0 <= k < out@.len() && out@[k] == y;
                    if k < before.len() {
                        assert(before[k] == y);
                        assert(before.contains(y));
                    } else {
                        assert(sorted@[i as int] == y);
                    }
                }
                assert forall|k: int| 0 <= k < i + 1 implies out@.contains(#[trigger] sorted@[k]) by {
                    if k < i {
                        assert(before.contains(sorted@[k]));
                        let q = choose|q: int| 0 <= q < before.len() && before[q] == sorted@[k];
                        assert(out@[q] == sorted@[k]);
                    } else {
                        assert(out@[before.len() as int] == x);
                    }
                }
            }
        } else {
            assert(out@[out@.len() - 1] == x);
            assert(out@.contains(x));
        }
        i = i + 1;
    }
    proof {
        assert forall|x: u32| #![trigger out@.contains(x)] out@.contains(x) <==> v@.contains(x) by {
            if v@.contains(x) {
                assert(sorted@.contains(x));
                let k = choose|k: int| 0 <= k < sorted@.len() && sorted@[k] == x;
                assert(out@.contains(sorted@[k]));
            }
        }
    }
    out
}

/// Smaller numbers first.
pub open spec fn by_size() -> Order<u32> {
    |a: u32, b: u32| a <= b
}

/// `s` holds the numbers of `ids` in order.
pub open spec fn is_sorted_copy(s: Seq<u32>, ids: Seq<u32>) -> bool {
    &&& in_order(s, by_size())
    &&& s.to_multiset() == ids.to_multiset()
}

} // verus!
