//! Hubs: articles that so many others link to that a race through them is no
//! race.

use crate::csr::Csr;
use crate::levels::Ban;
use crate::sorting::{Order, lemma_same_members, sort_by};
use crate::walks::Adj;
use vstd::prelude::*;

verus! {

/// More articles link to `v` than the limit allows.
pub open spec fn is_hub(rev: Adj, limit: Option<usize>, v: u32) -> bool {
    limit matches Some(l) && v < rev.len() && rev[v as int].len() > l
}

/// A ban on hubs.
pub open spec fn hub_ban(rev: Adj, limit: Option<usize>) -> Ban {
    |v: u32| is_hub(rev, limit, v)
}

/// Whether more articles link to `v` than the limit allows.
pub fn over_limit(rev: &Csr, limit: Option<usize>, v: u32) -> (r: bool)
    ensures
        r == is_hub(rev@, limit, v),
{
    match limit {
        Some(l) => {
            let n: usize = rev.vertices();
            (v as usize) < n && rev.degree(v) > l
        },
        None => false,
    }
}

// ---------------------------------------------------------------------------
// Ranking by links
// ---------------------------------------------------------------------------

/// More articles link to `a` than to `b`, or as many and `a` has the smaller
/// id.
pub open spec fn more_linked(rev: Adj, a: u32, b: u32) -> bool {
    ||| rev[a as int].len() > rev[b as int].len()
    ||| rev[a as int].len() == rev[b as int].len() && a < b
}

/// `r` holds the `keep` most linked of `list`, the most linked first.
pub open spec fn is_most_linked(rev: Adj, list: Seq<u32>, keep: nat, r: Seq<u32>) -> bool {
    &&& r.len() == (if keep < list.len() {
        keep
    } else {
        list.len()
    })
    &&& forall|i: int, j: int|
        0 <= i < j < r.len() ==> more_linked(rev, #[trigger] r[i], #[trigger] r[j])
    &&& forall|i: int| 0 <= i < r.len() ==> list.contains(#[trigger] r[i])
    &&& forall|i: int, v: u32|
        0 <= i < r.len() && #[trigger] list.contains(v) && !r.contains(v) ==> more_linked(
            rev,
            #[trigger] r[i],
            v,
        )
}

/// The `keep` most linked articles of a list, the most linked first.
pub fn most_linked(rev: &Csr, list: &Vec<u32>, keep: usize) -> (r: Vec<u32>)
    requires
        list@.no_duplicates(),
        forall|i: int| 0 <= i < list@.len() ==> #[trigger] list@[i] < rev@.len(),
    ensures
        is_most_linked(rev@, list@, keep as nat, r@),
{
    let n: usize = rev.vertices();
    let ghost links = |v: u32|
        if v < rev@.len() {
            rev@[v as int].len() as int
        } else {
            -1int
        };
    let ghost leq: Order<u32> = |a: u32, b: u32| links(a) > links(b) || (links(a) == links(b) && a
        <= b);
    let f = |a: u32, b: u32| -> (r: bool)
        ensures
            r == ({
                let x = if a < rev@.len() {
                    rev@[a as int].len() as int
                } else {
                    -1int
                };
                let y = if b < rev@.len() {
                    rev@[b as int].len() as int
                } else {
                    -1int
                };
                x > y || (x == y && a <= b)
            }),
        {
            if (a as usize) < n {
                if (b as usize) < n {
                    let x: usize = rev.degree(a);
                    let y: usize = rev.degree(b);
                    x > y || (x == y && a <= b)
                } else {
                    true
                }
            } else if (b as usize) < n {
                false
            } else {
                a <= b
            }
        };
    let sorted = sort_by(list, &f, Ghost(leq));
    proof {
        lemma_same_members(list@, sorted@);
        assert forall|i: int| 0 <= i < sorted@.len() implies #[trigger] sorted@[i] < rev@.len()
            && list@.contains(sorted@[i]) by {
            assert(sorted@.contains(sorted@[i]));
            let k = choose|k: int| 0 <= k < list@.len() && list@[k] == sorted@[i];
            assert(list@[k] < rev@.len());
        }
        assert forall|i: int, j: int| 0 <= i < j < sorted@.len() implies more_linked(
            rev@,
            #[trigger] sorted@[i],
            #[trigger] sorted@[j],
        ) by {
            assert(leq(sorted@[i], sorted@[j]));
            assert(sorted@[i] != sorted@[j]);
        }
    }
    let ghost all = sorted@;
    let mut r = sorted;
    if keep < r.len() {
        r.truncate(keep);
        assert(r@ =~= all.take(keep as int));
    }
    proof {
        assert forall|i: int, v: u32|
            0 <= i < r@.len() && #[trigger] list@.contains(v) && !r@.contains(v) implies more_linked(
            rev@,
            #[trigger] r@[i],
            v,
        ) by {
            assert(all.contains(v));
            let k = choose|k: int| 0 <= k < all.len() && all[k] == v;
            if k < r@.len() {
                assert(r@[k] == v);
            }
            assert(r@[i] == all[i]);
            assert(more_linked(rev@, all[i], all[k]));
        }
        assert forall|i: int, j: int| 0 <= i < j < r@.len() implies more_linked(
            rev@,
            #[trigger] r@[i],
            #[trigger] r@[j],
        ) by {
            assert(r@[i] == all[i] && r@[j] == all[j]);
        }
        assert forall|i: int| 0 <= i < r@.len() implies list@.contains(#[trigger] r@[i]) by {
            assert(r@[i] == all[i]);
        }
    }
    r
}

/// A hub has more incoming links than the limit, not as many; without a limit
/// there is none. A lower limit makes no fewer hubs.
pub proof fn law_hubs_are_above_the_limit(rev: Adj, low: usize, high: usize, v: u32)
    requires
        v < rev.len(),
        low <= high,
    ensures
        rev[v as int].len() == low ==> !is_hub(rev, Some(low), v),
        rev[v as int].len() == low + 1 ==> is_hub(rev, Some(low), v),
        is_hub(rev, Some(high), v) ==> is_hub(rev, Some(low), v),
        !is_hub(rev, None, v),
        hub_ban(rev, Some(low))(v) == is_hub(rev, Some(low), v),
{
}

/// Of the articles on a list those are kept that have the most incoming links,
/// as many as are asked for, the most linked first and of equals the one with
/// the lower id.
pub proof fn law_the_most_linked_are_kept(rev: Adj, list: Seq<u32>, keep: nat, r: Seq<u32>)
    requires
        is_most_linked(rev, list, keep, r),
    ensures
        r.len() <= keep,
        r.len() == keep || r.len() == list.len(),
        forall|i: int, j: int|
            0 <= i < j < r.len() ==> rev[#[trigger] r[i] as int].len() >= rev[#[trigger] r[j] as int].len()
                && r[i] != r[j],
        forall|i: int, j: int|
            0 <= i < j < r.len() && rev[r[i] as int].len() == rev[r[j] as int].len()
                ==> #[trigger] r[i] < #[trigger] r[j],
        forall|i: int, v: u32|
            0 <= i < r.len() && #[trigger] list.contains(v) && !r.contains(v)
                ==> rev[#[trigger] r[i] as int].len() >= rev[v as int].len(),
        forall|i: int| 0 <= i < r.len() ==> list.contains(#[trigger] r[i]),
{
}
} // verus!
