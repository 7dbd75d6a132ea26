//! Which of several shortest paths a search from both ends comes upon.
//!
//! A search lists each level in the order in which it comes upon the vertices,
//! and a vertex hangs on the first one of the level before that links to it.
//! The side with the smaller level goes on, until the two meet.

use crate::levels::NONE;
use crate::walks::{Adj, Allowed, distance, edge};
use vstd::prelude::*;

verus! {

/// `out`, and after it what is new in `list` of what counts.
pub open spec fn with_new(
    out: Seq<u32>,
    list: Seq<u32>,
    counts: spec_fn(u32) -> bool,
) -> Seq<u32>
    decreases list.len(),
{
    if list.len() == 0 {
        out
    } else {
        let rest = with_new(out, list.drop_last(), counts);
        if counts(list.last()) && !rest.contains(list.last()) {
            rest.push(list.last())
        } else {
            rest
        }
    }
}

/// What counts of what some vertices link to, each once and in order.
pub open spec fn new_links(
    adj: Adj,
    from: Seq<u32>,
    counts: spec_fn(u32) -> bool,
) -> Seq<u32>
    decreases from.len(),
{
    if from.len() == 0 {
        seq![]
    } else {
        with_new(new_links(adj, from.drop_last(), counts), adj[from.last() as int], counts)
    }
}

/// The vertices `k` steps away from `src`.
pub open spec fn at_distance(adj: Adj, ok: Allowed, src: u32, k: nat) -> spec_fn(u32) -> bool {
    |v: u32| distance(adj, ok, src, v) == Some(k)
}

/// The vertices `k` steps away from `src`, in the order of a search.
pub open spec fn level(adj: Adj, ok: Allowed, src: u32, k: nat) -> Seq<u32>
    decreases k,
{
    if k == 0 {
        seq![src]
    } else {
        let before = level(adj, ok, src, (k - 1) as nat);
        new_links(adj, before, at_distance(adj, ok, src, k))
    }
}

/// The first of some vertices that links to `w`.
pub open spec fn first_linking(adj: Adj, from: Seq<u32>, w: u32) -> u32
    decreases from.len(),
{
    if from.len() == 0 {
        NONE
    } else if edge(adj, from[0], w) {
        from[0]
    } else {
        first_linking(adj, from.drop_first(), w)
    }
}

/// The vertex that `w` hangs on, `k` steps away from `src`.
pub open spec fn parent_of(adj: Adj, ok: Allowed, src: u32, w: u32, k: nat) -> u32 {
    first_linking(adj, level(adj, ok, src, (k - 1) as nat), w)
}

/// The way back to `src` from `w`, which is `k` steps away.
pub open spec fn trail(adj: Adj, ok: Allowed, src: u32, w: u32, k: nat) -> Seq<u32>
    decreases k,
{
    if k == 0 {
        seq![w]
    } else {
        seq![w] + trail(adj, ok, src, parent_of(adj, ok, src, w, k), (k - 1) as nat)
    }
}

/// Whether the search from the start goes on, at these depths.
pub open spec fn start_goes_on(
    fwd: Adj,
    rev: Adj,
    ok: Allowed,
    start: u32,
    goal: u32,
    depths: (nat, nat),
) -> bool {
    level(fwd, ok, start, depths.0).len() <= level(rev, ok, goal, depths.1).len()
}

/// How deep the two searches are after `m` levels together.
pub open spec fn depths_after(
    fwd: Adj,
    rev: Adj,
    ok: Allowed,
    start: u32,
    goal: u32,
    m: nat,
) -> (nat, nat)
    decreases m,
{
    if m == 0 {
        (0, 0)
    } else {
        let before = depths_after(fwd, rev, ok, start, goal, (m - 1) as nat);
        if start_goes_on(fwd, rev, ok, start, goal, before) {
            (before.0 + 1, before.1)
        } else {
            (before.0, before.1 + 1)
        }
    }
}

/// The first of a list that counts.
pub open spec fn first_at(list: Seq<u32>, counts: spec_fn(u32) -> bool) -> u32
    decreases list.len(),
{
    if list.len() == 0 {
        NONE
    } else if counts(list[0]) {
        list[0]
    } else {
        first_at(list.drop_first(), counts)
    }
}

/// Where two searches meet whose ends are `d` steps apart: at the first vertex
/// of the last level that is as far from the other end as the other search is
/// deep.
pub open spec fn meeting(
    fwd: Adj,
    rev: Adj,
    ok: Allowed,
    start: u32,
    goal: u32,
    d: nat,
) -> u32 {
    let before = depths_after(fwd, rev, ok, start, goal, (d - 1) as nat);
    if start_goes_on(fwd, rev, ok, start, goal, before) {
        first_at(
            level(fwd, ok, start, before.0 + 1),
            at_distance(rev, ok, goal, before.1),
        )
    } else {
        first_at(
            level(rev, ok, goal, before.1 + 1),
            at_distance(fwd, ok, start, before.0),
        )
    }
}

/// The shortest path that a search from both ends comes upon.
pub open spec fn found_path(
    fwd: Adj,
    rev: Adj,
    ok: Allowed,
    start: u32,
    goal: u32,
) -> Option<Seq<u32>> {
    match distance(fwd, ok, start, goal) {
        Some(d) => if d == 0 {
            Some(seq![start])
        } else {
            let (f, b) = depths_after(fwd, rev, ok, start, goal, d);
            let meet = meeting(fwd, rev, ok, start, goal, d);
            Some(
                trail(fwd, ok, start, meet, f).reverse() + trail(
                    rev,
                    ok,
                    goal,
                    meet,
                    b,
                ).drop_first(),
            )
        },
        None => None,
    }
}

/// Every vertex that was reached, but `src`, hangs on the first that links to it.
pub open spec fn tree_known(
    adj: Adj,
    ok: Allowed,
    src: u32,
    dist: Seq<u32>,
    parent: Seq<u32>,
) -> bool {
    forall|v: int|
        #![trigger parent[v]]
        0 <= v < adj.len() && dist[v] != NONE && v != src ==> parent[v] == parent_of(
            adj,
            ok,
            src,
            v as u32,
            dist[v] as nat,
        )
}

pub proof fn lemma_first_linking(adj: Adj, from: Seq<u32>, w: u32, i: int)
    requires
        0 <= i < from.len(),
        edge(adj, from[i], w),
        forall|k: int| 0 <= k < i ==> !edge(adj, #[trigger] from[k], w),
    ensures
        first_linking(adj, from, w) == from[i],
    decreases i,
{
    if i > 0 {
        assert(!edge(adj, from[0], w));
        let rest = from.drop_first();
        assert forall|k: int| 0 <= k < i - 1 implies !edge(adj, #[trigger] rest[k], w) by {
            assert(rest[k] == from[k + 1]);
        }
        assert(rest[i - 1] == from[i]);
        lemma_first_linking(adj, rest, w, i - 1);
    }
}

pub proof fn lemma_first_at(list: Seq<u32>, counts: spec_fn(u32) -> bool, i: int)
    requires
        0 <= i < list.len(),
        counts(list[i]),
        forall|k: int| 0 <= k < i ==> !counts(#[trigger] list[k]),
    ensures
        first_at(list, counts) == list[i],
    decreases i,
{
    if i > 0 {
        assert(!counts(list[0]));
        let rest = list.drop_first();
        assert forall|k: int| 0 <= k < i - 1 implies !counts(#[trigger] rest[k]) by {
            assert(rest[k] == list[k + 1]);
        }
        assert(rest[i - 1] == list[i]);
        lemma_first_at(rest, counts, i - 1);
    }
}

} // verus!
