//! Computing races beforehand.
//!
//! Every candidate is searched from, and the pairs at a par that counts are
//! kept by a reservoir per par, so that memory stays bounded. Routes are
//! counted only for the pairs that are kept.

use crate::csr::Csr;
use crate::graph::Graph;
use crate::hubs::{hub_ban, is_hub, is_most_linked, most_linked, over_limit};
use crate::levels::{answers, open_between};
use crate::paths::{PathFinder, shortest_count};
use crate::pools::{PAR_SPAN, Pair};
use crate::rng::{Rng, next_number, next_state, seeded};
use crate::sorting::{Order, in_order, sort_by};
use crate::sweep::{UNSEEN, distance_row, recorded, sweep, unblocked};
use crate::walks::{Adj, Allowed, distance};
use vstd::multiset::Multiset;
use vstd::prelude::*;
use vstd::seq_lib::{lemma_multiset_commutative, to_multiset_build, to_multiset_update};

verus! {

/// Record how far every article is from `src`, up to `max_depth` clicks and
/// around hubs. `queue` is scratch space.
pub fn bfs_forward(
    graph: &Graph,
    src: u32,
    ban_degree: Option<usize>,
    max_depth: u8,
    dist: &mut Vec<u8>,
    queue: &mut Vec<u32>,
)
    requires
        graph.wf(),
        src < graph.titles@.len(),
        old(dist)@.len() == graph.titles@.len(),
    ensures
        final(dist)@ == distance_row(
            graph.forward@,
            unblocked(hub_ban(graph.reverse@, ban_degree)),
            src,
            max_depth,
        ),
{
    let rev = &graph.reverse;
    let blocked = |v: u32| -> (b: bool)
        ensures
            b == is_hub(rev@, ban_degree, v),
        { over_limit(rev, ban_degree, v) };
    sweep(
        &graph.forward,
        src,
        &blocked,
        max_depth,
        dist,
        queue,
        Ghost(hub_ban(graph.reverse@, ban_degree)),
    );
}

// ---------------------------------------------------------------------------
// Reservoirs
// ---------------------------------------------------------------------------

/// A sample of what was offered.
pub struct ThreadBucket {
    pub pairs: Vec<(u32, u32)>,
    pub seen: u64,
}

/// What a reservoir of `cap` places holds of what was offered: as much as
/// fits, and nothing that was not offered.
pub open spec fn is_sample(kept: Seq<(u32, u32)>, offered: Seq<(u32, u32)>, cap: nat) -> bool {
    &&& kept.to_multiset().subset_of(offered.to_multiset())
    &&& kept.len() == (if offered.len() <= cap {
        offered.len()
    } else {
        cap
    })
}

/// What a reservoir holds after an offer, and the state of the generator.
pub open spec fn after_offer(
    kept: Seq<(u32, u32)>,
    seen: u64,
    pair: (u32, u32),
    cap: usize,
    state: u64,
) -> (Seq<(u32, u32)>, u64) {
    if kept.len() < cap {
        (kept.push(pair), state)
    } else {
        let r = next_number(state) as int % (seen + 1);
        (
            if r < cap {
                kept.update(r, pair)
            } else {
                kept
            },
            next_state(state),
        )
    }
}

impl ThreadBucket {
    pub fn new() -> (r: Self)
        ensures
            r.pairs@.len() == 0,
            r.seen == 0,
    {
        ThreadBucket { pairs: Vec::new(), seen: 0 }
    }

    /// Offer a pair to the reservoir of `cap` places.
    pub fn offer(&mut self, pair: (u32, u32), cap: usize, rng: &mut Rng)
        requires
            old(self).seen < u64::MAX,
        ensures
            final(self).seen == old(self).seen + 1,
            (final(self).pairs@, final(rng).state()) == after_offer(
                old(self).pairs@,
                old(self).seen,
                pair,
                cap,
                old(rng).state(),
            ),
    {
        self.seen = self.seen + 1;
        if self.pairs.len() < cap {
            self.pairs.push(pair);
        } else {
            let r: u64 = rng.next_u64() % self.seen;
            if r < cap as u64 {
                self.pairs.set(r as usize, pair);
            }
        }
    }
}

/// An offer keeps a sample a sample.
pub proof fn law_offers_keep_a_sample(
    kept: Seq<(u32, u32)>,
    offered: Seq<(u32, u32)>,
    pair: (u32, u32),
    cap: usize,
    state: u64,
)
    requires
        is_sample(kept, offered, cap as nat),
        offered.len() < u64::MAX,
    ensures
        is_sample(
            after_offer(kept, offered.len() as u64, pair, cap, state).0,
            offered.push(pair),
            cap as nat,
        ),
{
    broadcast use vstd::multiset::group_multiset_axioms;

    let after = after_offer(kept, offered.len() as u64, pair, cap, state).0;
    to_multiset_build(offered, pair);
    let all = offered.push(pair).to_multiset();
    assert forall|x: (u32, u32)| #[trigger] after.to_multiset().count(x) <= all.count(x) by {
        assert(kept.to_multiset().count(x) <= offered.to_multiset().count(x));
        if kept.len() < cap {
            to_multiset_build(kept, pair);
        } else {
            let r = next_number(state) as int % (offered.len() as int + 1);
            if r < cap {
                to_multiset_update(kept, r, pair);
                assert(after.to_multiset() == kept.to_multiset().insert(pair).remove(kept[r]));
                assert(kept.to_multiset().insert(pair).remove(kept[r]).count(x)
                    <= kept.to_multiset().insert(pair).count(x));
            }
        }
    }
}

// ---------------------------------------------------------------------------
// Workers
// ---------------------------------------------------------------------------

/// The pairs from `src` to the candidates that are `par` clicks away.
pub open spec fn pairs_from(
    adj: Adj,
    ok: Allowed,
    src: u32,
    candidates: Seq<u32>,
    par: nat,
) -> Seq<(u32, u32)>
    decreases candidates.len(),
{
    if candidates.len() == 0 {
        seq![]
    } else {
        let rest = pairs_from(adj, ok, src, candidates.drop_last(), par);
        let t = candidates.last();
        if t != src && distance(adj, ok, src, t) == Some(par) {
            rest.push((src, t))
        } else {
            rest
        }
    }
}

/// What a worker has: what was offered to each reservoir, what each holds, and
/// the state of the generator.
#[verifier::ext_equal]
pub struct WorkerView {
    pub offered: Seq<Seq<(u32, u32)>>,
    pub kept: Seq<Seq<(u32, u32)>>,
    pub state: u64,
}

/// What the generator of worker number `ti` starts from.
pub open spec fn worker_seed(ti: usize) -> u64 {
    0x9E37_79B9u64 ^ ((ti as u64) << 32u64)
}

/// Worker number `ti` before any search.
pub open spec fn fresh_worker(ti: usize) -> WorkerView {
    let none = Seq::<(u32, u32)>::empty();
    WorkerView {
        offered: seq![none, none, none, none],
        kept: seq![none, none, none, none],
        state: seeded(worker_seed(ti)),
    }
}

/// A worker after an offer to its reservoir number `off`.
pub open spec fn after_pair(v: WorkerView, off: int, pair: (u32, u32), cap: usize) -> WorkerView {
    let (kept, state) = after_offer(
        v.kept[off],
        v.offered[off].len() as u64,
        pair,
        cap,
        v.state,
    );
    WorkerView {
        offered: v.offered.update(off, v.offered[off].push(pair)),
        kept: v.kept.update(off, kept),
        state,
    }
}

/// A worker after a search from `src`: the candidates that are at a par that
/// counts were offered in turn, each to the reservoir of its par.
pub open spec fn after_visit(
    v: WorkerView,
    adj: Adj,
    ok: Allowed,
    src: u32,
    candidates: Seq<u32>,
    min_len: nat,
    cap: usize,
) -> WorkerView
    decreases candidates.len(),
{
    if candidates.len() == 0 {
        v
    } else {
        let before = after_visit(v, adj, ok, src, candidates.drop_last(), min_len, cap);
        let t = candidates.last();
        match distance(adj, ok, src, t) {
            Some(d) => if t != src && min_len <= d < min_len + PAR_SPAN {
                after_pair(before, d - min_len, (src, t), cap)
            } else {
                before
            },
            None => before,
        }
    }
}

/// One of those who search. Each has its own reservoirs and its own generator.
pub struct Worker {
    rng: Rng,
    cap: usize,
    dist: Vec<u8>,
    queue: Vec<u32>,
    buckets: Vec<ThreadBucket>,
    offered: Ghost<Seq<Seq<(u32, u32)>>>,
}

impl Worker {
    /// What was offered to each reservoir.
    pub closed spec fn offered(&self) -> Seq<Seq<(u32, u32)>> {
        self.offered@
    }

    /// What each reservoir holds.
    pub closed spec fn kept(&self, off: int) -> Seq<(u32, u32)> {
        self.buckets@[off].pairs@
    }

    pub closed spec fn size(&self) -> nat {
        self.dist@.len()
    }

    pub closed spec fn capacity(&self) -> usize {
        self.cap
    }

    pub closed spec fn view(&self) -> WorkerView {
        WorkerView {
            offered: self.offered@,
            kept: Seq::new(self.buckets@.len(), |off: int| self.buckets@[off].pairs@),
            state: self.rng.state(),
        }
    }

    /// The view holds what each reservoir does.
    pub proof fn lemma_view(&self)
        requires
            self.wf(),
        ensures
            self@.offered == self.offered(),
            self@.kept.len() == PAR_SPAN,
            forall|off: int| 0 <= off < PAR_SPAN ==> #[trigger] self@.kept[off] == self.kept(off),
    {
    }

    pub closed spec fn wf(&self) -> bool {
        &&& self.buckets@.len() == PAR_SPAN
        &&& self.offered@.len() == PAR_SPAN
        &&& forall|off: int|
            0 <= off < PAR_SPAN ==> #[trigger] is_sample(
                self.buckets@[off].pairs@,
                self.offered@[off],
                self.cap as nat,
            ) && self.buckets@[off].seen == self.offered@[off].len()
    }

    /// Worker number `ti`, for a graph of `n` articles, keeping up to `cap`
    /// pairs of each par.
    pub fn new(n: usize, ti: usize, cap: usize) -> (r: Self)
        requires
            n <= u32::MAX,
        ensures
            r.wf(),
            r.size() == n,
            r.capacity() == cap,
            r.offered() == seq![
                Seq::<(u32, u32)>::empty(),
                Seq::<(u32, u32)>::empty(),
                Seq::<(u32, u32)>::empty(),
                Seq::<(u32, u32)>::empty(),
            ],
            r@ == fresh_worker(ti),
    {
        let mut dist: Vec<u8> = Vec::with_capacity(n);
        let mut i: usize = 0;
        while i < n
            invariant
                i <= n,
                dist@.len() == i,
            decreases n - i,
        {
            dist.push(UNSEEN);
            i = i + 1;
        }
        let mut buckets: Vec<ThreadBucket> = Vec::new();
        let mut k: usize = 0;
        while k < PAR_SPAN
            invariant
                k <= PAR_SPAN,
                buckets@.len() == k,
                forall|j: int|
                    0 <= j < k ==> (#[trigger] buckets@[j]).pairs@.len() == 0 && buckets@[j].seen
                        == 0,
            decreases PAR_SPAN - k,
        {
            buckets.push(ThreadBucket::new());
            k = k + 1;
        }
        let ghost empty = Seq::<(u32, u32)>::empty();
        let ghost none = seq![empty, empty, empty, empty];
        let seed: u64 = 0x9E37_79B9 ^ ((ti as u64) << 32);
        let r = Worker { rng: Rng::new(seed), cap, dist, queue: Vec::new(), buckets, offered: Ghost(none) };
        proof {
            assert forall|off: int| 0 <= off < PAR_SPAN implies #[trigger] is_sample(
                r.buckets@[off].pairs@,
                r.offered@[off],
                r.cap as nat,
            ) by {
                assert(r.buckets@[off].pairs@ =~= Seq::<(u32, u32)>::empty());
            }
            assert forall|off: int| 0 <= off < PAR_SPAN implies #[trigger] r@.kept[off]
                == Seq::<(u32, u32)>::empty() by {
                assert(r.buckets@[off].pairs@ =~= Seq::<(u32, u32)>::empty());
            }
            assert(r@.kept =~= fresh_worker(ti).kept);
        }
        r
    }

    /// Search from one candidate, and offer the pairs it is the start of.
    pub fn visit(
        &mut self,
        graph: &Graph,
        candidates: &[u32],
        src: u32,
        min_len: usize,
        ban_degree: Option<usize>,
    )
        requires
            old(self).wf(),
            graph.wf(),
            old(self).size() == graph.titles@.len(),
            src < graph.titles@.len(),
            forall|i: int|
                0 <= i < candidates@.len() ==> #[trigger] candidates@[i] < graph.titles@.len(),
            min_len + PAR_SPAN <= UNSEEN,
            forall|off: int|
                0 <= off < PAR_SPAN ==> (#[trigger] old(self).offered()[off]).len()
                    + candidates@.len() <= u64::MAX,
        ensures
            final(self).wf(),
            final(self).size() == old(self).size(),
            final(self).capacity() == old(self).capacity(),
            final(self).offered().len() == PAR_SPAN,
            forall|off: int|
                0 <= off < PAR_SPAN ==> #[trigger] final(self).offered()[off] == old(
                    self,
                ).offered()[off] + pairs_from(
                    graph.forward@,
                    unblocked(hub_ban(graph.reverse@, ban_degree)),
                    src,
                    candidates@,
                    (min_len + off) as nat,
                ),
            final(self)@ == after_visit(
                old(self)@,
                graph.forward@,
                unblocked(hub_ban(graph.reverse@, ban_degree)),
                src,
                candidates@,
                min_len as nat,
                old(self).capacity(),
            ),
    {
        let ghost adj = graph.forward@;
        let ghost ok = unblocked(hub_ban(graph.reverse@, ban_degree));
        let ghost given = self.offered@;
        let max_depth: u8 = (min_len + PAR_SPAN - 1) as u8;
        bfs_forward(graph, src, ban_degree, max_depth, &mut self.dist, &mut self.queue);
        let n: usize = candidates.len();
        let mut i: usize = 0;
        proof {
            assert(candidates@.take(0) =~= Seq::<u32>::empty());
            assert forall|off: int| 0 <= off < PAR_SPAN implies (#[trigger] given[off]).len() + n
                <= u64::MAX by {
                assert(old(self).offered()[off].len() + n <= u64::MAX);
            }
            assert forall|off: int| 0 <= off < PAR_SPAN implies #[trigger] self.offered@[off]
                == given[off] + pairs_from(
                adj,
                ok,
                src,
                candidates@.take(0),
                (min_len + off) as nat,
            ) by {
                assert(given[off] + Seq::<(u32, u32)>::empty() =~= given[off]);
            }
        }
        while i < n
            invariant
                n == candidates@.len(),
                i <= n,
                graph.wf(),
                adj == graph.forward@,
                forall|k: int| 0 <= k < n ==> #[trigger] candidates@[k] < adj.len(),
                min_len + PAR_SPAN <= UNSEEN,
                max_depth == min_len + PAR_SPAN - 1,
                self.wf(),
                self.cap == old(self).cap,
                self.dist@.len() == old(self).dist@.len(),
                self.dist@ == distance_row(adj, ok, src, max_depth),
                given == old(self).offered@,
                self@ == after_visit(
                    old(self)@,
                    adj,
                    ok,
                    src,
                    candidates@.take(i as int),
                    min_len as nat,
                    self.cap,
                ),
                forall|off: int|
                    0 <= off < PAR_SPAN ==> (#[trigger] given[off]).len() + n <= u64::MAX,
                forall|off: int|
                    0 <= off < PAR_SPAN ==> #[trigger] self.offered@[off] == given[off]
                        + pairs_from(
                        adj,
                        ok,
                        src,
                        candidates@.take(i as int),
                        (min_len + off) as nat,
                    ),
            decreases n - i,
        {
            let t: u32 = candidates[i];
            let d: usize = self.dist[t as usize] as usize;
            let ghost before = self.offered@;
            let ghost was = self@;
            proof {
                assert(candidates@.take(i + 1).drop_last() =~= candidates@.take(i as int));
                assert(candidates@.take(i + 1).last() == t);
                assert(self.dist@[t as int] == recorded(distance(adj, ok, src, t), max_depth));
                assert forall|off: int| 0 <= off < PAR_SPAN implies (#[trigger] before[off]).len()
                    < u64::MAX by {
                    lemma_pairs_bounded(
                        adj,
                        ok,
                        src,
                        candidates@.take(i as int),
                        (min_len + off) as nat,
                    );
                }
            }
            if t != src && d >= min_len && d < min_len + PAR_SPAN {
                let off: usize = d - min_len;
                let ghost state = self.rng.state();
                proof {
                    assert(before[off as int].len() < u64::MAX);
                    assert(is_sample(
                        self.buckets@[off as int].pairs@,
                        self.offered@[off as int],
                        self.cap as nat,
                    ));
                    law_offers_keep_a_sample(
                        self.buckets@[off as int].pairs@,
                        before[off as int],
                        (src, t),
                        self.cap,
                        state,
                    );
                }
                let ghost buckets0 = self.buckets@;
                let mut b = ThreadBucket::new();
                core::mem::swap(&mut b, &mut self.buckets[off]);
                b.offer((src, t), self.cap, &mut self.rng);
                core::mem::swap(&mut b, &mut self.buckets[off]);
                proof {
                    self.offered@ = before.update(off as int, before[off as int].push((src, t)));
                    assert forall|o: int| 0 <= o < PAR_SPAN implies #[trigger] is_sample(
                        self.buckets@[o].pairs@,
                        self.offered@[o],
                        self.cap as nat,
                    ) && self.buckets@[o].seen == self.offered@[o].len() by {
                        assert(is_sample(buckets0[o].pairs@, before[o], self.cap as nat));
                    }
                    assert(was.kept[off as int] == buckets0[off as int].pairs@);
                    assert(self@.kept =~= after_pair(was, off as int, (src, t), self.cap).kept);
                    assert(self@ =~= after_pair(was, off as int, (src, t), self.cap));
                }
            }
            proof {
                assert forall|off: int| 0 <= off < PAR_SPAN implies #[trigger] self.offered@[off]
                    == given[off] + pairs_from(
                    adj,
                    ok,
                    src,
                    candidates@.take(i + 1),
                    (min_len + off) as nat,
                ) by {
                    let old_pairs = pairs_from(
                        adj,
                        ok,
                        src,
                        candidates@.take(i as int),
                        (min_len + off) as nat,
                    );
                    assert(before[off] == given[off] + old_pairs);
                    assert((given[off] + old_pairs).push((src, t)) =~= given[off] + old_pairs.push(
                        (src, t),
                    ));
                }
            }
            i = i + 1;
        }
        assert(candidates@.take(n as int) =~= candidates@);
    }
}

proof fn lemma_pairs_bounded(
    adj: Adj,
    ok: Allowed,
    src: u32,
    candidates: Seq<u32>,
    par: nat,
)
    ensures
        pairs_from(adj, ok, src, candidates, par).len() <= candidates.len(),
    decreases candidates.len(),
{
    if candidates.len() > 0 {
        lemma_pairs_bounded(adj, ok, src, candidates.drop_last(), par);
    }
}

// ---------------------------------------------------------------------------
// Putting together what the workers kept
// ---------------------------------------------------------------------------

/// All that was offered to the reservoirs of some workers for one par.
pub open spec fn pooled(workers: Seq<Worker>, off: int) -> Multiset<(u32, u32)>
    decreases workers.len(),
{
    if workers.len() == 0 {
        Multiset::empty()
    } else {
        pooled(workers.drop_last(), off).add(workers.last().offered()[off].to_multiset())
    }
}

pub open spec fn pair_order() -> Order<(u32, u32)> {
    |a: (u32, u32), b: (u32, u32)| a.0 < b.0 || (a.0 == b.0 && a.1 <= b.1)
}

/// Up to `cap` of the pairs that were offered, in order.
pub open spec fn is_selection(
    s: Seq<(u32, u32)>,
    offered: Multiset<(u32, u32)>,
    cap: nat,
) -> bool {
    &&& in_order(s, pair_order())
    &&& s.to_multiset().subset_of(offered)
    &&& s.len() == (if offered.len() <= cap {
        offered.len()
    } else {
        cap
    })
}

proof fn lemma_subset_added(
    a: Multiset<(u32, u32)>,
    b: Multiset<(u32, u32)>,
    c: Multiset<(u32, u32)>,
    d: Multiset<(u32, u32)>,
)
    requires
        a.subset_of(b),
        c.subset_of(d),
    ensures
        a.add(c).subset_of(b.add(d)),
{
    broadcast use vstd::multiset::group_multiset_axioms;

    assert forall|x: (u32, u32)| #[trigger] a.add(c).count(x) <= b.add(d).count(x) by {
        assert(a.count(x) <= b.count(x));
        assert(c.count(x) <= d.count(x));
    }
}

proof fn lemma_take_is_part(s: Seq<(u32, u32)>, k: int)
    requires
        0 <= k <= s.len(),
    ensures
        s.take(k).to_multiset().subset_of(s.to_multiset()),
{
    broadcast use vstd::multiset::group_multiset_axioms;

    assert(s =~= s.take(k) + s.skip(k));
    lemma_multiset_commutative(s.take(k), s.skip(k));
}

proof fn lemma_swap_keeps(s: Seq<(u32, u32)>, i: int, j: int)
    requires
        0 <= i < s.len(),
        0 <= j < s.len(),
    ensures
        s.update(i, s[j]).update(j, s[i]).to_multiset() == s.to_multiset(),
{
    broadcast use vstd::multiset::group_multiset_axioms;

    let a = s.update(i, s[j]);
    to_multiset_update(s, i, s[j]);
    to_multiset_update(a, j, s[i]);
    s.to_multiset_ensures();
    assert(s.contains(s[i]));
    assert(s.contains(s[j]));
    assert(s.to_multiset().count(s[i]) > 0);
    assert(s.to_multiset().count(s[j]) > 0);
    assert(a[j] == s[j]);
    assert(a.update(j, s[i]).to_multiset() =~= s.to_multiset());
}

proof fn lemma_subset_len(a: Multiset<(u32, u32)>, b: Multiset<(u32, u32)>)
    requires
        a.subset_of(b),
    ensures
        a.len() <= b.len(),
{
    broadcast use vstd::multiset::group_multiset_axioms;

    assert(b.sub(a).add(a) =~= b);
}

/// Pairs after the first `i` places were swapped, each with a random one from
/// there on, and the state of the generator.
pub open spec fn after_swaps(all: Seq<(u32, u32)>, i: int, state: u64) -> (Seq<(u32, u32)>, u64)
    decreases i,
{
    if i <= 0 {
        (all, state)
    } else {
        let (s, at) = after_swaps(all, i - 1, state);
        let j = i - 1 + next_number(at) as int % (s.len() - (i - 1));
        (s.update(i - 1, s[j]).update(j, s[i - 1]), next_state(at))
    }
}

/// Up to `cap` of some pairs, and the state of the generator: the first `cap`
/// places after as many swaps, where there are more.
pub open spec fn drawn_part(all: Seq<(u32, u32)>, cap: usize, state: u64) -> (
    Seq<(u32, u32)>,
    u64,
) {
    if all.len() > cap {
        let (s, after) = after_swaps(all, cap as int, state);
        (s.take(cap as int), after)
    } else {
        (all, state)
    }
}

/// What some workers hold of one par, in the order of the workers.
pub open spec fn gathered(workers: Seq<Worker>, off: int) -> Seq<(u32, u32)>
    decreases workers.len(),
{
    if workers.len() == 0 {
        seq![]
    } else {
        gathered(workers.drop_last(), off) + workers.last()@.kept[off]
    }
}

/// What the merging generator starts from.
pub const MERGE_SEED: u64 = 0xDEAD_BEEF;

/// The state of the merging generator once the first `off` pars are done.
pub open spec fn merge_state(workers: Seq<Worker>, cap: usize, off: int) -> u64
    decreases off,
{
    if off <= 0 {
        seeded(MERGE_SEED)
    } else {
        drawn_part(gathered(workers, off - 1), cap, merge_state(workers, cap, off - 1)).1
    }
}

/// `s` holds the pairs of `part`, in order.
pub open spec fn is_sorted_part(s: Seq<(u32, u32)>, part: Seq<(u32, u32)>) -> bool {
    in_order(s, pair_order()) && s.to_multiset() == part.to_multiset()
}

/// A random part of `cap` pairs: the first `cap` places after as many swaps.
fn draw_some(all: &mut Vec<(u32, u32)>, cap: usize, rng: &mut Rng)
    requires
        cap < old(all)@.len(),
    ensures
        final(all)@.to_multiset().subset_of(old(all)@.to_multiset()),
        final(all)@.len() == cap,
        (final(all)@, final(rng).state()) == drawn_part(old(all)@, cap, old(rng).state()),
{
    let ghost given = all@;
    let n: usize = all.len();
    let mut i: usize = 0;
    while i < cap
        invariant
            i <= cap < n,
            n == all@.len(),
            all@.to_multiset() == given.to_multiset(),
            (all@, rng.state()) == after_swaps(given, i as int, old(rng).state()),
        decreases cap - i,
    {
        let j: usize = i + (rng.next_u64() % (n - i) as u64) as usize;
        let ghost before = all@;
        let a = all[i];
        let b = all[j];
        all.set(i, b);
        all.set(j, a);
        proof {
            lemma_swap_keeps(before, i as int, j as int);
        }
        i = i + 1;
    }
    let ghost shuffled = all@;
    all.truncate(cap);
    proof {
        lemma_take_is_part(shuffled, cap as int);
        assert(all@ =~= shuffled.take(cap as int));
    }
}

/// Put together what the workers kept: up to `cap` pairs of each par, in
/// order.
pub fn merge_workers(workers: &Vec<Worker>, cap: usize) -> (r: Vec<Vec<(u32, u32)>>)
    requires
        forall|k: int|
            0 <= k < workers@.len() ==> (#[trigger] workers@[k]).wf() && workers@[k].capacity()
                == cap,
    ensures
        r@.len() == PAR_SPAN,
        forall|off: int|
            0 <= off < PAR_SPAN ==> is_selection(
                #[trigger] r@[off]@,
                pooled(workers@, off),
                cap as nat,
            ),
        forall|off: int|
            0 <= off < PAR_SPAN ==> is_sorted_part(
                #[trigger] r@[off]@,
                drawn_part(gathered(workers@, off), cap, merge_state(workers@, cap, off)).0,
            ),
{
    let f = |a: (u32, u32), b: (u32, u32)| -> (r: bool)
        ensures
            r == (a.0 < b.0 || (a.0 == b.0 && a.1 <= b.1)),
        { a.0 < b.0 || (a.0 == b.0 && a.1 <= b.1) };
    let mut rng = Rng::new(MERGE_SEED);
    let mut out: Vec<Vec<(u32, u32)>> = Vec::new();
    let mut off: usize = 0;
    while off < PAR_SPAN
        invariant
            off <= PAR_SPAN,
            computes_pair_order(f),
            forall|k: int|
                0 <= k < workers@.len() ==> (#[trigger] workers@[k]).wf() && workers@[k].capacity()
                    == cap,
            out@.len() == off,
            forall|o: int|
                0 <= o < off ==> is_selection(
                    #[trigger] out@[o]@,
                    pooled(workers@, o),
                    cap as nat,
                ),
            rng.state() == merge_state(workers@, cap, off as int),
            forall|o: int|
                0 <= o < off ==> is_sorted_part(
                    #[trigger] out@[o]@,
                    drawn_part(gathered(workers@, o), cap, merge_state(workers@, cap, o)).0,
                ),
        decreases PAR_SPAN - off,
    {
        let mut all = gather(workers, off, cap);
        let ghost everything = pooled(workers@, off as int);
        proof {
            lemma_subset_len(all@.to_multiset(), everything);
            all@.to_multiset_ensures();
        }
        if all.len() > cap {
            let ghost before = all@.to_multiset();
            draw_some(&mut all, cap, &mut rng);
            assert(all@.to_multiset().subset_of(everything)) by {
                assert forall|x: (u32, u32)| #[trigger]
                    all@.to_multiset().count(x) <= everything.count(x) by {
                    assert(all@.to_multiset().count(x) <= before.count(x));
                    assert(before.count(x) <= everything.count(x));
                }
            }
        }
        let sorted = sort_by(&all, &f, Ghost(pair_order()));
        out.push(sorted);
        assert(is_selection(sorted@, everything, cap as nat));
        off = off + 1;
    }
    out
}

spec fn computes_pair_order<F: Fn((u32, u32), (u32, u32)) -> bool>(f: F) -> bool {
    crate::sorting::computes(f, pair_order())
}

/// All that the workers kept of one par.
fn gather(workers: &Vec<Worker>, off: usize, cap: usize) -> (r: Vec<(u32, u32)>)
    requires
        off < PAR_SPAN,
        forall|k: int|
            0 <= k < workers@.len() ==> (#[trigger] workers@[k]).wf() && workers@[k].capacity()
                == cap,
    ensures
        r@.to_multiset().subset_of(pooled(workers@, off as int)),
        r@.len() >= cap || r@.len() == pooled(workers@, off as int).len(),
        r@ == gathered(workers@, off as int),
{
    broadcast use vstd::multiset::group_multiset_axioms;

    let n: usize = workers.len();
    let mut all: Vec<(u32, u32)> = Vec::new();
    let mut w: usize = 0;
    proof {
        assert(workers@.take(0) =~= Seq::<Worker>::empty());
        all@.to_multiset_ensures();
        assert(all@ =~= Seq::<(u32, u32)>::empty());
    }
    while w < n
        invariant
            n == workers@.len(),
            w <= n,
            off < PAR_SPAN,
            forall|k: int|
                0 <= k < workers@.len() ==> (#[trigger] workers@[k]).wf() && workers@[k].capacity()
                    == cap,
            all@.to_multiset().subset_of(pooled(workers@.take(w as int), off as int)),
            all@.len() >= cap || all@.len() == pooled(workers@.take(w as int), off as int).len(),
            all@ == gathered(workers@.take(w as int), off as int),
        decreases n - w,
    {
        let worker = &workers[w];
        let ghost before = all@;
        let ghost kept = worker.kept(off as int);
        let ghost offered = worker.offered()[off as int];
        let m: usize = worker.buckets[off].pairs.len();
        let mut i: usize = 0;
        assert(before + kept.take(0) =~= before);
        while i < m
            invariant
                off < PAR_SPAN,
                worker.wf(),
                kept == worker.buckets@[off as int].pairs@,
                m == kept.len(),
                i <= m,
                all@ == before + kept.take(i as int),
            decreases m - i,
        {
            all.push(worker.buckets[off].pairs[i]);
            i = i + 1;
            assert(all@ =~= before + kept.take(i as int));
        }
        proof {
            assert(kept.take(m as int) =~= kept);
            worker.lemma_view();
            assert(is_sample(
                worker.buckets@[off as int].pairs@,
                worker.offered@[off as int],
                worker.cap as nat,
            ));
            assert(workers@.take(w + 1).drop_last() =~= workers@.take(w as int));
            lemma_multiset_commutative(before, kept);
            lemma_subset_added(
                before.to_multiset(),
                pooled(workers@.take(w as int), off as int),
                kept.to_multiset(),
                offered.to_multiset(),
            );
            offered.to_multiset_ensures();
        }
        w = w + 1;
    }
    assert(workers@.take(n as int) =~= workers@);
    all
}

// ---------------------------------------------------------------------------
// The whole computation
// ---------------------------------------------------------------------------

/// All pairs of candidates from the first `i` starts that are `par` clicks
/// apart.
pub open spec fn all_pairs(
    adj: Adj,
    ok: Allowed,
    starts: Seq<u32>,
    candidates: Seq<u32>,
    par: nat,
) -> Seq<(u32, u32)>
    decreases starts.len(),
{
    if starts.len() == 0 {
        seq![]
    } else {
        all_pairs(adj, ok, starts.drop_last(), candidates, par) + pairs_from(
            adj,
            ok,
            starts.last(),
            candidates,
            par,
        )
    }
}

proof fn lemma_all_pairs_bounded(
    adj: Adj,
    ok: Allowed,
    starts: Seq<u32>,
    candidates: Seq<u32>,
    par: nat,
)
    ensures
        all_pairs(adj, ok, starts, candidates, par).len() <= starts.len() * candidates.len(),
    decreases starts.len(),
{
    if starts.len() > 0 {
        lemma_all_pairs_bounded(adj, ok, starts.drop_last(), candidates, par);
        lemma_pairs_bounded(adj, ok, starts.last(), candidates, par);
        let a = starts.len() as int;
        let b = candidates.len() as int;
        assert((a - 1) * b + b == a * b) by (nonlinear_arith);
    }
}

proof fn lemma_pooled_update(workers: Seq<Worker>, k: int, w: Worker, off: int, more: Seq<
    (u32, u32),
>)
    requires
        0 <= k < workers.len(),
        w.offered()[off] == workers[k].offered()[off] + more,
    ensures
        pooled(workers.update(k, w), off) == pooled(workers, off).add(more.to_multiset()),
        workers[k].offered()[off].len() <= pooled(workers, off).len(),
    decreases workers.len(),
{
    broadcast use vstd::multiset::group_multiset_axioms;

    let after = workers.update(k, w);
    let mine = workers.last().offered()[off];
    mine.to_multiset_ensures();
    if k == workers.len() - 1 {
        assert(after.drop_last() =~= workers.drop_last());
        lemma_multiset_commutative(mine, more);
        assert(pooled(after, off) =~= pooled(workers, off).add(more.to_multiset()));
    } else {
        assert(after.drop_last() =~= workers.drop_last().update(k, w));
        lemma_pooled_update(workers.drop_last(), k, w, off, more);
        assert(pooled(after, off) =~= pooled(workers, off).add(more.to_multiset()));
    }
}

proof fn lemma_pooled_none(workers: Seq<Worker>, off: int)
    requires
        forall|k: int|
            0 <= k < workers.len() ==> (#[trigger] workers[k]).offered()[off] == Seq::<
                (u32, u32),
            >::empty(),
    ensures
        pooled(workers, off) == Multiset::<(u32, u32)>::empty(),
    decreases workers.len(),
{
    broadcast use vstd::multiset::group_multiset_axioms;

    if workers.len() > 0 {
        let rest = workers.drop_last();
        assert forall|k: int| 0 <= k < rest.len() implies (#[trigger] rest[k]).offered()[off]
            == Seq::<(u32, u32)>::empty() by {
            assert(rest[k] == workers[k]);
        }
        lemma_pooled_none(rest, off);
        let last = workers[workers.len() - 1].offered()[off];
        last.to_multiset_ensures();
        assert(last.to_multiset() =~= Multiset::<(u32, u32)>::empty());
        assert(pooled(workers, off) =~= Multiset::<(u32, u32)>::empty());
    }
}

/// One difficulty's pairs: those of two candidates at each par that counts,
/// up to `per_bucket` of a par. Where there are more, which ones are kept is
/// a matter of chance.
///
/// `candidates` should respect the hub ban already: a banned endpoint could
/// never be part of a race. They are handed to the workers in turn.
pub fn generate(
    graph: &Graph,
    candidates: &[u32],
    min_len: usize,
    ban_degree: Option<usize>,
    per_bucket: usize,
    threads: usize,
) -> (r: Vec<Vec<(u32, u32)>>)
    requires
        graph.wf(),
        candidates@.len() <= u32::MAX,
        forall|i: int|
            0 <= i < candidates@.len() ==> #[trigger] candidates@[i] < graph.titles@.len(),
        min_len + PAR_SPAN <= UNSEEN,
    ensures
        r@.len() == PAR_SPAN,
        forall|off: int|
            0 <= off < PAR_SPAN ==> is_selection(
                #[trigger] r@[off]@,
                all_pairs(
                    graph.forward@,
                    unblocked(hub_ban(graph.reverse@, ban_degree)),
                    candidates@,
                    candidates@,
                    (min_len + off) as nat,
                ).to_multiset(),
                per_bucket as nat,
            ),
{
    let ghost adj = graph.forward@;
    let ghost ok = unblocked(hub_ban(graph.reverse@, ban_degree));
    let m: usize = if threads > 0 {
        threads
    } else {
        1
    };
    let mut workers: Vec<Worker> = Vec::new();
    let mut k: usize = 0;
    while k < m
        invariant
            k <= m,
            graph.wf(),
            workers@.len() == k,
            forall|j: int|
                0 <= j < k ==> (#[trigger] workers@[j]).wf() && workers@[j].capacity() == per_bucket
                    && workers@[j].size() == graph.titles@.len(),
            forall|j: int, off: int|
                0 <= j < k && 0 <= off < PAR_SPAN ==> (#[trigger] workers@[j].offered()[off])
                    == Seq::<(u32, u32)>::empty(),
        decreases m - k,
    {
        workers.push(Worker::new(graph.len(), k, per_bucket));
        k = k + 1;
    }
    proof {
        assert(candidates@.take(0) =~= Seq::<u32>::empty());
        assert forall|off: int| 0 <= off < PAR_SPAN implies #[trigger] pooled(workers@, off)
            == all_pairs(
            adj,
            ok,
            candidates@.take(0),
            candidates@,
            (min_len + off) as nat,
        ).to_multiset() by {
            assert forall|j: int| 0 <= j < workers@.len() implies (#[trigger] workers@[j]).offered()[off]
                == Seq::<(u32, u32)>::empty() by {
                assert(workers@[j].offered()[off] == Seq::<(u32, u32)>::empty());
            }
            lemma_pooled_none(workers@, off);
            let none = Seq::<(u32, u32)>::empty();
            none.to_multiset_ensures();
            assert(none.to_multiset() =~= Multiset::<(u32, u32)>::empty());
        }
    }
    let n: usize = candidates.len();
    let mut i: usize = 0;
    while i < n
        invariant
            graph.wf(),
            adj == graph.forward@,
            ok == unblocked(hub_ban(graph.reverse@, ban_degree)),
            n == candidates@.len(),
            n <= u32::MAX,
            i <= n,
            m > 0,
            workers@.len() == m,
            min_len + PAR_SPAN <= UNSEEN,
            forall|j: int| 0 <= j < n ==> #[trigger] candidates@[j] < graph.titles@.len(),
            forall|j: int|
                0 <= j < m ==> (#[trigger] workers@[j]).wf() && workers@[j].capacity() == per_bucket
                    && workers@[j].size() == graph.titles@.len(),
            forall|off: int|
                0 <= off < PAR_SPAN ==> #[trigger] pooled(workers@, off) == all_pairs(
                    adj,
                    ok,
                    candidates@.take(i as int),
                    candidates@,
                    (min_len + off) as nat,
                ).to_multiset(),
        decreases n - i,
    {
        let at: usize = i % m;
        let ghost before = workers@;
        let src: u32 = candidates[i];
        proof {
            assert(candidates@.take(i + 1).drop_last() =~= candidates@.take(i as int));
            assert forall|off: int| 0 <= off < PAR_SPAN implies (
            #[trigger] before[at as int].offered()[off]).len() + n <= u64::MAX by {
                let so_far = all_pairs(
                    adj,
                    ok,
                    candidates@.take(i as int),
                    candidates@,
                    (min_len + off) as nat,
                );
                assert(pooled(before, off) == so_far.to_multiset());
                so_far.to_multiset_ensures();
                lemma_all_pairs_bounded(
                    adj,
                    ok,
                    candidates@.take(i as int),
                    candidates@,
                    (min_len + off) as nat,
                );
                let none = Seq::<(u32, u32)>::empty();
                assert(before[at as int].offered()[off] + none =~= before[at as int].offered()[off]);
                lemma_pooled_update(before, at as int, before[at as int], off, none);
                assert(i * n + n <= u64::MAX) by (nonlinear_arith)
                    requires
                        0 <= i < n <= 0xffff_ffff,
                ;
            }
        }
        workers[at].visit(graph, candidates, src, min_len, ban_degree);
        proof {
            assert(workers@ =~= before.update(at as int, workers@[at as int]));
            assert forall|off: int| 0 <= off < PAR_SPAN implies #[trigger] pooled(workers@, off)
                == all_pairs(
                adj,
                ok,
                candidates@.take(i + 1),
                candidates@,
                (min_len + off) as nat,
            ).to_multiset() by {
                let more = pairs_from(adj, ok, src, candidates@, (min_len + off) as nat);
                let so_far = all_pairs(
                    adj,
                    ok,
                    candidates@.take(i as int),
                    candidates@,
                    (min_len + off) as nat,
                );
                assert(pooled(before, off) == so_far.to_multiset());
                assert(workers@[at as int].offered()[off] == before[at as int].offered()[off] + more);
                lemma_pooled_update(before, at as int, workers@[at as int], off, more);
                lemma_multiset_commutative(so_far, more);
            }
        }
        i = i + 1;
    }
    assert(candidates@.take(n as int) =~= candidates@);
    merge_workers(&workers, per_bucket)
}

// ---------------------------------------------------------------------------
// Routes
// ---------------------------------------------------------------------------

/// The pairs `par` clicks apart, each with its number of shortest routes.
pub open spec fn with_routes(
    adj: Adj,
    rev: Adj,
    ban_degree: Option<usize>,
    pairs: Seq<(u32, u32)>,
    max_depth: u8,
    par: int,
) -> Seq<Pair>
    decreases pairs.len(),
{
    if pairs.len() == 0 {
        seq![]
    } else {
        let rest = with_routes(adj, rev, ban_degree, pairs.drop_last(), max_depth, par);
        let (s, t) = pairs.last();
        let ok = open_between(s, t, hub_ban(rev, ban_degree));
        match shortest_count(adj, ok, s, t, max_depth) {
            Some((optimal, routes)) => if optimal == par {
                rest.push(
                    (
                        s,
                        t,
                        if routes > u32::MAX {
                            u32::MAX
                        } else {
                            routes as u32
                        },
                    ),
                )
            } else {
                rest
            },
            None => rest,
        }
    }
}

/// Count the shortest routes of each pair, and put the pairs into buckets by
/// the par that comes out. Pairs at no par that counts are left out.
pub fn attach_routes(
    graph: &Graph,
    pairs: &[(u32, u32)],
    min_len: usize,
    ban_degree: Option<usize>,
) -> (r: Vec<Vec<Pair>>)
    requires
        graph.wf(),
        min_len + PAR_SPAN <= UNSEEN,
    ensures
        r@.len() == PAR_SPAN,
        forall|off: int|
            0 <= off < PAR_SPAN ==> #[trigger] r@[off]@ == with_routes(
                graph.forward@,
                graph.reverse@,
                ban_degree,
                pairs@,
                (min_len + PAR_SPAN) as u8,
                min_len + off,
            ),
{
    let max_depth: u8 = (min_len + PAR_SPAN) as u8;
    let mut pf = PathFinder::new(graph.len());
    let rev = &graph.reverse;
    let banned = |v: u32| -> (b: bool)
        ensures
            b == is_hub(rev@, ban_degree, v),
        { over_limit(rev, ban_degree, v) };
    let ghost ban = hub_ban(graph.reverse@, ban_degree);
    let mut out: Vec<Vec<Pair>> = Vec::new();
    let mut k: usize = 0;
    while k < PAR_SPAN
        invariant
            k <= PAR_SPAN,
            out@.len() == k,
            forall|j: int| 0 <= j < k ==> (#[trigger] out@[j])@.len() == 0,
        decreases PAR_SPAN - k,
    {
        out.push(Vec::new());
        k = k + 1;
    }
    let n: usize = pairs.len();
    let mut i: usize = 0;
    proof {
        assert(pairs@.take(0) =~= Seq::<(u32, u32)>::empty());
        assert forall|off: int| 0 <= off < PAR_SPAN implies #[trigger] out@[off]@ == with_routes(
            graph.forward@,
            graph.reverse@,
            ban_degree,
            pairs@.take(0),
            max_depth,
            min_len + off,
        ) by {
            assert(out@[off]@ =~= Seq::<Pair>::empty());
        }
    }
    while i < n
        invariant
            n == pairs@.len(),
            i <= n,
            graph.wf(),
            rev@ == graph.reverse@,
            min_len + PAR_SPAN <= UNSEEN,
            max_depth == min_len + PAR_SPAN,
            pf.wf(),
            pf.size() == graph.titles@.len(),
            ban == hub_ban(graph.reverse@, ban_degree),
            answers(banned, ban),
            out@.len() == PAR_SPAN,
            forall|off: int|
                0 <= off < PAR_SPAN ==> #[trigger] out@[off]@ == with_routes(
                    graph.forward@,
                    graph.reverse@,
                    ban_degree,
                    pairs@.take(i as int),
                    max_depth,
                    min_len + off,
                ),
        decreases n - i,
    {
        let (s, t) = pairs[i];
        let ghost before = out@;
        proof {
            assert(pairs@.take(i + 1).drop_last() =~= pairs@.take(i as int));
            assert(pairs@.take(i + 1).last() == (s, t));
        }
        if let Some((optimal, routes)) = pf.count_routes(
            graph,
            s,
            t,
            &banned,
            max_depth,
            Ghost(ban),
        ) {
            if optimal >= min_len && optimal - min_len < PAR_SPAN {
                let few: u32 = if routes > 0xffff_ffff {
                    0xffff_ffff
                } else {
                    routes as u32
                };
                let at: usize = optimal - min_len;
                out[at].push((s, t, few));
            }
        }
        proof {
            assert forall|off: int| 0 <= off < PAR_SPAN implies #[trigger] out@[off]@
                == with_routes(
                graph.forward@,
                graph.reverse@,
                ban_degree,
                pairs@.take(i + 1),
                max_depth,
                min_len + off,
            ) by {
                assert(before[off]@ == with_routes(
                    graph.forward@,
                    graph.reverse@,
                    ban_degree,
                    pairs@.take(i as int),
                    max_depth,
                    min_len + off,
                ));
            }
        }
        i = i + 1;
    }
    assert(pairs@.take(n as int) =~= pairs@);
    out
}

// ---------------------------------------------------------------------------
// Candidates
// ---------------------------------------------------------------------------

/// The articles of a list that are no hubs.
pub open spec fn no_hubs(rev: Adj, list: Seq<u32>, ban: Option<usize>) -> Seq<u32>
    decreases list.len(),
{
    if list.len() == 0 {
        seq![]
    } else {
        let rest = no_hubs(rev, list.drop_last(), ban);
        if is_hub(rev, ban, list.last()) {
            rest
        } else {
            rest.push(list.last())
        }
    }
}

proof fn lemma_no_hubs(rev: Adj, list: Seq<u32>, ban: Option<usize>)
    ensures
        forall|i: int|
            0 <= i < no_hubs(rev, list, ban).len() ==> list.contains(
                #[trigger] no_hubs(rev, list, ban)[i],
            ),
        list.no_duplicates() ==> no_hubs(rev, list, ban).no_duplicates(),
    decreases list.len(),
{
    if list.len() > 0 {
        let front = list.drop_last();
        lemma_no_hubs(rev, front, ban);
        let rest = no_hubs(rev, front, ban);
        let all = no_hubs(rev, list, ban);
        assert forall|i: int| 0 <= i < all.len() implies list.contains(#[trigger] all[i]) by {
            if i < rest.len() {
                assert(all[i] == rest[i]);
                let k = front.index_of(rest[i]);
                assert(list[k] == all[i]);
            } else {
                assert(list[list.len() - 1] == all[i]);
            }
        }
        if list.no_duplicates() {
            assert(front.no_duplicates());
            assert(!rest.contains(list.last())) by {
                if rest.contains(list.last()) {
                    let k = rest.index_of(list.last());
                    let j = front.index_of(rest[k]);
                    assert(list[j] == list[list.len() - 1]);
                }
            }
        }
    }
}

/// The candidates for the ends of races: the most linked articles that the hub
/// ban allows. A banned end could never be in a race that is served.
pub fn candidates(rev: &Csr, playable: &Vec<u32>, ban: Option<usize>, keep: usize) -> (r: Vec<u32>)
    requires
        playable@.no_duplicates(),
        forall|i: int| 0 <= i < playable@.len() ==> #[trigger] playable@[i] < rev@.len(),
    ensures
        is_most_linked(rev@, no_hubs(rev@, playable@, ban), keep as nat, r@),
{
    let n: usize = playable.len();
    let mut allowed: Vec<u32> = Vec::new();
    let mut i: usize = 0;
    assert(playable@.take(0) =~= Seq::<u32>::empty());
    while i < n
        invariant
            n == playable@.len(),
            i <= n,
            allowed@ == no_hubs(rev@, playable@.take(i as int), ban),
        decreases n - i,
    {
        assert(playable@.take(i + 1).drop_last() =~= playable@.take(i as int));
        let v: u32 = playable[i];
        if !over_limit(rev, ban, v) {
            allowed.push(v);
        }
        i = i + 1;
    }
    proof {
        assert(playable@.take(n as int) =~= playable@);
        lemma_no_hubs(rev@, playable@, ban);
        assert forall|k: int| 0 <= k < allowed@.len() implies #[trigger] allowed@[k]
            < rev@.len() by {
            let j = playable@.index_of(allowed@[k]);
            assert(playable@[j] < rev@.len());
        }
    }
    most_linked(rev, &allowed, keep)
}

/// A pair is offered if both ends are asked for, they differ, and the way from
/// one to the other is as long as asked.
pub proof fn law_all_pairs_at_par_are_offered(
    adj: Adj,
    ok: Allowed,
    starts: Seq<u32>,
    candidates: Seq<u32>,
    par: nat,
    s: u32,
    t: u32,
)
    ensures
        all_pairs(adj, ok, starts, candidates, par).contains((s, t)) <==> starts.contains(s)
            && candidates.contains(t) && s != t && distance(adj, ok, s, t) == Some(par),
    decreases starts.len(),
{
    if starts.len() > 0 {
        let front = starts.drop_last();
        let last = starts.last();
        law_all_pairs_at_par_are_offered(adj, ok, front, candidates, par, s, t);
        lemma_pairs_from(adj, ok, last, candidates, par, s, t);
        let a = all_pairs(adj, ok, front, candidates, par);
        let b = pairs_from(adj, ok, last, candidates, par);
        lemma_joined_contains(a, b, (s, t));
        assert(starts =~= front + seq![last]);
        lemma_joined_contains(front, seq![last], s);
        assert(seq![last].contains(s) <==> s == last) by {
            assert(seq![last][0] == last);
        }
    }
}

proof fn lemma_joined_contains<T>(a: Seq<T>, b: Seq<T>, x: T)
    ensures
        (a + b).contains(x) <==> a.contains(x) || b.contains(x),
{
    let c = a + b;
    if a.contains(x) {
        let i = choose|i: int| 0 <= i < a.len() && a[i] == x;
        assert(c[i] == x);
    }
    if b.contains(x) {
        let i = choose|i: int| 0 <= i < b.len() && b[i] == x;
        assert(c[a.len() + i] == x);
    }
    if c.contains(x) {
        let i = choose|i: int| 0 <= i < c.len() && c[i] == x;
        if i < a.len() {
            assert(a[i] == x);
        } else {
            assert(b[i - a.len()] == x);
        }
    }
}

proof fn lemma_pairs_from(
    adj: Adj,
    ok: Allowed,
    src: u32,
    candidates: Seq<u32>,
    par: nat,
    s: u32,
    t: u32,
)
    ensures
        pairs_from(adj, ok, src, candidates, par).contains((s, t)) <==> s == src
            && candidates.contains(t) && s != t && distance(adj, ok, s, t) == Some(par),
    decreases candidates.len(),
{
    if candidates.len() > 0 {
        let front = candidates.drop_last();
        let last = candidates.last();
        lemma_pairs_from(adj, ok, src, front, par, s, t);
        assert(candidates =~= front + seq![last]);
        lemma_joined_contains(front, seq![last], t);
        assert(seq![last].contains(t) <==> t == last) by {
            assert(seq![last][0] == last);
        }
        let a = pairs_from(adj, ok, src, front, par);
        let one = seq![(src, last)];
        lemma_joined_contains(a, one, (s, t));
        assert(one.contains((s, t)) <==> s == src && t == last) by {
            assert(one[0] == (src, last));
        }
        assert(a.push((src, last)) =~= a + one);
    }
}

/// Hubs are left out, and nothing else is.
pub proof fn law_only_hubs_are_left_out(rev: Adj, list: Seq<u32>, ban: Option<usize>, v: u32)
    ensures
        no_hubs(rev, list, ban).contains(v) <==> list.contains(v) && !is_hub(rev, ban, v),
    decreases list.len(),
{
    if list.len() > 0 {
        let front = list.drop_last();
        let last = list.last();
        law_only_hubs_are_left_out(rev, front, ban, v);
        let a = no_hubs(rev, front, ban);
        assert(list =~= front + seq![last]);
        lemma_joined_contains(front, seq![last], v);
        lemma_joined_contains(a, seq![last], v);
        assert(a.push(last) =~= a + seq![last]);
        assert(seq![last].contains(v) <==> v == last) by {
            assert(seq![last][0] == last);
        }
    }
}

/// A pair is kept with the number of its shortest ways, if those are as long as
/// asked.
pub proof fn law_pairs_are_kept_with_their_ways(
    adj: Adj,
    rev: Adj,
    ban: Option<usize>,
    pairs: Seq<(u32, u32)>,
    pair: (u32, u32),
    max_depth: u8,
    par: int,
)
    ensures
        ({
            let before = with_routes(adj, rev, ban, pairs, max_depth, par);
            let after = with_routes(adj, rev, ban, pairs.push(pair), max_depth, par);
            let ok = open_between(pair.0, pair.1, hub_ban(rev, ban));
            match shortest_count(adj, ok, pair.0, pair.1, max_depth) {
                Some((d, ways)) => {
                    &&& d == par && ways <= u32::MAX ==> after == before.push(
                        (pair.0, pair.1, ways as u32),
                    )
                    &&& d == par && ways > u32::MAX ==> after == before.push(
                        (pair.0, pair.1, u32::MAX),
                    )
                    &&& d != par ==> after == before
                },
                None => after == before,
            }
        }),
        with_routes(adj, rev, ban, Seq::empty(), max_depth, par).len() == 0,
{
    assert(pairs.push(pair).drop_last() =~= pairs);
}

/// While there is room every pair is kept, in order and without a draw; later
/// one is either put in the place of another or dropped.
pub proof fn law_pairs_are_kept_while_there_is_room(
    kept: Seq<(u32, u32)>,
    seen: u64,
    pair: (u32, u32),
    cap: usize,
    state: u64,
)
    ensures
        kept.len() < cap ==> after_offer(kept, seen, pair, cap, state) == (kept.push(pair), state),
        kept.len() == cap ==> ({
            let r = next_number(state) as int % (seen + 1);
            let (after, next) = after_offer(kept, seen, pair, cap, state);
            &&& next == next_state(state)
            &&& after.len() == kept.len()
            &&& forall|i: int|
                0 <= i < kept.len() ==> #[trigger] after[i] == (if i == r {
                    pair
                } else {
                    kept[i]
                })
        }),
{
}

/// What a visit offers is sorted by its par: the pairs that are at the least
/// length, and at one, two and three clicks more.
pub proof fn law_visits_offer_by_par(
    v: WorkerView,
    adj: Adj,
    ok: Allowed,
    src: u32,
    candidates: Seq<u32>,
    min_len: nat,
    cap: usize,
    off: int,
)
    requires
        v.offered.len() == 4,
        0 <= off < 4,
    ensures
        after_visit(v, adj, ok, src, candidates, min_len, cap).offered.len() == 4,
        after_visit(v, adj, ok, src, candidates, min_len, cap).offered[off] == v.offered[off]
            + pairs_from(adj, ok, src, candidates, (min_len + off) as nat),
    decreases candidates.len(),
{
    if candidates.len() > 0 {
        let front = candidates.drop_last();
        law_visits_offer_by_par(v, adj, ok, src, front, min_len, cap, off);
        let a = after_visit(v, adj, ok, src, front, min_len, cap);
        let b = after_visit(v, adj, ok, src, candidates, min_len, cap);
        let more = pairs_from(adj, ok, src, front, (min_len + off) as nat);
        let t = candidates.last();
        assert(v.offered[off] + more.push((src, t)) =~= (v.offered[off] + more).push((src, t)));
    } else {
        assert(v.offered[off] + Seq::<(u32, u32)>::empty() =~= v.offered[off]);
    }
}
} // verus!
