//! Compressed sparse row adjacency.

use crate::walks::{Adj, closed_under_links, edge, transposed};
use vstd::prelude::*;

verus! {

/// A compressed sparse row adjacency list.
pub struct Csr {
    /// `offsets[v] .. offsets[v+1]` indexes into `targets`.
    offsets: Vec<u32>,
    targets: Vec<u32>,
}

impl View for Csr {
    type V = Adj;

    closed spec fn view(&self) -> Adj {
        Seq::new(
            (self.offsets@.len() - 1) as nat,
            |v: int| self.targets@.subrange(self.offsets@[v] as int, self.offsets@[v + 1] as int),
        )
    }
}

impl Csr {
    #[verifier::type_invariant]
    spec fn inv(self) -> bool {
        &&& self.offsets@.len() >= 1
        &&& self.offsets@[0] == 0
        &&& self.offsets@.last() == self.targets@.len()
        &&& forall|i: int, j: int|
            0 <= i <= j < self.offsets@.len() ==> self.offsets@[i] <= self.offsets@[j]
    }

    /// The vertices that `v` links to, in order.
    #[inline]
    pub fn neighbors(&self, v: u32) -> (r: &[u32])
        requires
            v < self@.len(),
        ensures
            r@ == self@[v as int],
    {
        proof {
            use_type_invariant(self);
        }
        let end: usize = self.offsets.len();
        assert(v + 1 < end);
        let a: usize = self.offsets[v as usize] as usize;
        let b: usize = self.offsets[v as usize + 1] as usize;
        vstd::slice::slice_subrange(self.targets.as_slice(), a, b)
    }

    /// How many links leave `v`.
    #[inline]
    pub fn degree(&self, v: u32) -> (r: usize)
        requires
            v < self@.len(),
        ensures
            r == self@[v as int].len(),
            r <= u32::MAX,
    {
        proof {
            use_type_invariant(self);
        }
        let end: usize = self.offsets.len();
        assert(v + 1 < end);
        (self.offsets[v as usize + 1] - self.offsets[v as usize]) as usize
    }

    /// How many links there are in all.
    pub fn edges(&self) -> (r: usize)
        ensures
            r == total_links(self@),
    {
        proof {
            use_type_invariant(self);
            lemma_total(self.offsets@, self.targets@, self.offsets@.len() - 1);
            assert(self@.take(self@.len() as int) =~= self@);
            let segs = Seq::new(
                (self.offsets@.len() - 1) as nat,
                |v: int| self.targets@.subrange(self.offsets@[v] as int, self.offsets@[v + 1] as int),
            );
            assert(self@ =~= segs);
            assert(segs.take(segs.len() as int) =~= segs);
        }
        self.targets.len()
    }

    /// How many vertices there are.
    pub fn vertices(&self) -> (r: usize)
        ensures
            r == self@.len(),
    {
        proof {
            use_type_invariant(self);
        }
        self.offsets.len() - 1
    }
}

/// The number of links in an adjacency.
pub open spec fn total_links(adj: Adj) -> nat
    decreases adj.len(),
{
    if adj.len() == 0 {
        0
    } else {
        total_links(adj.drop_last()) + adj.last().len()
    }
}

proof fn lemma_total(offsets: Seq<u32>, targets: Seq<u32>, k: int)
    requires
        offsets.len() >= 1,
        offsets[0] == 0,
        0 <= k < offsets.len(),
        offsets.last() == targets.len(),
        forall|i: int, j: int| 0 <= i <= j < offsets.len() ==> offsets[i] <= offsets[j],
    ensures
        total_links(
            Seq::new(
                (offsets.len() - 1) as nat,
                |v: int| targets.subrange(offsets[v] as int, offsets[v + 1] as int),
            ).take(k),
        ) == offsets[k],
    decreases k,
{
    let segs = Seq::new(
        (offsets.len() - 1) as nat,
        |v: int| targets.subrange(offsets[v] as int, offsets[v + 1] as int),
    );
    if k > 0 {
        lemma_total(offsets, targets, k - 1);
        assert(segs.take(k).drop_last() =~= segs.take(k - 1));
        assert(offsets[k - 1] <= offsets[k] <= offsets.last());
        assert(segs.take(k).last().len() == offsets[k] - offsets[k - 1]);
    }
}

// ---------------------------------------------------------------------------
// Building
// ---------------------------------------------------------------------------

/// The sum of the first `k` counts.
pub open spec fn sum_to(counts: Seq<u32>, k: int) -> int
    decreases k,
{
    if k <= 0 {
        0
    } else {
        sum_to(counts, k - 1) + counts[k - 1]
    }
}

pub proof fn lemma_sum_monotone(counts: Seq<u32>, i: int, j: int)
    requires
        0 <= i <= j <= counts.len(),
    ensures
        0 <= sum_to(counts, i) <= sum_to(counts, j),
    decreases j,
{
    if j == 0 {
    } else if i == j {
        lemma_sum_monotone(counts, i - 1, j - 1);
    } else {
        lemma_sum_monotone(counts, i, j - 1);
    }
}

pub proof fn lemma_sum_bump(counts: Seq<u32>, at: int, k: int)
    requires
        0 <= at < counts.len(),
        0 <= k <= counts.len(),
        counts[at] < u32::MAX,
    ensures
        sum_to(counts.update(at, (counts[at] + 1) as u32), k) == sum_to(counts, k) + (if at < k {
            1int
        } else {
            0int
        }),
    decreases k,
{
    if k > 0 {
        lemma_sum_bump(counts, at, k - 1);
    }
}

pub proof fn lemma_sum_zero(counts: Seq<u32>, k: int)
    requires
        0 <= k <= counts.len(),
        forall|i: int| 0 <= i < counts.len() ==> counts[i] == 0,
    ensures
        sum_to(counts, k) == 0,
    decreases k,
{
    if k > 0 {
        lemma_sum_zero(counts, k - 1);
    }
}

/// Turn per-vertex counts into offsets, in place: entry `i` becomes the sum of
/// the counts before it, and one more entry holds the sum of all.
pub fn counts_to_offsets(counts: &mut Vec<u32>)
    requires
        sum_to(old(counts)@, old(counts)@.len() as int) <= u32::MAX,
    ensures
        final(counts)@.len() == old(counts)@.len() + 1,
        forall|i: int|
            0 <= i < final(counts)@.len() ==> final(counts)@[i] == sum_to(old(counts)@, i),
{
    let ghost given = counts@;
    let mut running: u32 = 0;
    let n: usize = counts.len();
    let mut i: usize = 0;
    while i < n
        invariant
            n == given.len(),
            counts@.len() == n,
            0 <= i <= n,
            running == sum_to(given, i as int),
            sum_to(given, n as int) <= u32::MAX,
            forall|j: int| 0 <= j < i ==> counts@[j] == sum_to(given, j),
            forall|j: int| i <= j < n ==> counts@[j] == given[j],
        decreases n - i,
    {
        let d: u32 = counts[i];
        counts.set(i, running);
        proof {
            lemma_sum_monotone(given, i + 1, n as int);
        }
        running = running + d;
        i = i + 1;
    }
    counts.push(running);
}

/// The links that leave `v` among `edges`, in order, those to vertices beyond
/// `n` left out.
pub open spec fn links_from(edges: Seq<(u32, u32)>, n: nat, v: u32) -> Seq<u32>
    decreases edges.len(),
{
    if edges.len() == 0 {
        seq![]
    } else {
        let rest = links_from(edges.drop_last(), n, v);
        let e = edges.last();
        if e.0 == v && e.1 < n {
            rest.push(e.1)
        } else {
            rest
        }
    }
}

/// An edge, or the edge turned round.
pub open spec fn oriented(e: (u32, u32), back: bool) -> (u32, u32) {
    if back {
        (e.1, e.0)
    } else {
        e
    }
}

/// The edges, all of them turned round or none.
pub open spec fn oriented_all(edges: Seq<(u32, u32)>, back: bool) -> Seq<(u32, u32)> {
    edges.map_values(|e: (u32, u32)| oriented(e, back))
}

/// The adjacency over `n` vertices that an edge list describes. Edges with an
/// end beyond `n` are left out.
pub open spec fn adjacency(edges: Seq<(u32, u32)>, n: nat, back: bool) -> Adj {
    Seq::new(n, |v: int| links_from(oriented_all(edges, back), n, v as u32))
}

proof fn lemma_links_take(edges: Seq<(u32, u32)>, n: nat, v: u32, i: int)
    requires
        0 <= i < edges.len(),
    ensures
        links_from(edges.take(i + 1), n, v) == (if edges[i].0 == v && edges[i].1 < n {
            links_from(edges.take(i), n, v).push(edges[i].1)
        } else {
            links_from(edges.take(i), n, v)
        }),
{
    assert(edges.take(i + 1).drop_last() =~= edges.take(i));
}

proof fn lemma_links_len_monotone(edges: Seq<(u32, u32)>, n: nat, v: u32, i: int, j: int)
    requires
        0 <= i <= j <= edges.len(),
    ensures
        links_from(edges.take(i), n, v).len() <= links_from(edges.take(j), n, v).len(),
    decreases j - i,
{
    if i < j {
        lemma_links_take(edges, n, v, j - 1);
        lemma_links_len_monotone(edges, n, v, i, j - 1);
    }
}

/// What is linked from `v` is what some edge from `v` says.
pub proof fn lemma_links_contain(edges: Seq<(u32, u32)>, n: nat, v: u32, w: u32)
    ensures
        links_from(edges, n, v).contains(w) <==> w < n && edges.contains((v, w)),
    decreases edges.len(),
{
    if edges.len() > 0 {
        let rest = edges.drop_last();
        let e = edges.last();
        lemma_links_contain(rest, n, v, w);
        let inner = links_from(rest, n, v);
        if e.0 == v && e.1 < n {
            let all = inner.push(e.1);
            if all.contains(w) {
                let i = choose|i: int| 0 <= i < all.len() && all[i] == w;
                if i < inner.len() {
                    assert(inner[i] == w);
                    let k = choose|k: int| 0 <= k < rest.len() && rest[k] == (v, w);
                    assert(edges[k] == (v, w));
                } else {
                    assert(edges[edges.len() - 1] == (v, w));
                }
            }
            if inner.contains(w) {
                let i = choose|i: int| 0 <= i < inner.len() && inner[i] == w;
                assert(all[i] == w);
            }
            if e.1 == w {
                assert(all[inner.len() as int] == w);
            }
        }
        if edges.contains((v, w)) {
            let k = choose|k: int| 0 <= k < edges.len() && edges[k] == (v, w);
            if k < rest.len() {
                assert(rest[k] == (v, w));
            }
        }
        if rest.contains((v, w)) {
            let k = choose|k: int| 0 <= k < rest.len() && rest[k] == (v, w);
            assert(edges[k] == (v, w));
        }
    }
}

/// The two adjacencies of one edge list are each other's transposes, and every
/// link leads to a vertex.
pub proof fn lemma_adjacency_valid(edges: Seq<(u32, u32)>, n: nat)
    requires
        n <= u32::MAX,
    ensures
        closed_under_links(adjacency(edges, n, false)),
        closed_under_links(adjacency(edges, n, true)),
        transposed(adjacency(edges, n, false), adjacency(edges, n, true)),
{
    let f = adjacency(edges, n, false);
    let b = adjacency(edges, n, true);
    let ef = oriented_all(edges, false);
    let eb = oriented_all(edges, true);
    assert forall|u: int, i: int|
        #![trigger f[u][i]]
        0 <= u < f.len() && 0 <= i < f[u].len() implies f[u][i] < f.len() by {
        lemma_links_contain(ef, n, u as u32, f[u][i]);
        assert(f[u].contains(f[u][i]));
    }
    assert forall|u: int, i: int|
        #![trigger b[u][i]]
        0 <= u < b.len() && 0 <= i < b[u].len() implies b[u][i] < b.len() by {
        lemma_links_contain(eb, n, u as u32, b[u][i]);
        assert(b[u].contains(b[u][i]));
    }
    assert forall|u: u32, v: u32| #[trigger] edge(f, u, v) <==> edge(b, v, u) by {
        lemma_links_contain(ef, n, u, v);
        lemma_links_contain(eb, n, v, u);
        if ef.contains((u, v)) {
            let k = choose|k: int| 0 <= k < ef.len() && ef[k] == (u, v);
            assert(eb[k] == (v, u));
        }
        if eb.contains((v, u)) {
            let k = choose|k: int| 0 <= k < eb.len() && eb[k] == (v, u);
            assert(ef[k] == (u, v));
        }
    }
}

fn orient(e: (u32, u32), back: bool) -> (r: (u32, u32))
    ensures
        r == oriented(e, back),
{
    if back {
        (e.1, e.0)
    } else {
        e
    }
}

impl Csr {
    /// The adjacency over `n` vertices that `edges` describes, with every edge
    /// turned round where `back` is set.
    ///
    /// Two passes over the edges: the first counts, the second fills.
    pub fn from_edges(n: usize, edges: &[(u32, u32)], back: bool) -> (r: Csr)
        requires
            n <= u32::MAX,
            edges@.len() <= u32::MAX,
        ensures
            r@ == adjacency(edges@, n as nat, back),
    {
        let ghost es = oriented_all(edges@, back);
        let m: usize = edges.len();
        let mut counts: Vec<u32> = Vec::new();
        let mut k: usize = 0;
        while k < n
            invariant
                0 <= k <= n,
                counts@.len() == k,
                forall|v: int| 0 <= v < k ==> counts@[v] == 0,
            decreases n - k,
        {
            counts.push(0);
            k = k + 1;
        }
        let mut total: usize = 0;
        let mut i: usize = 0;
        proof {
            lemma_sum_zero(counts@, n as int);
            assert(es.take(0) =~= Seq::<(u32, u32)>::empty());
        }
        while i < m
            invariant
                m == edges@.len(),
                m <= u32::MAX,
                es == oriented_all(edges@, back),
                0 <= i <= m,
                counts@.len() == n,
                n <= u32::MAX,
                total <= i,
                total == sum_to(counts@, n as int),
                forall|v: int|
                    0 <= v < n ==> #[trigger] counts@[v] == links_from(
                        es.take(i as int),
                        n as nat,
                        v as u32,
                    ).len(),
                forall|v: int| 0 <= v < n ==> #[trigger] counts@[v] <= i,
            decreases m - i,
        {
            let e = orient(edges[i], back);
            assert(es[i as int] == e);
            let ghost before = counts@;
            proof {
                assert forall|v: int| 0 <= v < n implies links_from(
                    es.take(i + 1),
                    n as nat,
                    v as u32,
                ).len() == #[trigger] before[v] + (if e.0 == v && e.1 < n {
                    1int
                } else {
                    0int
                }) by {
                    lemma_links_take(es, n as nat, v as u32, i as int);
                }
            }
            if (e.0 as usize) < n && (e.1 as usize) < n {
                let c: u32 = counts[e.0 as usize];
                counts.set(e.0 as usize, c + 1);
                total = total + 1;
                proof {
                    lemma_sum_bump(before, e.0 as int, n as int);
                }
            }
            i = i + 1;
        }
        let ghost sizes = counts@;
        assert(es.take(m as int) =~= es);
        counts_to_offsets(&mut counts);
        let ghost offs = counts@;
        let mut cursor: Vec<u32> = Vec::new();
        let mut k: usize = 0;
        while k < n
            invariant
                0 <= k <= n,
                offs == counts@,
                offs.len() == n + 1,
                cursor@.len() == k,
                forall|v: int| 0 <= v < k ==> cursor@[v] == offs[v],
            decreases n - k,
        {
            cursor.push(counts[k]);
            k = k + 1;
        }
        let mut targets: Vec<u32> = Vec::new();
        let mut k: usize = 0;
        while k < total
            invariant
                0 <= k <= total,
                targets@.len() == k,
            decreases total - k,
        {
            targets.push(0);
            k = k + 1;
        }
        proof {
            assert forall|a: int, b: int| 0 <= a <= b < offs.len() implies offs[a] <= offs[b] by {
                lemma_sum_monotone(sizes, a, b);
            }
            assert forall|v: int| 0 <= v < n implies #[trigger] offs[v + 1] == offs[v]
                + links_from(es, n as nat, v as u32).len() by {
                assert(sizes[v] == links_from(es, n as nat, v as u32).len());
            }
            assert forall|v: int| 0 <= v < n implies targets@.subrange(
                offs[v] as int,
                #[trigger] cursor@[v] as int,
            ) =~= links_from(es.take(0), n as nat, v as u32) by {
                assert(es.take(0) =~= Seq::<(u32, u32)>::empty());
                assert(offs[v] <= offs[n as int]);
            }
            assert forall|v: int| 0 <= v < n implies #[trigger] cursor@[v] == offs[v] + links_from(
                es.take(0),
                n as nat,
                v as u32,
            ).len() by {
                assert(es.take(0) =~= Seq::<(u32, u32)>::empty());
            }
        }
        let mut i: usize = 0;
        while i < m
            invariant
                m == edges@.len(),
                m <= u32::MAX,
                n <= u32::MAX,
                es == oriented_all(edges@, back),
                0 <= i <= m,
                cursor@.len() == n,
                targets@.len() == total,
                offs.len() == n + 1,
                offs[n as int] == total,
                forall|a: int, b: int| 0 <= a <= b < offs.len() ==> offs[a] <= offs[b],
                forall|v: int|
                    0 <= v < n ==> #[trigger] offs[v + 1] == offs[v] + links_from(
                        es,
                        n as nat,
                        v as u32,
                    ).len(),
                forall|v: int|
                    0 <= v < n ==> #[trigger] cursor@[v] == offs[v] + links_from(
                        es.take(i as int),
                        n as nat,
                        v as u32,
                    ).len(),
                forall|v: int|
                    0 <= v < n ==> targets@.subrange(
                        offs[v] as int,
                        #[trigger] cursor@[v] as int,
                    ) == links_from(es.take(i as int), n as nat, v as u32),
            decreases m - i,
        {
            let e = orient(edges[i], back);
            assert(es[i as int] == e);
            let ghost before = targets@;
            let ghost cur = cursor@;
            proof {
                assert(es.take(m as int) =~= es);
                assert forall|v: int| 0 <= v < n implies cur[v] == offs[v] + links_from(
                    es.take(i as int),
                    n as nat,
                    v as u32,
                ).len() && links_from(es.take(i + 1), n as nat, v as u32) == (if e.0 == v && e.1
                    < n {
                    links_from(es.take(i as int), n as nat, v as u32).push(e.1)
                } else {
                    links_from(es.take(i as int), n as nat, v as u32)
                }) && links_from(es.take(i + 1), n as nat, v as u32).len() <= links_from(
                    es,
                    n as nat,
                    v as u32,
                ).len() && #[trigger] cur[v] <= offs[v + 1] by {
                    lemma_links_take(es, n as nat, v as u32, i as int);
                    lemma_links_len_monotone(es, n as nat, v as u32, i + 1, m as int);
                    lemma_links_len_monotone(es, n as nat, v as u32, i as int, i + 1);
                }
            }
            if (e.0 as usize) < n && (e.1 as usize) < n {
                let s: usize = e.0 as usize;
                let at: usize = cursor[s] as usize;
                proof {
                    assert(cur[s as int] < offs[s + 1]);
                    assert(offs[s + 1] <= offs[n as int]);
                }
                targets.set(at, e.1);
                cursor.set(s, (at + 1) as u32);
                proof {
                    assert forall|v: int| 0 <= v < n implies targets@.subrange(
                        offs[v] as int,
                        #[trigger] cursor@[v] as int,
                    ) == links_from(es.take(i + 1), n as nat, v as u32) by {
                        assert(cur[v] <= offs[v + 1]);
                        if v == s {
                            assert(targets@.subrange(offs[v] as int, at as int)
                                =~= before.subrange(offs[v] as int, at as int));
                            assert(targets@.subrange(offs[v] as int, at + 1)
                                =~= targets@.subrange(offs[v] as int, at as int).push(e.1));
                        } else {
                            if v < s {
                                assert(offs[v + 1] <= offs[s as int]);
                            } else {
                                assert(offs[s + 1] <= offs[v]);
                            }
                            assert(offs[v + 1] <= offs[n as int]);
                            assert(targets@.subrange(offs[v] as int, cur[v] as int)
                                =~= before.subrange(offs[v] as int, cur[v] as int));
                        }
                    }
                }
            } else {
                proof {
                    assert forall|v: int| 0 <= v < n implies targets@.subrange(
                        offs[v] as int,
                        #[trigger] cursor@[v] as int,
                    ) == links_from(es.take(i + 1), n as nat, v as u32) by {
                        assert(cur[v] <= offs[v + 1]);
                    }
                }
            }
            i = i + 1;
        }
        assert(es.take(m as int) =~= es);
        let r = Csr { offsets: counts, targets };
        proof {
            assert forall|v: int| 0 <= v < n implies r@[v] == adjacency(edges@, n as nat, back)[v] by {
                assert(offs[v + 1] == offs[v] + links_from(es, n as nat, v as u32).len());
                assert(cursor@[v] == offs[v + 1]);
            }
            assert(r@ =~= adjacency(edges@, n as nat, back));
        }
        r
    }
}

/// One more link is one more entry, the last, in the row of its first article
/// and in the reverse row of its second; no other row changes, and a link from
/// or to no article is in none.
pub proof fn law_links_are_rows(edges: Seq<(u32, u32)>, n: nat, a: u32, b: u32, v: int)
    requires
        n <= u32::MAX,
        0 <= v < n,
    ensures
        adjacency(edges.push((a, b)), n, false)[v] == (if v == a && b < n {
            adjacency(edges, n, false)[v].push(b)
        } else {
            adjacency(edges, n, false)[v]
        }),
        adjacency(edges.push((a, b)), n, true)[v] == (if v == b && a < n {
            adjacency(edges, n, true)[v].push(a)
        } else {
            adjacency(edges, n, true)[v]
        }),
        adjacency(Seq::<(u32, u32)>::empty(), n, false)[v].len() == 0,
        adjacency(Seq::<(u32, u32)>::empty(), n, true)[v].len() == 0,
        adjacency(edges, n, false).len() == n,
        adjacency(edges, n, true).len() == n,
{
    let more = edges.push((a, b));
    assert(oriented_all(more, false).drop_last() =~= oriented_all(edges, false));
    assert(oriented_all(more, true).drop_last() =~= oriented_all(edges, true));
    assert(oriented_all(more, false).last() == (a, b));
    assert(oriented_all(more, true).last() == (b, a));
    assert(oriented_all(Seq::<(u32, u32)>::empty(), false).len() == 0);
    assert(oriented_all(Seq::<(u32, u32)>::empty(), true).len() == 0);
}

/// As many links are counted as the rows hold.
pub proof fn law_links_are_counted(adj: Adj, row: Seq<u32>)
    ensures
        total_links(adj.push(row)) == total_links(adj) + row.len(),
        total_links(Seq::<Seq<u32>>::empty()) == 0,
{
    assert(adj.push(row).drop_last() =~= adj);
}
} // verus!
