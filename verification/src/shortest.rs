//! Single-source shortest-path distances over the non-negative edge
//! weights, computed by relaxation to a fixpoint and certified exact:
//! every returned label is reachable, and no walk beats it.

use vstd::prelude::*;
use vstd::pervasive::VecAdditionalExecFns;
use crate::graph::{connects, Edge, Graph};
use crate::walks::{
    lemma_walk_extend, lemma_walk_skip, lemma_walk_trivial, lemma_walk_weight_nonneg, reach_within,
    walk_ok, walk_weight,
};

verus! {

/// Edge `k` cannot improve either of its endpoints' labels.
pub open spec fn edge_relaxed(es: Seq<Edge>, dist: Seq<Option<u128>>, k: int) -> bool {
    le_plus(dist, es[k].a as int, es[k].b as int, es[k].w as int) && le_plus(
        dist,
        es[k].b as int,
        es[k].a as int,
        es[k].w as int,
    )
}

/// If `u` carries a label, `v` carries one at most `w` bigger.
pub open spec fn le_plus(dist: Seq<Option<u128>>, u: int, v: int, w: int) -> bool {
    dist[u] is Some ==> dist[v] is Some && dist[v]->0 <= dist[u]->0 + w
}

/// Every label is the weight of some actual walk from the source.
pub open spec fn labels_sound(es: Seq<Edge>, s: int, dist: Seq<Option<u128>>) -> bool {
    forall|v: int|
        0 <= v < dist.len() && (#[trigger] dist[v]) is Some ==> reach_within(
            es,
            s,
            v,
            dist[v]->0 as int,
        )
}

/// A fixpoint labeling bounds every walk from below.
proof fn lemma_labels_lower_bound(
    es: Seq<Edge>,
    dist: Seq<Option<u128>>,
    w: Seq<int>,
    ns: Seq<int>,
)
    requires
        walk_ok(es, w, ns),
        forall|k: int| 0 <= k < es.len() ==> es[k].a < dist.len() && es[k].b < dist.len(),
        forall|k: int| 0 <= k < es.len() ==> #[trigger] edge_relaxed(es, dist, k),
        dist[ns.first()] is Some,
    ensures
        dist[ns.last()] is Some,
        dist[ns.last()]->0 <= dist[ns.first()]->0 + walk_weight(es, w),
    decreases w.len(),
{
    lemma_walk_weight_nonneg(es, w);
    if w.len() > 0 {
        assert(connects(es[w[0]], ns[0], ns[1]));
        assert(edge_relaxed(es, dist, w[0]));
        assert(dist[ns[1]] is Some && dist[ns[1]]->0 <= dist[ns[0]]->0 + es[w[0]].w);
        lemma_walk_skip(es, w, ns, 1);
        lemma_labels_lower_bound(es, dist, w.skip(1), ns.skip(1));
        assert(w.skip(1) =~= w.drop_first());
        assert(walk_weight(es, w) == es[w[0]].w + walk_weight(es, w.drop_first()));
    }
}

/// How many labels are still missing.
pub open spec fn count_none(dist: Seq<Option<u128>>) -> int
    decreases dist.len(),
{
    if dist.len() == 0 {
        0
    } else {
        count_none(dist.drop_last()) + if dist.last() is None {
            1int
        } else {
            0int
        }
    }
}

/// Sum of all present labels.
pub open spec fn sum_some(dist: Seq<Option<u128>>) -> int
    decreases dist.len(),
{
    if dist.len() == 0 {
        0
    } else {
        sum_some(dist.drop_last()) + if dist.last() is Some {
            dist.last()->0 as int
        } else {
            0int
        }
    }
}

/// How many labels are present.
pub open spec fn count_some(dist: Seq<Option<u128>>) -> int
    decreases dist.len(),
{
    if dist.len() == 0 {
        0
    } else {
        count_some(dist.drop_last()) + if dist.last() is Some {
            1int
        } else {
            0int
        }
    }
}

proof fn lemma_counts_update(dist: Seq<Option<u128>>, v: int, x: u128)
    requires
        0 <= v < dist.len(),
    ensures
        count_none(dist.update(v, Some(x))) == count_none(dist) - (if dist[v] is None {
            1int
        } else {
            0int
        }),
        count_some(dist.update(v, Some(x))) == count_some(dist) + (if dist[v] is None {
            1int
        } else {
            0int
        }),
        sum_some(dist.update(v, Some(x))) == sum_some(dist) + x - (if dist[v] is Some {
            dist[v]->0 as int
        } else {
            0int
        }),
    decreases dist.len(),
{
    let d2 = dist.update(v, Some(x));
    if v == dist.len() - 1 {
        assert(d2.drop_last() =~= dist.drop_last());
    } else {
        lemma_counts_update(dist.drop_last(), v, x);
        assert(d2.drop_last() =~= dist.drop_last().update(v, Some(x)));
        assert(d2.last() == dist.last());
    }
}

proof fn lemma_count_some_bounds(dist: Seq<Option<u128>>)
    ensures
        0 <= count_some(dist) <= dist.len(),
        0 <= count_none(dist) <= dist.len(),
        sum_some(dist) >= 0,
    decreases dist.len(),
{
    if dist.len() > 0 {
        lemma_count_some_bounds(dist.drop_last());
    }
}

/// The labels are bounded by how many there are times the largest weight.
pub open spec fn labels_bounded(dist: Seq<Option<u128>>, maxw: int) -> bool {
    forall|v: int|
        0 <= v < dist.len() && (#[trigger] dist[v]) is Some ==> dist[v]->0 <= count_some(dist)
            * maxw
}

/// Shortest walk distance from node `s` to every node: `Some(d)` means a
/// walk of weight `d` exists and none cheaper does; `None` means no walk
/// at all.
pub fn shortest_from(g: &Graph, s: usize) -> (dist: Vec<Option<u128>>)
    requires
        g.wf(),
        s < g.nodes@.len(),
    ensures
        dist@.len() == g.nodes@.len(),
        forall|v: int|
            0 <= v < dist@.len() ==> match #[trigger] dist@[v] {
                Some(d) => reach_within(g.edges@, s as int, v, d as int) && !reach_within(
                    g.edges@,
                    s as int,
                    v,
                    d as int - 1,
                ),
                None => forall|dd: int| !reach_within(g.edges@, s as int, v, dd),
            },
{
    let ghost es = g.edges@;
    let n = g.nodes.len();
    let m = g.edges.len();

    // Largest edge weight, for the label magnitude bound.
    let mut maxw: u64 = 0;
    let mut k: usize = 0;
    while k < m
        invariant
            es == g.edges@,
            m == es.len(),
            k <= m,
            forall|j: int| 0 <= j < k ==> (#[trigger] es[j]).w <= maxw,
        decreases m - k,
    {
        let wk = g.edges[k].w;
        if wk > maxw {
            maxw = wk;
        }
        k = k + 1;
    }

    let mut dist: Vec<Option<u128>> = Vec::new();
    let mut i: usize = 0;
    while i < n
        invariant
            i <= n,
            dist@.len() == i,
            forall|v: int| 0 <= v < i ==> dist@[v] is None,
        decreases n - i,
    {
        dist.push(None);
        i = i + 1;
    }
    let ghost pre0 = dist@;
    dist.set(s, Some(0));
    proof {
        lemma_count_none_all(pre0);
        lemma_counts_update(pre0, s as int, 0);
        lemma_walk_trivial(es, s as int);
        assert(walk_ok(es, Seq::<int>::empty(), seq![s as int]) && seq![s as int].first()
            == s as int && seq![s as int].last() == s as int && walk_weight(
            es,
            Seq::<int>::empty(),
        ) <= 0);
        assert(reach_within(es, s as int, s as int, 0));
        assert(count_some(dist@) == 1);
        assert forall|v: int|
            0 <= v < dist@.len() && (#[trigger] dist@[v]) is Some implies reach_within(
            es,
            s as int,
            v,
            dist@[v]->0 as int,
        ) by {
            assert(v == s as int);
        }
        assert forall|v: int|
            0 <= v < dist@.len() && (#[trigger] dist@[v]) is Some implies dist@[v]->0
            <= count_some(dist@) * (maxw as int) by {
            assert(v == s as int);
            assert(1 * (maxw as int) == maxw as int);
        }
    }
    loop
        invariant
            n == g.nodes@.len(),
            m == es.len() == g.edges@.len(),
            es == g.edges@,
            g.wf(),
            s < n,
            dist@.len() == n,
            dist@[s as int] == Some(0u128),
            labels_sound(es, s as int, dist@),
            labels_bounded(dist@, maxw as int),
            forall|j: int| 0 <= j < m ==> (#[trigger] es[j]).w <= maxw,
        ensures
            n == g.nodes@.len(),
            es == g.edges@,
            dist@.len() == n,
            dist@[s as int] == Some(0u128),
            labels_sound(es, s as int, dist@),
            forall|j: int| 0 <= j < es.len() ==> #[trigger] edge_relaxed(es, dist@, j),
        decreases count_none(dist@), sum_some(dist@),
    {
        let ghost none0 = count_none(dist@);
        let ghost sum0 = sum_some(dist@);
        let mut changed = false;
        let mut k: usize = 0;
        while k < m
            invariant
                n == g.nodes@.len(),
                m == es.len() == g.edges@.len(),
                es == g.edges@,
                g.wf(),
                s < n,
                dist@.len() == n,
                dist@[s as int] == Some(0u128),
                labels_sound(es, s as int, dist@),
                labels_bounded(dist@, maxw as int),
                forall|j: int| 0 <= j < m ==> (#[trigger] es[j]).w <= maxw,
                k <= m,
                !changed ==> forall|j: int| 0 <= j < k ==> #[trigger] edge_relaxed(es, dist@, j),
                count_none(dist@) <= none0,
                count_none(dist@) == none0 ==> sum_some(dist@) <= sum0,
                changed ==> count_none(dist@) < none0 || sum_some(dist@) < sum0,
            decreases m - k,
        {
            let e = g.edges[k];
            proof {
                assert(connects(es[k as int], e.a as int, e.b as int));
                assert(connects(es[k as int], e.b as int, e.a as int));
            }
            let ch1 = relax(g, &mut dist, e.a, e.b, e.w, maxw, Ghost(s as int));
            let ch2 = relax(g, &mut dist, e.b, e.a, e.w, maxw, Ghost(s as int));
            if ch1 || ch2 {
                changed = true;
            }
            proof {
                if !ch1 && !ch2 {
                    assert(edge_relaxed(es, dist@, k as int));
                }
            }
            k = k + 1;
        }
        if !changed {
            break ;
        }
        proof {
            lemma_count_some_bounds(dist@);
        }
    }
    proof {
        assert forall|v: int| 0 <= v < dist@.len() implies match #[trigger] dist@[v] {
            Some(d) => reach_within(es, s as int, v, d as int) && !reach_within(
                es,
                s as int,
                v,
                d as int - 1,
            ),
            None => forall|dd: int| !reach_within(es, s as int, v, dd),
        } by {
            match dist@[v] {
                Some(d) => {
                    assert(reach_within(es, s as int, v, d as int));
                    if reach_within(es, s as int, v, d as int - 1) {
                        let (w, ns) = choose|w: Seq<int>, ns: Seq<int>|
                            walk_ok(es, w, ns) && ns.first() == s as int && ns.last() == v
                                && walk_weight(es, w) <= d as int - 1;
                        lemma_labels_lower_bound(es, dist@, w, ns);
                    }
                },
                None => {
                    assert forall|dd: int| !reach_within(es, s as int, v, dd) by {
                        if reach_within(es, s as int, v, dd) {
                            let (w, ns) = choose|w: Seq<int>, ns: Seq<int>|
                                walk_ok(es, w, ns) && ns.first() == s as int && ns.last() == v
                                    && walk_weight(es, w) <= dd;
                            lemma_labels_lower_bound(es, dist@, w, ns);
                        }
                    }
                },
            }
        }
    }
    dist
}

/// One relaxation: improve `v`'s label through an edge from `u` of
/// weight `w`, if that helps.  Returns whether anything changed.
fn relax(
    g: &Graph,
    dist: &mut Vec<Option<u128>>,
    u: usize,
    v: usize,
    w: u64,
    maxw: u64,
    src: Ghost<int>,
) -> (ch: bool)
    requires
        g.wf(),
        u < g.nodes@.len(),
        v < g.nodes@.len(),
        old(dist)@.len() == g.nodes@.len(),
        w <= maxw,
        exists|k: int|
            0 <= k < g.edges@.len() && connects(#[trigger] g.edges@[k], u as int, v as int)
                && g.edges@[k].w == w,
        0 <= src@ < g.nodes@.len(),
        old(dist)@[src@] == Some(0u128),
        labels_sound(g.edges@, src@, old(dist)@),
        labels_bounded(old(dist)@, maxw as int),
    ensures
        final(dist)@.len() == old(dist)@.len(),
        final(dist)@[src@] == Some(0u128),
        labels_sound(g.edges@, src@, final(dist)@),
        labels_bounded(final(dist)@, maxw as int),
        le_plus(final(dist)@, u as int, v as int, w as int),
        !ch ==> final(dist)@ == old(dist)@,
        ch ==> count_none(final(dist)@) < count_none(old(dist)@) || (count_none(final(dist)@)
            == count_none(old(dist)@) && sum_some(final(dist)@) < sum_some(old(dist)@)),
        count_none(final(dist)@) <= count_none(old(dist)@),
        count_none(final(dist)@) == count_none(old(dist)@) ==> sum_some(final(dist)@) <= sum_some(
            old(dist)@,
        ),
{
    let dl = dist.len();
    let du_opt = dist[u];
    match du_opt {
        None => false,
        Some(du) => {
            proof {
                lemma_count_some_bounds(dist@);
                assert(du <= count_some(dist@) * (maxw as int));
                assert(dl == dist@.len());
                lemma_mul_bound(count_some(dist@), maxw as int, dl as int);
            }
            let cand: u128 = du + (w as u128);
            let better = match dist[v] {
                None => true,
                Some(dv) => cand < dv,
            };
            if better {
                let ghost pre = dist@;
                dist.set(v, Some(cand));
                proof {
                    lemma_counts_update(pre, v as int, cand);
                    lemma_count_some_bounds(pre);
                    // The new label is sound: extend a witness walk by this edge.
                    let k = choose|k: int|
                        0 <= k < g.edges@.len() && connects(#[trigger] g.edges@[k], u as int, v as int)
                            && g.edges@[k].w == w;
                    assert(reach_within(g.edges@, src@, u as int, du as int));
                    let (wseq, nseq) = choose|wseq: Seq<int>, nseq: Seq<int>|
                        walk_ok(g.edges@, wseq, nseq) && nseq.first() == src@ && nseq.last()
                            == u as int && walk_weight(g.edges@, wseq) <= du as int;
                    lemma_walk_extend(g.edges@, wseq, nseq, k, v as int);
                    assert(walk_ok(g.edges@, wseq.push(k), nseq.push(v as int)));
                    assert(nseq.push(v as int).first() == src@);
                    assert(nseq.push(v as int).last() == v as int);
                    assert(reach_within(g.edges@, src@, v as int, cand as int));
                    // Magnitude: the label count grew or the label shrank.
                    assert((count_some(pre) + 1) * (maxw as int) == count_some(pre) * (
                    maxw as int) + maxw) by (nonlinear_arith);
                    assert forall|x: int|
                        0 <= x < dist@.len() && (#[trigger] dist@[x]) is Some implies dist@[x]->0
                            <= count_some(dist@) * (maxw as int) by {
                        lemma_mul_mono(count_some(pre), count_some(dist@), maxw as int);
                        if x != v {
                            assert(pre[x] is Some && dist@[x] == pre[x]);
                            assert(pre[x]->0 <= count_some(pre) * (maxw as int));
                        } else {
                            if pre[v as int] is Some {
                                assert(cand < pre[v as int]->0);
                                assert(pre[v as int]->0 <= count_some(pre) * (maxw as int));
                            } else {
                                assert(count_some(dist@) == count_some(pre) + 1);
                                assert(cand <= count_some(pre) * (maxw as int) + maxw);
                            }
                        }
                    }
                    // The source keeps its zero label.
                    assert(dist@[src@] == Some(0u128)) by {
                        if v as int == src@ {
                            assert(cand < pre[src@]->0);
                        }
                    }
                }
                true
            } else {
                false
            }
        },
    }
}

proof fn lemma_mul_bound(c: int, w: int, n: int)
    requires
        0 <= c <= n,
        0 <= w <= 0xffff_ffff_ffff_ffff,
        n <= 0xffff_ffff_ffff_ffff,
    ensures
        c * w + w < 0x1_0000_0000_0000_0000_0000_0000_0000_0000,
{
    assert(c * w <= n * w) by (nonlinear_arith)
        requires
            0 <= c <= n,
            w >= 0,
    ;
    assert(n * w <= 0xffff_ffff_ffff_ffff * 0xffff_ffff_ffff_ffff) by (nonlinear_arith)
        requires
            0 <= n <= 0xffff_ffff_ffff_ffff,
            0 <= w <= 0xffff_ffff_ffff_ffff,
    ;
}

proof fn lemma_mul_mono(c1: int, c2: int, w: int)
    requires
        0 <= c1 <= c2,
        0 <= w,
    ensures
        c1 * w <= c2 * w,
{
    assert(c1 * w <= c2 * w) by (nonlinear_arith)
        requires
            0 <= c1 <= c2,
            0 <= w,
    ;
}

proof fn lemma_count_none_all(dist: Seq<Option<u128>>)
    requires
        forall|v: int| 0 <= v < dist.len() ==> dist[v] is None,
    ensures
        count_none(dist) == dist.len(),
        count_some(dist) == 0,
        sum_some(dist) == 0,
    decreases dist.len(),
{
    if dist.len() > 0 {
        lemma_count_none_all(dist.drop_last());
    }
}

} // verus!
