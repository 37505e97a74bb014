//! Walks over the edge arena, and the reachability-within-a-budget
//! relation that all distance statements of this crate are phrased in.
//! A walk is an edge-index sequence together with the node sequence it
//! visits; `reach_within` asks whether some walk of total weight at most
//! `d` joins two nodes.

use vstd::prelude::*;
use crate::graph::{Edge, connects};

verus! {

/// `w` lists edge indices and `ns` the visited nodes; step `i` walks edge
/// `w[i]` from `ns[i]` to `ns[i + 1]`, in either orientation.
pub open spec fn walk_ok(es: Seq<Edge>, w: Seq<int>, ns: Seq<int>) -> bool {
    &&& ns.len() == w.len() + 1
    &&& forall|i: int|
        0 <= i < w.len() ==> 0 <= #[trigger] w[i] < es.len() && connects(es[w[i]], ns[i], ns[i + 1])
}

/// Total weight of the walk `w`.
pub open spec fn walk_weight(es: Seq<Edge>, w: Seq<int>) -> int
    decreases w.len(),
{
    if w.len() == 0 {
        0
    } else {
        (if 0 <= w[0] < es.len() {
            es[w[0]].w as int
        } else {
            0
        }) + walk_weight(es, w.drop_first())
    }
}

/// Some walk from `u` to `v` has total weight at most `d`.
pub open spec fn reach_within(es: Seq<Edge>, u: int, v: int, d: int) -> bool {
    exists|w: Seq<int>, ns: Seq<int>|
        walk_ok(es, w, ns) && ns.first() == u && ns.last() == v && walk_weight(es, w) <= d
}

pub proof fn lemma_walk_weight_nonneg(es: Seq<Edge>, w: Seq<int>)
    ensures
        walk_weight(es, w) >= 0,
    decreases w.len(),
{
    if w.len() > 0 {
        lemma_walk_weight_nonneg(es, w.drop_first());
    }
}

/// Weight splits over concatenation.
pub proof fn lemma_walk_weight_add(es: Seq<Edge>, w1: Seq<int>, w2: Seq<int>)
    ensures
        walk_weight(es, w1 + w2) == walk_weight(es, w1) + walk_weight(es, w2),
    decreases w1.len(),
{
    if w1.len() == 0 {
        assert(w1 + w2 =~= w2);
    } else {
        assert((w1 + w2).drop_first() =~= w1.drop_first() + w2);
        lemma_walk_weight_add(es, w1.drop_first(), w2);
    }
}

pub proof fn lemma_walk_weight_push(es: Seq<Edge>, w: Seq<int>, e: int)
    requires
        0 <= e < es.len(),
    ensures
        walk_weight(es, w.push(e)) == walk_weight(es, w) + es[e].w,
{
    let s1 = seq![e];
    assert(w.push(e) =~= w + s1);
    lemma_walk_weight_add(es, w, s1);
    assert(s1.len() == 1 && s1[0] == e);
    assert(s1.drop_first() =~= Seq::<int>::empty());
    assert(walk_weight(es, s1) == es[e].w + walk_weight(es, s1.drop_first()));
}

/// The empty walk stands at one node.
pub proof fn lemma_walk_trivial(es: Seq<Edge>, u: int)
    ensures
        walk_ok(es, Seq::<int>::empty(), seq![u]),
        walk_weight(es, Seq::<int>::empty()) == 0,
{
}

/// A walk extends by one incident edge.
pub proof fn lemma_walk_extend(es: Seq<Edge>, w: Seq<int>, ns: Seq<int>, e: int, t: int)
    requires
        walk_ok(es, w, ns),
        0 <= e < es.len(),
        connects(es[e], ns.last(), t),
    ensures
        walk_ok(es, w.push(e), ns.push(t)),
        walk_weight(es, w.push(e)) == walk_weight(es, w) + es[e].w,
{
    lemma_walk_weight_push(es, w, e);
    let w2 = w.push(e);
    let ns2 = ns.push(t);
    assert forall|i: int| 0 <= i < w2.len() implies 0 <= #[trigger] w2[i] < es.len() && connects(
        es[w2[i]],
        ns2[i],
        ns2[i + 1],
    ) by {
        if i < w.len() {
            assert(walk_ok(es, w, ns));
            assert(0 <= w[i] < es.len() && connects(es[w[i]], ns[i], ns[i + 1]));
        }
    }
}

/// The reverse of a walk is a walk of the same weight.
pub proof fn lemma_walk_reverse(es: Seq<Edge>, w: Seq<int>, ns: Seq<int>)
    requires
        walk_ok(es, w, ns),
    ensures
        walk_ok(es, w.reverse(), ns.reverse()),
        walk_weight(es, w.reverse()) == walk_weight(es, w),
    decreases w.len(),
{
    let wr = w.reverse();
    let nsr = ns.reverse();
    assert forall|i: int| 0 <= i < wr.len() implies 0 <= #[trigger] wr[i] < es.len() && connects(
        es[wr[i]],
        nsr[i],
        nsr[i + 1],
    ) by {
        let j = w.len() - 1 - i;
        assert(wr[i] == w[j]);
        assert(nsr[i] == ns[ns.len() - 1 - i] == ns[j + 1]);
        assert(nsr[i + 1] == ns[ns.len() - 2 - i] == ns[j]);
        assert(0 <= w[j] < es.len() && connects(es[w[j]], ns[j], ns[j + 1]));
    }
    lemma_weight_reverse(es, w);
}

proof fn lemma_weight_reverse(es: Seq<Edge>, w: Seq<int>)
    ensures
        walk_weight(es, w.reverse()) == walk_weight(es, w),
    decreases w.len(),
{
    if w.len() > 0 {
        let rest = w.drop_first();
        lemma_weight_reverse(es, rest);
        assert(w.reverse() =~= rest.reverse().push(w[0]));
        if 0 <= w[0] < es.len() {
            lemma_walk_weight_push(es, rest.reverse(), w[0]);
        } else {
            lemma_weight_push_out_of_range(es, rest.reverse(), w[0]);
        }
        assert(walk_weight(es, w) == (if 0 <= w[0] < es.len() {
            es[w[0]].w as int
        } else {
            0
        }) + walk_weight(es, rest));
    }
}

proof fn lemma_weight_push_out_of_range(es: Seq<Edge>, w: Seq<int>, e: int)
    requires
        !(0 <= e < es.len()),
    ensures
        walk_weight(es, w.push(e)) == walk_weight(es, w),
    decreases w.len(),
{
    if w.len() == 0 {
        assert(w.push(e)[0] == e);
        assert(w.push(e).drop_first() =~= Seq::<int>::empty());
        assert(walk_weight(es, w.push(e)) == 0 + walk_weight(es, w.push(e).drop_first()));
        assert(walk_weight(es, w.push(e)) == 0);
    } else {
        assert(w.push(e)[0] == w[0]);
        assert(w.push(e).drop_first() =~= w.drop_first().push(e));
        lemma_weight_push_out_of_range(es, w.drop_first(), e);
        assert(walk_weight(es, w) == (if 0 <= w[0] < es.len() {
            es[w[0]].w as int
        } else {
            0
        }) + walk_weight(es, w.drop_first()));
    }
}

/// Reachability within a budget is symmetric: the undirected graph walks
/// the same in both directions.
pub proof fn lemma_reach_symmetric(es: Seq<Edge>, u: int, v: int, d: int)
    ensures
        reach_within(es, u, v, d) == reach_within(es, v, u, d),
{
    if reach_within(es, u, v, d) {
        lemma_reach_flip(es, u, v, d);
    }
    if reach_within(es, v, u, d) {
        lemma_reach_flip(es, v, u, d);
    }
}

proof fn lemma_reach_flip(es: Seq<Edge>, u: int, v: int, d: int)
    requires
        reach_within(es, u, v, d),
    ensures
        reach_within(es, v, u, d),
{
    let (w, ns) = choose|w: Seq<int>, ns: Seq<int>|
        walk_ok(es, w, ns) && ns.first() == u && ns.last() == v && walk_weight(es, w) <= d;
    lemma_walk_reverse(es, w, ns);
    assert(ns.reverse().first() == v && ns.reverse().last() == u);
}

/// Bigger budgets reach no less.
pub proof fn lemma_reach_monotone(es: Seq<Edge>, u: int, v: int, d1: int, d2: int)
    requires
        reach_within(es, u, v, d1),
        d1 <= d2,
    ensures
        reach_within(es, u, v, d2),
{
}

/// A walk's tail from position `k` on is itself a walk.
pub proof fn lemma_walk_skip(es: Seq<Edge>, w: Seq<int>, ns: Seq<int>, k: int)
    requires
        walk_ok(es, w, ns),
        0 <= k <= w.len(),
    ensures
        walk_ok(es, w.skip(k), ns.skip(k)),
        ns.skip(k).first() == ns[k],
        ns.skip(k).last() == ns.last(),
{
    assert forall|i: int| 0 <= i < w.skip(k).len() implies 0 <= #[trigger] w.skip(k)[i] < es.len()
        && connects(es[w.skip(k)[i]], ns.skip(k)[i], ns.skip(k)[i + 1]) by {
        assert(w.skip(k)[i] == w[i + k]);
        assert(ns.skip(k)[i] == ns[i + k]);
        assert(ns.skip(k)[i + 1] == ns[i + k + 1]);
        assert(0 <= w[i + k] < es.len() && connects(es[w[i + k]], ns[i + k], ns[i + k + 1]));
    }
}

/// One edge makes a one-step walk.
pub proof fn lemma_walk_single(es: Seq<Edge>, e: int, x: int, y: int)
    requires
        0 <= e < es.len(),
        connects(es[e], x, y),
    ensures
        walk_ok(es, seq![e], seq![x, y]),
        walk_weight(es, seq![e]) == es[e].w,
{
    let s1 = seq![e];
    assert(s1.drop_first() =~= Seq::<int>::empty());
    assert(walk_weight(es, s1) == es[e].w + walk_weight(es, s1.drop_first()));
}

/// Prefixing a walk with one connecting step keeps it a walk.
pub proof fn lemma_walk_prepend(es: Seq<Edge>, e: int, x: int, w: Seq<int>, ns: Seq<int>)
    requires
        walk_ok(es, w, ns),
        0 <= e < es.len(),
        connects(es[e], x, ns.first()),
    ensures
        walk_ok(es, seq![e] + w, seq![x] + ns),
        (seq![x] + ns).first() == x,
        (seq![x] + ns).last() == ns.last(),
        walk_weight(es, seq![e] + w) == es[e].w + walk_weight(es, w),
{
    lemma_walk_single(es, e, x, ns.first());
    lemma_walk_concat(es, seq![e], seq![x, ns.first()], w, ns);
    assert(seq![x, ns.first()] + ns.drop_first() =~= seq![x] + ns);
    assert((seq![x] + ns).last() == ns.last());
}

/// Two walks joined end to start make one walk.
pub proof fn lemma_walk_concat(
    es: Seq<Edge>,
    w1: Seq<int>,
    ns1: Seq<int>,
    w2: Seq<int>,
    ns2: Seq<int>,
)
    requires
        walk_ok(es, w1, ns1),
        walk_ok(es, w2, ns2),
        ns1.last() == ns2.first(),
    ensures
        walk_ok(es, w1 + w2, ns1 + ns2.drop_first()),
        walk_weight(es, w1 + w2) == walk_weight(es, w1) + walk_weight(es, w2),
{
    lemma_walk_weight_add(es, w1, w2);
    let w = w1 + w2;
    let ns = ns1 + ns2.drop_first();
    assert forall|i: int| 0 <= i < w.len() implies 0 <= #[trigger] w[i] < es.len() && connects(
        es[w[i]],
        ns[i],
        ns[i + 1],
    ) by {
        if i < w1.len() {
            assert(0 <= w1[i] < es.len() && connects(es[w1[i]], ns1[i], ns1[i + 1]));
            assert(ns[i] == ns1[i]);
            if i + 1 < ns1.len() {
                assert(ns[i + 1] == ns1[i + 1]);
            }
        } else {
            let j = i - w1.len();
            assert(0 <= w2[j] < es.len() && connects(es[w2[j]], ns2[j], ns2[j + 1]));
            if j == 0 {
                assert(ns[i] == ns1.last());
                assert(ns1.last() == ns2[0]);
            } else {
                assert(ns[i] == ns2[j]);
            }
            assert(ns[i + 1] == ns2[j + 1]);
        }
    }
}

} // verus!
