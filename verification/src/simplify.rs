//! Graph Simplifier: collapses interior trail nodes of degree two into a
//! single summed edge, preserving every shortest-path distance between
//! the nodes that keep an edge.

use vstd::prelude::*;
use vstd::pervasive::VecAdditionalExecFns;
use crate::graph::{
    connects, degree, incident, lemma_degree_update, lemma_degree_zero, Edge, Graph, Node,
    NodeKind,
};
use crate::walks::{
    lemma_walk_prepend, lemma_walk_skip, lemma_walk_trivial, lemma_walk_weight_add,
    lemma_walk_weight_nonneg, reach_within, walk_ok, walk_weight,
};

verus! {

/// `es2` is `es` after collapsing node `ni`: its two incident edges (at
/// indices `a` and `b`, to `z0` and `z1`) become one summed edge stored
/// at `a`, and a weightless self-loop parks at `b`.
pub open spec fn collapse_shape(
    es: Seq<Edge>,
    es2: Seq<Edge>,
    ni: int,
    a: int,
    b: int,
    z0: int,
    z1: int,
) -> bool {
    &&& 0 <= a < es.len() && 0 <= b < es.len() && a != b
    &&& es2.len() == es.len()
    &&& connects(es[a], ni, z0) && connects(es[b], ni, z1)
    &&& z0 != ni && z1 != ni && z0 != z1
    &&& forall|k: int| 0 <= k < es.len() && incident(#[trigger] es[k], ni) ==> k == a || k == b
    &&& es[a].w + es[b].w <= u64::MAX
    &&& es2[a].a == z0 && es2[a].b == z1 && es2[a].w == es[a].w + es[b].w
    &&& es2[b].a == ni && es2[b].b == ni && es2[b].w == 0
    &&& forall|k: int| 0 <= k < es.len() && k != a && k != b ==> #[trigger] es2[k] == es[k]
}

/// Any walk avoiding the collapsed node maps into the collapsed graph at
/// no greater weight.
proof fn lemma_collapse_to_new(
    es: Seq<Edge>,
    es2: Seq<Edge>,
    ni: int,
    a: int,
    b: int,
    z0: int,
    z1: int,
    w: Seq<int>,
    ns: Seq<int>,
)
    requires
        collapse_shape(es, es2, ni, a, b, z0, z1),
        walk_ok(es, w, ns),
        ns.first() != ni,
        ns.last() != ni,
    ensures
        exists|w2: Seq<int>, ns2: Seq<int>|
            walk_ok(es2, w2, ns2) && ns2.first() == ns.first() && ns2.last() == ns.last()
                && walk_weight(es2, w2) <= walk_weight(es, w),
    decreases w.len(),
{
    lemma_walk_weight_nonneg(es, w);
    if w.len() == 0 {
        lemma_walk_trivial(es2, ns.first());
        let w2 = Seq::<int>::empty();
        let ns2 = seq![ns.first()];
        assert(walk_ok(es2, w2, ns2) && ns2.first() == ns.first() && ns2.last() == ns.last()
            && walk_weight(es2, w2) <= walk_weight(es, w));
    } else if ns[1] != ni {
        assert(connects(es[w[0]], ns[0], ns[1]));
        assert(w[0] != a && w[0] != b);
        assert(es2[w[0]] == es[w[0]]);
        lemma_walk_skip(es, w, ns, 1);
        assert(w.skip(1) =~= w.drop_first());
        assert(walk_weight(es, w) == es[w[0]].w + walk_weight(es, w.drop_first()));
        lemma_collapse_to_new(es, es2, ni, a, b, z0, z1, w.skip(1), ns.skip(1));
        let (w3, ns3) = choose|w3: Seq<int>, ns3: Seq<int>|
            walk_ok(es2, w3, ns3) && ns3.first() == ns.skip(1).first() && ns3.last() == ns.skip(
                1,
            ).last() && walk_weight(es2, w3) <= walk_weight(es, w.skip(1));
        lemma_walk_prepend(es2, w[0], ns[0], w3, ns3);
        let w2 = seq![w[0]] + w3;
        let ns2 = seq![ns[0]] + ns3;
        assert(walk_ok(es2, w2, ns2) && ns2.first() == ns.first() && ns2.last() == ns.last()
            && walk_weight(es2, w2) <= walk_weight(es, w));
    } else {
        // The walk enters the collapsed node: ns[1] == ni.
        assert(w.len() >= 2) by {
            if w.len() == 1 {
                assert(ns.last() == ns[1]);
            }
        }
        assert(connects(es[w[0]], ns[0], ns[1]));
        assert(incident(es[w[0]], ni));
        assert(w[0] == a || w[0] == b);
        assert(connects(es[w[1]], ns[1], ns[2]));
        // Split the front two steps off the weight.
        assert(w =~= seq![w[0], w[1]] + w.skip(2));
        lemma_walk_weight_add(es, seq![w[0], w[1]], w.skip(2));
        assert(seq![w[0], w[1]].drop_first() =~= seq![w[1]]);
        assert(seq![w[1]].drop_first() =~= Seq::<int>::empty());
        assert(seq![w[0], w[1]][0] == w[0] && seq![w[1]][0] == w[1]);
        assert(walk_weight(es, seq![w[1]]) == es[w[1]].w + walk_weight(
            es,
            seq![w[1]].drop_first(),
        ));
        assert(walk_weight(es, seq![w[0], w[1]]) == es[w[0]].w + walk_weight(
            es,
            seq![w[0], w[1]].drop_first(),
        ));
        assert(walk_weight(es, seq![w[0], w[1]]) == es[w[0]].w + es[w[1]].w);
        if ns[2] == ni {
            // The second step is a self-loop at the collapsed node; drop it.
            let wd = seq![w[0]] + w.skip(2);
            let nsd = seq![ns[0]] + ns.skip(2);
            lemma_walk_skip(es, w, ns, 2);
            lemma_walk_prepend(es, w[0], ns[0], w.skip(2), ns.skip(2));
            assert(walk_weight(es, wd) == es[w[0]].w + walk_weight(es, w.skip(2)));
            lemma_collapse_to_new(es, es2, ni, a, b, z0, z1, wd, nsd);
            let (w3, ns3) = choose|w3: Seq<int>, ns3: Seq<int>|
                walk_ok(es2, w3, ns3) && ns3.first() == nsd.first() && ns3.last() == nsd.last()
                    && walk_weight(es2, w3) <= walk_weight(es, wd);
            assert(walk_weight(es, wd) <= walk_weight(es, w)) by {
                lemma_walk_weight_nonneg(es, w.skip(2));
            }
            assert(walk_ok(es2, w3, ns3) && ns3.first() == ns.first() && ns3.last() == ns.last()
                && walk_weight(es2, w3) <= walk_weight(es, w));
        } else {
            assert(incident(es[w[1]], ni));
            assert(w[1] == a || w[1] == b);
            lemma_walk_skip(es, w, ns, 2);
            lemma_collapse_to_new(es, es2, ni, a, b, z0, z1, w.skip(2), ns.skip(2));
            let (w3, ns3) = choose|w3: Seq<int>, ns3: Seq<int>|
                walk_ok(es2, w3, ns3) && ns3.first() == ns.skip(2).first() && ns3.last() == ns.skip(
                    2,
                ).last() && walk_weight(es2, w3) <= walk_weight(es, w.skip(2));
            if w[0] != w[1] {
                // A genuine pass through: replace the two steps by the
                // merged edge.
                assert(connects(es2[a], ns[0], ns[2]));
                lemma_walk_prepend(es2, a, ns[0], w3, ns3);
                let w2 = seq![a] + w3;
                let ns2 = seq![ns[0]] + ns3;
                assert(es2[a].w == es[w[0]].w + es[w[1]].w);
                assert(walk_ok(es2, w2, ns2) && ns2.first() == ns.first() && ns2.last()
                    == ns.last() && walk_weight(es2, w2) <= walk_weight(es, w));
            } else {
                // The walk backtracks through the collapsed node; the two
                // steps cancel.
                assert(ns[2] == ns[0]);
                assert(walk_ok(es2, w3, ns3) && ns3.first() == ns.first() && ns3.last()
                    == ns.last() && walk_weight(es2, w3) <= walk_weight(es, w));
            }
        }
    }
}

/// Any walk in the collapsed graph between nodes other than the
/// collapsed one maps back at no greater weight.
proof fn lemma_collapse_to_old(
    es: Seq<Edge>,
    es2: Seq<Edge>,
    ni: int,
    a: int,
    b: int,
    z0: int,
    z1: int,
    w: Seq<int>,
    ns: Seq<int>,
)
    requires
        collapse_shape(es, es2, ni, a, b, z0, z1),
        walk_ok(es2, w, ns),
        ns.first() != ni,
        ns.last() != ni,
    ensures
        exists|w2: Seq<int>, ns2: Seq<int>|
            walk_ok(es, w2, ns2) && ns2.first() == ns.first() && ns2.last() == ns.last()
                && walk_weight(es, w2) <= walk_weight(es2, w),
    decreases w.len(),
{
    if w.len() == 0 {
        lemma_walk_trivial(es, ns.first());
        let w2 = Seq::<int>::empty();
        let ns2 = seq![ns.first()];
        assert(walk_ok(es, w2, ns2) && ns2.first() == ns.first() && ns2.last() == ns.last()
            && walk_weight(es, w2) <= walk_weight(es2, w));
    } else {
        assert(connects(es2[w[0]], ns[0], ns[1]));
        // No edge of the collapsed graph leads from elsewhere into `ni`.
        assert(ns[1] != ni) by {
            if ns[1] == ni {
                if w[0] == a || w[0] == b {
                } else {
                    assert(es2[w[0]] == es[w[0]]);
                    assert(incident(es[w[0]], ni));
                }
            }
        }
        lemma_walk_skip(es2, w, ns, 1);
        lemma_collapse_to_old(es, es2, ni, a, b, z0, z1, w.skip(1), ns.skip(1));
        let (w3, ns3) = choose|w3: Seq<int>, ns3: Seq<int>|
            walk_ok(es, w3, ns3) && ns3.first() == ns.skip(1).first() && ns3.last() == ns.skip(
                1,
            ).last() && walk_weight(es, w3) <= walk_weight(es2, w.skip(1));
        assert(w.skip(1) =~= w.drop_first());
        assert(walk_weight(es2, w) == es2[w[0]].w + walk_weight(es2, w.drop_first()));
        if w[0] == a {
            // The merged edge unfolds into its two halves through `ni`.
            if ns[0] == z0 {
                lemma_walk_prepend(es, b, ni, w3, ns3);
                lemma_walk_prepend(es, a, z0, seq![b] + w3, seq![ni] + ns3);
                let w2 = seq![a] + (seq![b] + w3);
                let ns2 = seq![z0] + (seq![ni] + ns3);
                assert(walk_ok(es, w2, ns2) && ns2.first() == ns.first() && ns2.last() == ns.last()
                    && walk_weight(es, w2) <= walk_weight(es2, w));
            } else {
                assert(ns[0] == z1);
                lemma_walk_prepend(es, a, ni, w3, ns3);
                lemma_walk_prepend(es, b, z1, seq![a] + w3, seq![ni] + ns3);
                let w2 = seq![b] + (seq![a] + w3);
                let ns2 = seq![z1] + (seq![ni] + ns3);
                assert(walk_ok(es, w2, ns2) && ns2.first() == ns.first() && ns2.last() == ns.last()
                    && walk_weight(es, w2) <= walk_weight(es2, w));
            }
        } else {
            assert(w[0] != b);
            assert(es2[w[0]] == es[w[0]]);
            lemma_walk_prepend(es, w[0], ns[0], w3, ns3);
            let w2 = seq![w[0]] + w3;
            let ns2 = seq![ns[0]] + ns3;
            assert(walk_ok(es, w2, ns2) && ns2.first() == ns.first() && ns2.last() == ns.last()
                && walk_weight(es, w2) <= walk_weight(es2, w));
        }
    }
}

/// The two incident edges of `ni`, when it has exactly two.
fn incident_pair(g: &Graph, ni: usize) -> (r: Option<(usize, usize)>)
    ensures
        match r {
            Some(p) => {
                &&& p.0 < g.edges@.len() && p.1 < g.edges@.len() && p.0 != p.1
                &&& incident(g.edges@[p.0 as int], ni as int)
                &&& incident(g.edges@[p.1 as int], ni as int)
                &&& forall|k: int|
                    0 <= k < g.edges@.len() && incident(#[trigger] g.edges@[k], ni as int) ==> k
                        == p.0 || k == p.1
            },
            None => degree(g.edges@, ni as int) != 2,
        },
{
    let mut first: Option<usize> = None;
    let mut second: Option<usize> = None;
    let mut k: usize = 0;
    while k < g.edges.len()
        invariant
            k <= g.edges@.len(),
            match (first, second) {
                (None, None) => crate::graph::degree_upto(g.edges@, ni as int, k as int) == 0
                    && forall|j: int|
                    0 <= j < k ==> !incident(#[trigger] g.edges@[j], ni as int),
                (Some(x), None) => {
                    &&& x < k
                    &&& incident(g.edges@[x as int], ni as int)
                    &&& crate::graph::degree_upto(g.edges@, ni as int, k as int) == 1
                    &&& forall|j: int|
                        0 <= j < k && incident(#[trigger] g.edges@[j], ni as int) ==> j == x
                },
                (Some(x), Some(y)) => {
                    &&& x < k && y < k && x != y
                    &&& incident(g.edges@[x as int], ni as int)
                    &&& incident(g.edges@[y as int], ni as int)
                    &&& crate::graph::degree_upto(g.edges@, ni as int, k as int) == 2
                    &&& forall|j: int|
                        0 <= j < k && incident(#[trigger] g.edges@[j], ni as int) ==> j == x || j
                            == y
                },
                (None, Some(_)) => false,
            },
        decreases g.edges@.len() - k,
    {
        let e = &g.edges[k];
        if (e.a == ni || e.b == ni) && e.a != e.b {
            if first.is_none() {
                first = Some(k);
            } else if second.is_none() {
                second = Some(k);
            } else {
                proof {
                    crate::graph::lemma_degree_upto_mono(
                        g.edges@,
                        ni as int,
                        k as int + 1,
                        g.edges@.len() as int,
                    );
                }
                return None;
            }
        }
        k = k + 1;
    }
    match (first, second) {
        (Some(x), Some(y)) => Some((x, y)),
        _ => None,
    }
}

/// The end of `e` away from `v`.
pub open spec fn far_end(e: Edge, v: int) -> int {
    if e.a == v {
        e.b as int
    } else {
        e.a as int
    }
}

/// Edges `a` and `b` are the only two incident to `v`, and they make it
/// an interior chain node: both far ends are distinct trail nodes of
/// `v`'s own stage, and the summed weight is representable.
pub open spec fn collapsible_at(
    nodes: Seq<Node>,
    es: Seq<Edge>,
    v: int,
    a: int,
    b: int,
) -> bool {
    &&& 0 <= a < es.len() && 0 <= b < es.len() && a != b
    &&& incident(es[a], v) && incident(es[b], v)
    &&& forall|k: int| 0 <= k < es.len() && incident(#[trigger] es[k], v) ==> k == a || k == b
    &&& {
        let z0 = far_end(es[a], v);
        let z1 = far_end(es[b], v);
        &&& z0 != z1
        &&& 0 <= z0 < nodes.len() && nodes[z0].is_trail() && nodes[z0].stage() == nodes[v].stage()
        &&& 0 <= z1 < nodes.len() && nodes[z1].is_trail() && nodes[z1].stage() == nodes[v].stage()
    }
    &&& es[a].w + es[b].w <= u64::MAX
}

/// `v` is a trail node the simplification rule still applies to.
pub open spec fn collapsible(nodes: Seq<Node>, es: Seq<Edge>, v: int) -> bool {
    &&& 0 <= v < nodes.len() && nodes[v].is_trail()
    &&& exists|a: int, b: int| #[trigger] collapsible_at(nodes, es, v, a, b)
}

proof fn lemma_degree_upto_pair(es: Seq<Edge>, v: int, a: int, b: int, m: int)
    requires
        0 <= a < es.len() && 0 <= b < es.len() && a != b,
        incident(es[a], v) && incident(es[b], v),
        forall|k: int| 0 <= k < es.len() && incident(#[trigger] es[k], v) ==> k == a || k == b,
        0 <= m <= es.len(),
    ensures
        crate::graph::degree_upto(es, v, m) == (if a < m {
            1int
        } else {
            0int
        }) + (if b < m {
            1int
        } else {
            0int
        }),
    decreases m,
{
    if m > 0 {
        lemma_degree_upto_pair(es, v, a, b, m - 1);
    }
}

/// A node with exactly two incident edges has degree two.
proof fn lemma_degree_of_pair(es: Seq<Edge>, v: int, a: int, b: int)
    requires
        0 <= a < es.len() && 0 <= b < es.len() && a != b,
        incident(es[a], v) && incident(es[b], v),
        forall|k: int| 0 <= k < es.len() && incident(#[trigger] es[k], v) ==> k == a || k == b,
    ensures
        degree(es, v) == 2,
{
    lemma_degree_upto_pair(es, v, a, b, es.len() as int);
}

/// One simplification sweep: every trail node whose only two edges lead
/// to trail nodes of its own stage is cut out, its two edges fused into
/// one of summed weight.  Distances between nodes that keep an edge are
/// untouched.  Afterwards the rule applies to no node: the pass reaches
/// its fixpoint in one sweep.
#[verifier::rlimit(100)]
pub fn simplify_pass(g: &mut Graph)
    requires
        old(g).wf(),
    ensures
        final(g).wf(),
        final(g).nodes@ == old(g).nodes@,
        final(g).edges@.len() == old(g).edges@.len(),
        forall|u: int, v: int, d: int|
            0 <= u < final(g).nodes@.len() && 0 <= v < final(g).nodes@.len() && degree(
                final(g).edges@,
                u,
            ) > 0 && degree(final(g).edges@, v) > 0 ==> reach_within(old(g).edges@, u, v, d)
                == #[trigger] reach_within(final(g).edges@, u, v, d),
        forall|u: int|
            0 <= u < final(g).nodes@.len() && degree(#[trigger] final(g).edges@, u) == 0 ==> degree(
                old(g).edges@,
                u,
            ) == 0 || final(g).nodes@[u].is_trail(),
        forall|v: int|
            0 <= v < final(g).nodes@.len() ==> !collapsible(final(g).nodes@, final(g).edges@, v),
{
    let ghost es0 = old(g).edges@;
    let ghost mut cut: Set<int> = Set::empty();
    let mut ni: usize = 0;
    while ni < g.nodes.len()
        invariant
            g.wf(),
            g.nodes@ == old(g).nodes@,
            es0 == old(g).edges@,
            g.edges@.len() == es0.len(),
            ni <= g.nodes@.len(),
            forall|c: int|
                #[trigger] cut.contains(c) ==> 0 <= c < g.nodes@.len() && degree(g.edges@, c) == 0
                    && g.nodes@[c].is_trail(),
            forall|u: int, v: int, d: int|
                0 <= u < g.nodes@.len() && 0 <= v < g.nodes@.len() && !cut.contains(u)
                    && !cut.contains(v) ==> #[trigger] reach_within(es0, u, v, d)
                    == #[trigger] reach_within(g.edges@, u, v, d),
            forall|u: int|
                0 <= u < g.nodes@.len() && degree(#[trigger] g.edges@, u) == 0 ==> degree(es0, u)
                    == 0 || cut.contains(u),
            forall|v: int| 0 <= v < ni ==> !collapsible(g.nodes@, g.edges@, v),
        decreases g.nodes@.len() - ni,
    {
        let s: Option<usize> = match &g.nodes[ni].kind {
            NodeKind::Trail { stage, .. } => Some(*stage),
            NodeKind::Stop { .. } => None,
        };
        if let Some(stage) = s {
            proof {
                assert(g.nodes@[ni as int].is_trail() && g.nodes@[ni as int].stage() == stage);
            }
            if let Some((a, b)) = incident_pair(g, ni) {
                let ea = g.edges[a];
                let eb = g.edges[b];
                let z0 = if ea.a == ni {
                    ea.b
                } else {
                    ea.a
                };
                let z1 = if eb.a == ni {
                    eb.b
                } else {
                    eb.a
                };
                proof {
                    assert(z0 == far_end(g.edges@[a as int], ni as int));
                    assert(z1 == far_end(g.edges@[b as int], ni as int));
                }
                let z0_fits = match &g.nodes[z0].kind {
                    NodeKind::Trail { stage: s2, .. } => *s2 == stage,
                    NodeKind::Stop { .. } => false,
                };
                let z1_fits = match &g.nodes[z1].kind {
                    NodeKind::Trail { stage: s2, .. } => *s2 == stage,
                    NodeKind::Stop { .. } => false,
                };
                proof {
                    assert(z0_fits == (g.nodes@[z0 as int].is_trail() && g.nodes@[z0 as int].stage()
                        == stage));
                    assert(z1_fits == (g.nodes@[z1 as int].is_trail() && g.nodes@[z1 as int].stage()
                        == stage));
                }
                if z0 != z1 && z0_fits && z1_fits {
                    if let Some(ws) = ea.w.checked_add(eb.w) {
                        let ghost pre = g.edges@;
                        g.edges.set(a, Edge { a: z0, b: z1, w: ws });
                        g.edges.set(b, Edge { a: ni, b: ni, w: 0 });
                        proof {
                            let esn = g.edges@;
                            assert(esn == pre.update(a as int, Edge { a: z0, b: z1, w: ws }).update(
                                b as int,
                                Edge { a: ni, b: ni, w: 0 },
                            ));
                            assert(collapse_shape(
                                pre,
                                esn,
                                ni as int,
                                a as int,
                                b as int,
                                z0 as int,
                                z1 as int,
                            ));
                            // Degrees: `ni` drops to zero, everyone else keeps theirs.
                            assert(degree(esn, ni as int) == 0) by {
                                assert forall|k: int|
                                    0 <= k < esn.len() implies !incident(
                                    #[trigger] esn[k],
                                    ni as int,
                                ) by {
                                    if k != a && k != b {
                                        assert(esn[k] == pre[k]);
                                    }
                                }
                                lemma_degree_zero(esn, ni as int);
                            }
                            assert forall|u: int| u != ni implies degree(esn, u) == degree(
                                pre,
                                u,
                            ) by {
                                let mid = pre.update(a as int, Edge { a: z0, b: z1, w: ws });
                                lemma_degree_update(pre, a as int, Edge { a: z0, b: z1, w: ws }, u);
                                lemma_degree_update(mid, b as int, Edge { a: ni, b: ni, w: 0 }, u);
                                assert(mid[b as int] == pre[b as int]);
                            }
                            // The collapsed node had positive degree, so it was
                            // not yet cut, and its neighbours keep an edge.
                            crate::graph::lemma_degree_pos(pre, a as int, ni as int);
                            crate::graph::lemma_degree_pos(pre, a as int, z0 as int);
                            crate::graph::lemma_degree_pos(pre, b as int, z1 as int);
                            let cut2 = cut.insert(ni as int);
                            assert forall|u: int, v: int, d: int|
                                0 <= u < g.nodes@.len() && 0 <= v < g.nodes@.len()
                                    && !cut2.contains(u) && !cut2.contains(v) implies #[trigger] reach_within(
                                es0,
                                u,
                                v,
                                d,
                            ) == #[trigger] reach_within(esn, u, v, d) by {
                                lemma_collapse_preserves_reach(
                                    pre,
                                    esn,
                                    ni as int,
                                    a as int,
                                    b as int,
                                    z0 as int,
                                    z1 as int,
                                    u,
                                    v,
                                    d,
                                );
                            }
                            cut = cut2;
                            // The rule applies to no processed node afterwards:
                            // the collapse only rewires its two neighbours, and
                            // for each a would-be witness there unwinds to one
                            // in the untouched arena, already ruled out.
                            assert forall|v: int|
                                0 <= v < ni + 1 implies !collapsible(g.nodes@, esn, v) by {
                                if collapsible(g.nodes@, esn, v) {
                                    let (a2, b2) = choose|a2: int, b2: int|
                                        collapsible_at(g.nodes@, esn, v, a2, b2);
                                    if v == ni as int {
                                        assert(!incident(esn[a2], v));
                                    } else if v == z0 as int {
                                        assert(incident(esn[a as int], v) && far_end(
                                            esn[a as int],
                                            v,
                                        ) == z1);
                                        assert(a2 == a || b2 == a);
                                        let c = if a2 == a as int {
                                            b2
                                        } else {
                                            a2
                                        };
                                        assert(incident(esn[c], v));
                                        assert(c != b);
                                        assert(c != a && esn[c] == pre[c]);
                                        let x = far_end(pre[c], v);
                                        assert(x != ni) by {
                                            if x == ni {
                                                assert(incident(pre[c], ni as int));
                                            }
                                        }
                                        assert(x == far_end(esn[c], v));
                                        assert(g.nodes@[x].is_trail() && g.nodes@[x].stage()
                                            == g.nodes@[v].stage());
                                        assert(collapsible_at(g.nodes@, pre, v, a as int, c)) by {
                                            assert(incident(pre[a as int], v));
                                            assert(far_end(pre[a as int], v) == ni);
                                            assert(pre[a as int].w <= esn[a as int].w);
                                            assert forall|k: int|
                                                0 <= k < pre.len() && incident(
                                                    #[trigger] pre[k],
                                                    v,
                                                ) implies k == a || k == c by {
                                                if k != a && k != b {
                                                    assert(esn[k] == pre[k]);
                                                }
                                            }
                                        }
                                        assert(collapsible(g.nodes@, pre, v));
                                    } else if v == z1 as int {
                                        assert(incident(esn[a as int], v) && far_end(
                                            esn[a as int],
                                            v,
                                        ) == z0);
                                        assert(a2 == a || b2 == a);
                                        let c = if a2 == a as int {
                                            b2
                                        } else {
                                            a2
                                        };
                                        assert(incident(esn[c], v));
                                        assert(c != b);
                                        assert(c != a && esn[c] == pre[c]);
                                        let x = far_end(pre[c], v);
                                        assert(x != ni) by {
                                            if x == ni {
                                                assert(incident(pre[c], ni as int));
                                            }
                                        }
                                        assert(x == far_end(esn[c], v));
                                        assert(g.nodes@[x].is_trail() && g.nodes@[x].stage()
                                            == g.nodes@[v].stage());
                                        assert(collapsible_at(g.nodes@, pre, v, b as int, c)) by {
                                            assert(incident(pre[b as int], v));
                                            assert(far_end(pre[b as int], v) == ni);
                                            assert(pre[b as int].w <= esn[a as int].w);
                                            assert forall|k: int|
                                                0 <= k < pre.len() && incident(
                                                    #[trigger] pre[k],
                                                    v,
                                                ) implies k == b || k == c by {
                                                if k != a && k != b {
                                                    assert(esn[k] == pre[k]);
                                                }
                                            }
                                        }
                                        assert(collapsible(g.nodes@, pre, v));
                                    } else {
                                        assert(a2 != a as int && a2 != b as int && b2 != a as int
                                            && b2 != b as int);
                                        assert(esn[a2] == pre[a2] && esn[b2] == pre[b2]);
                                        assert(collapsible_at(g.nodes@, pre, v, a2, b2)) by {
                                            assert forall|k: int|
                                                0 <= k < pre.len() && incident(
                                                    #[trigger] pre[k],
                                                    v,
                                                ) implies k == a2 || k == b2 by {
                                                if k != a && k != b {
                                                    assert(esn[k] == pre[k]);
                                                } else {
                                                    assert(!incident(pre[k], v));
                                                }
                                            }
                                        }
                                        assert(collapsible(g.nodes@, pre, v));
                                    }
                                }
                            }
                        }
                    } else {
                        proof {
                            assert(g.edges@[a as int].w + g.edges@[b as int].w > u64::MAX);
                            if collapsible(g.nodes@, g.edges@, ni as int) {
                                let (a2, b2) = choose|a2: int, b2: int|
                                    collapsible_at(g.nodes@, g.edges@, ni as int, a2, b2);
                                assert(a2 == a || a2 == b);
                                assert(b2 == a || b2 == b);
                            }
                            assert(!collapsible(g.nodes@, g.edges@, ni as int));
                        }
                    }
                } else {
                    proof {
                        if collapsible(g.nodes@, g.edges@, ni as int) {
                            let (a2, b2) = choose|a2: int, b2: int|
                                collapsible_at(g.nodes@, g.edges@, ni as int, a2, b2);
                            assert(a2 == a || a2 == b);
                            assert(b2 == a || b2 == b);
                            if a2 == a as int {
                                assert(far_end(g.edges@[a2], ni as int) == z0 && far_end(
                                    g.edges@[b2],
                                    ni as int,
                                ) == z1);
                            } else {
                                assert(far_end(g.edges@[a2], ni as int) == z1 && far_end(
                                    g.edges@[b2],
                                    ni as int,
                                ) == z0);
                            }
                        }
                        assert(!collapsible(g.nodes@, g.edges@, ni as int));
                    }
                }
            } else {
                proof {
                    if collapsible(g.nodes@, g.edges@, ni as int) {
                        let (a2, b2) = choose|a2: int, b2: int|
                            collapsible_at(g.nodes@, g.edges@, ni as int, a2, b2);
                        lemma_degree_of_pair(g.edges@, ni as int, a2, b2);
                    }
                    assert(!collapsible(g.nodes@, g.edges@, ni as int));
                }
            }
        } else {
            proof {
                assert(!g.nodes@[ni as int].is_trail());
                assert(!collapsible(g.nodes@, g.edges@, ni as int));
            }
        }
        ni = ni + 1;
    }
    proof {
        assert forall|u: int, v: int, d: int|
            0 <= u < g.nodes@.len() && 0 <= v < g.nodes@.len() && degree(g.edges@, u) > 0 && degree(
                g.edges@,
                v,
            ) > 0 implies reach_within(es0, u, v, d) == #[trigger] reach_within(
            g.edges@,
            u,
            v,
            d,
        ) by {
            assert(!cut.contains(u) && !cut.contains(v));
        }
    }
}

/// Collapsing one interior node changes no reachability budget between
/// other nodes.
pub proof fn lemma_collapse_preserves_reach(
    es: Seq<Edge>,
    es2: Seq<Edge>,
    ni: int,
    a: int,
    b: int,
    z0: int,
    z1: int,
    u: int,
    v: int,
    d: int,
)
    requires
        collapse_shape(es, es2, ni, a, b, z0, z1),
        u != ni,
        v != ni,
    ensures
        reach_within(es, u, v, d) == reach_within(es2, u, v, d),
{
    if reach_within(es, u, v, d) {
        let (w, ns) = choose|w: Seq<int>, ns: Seq<int>|
            walk_ok(es, w, ns) && ns.first() == u && ns.last() == v && walk_weight(es, w) <= d;
        lemma_collapse_to_new(es, es2, ni, a, b, z0, z1, w, ns);
        assert(reach_within(es2, u, v, d));
    }
    if reach_within(es2, u, v, d) {
        let (w, ns) = choose|w: Seq<int>, ns: Seq<int>|
            walk_ok(es2, w, ns) && ns.first() == u && ns.last() == v && walk_weight(es2, w) <= d;
        lemma_collapse_to_old(es, es2, ni, a, b, z0, z1, w, ns);
        assert(reach_within(es, u, v, d));
    }
}

/// An edge that joins two distinct nodes (not a parked self-loop).
pub open spec fn live(e: Edge) -> bool {
    e.a != e.b
}

/// How many of the first `k` edges are live.
pub open spec fn live_upto(es: Seq<Edge>, k: int) -> int
    decreases k,
{
    if k <= 0 {
        0
    } else {
        live_upto(es, k - 1) + if live(es[k - 1]) {
            1int
        } else {
            0int
        }
    }
}

pub proof fn lemma_live_upto_mono(es: Seq<Edge>, k1: int, k2: int)
    requires
        0 <= k1 <= k2,
    ensures
        0 <= live_upto(es, k1) <= live_upto(es, k2),
    decreases k2 - k1, k1,
{
    if k1 < k2 {
        lemma_live_upto_mono(es, k1, k2 - 1);
    } else if k1 > 0 {
        lemma_live_upto_mono(es, k1 - 1, k1 - 1);
    }
}

/// `i` is the old index of some kept node.
pub open spec fn in_map(map: Seq<usize>, i: int) -> bool {
    exists|j: int| 0 <= j < map.len() && map[j] == i
}

/// Remove every node without a live edge, renumbering the rest in order;
/// the returned vector maps each new node index to its old one.  Live
/// edges are kept in order with their endpoints renumbered.
pub fn prune_isolated(g: &Graph) -> (r: (Graph, Vec<usize>))
    requires
        g.wf(),
    ensures
        r.0.wf(),
        r.1@.len() == r.0.nodes@.len(),
        forall|j1: int, j2: int| 0 <= j1 < j2 < r.1@.len() ==> r.1@[j1] < r.1@[j2],
        forall|j: int|
            0 <= j < r.1@.len() ==> (#[trigger] r.1@[j]) < g.nodes@.len() && r.0.nodes@[j]
                == g.nodes@[r.1@[j] as int] && degree(g.edges@, r.1@[j] as int) > 0,
        forall|i: int|
            0 <= i < g.nodes@.len() && degree(g.edges@, i) > 0 ==> #[trigger] in_map(r.1@, i),
        r.0.edges@.len() == live_upto(g.edges@, g.edges@.len() as int),
        forall|k: int|
            0 <= k < g.edges@.len() && live(#[trigger] g.edges@[k]) ==> {
                let e2 = r.0.edges@[live_upto(g.edges@, k)];
                &&& e2.w == g.edges@[k].w
                &&& e2.a < r.1@.len() && r.1@[e2.a as int] == g.edges@[k].a
                &&& e2.b < r.1@.len() && r.1@[e2.b as int] == g.edges@[k].b
            },
        forall|j1: int, j2: int, d: int|
            0 <= j1 < r.1@.len() && 0 <= j2 < r.1@.len() ==> reach_within(r.0.edges@, j1, j2, d)
                == #[trigger] reach_within(g.edges@, r.1@[j1] as int, r.1@[j2] as int, d),
{
    let mut g2 = Graph::new();
    let mut map: Vec<usize> = Vec::new();
    let mut newidx: Vec<Option<usize>> = Vec::new();
    let mut i: usize = 0;
    while i < g.nodes.len()
        invariant
            g.wf(),
            i <= g.nodes@.len(),
            newidx@.len() == i,
            map@.len() == g2.nodes@.len(),
            g2.wf(),
            g2.edges@.len() == 0,
            forall|j1: int, j2: int| 0 <= j1 < j2 < map@.len() ==> map@[j1] < map@[j2],
            forall|j: int|
                0 <= j < map@.len() ==> (#[trigger] map@[j]) < i && g2.nodes@[j]
                    == g.nodes@[map@[j] as int] && degree(g.edges@, map@[j] as int) > 0,
            forall|i2: int|
                0 <= i2 < i ==> match #[trigger] newidx@[i2] {
                    Some(j) => 0 <= j < map@.len() && map@[j as int] == i2 && degree(
                        g.edges@,
                        i2,
                    ) > 0,
                    None => degree(g.edges@, i2) == 0,
                },
        decreases g.nodes@.len() - i,
    {
        let d = g.node_degree(i);
        if d > 0 {
            let j = map.len();
            newidx.push(Some(j));
            map.push(i);
            let nd = g.nodes[i];
            g2.nodes.push(nd);
        } else {
            newidx.push(None);
        }
        i = i + 1;
    }
    let ghost nmap = map@;
    let mut k: usize = 0;
    while k < g.edges.len()
        invariant
            g.wf(),
            k <= g.edges@.len(),
            nmap == map@,
            map@.len() == g2.nodes@.len(),
            g2.wf(),
            newidx@.len() == g.nodes@.len(),
            forall|j1: int, j2: int| 0 <= j1 < j2 < map@.len() ==> map@[j1] < map@[j2],
            forall|j: int|
                0 <= j < map@.len() ==> (#[trigger] map@[j]) < g.nodes@.len() && g2.nodes@[j]
                    == g.nodes@[map@[j] as int] && degree(g.edges@, map@[j] as int) > 0,
            forall|i2: int|
                0 <= i2 < g.nodes@.len() ==> match #[trigger] newidx@[i2] {
                    Some(j) => 0 <= j < map@.len() && map@[j as int] == i2 && degree(
                        g.edges@,
                        i2,
                    ) > 0,
                    None => degree(g.edges@, i2) == 0,
                },
            g2.edges@.len() == live_upto(g.edges@, k as int),
            forall|k2: int|
                0 <= k2 < k && live(#[trigger] g.edges@[k2]) ==> {
                    let e2 = g2.edges@[live_upto(g.edges@, k2)];
                    &&& e2.w == g.edges@[k2].w
                    &&& e2.a < map@.len() && map@[e2.a as int] == g.edges@[k2].a
                    &&& e2.b < map@.len() && map@[e2.b as int] == g.edges@[k2].b
                },
        decreases g.edges@.len() - k,
    {
        let e = g.edges[k];
        if e.a != e.b {
            proof {
                crate::graph::lemma_degree_pos(g.edges@, k as int, e.a as int);
                crate::graph::lemma_degree_pos(g.edges@, k as int, e.b as int);
                assert(live_upto(g.edges@, k as int) >= 0);
            }
            let na = newidx[e.a].unwrap();
            let nb = newidx[e.b].unwrap();
            g2.edges.push(Edge { a: na, b: nb, w: e.w });
            proof {
                assert(g2.edges@[live_upto(g.edges@, k as int)] == Edge { a: na, b: nb, w: e.w });
                assert(live_upto(g.edges@, k as int + 1) == live_upto(g.edges@, k as int) + 1);
                assert forall|k2: int|
                    0 <= k2 < k && live(#[trigger] g.edges@[k2]) implies 0 <= live_upto(
                    g.edges@,
                    k2,
                ) < live_upto(g.edges@, k as int) by {
                    lemma_live_upto_mono(g.edges@, 0, k2);
                    assert(live_upto(g.edges@, k2 + 1) == live_upto(g.edges@, k2) + 1);
                    lemma_live_upto_mono(g.edges@, k2 + 1, k as int);
                }
            }
        } else {
            proof {
                assert(live_upto(g.edges@, k as int + 1) == live_upto(g.edges@, k as int));
            }
        }
        k = k + 1;
    }
    proof {
        assert forall|i2: int|
            0 <= i2 < g.nodes@.len() && degree(g.edges@, i2) > 0 implies in_map(map@, i2) by {
            match newidx@[i2] {
                Some(j) => {
                    assert(0 <= j < map@.len() && map@[j as int] == i2);
                },
                None => {},
            }
        }
        assert(prune_corr(g.edges@, g2.edges@, map@));
        assert forall|j1: int, j2: int, d: int|
            0 <= j1 < map@.len() && 0 <= j2 < map@.len() implies reach_within(
            g2.edges@,
            j1,
            j2,
            d,
        ) == #[trigger] reach_within(g.edges@, map@[j1] as int, map@[j2] as int, d) by {
            lemma_prune_preserves_reach(g.edges@, g2.edges@, map@, j1, j2, d);
        }
    }
    (g2, map)
}


/// The pruned edge arena corresponds to the live edges of the old one,
/// with nodes renumbered through `map`.
pub open spec fn prune_corr(es: Seq<Edge>, es2: Seq<Edge>, map: Seq<usize>) -> bool {
    &&& forall|j1: int, j2: int| 0 <= j1 < j2 < map.len() ==> map[j1] < map[j2]
    &&& es2.len() == live_upto(es, es.len() as int)
    &&& forall|k: int|
        0 <= k < es.len() && live(#[trigger] es[k]) ==> {
            let e2 = es2[live_upto(es, k)];
            &&& e2.a < map.len() && map[e2.a as int] == es[k].a
            &&& e2.b < map.len() && map[e2.b as int] == es[k].b
            &&& e2.w == es[k].w
        }
    &&& forall|k2: int|
        0 <= k2 < es2.len() ==> (#[trigger] es2[k2]).a < map.len() && es2[k2].b < map.len()
}

proof fn lemma_map_injective(map: Seq<usize>, j1: int, j2: int)
    requires
        forall|a: int, b: int| 0 <= a < b < map.len() ==> map[a] < map[b],
        0 <= j1 < map.len(),
        0 <= j2 < map.len(),
        map[j1] == map[j2],
    ensures
        j1 == j2,
{
}

proof fn lemma_live_surj(es: Seq<Edge>, m: int, k2: int)
    requires
        0 <= m <= es.len(),
        0 <= k2 < live_upto(es, m),
    ensures
        exists|k: int|
            0 <= k < m && live(#[trigger] es[k]) && live_upto(es, k) == k2,
    decreases m,
{
    if m > 0 {
        lemma_live_upto_mono(es, 0, m - 1);
        if k2 < live_upto(es, m - 1) {
            lemma_live_surj(es, m - 1, k2);
        } else {
            assert(live(es[m - 1]) && live_upto(es, m - 1) == k2);
        }
    }
}

/// An old walk between kept nodes maps into the pruned arena at no
/// greater weight (self-loop steps are dropped).
proof fn lemma_prune_walk_fwd(
    es: Seq<Edge>,
    es2: Seq<Edge>,
    map: Seq<usize>,
    w: Seq<int>,
    ns: Seq<int>,
    j1: int,
    j2: int,
)
    requires
        prune_corr(es, es2, map),
        walk_ok(es, w, ns),
        0 <= j1 < map.len(),
        0 <= j2 < map.len(),
        map[j1] == ns.first(),
        map[j2] == ns.last(),
    ensures
        exists|w2: Seq<int>, ns2: Seq<int>|
            walk_ok(es2, w2, ns2) && ns2.first() == j1 && ns2.last() == j2 && walk_weight(
                es2,
                w2,
            ) <= walk_weight(es, w),
    decreases w.len(),
{
    lemma_walk_weight_nonneg(es, w);
    if w.len() == 0 {
        lemma_map_injective(map, j1, j2);
        lemma_walk_trivial(es2, j1);
        let w2 = Seq::<int>::empty();
        let ns2 = seq![j1];
        assert(walk_ok(es2, w2, ns2) && ns2.first() == j1 && ns2.last() == j2 && walk_weight(
            es2,
            w2,
        ) <= walk_weight(es, w));
    } else {
        assert(connects(es[w[0]], ns[0], ns[1]));
        lemma_walk_skip(es, w, ns, 1);
        assert(w.skip(1) =~= w.drop_first());
        assert(walk_weight(es, w) == es[w[0]].w + walk_weight(es, w.drop_first()));
        if !live(es[w[0]]) {
            // A self-loop stands still; drop it.
            assert(ns[1] == ns[0]);
            lemma_prune_walk_fwd(es, es2, map, w.skip(1), ns.skip(1), j1, j2);
            let (w3, ns3) = choose|w3: Seq<int>, ns3: Seq<int>|
                walk_ok(es2, w3, ns3) && ns3.first() == j1 && ns3.last() == j2 && walk_weight(
                    es2,
                    w3,
                ) <= walk_weight(es, w.skip(1));
            assert(walk_ok(es2, w3, ns3) && ns3.first() == j1 && ns3.last() == j2 && walk_weight(
                es2,
                w3,
            ) <= walk_weight(es, w));
        } else {
            let k2 = live_upto(es, w[0]);
            lemma_live_upto_mono(es, 0, w[0]);
            assert(live_upto(es, w[0] + 1) == k2 + 1);
            lemma_live_upto_mono(es, w[0] + 1, es.len() as int);
            let e2 = es2[k2];
            // The new edge's endpoints are the renamed old endpoints.
            let jn = if map[e2.a as int] == ns[1] {
                e2.a as int
            } else {
                e2.b as int
            };
            if es[w[0]].a == ns[0] && es[w[0]].b == ns[1] {
                lemma_map_injective(map, j1, e2.a as int);
                assert(map[jn] == ns[1]);
                assert(connects(es2[k2], j1, jn));
            } else {
                assert(es[w[0]].a == ns[1] && es[w[0]].b == ns[0]);
                lemma_map_injective(map, j1, e2.b as int);
                assert(map[jn] == ns[1]);
                assert(connects(es2[k2], j1, jn));
            }
            lemma_prune_walk_fwd(es, es2, map, w.skip(1), ns.skip(1), jn, j2);
            let (w3, ns3) = choose|w3: Seq<int>, ns3: Seq<int>|
                walk_ok(es2, w3, ns3) && ns3.first() == jn && ns3.last() == j2 && walk_weight(
                    es2,
                    w3,
                ) <= walk_weight(es, w.skip(1));
            crate::walks::lemma_walk_prepend(es2, k2, j1, w3, ns3);
            let w2 = seq![k2] + w3;
            let ns2 = seq![j1] + ns3;
            assert(walk_ok(es2, w2, ns2) && ns2.first() == j1 && ns2.last() == j2 && walk_weight(
                es2,
                w2,
            ) <= walk_weight(es, w));
        }
    }
}

/// A pruned walk maps back onto the old arena at the same weight.
proof fn lemma_prune_walk_bwd(
    es: Seq<Edge>,
    es2: Seq<Edge>,
    map: Seq<usize>,
    w: Seq<int>,
    ns: Seq<int>,
)
    requires
        prune_corr(es, es2, map),
        walk_ok(es2, w, ns),
        0 <= ns.first() < map.len(),
        0 <= ns.last() < map.len(),
    ensures
        exists|w2: Seq<int>, ns2: Seq<int>|
            walk_ok(es, w2, ns2) && ns2.first() == map[ns.first()] && ns2.last() == map[ns.last()]
                && walk_weight(es, w2) <= walk_weight(es2, w),
    decreases w.len(),
{
    if w.len() == 0 {
        lemma_walk_trivial(es, map[ns.first()] as int);
        let w2 = Seq::<int>::empty();
        let ns2 = seq![map[ns.first()] as int];
        assert(walk_ok(es, w2, ns2) && ns2.first() == map[ns.first()] && ns2.last()
            == map[ns.last()] && walk_weight(es, w2) <= walk_weight(es2, w));
    } else {
        assert(connects(es2[w[0]], ns[0], ns[1]));
        assert(0 <= ns[1] < map.len());
        lemma_walk_skip(es2, w, ns, 1);
        assert(w.skip(1) =~= w.drop_first());
        assert(walk_weight(es2, w) == es2[w[0]].w + walk_weight(es2, w.drop_first()));
        lemma_live_surj(es, es.len() as int, w[0]);
        let k = choose|k: int|
            0 <= k < es.len() && live(#[trigger] es[k]) && live_upto(es, k) == w[0];
        assert(connects(es[k], map[ns[0]] as int, map[ns[1]] as int));
        lemma_prune_walk_bwd(es, es2, map, w.skip(1), ns.skip(1));
        let (w3, ns3) = choose|w3: Seq<int>, ns3: Seq<int>|
            walk_ok(es, w3, ns3) && ns3.first() == map[ns.skip(1).first()] && ns3.last()
                == map[ns.skip(1).last()] && walk_weight(es, w3) <= walk_weight(es2, w.skip(1));
        crate::walks::lemma_walk_prepend(es, k, map[ns[0]] as int, w3, ns3);
        let w2 = seq![k] + w3;
        let ns2 = seq![map[ns[0]] as int] + ns3;
        assert(walk_ok(es, w2, ns2) && ns2.first() == map[ns.first()] && ns2.last()
            == map[ns.last()] && walk_weight(es, w2) <= walk_weight(es2, w));
    }
}

/// Renumbering through the prune map changes no reachability budget.
pub proof fn lemma_prune_preserves_reach(
    es: Seq<Edge>,
    es2: Seq<Edge>,
    map: Seq<usize>,
    j1: int,
    j2: int,
    d: int,
)
    requires
        prune_corr(es, es2, map),
        0 <= j1 < map.len(),
        0 <= j2 < map.len(),
    ensures
        reach_within(es2, j1, j2, d) == reach_within(es, map[j1] as int, map[j2] as int, d),
{
    if reach_within(es2, j1, j2, d) {
        let (w, ns) = choose|w: Seq<int>, ns: Seq<int>|
            walk_ok(es2, w, ns) && ns.first() == j1 && ns.last() == j2 && walk_weight(es2, w)
                <= d;
        lemma_prune_walk_bwd(es, es2, map, w, ns);
        assert(reach_within(es, map[j1] as int, map[j2] as int, d));
    }
    if reach_within(es, map[j1] as int, map[j2] as int, d) {
        let (w, ns) = choose|w: Seq<int>, ns: Seq<int>|
            walk_ok(es, w, ns) && ns.first() == map[j1] as int && ns.last() == map[j2] as int
                && walk_weight(es, w) <= d;
        lemma_prune_walk_fwd(es, es2, map, w, ns, j1, j2);
        assert(reach_within(es2, j1, j2, d));
    }
}

} // verus!
