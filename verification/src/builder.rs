//! Graph Builder: turns per-stage ordered point sequences into trail
//! chains, stitches loose stage endpoints to nearby stages, and links
//! stop areas to their closest trail point.

use vstd::prelude::*;
use crate::geom::{coord_ok, euclid, sq, lemma_isqrt_bounds, lemma_sq_monotone};
use crate::graph::{degree, Edge, Graph, Node, NodeKind};
use crate::records::StopArea;
use crate::text::{contains_sub, has_substr};

verus! {

/// One trail stage: a label and the ordered polyline of its points.
pub struct Stage {
    pub label: String,
    pub points: Vec<(i64, i64)>,
}

/// Stages a stop area is excluded for: its name marks local/short-range
/// service.
pub open spec fn local_service_mark() -> Seq<char> {
    " NO "@
}

pub open spec fn points_ok(pts: Seq<(i64, i64)>) -> bool {
    forall|i: int| 0 <= i < pts.len() ==> coord_ok((#[trigger] pts[i]).0) && coord_ok(pts[i].1)
}

pub open spec fn stages_ok(ss: Seq<Stage>) -> bool {
    forall|i: int| 0 <= i < ss.len() ==> points_ok((#[trigger] ss[i]).points@)
}

/// Index of the first node of stage `si` in the freshly built arena.
pub open spec fn node_offset(ss: Seq<Stage>, si: int) -> int
    decreases si,
{
    if si <= 0 {
        0
    } else {
        node_offset(ss, si - 1) + ss[si - 1].points@.len()
    }
}

pub open spec fn stage_edge_count(n: int) -> int {
    if n >= 1 {
        n - 1
    } else {
        0
    }
}

/// Index of the first chain edge of stage `si` in the edge arena.
pub open spec fn edge_offset(ss: Seq<Stage>, si: int) -> int
    decreases si,
{
    if si <= 0 {
        0
    } else {
        edge_offset(ss, si - 1) + stage_edge_count(ss[si - 1].points@.len() as int)
    }
}

/// Distance walked along the polyline up to point `i` (0 for `i <= 0`).
pub open spec fn prefix_dist(pts: Seq<(i64, i64)>, i: int) -> int
    decreases i,
{
    if i <= 0 {
        0
    } else {
        prefix_dist(pts, i - 1) + euclid(
            pts[i - 1].0 as int,
            pts[i - 1].1 as int,
            pts[i].0 as int,
            pts[i].1 as int,
        )
    }
}

/// The node stage `si`'s point `pi` becomes.
pub open spec fn trail_node_at(ss: Seq<Stage>, si: int, pi: int) -> Node {
    Node {
        x: ss[si].points@[pi].0,
        y: ss[si].points@[pi].1,
        kind: NodeKind::Trail { stage: si as usize, cum: prefix_dist(ss[si].points@, pi) as u64 },
    }
}

/// The chain edge joining stage `si`'s points `k` and `k + 1`.
pub open spec fn trail_edge_at(ss: Seq<Stage>, si: int, k: int) -> Edge {
    Edge {
        a: (node_offset(ss, si) + k) as usize,
        b: (node_offset(ss, si) + k + 1) as usize,
        w: euclid(
            ss[si].points@[k].0 as int,
            ss[si].points@[k].1 as int,
            ss[si].points@[k + 1].0 as int,
            ss[si].points@[k + 1].1 as int,
        ) as u64,
    }
}

pub proof fn lemma_euclid_bound(ax: int, ay: int, bx: int, by: int)
    requires
        coord_ok(ax as i64) && -1_000_000_000 <= ax <= 1_000_000_000,
        -1_000_000_000 <= ay <= 1_000_000_000,
        -1_000_000_000 <= bx <= 1_000_000_000,
        -1_000_000_000 <= by <= 1_000_000_000,
    ensures
        0 <= euclid(ax, ay, bx, by) < 3_000_000_000,
{
    let n = crate::geom::sq_dist(ax, ay, bx, by);
    assert(0 <= ax - bx + 2_000_000_000 <= 4_000_000_000);
    assert(sq(ax - bx) <= 4_000_000_000_000_000_000 && sq(ax - bx) >= 0 && sq(ay - by)
        <= 4_000_000_000_000_000_000 && sq(ay - by) >= 0) by (nonlinear_arith)
        requires
            -2_000_000_000 <= ax - bx <= 2_000_000_000,
            -2_000_000_000 <= ay - by <= 2_000_000_000,
    ;
    lemma_isqrt_bounds(n as nat);
    let r = crate::geom::isqrt_spec(n as nat);
    if r >= 3_000_000_000 {
        lemma_sq_monotone(3_000_000_000int, r as int);
        assert(sq(3_000_000_000int) == 9_000_000_000_000_000_000) by (nonlinear_arith);
    }
}

pub proof fn lemma_prefix_dist_bound(pts: Seq<(i64, i64)>, i: int)
    requires
        points_ok(pts),
        i < pts.len(),
    ensures
        prefix_dist(pts, i) >= 0,
        i >= 0 ==> prefix_dist(pts, i) <= 3_000_000_000 * i,
    decreases i,
{
    if i <= 0 {
    } else {
        lemma_prefix_dist_bound(pts, i - 1);
        lemma_euclid_bound(
            pts[i - 1].0 as int,
            pts[i - 1].1 as int,
            pts[i].0 as int,
            pts[i].1 as int,
        );
    }
}

pub proof fn lemma_node_offset_nonneg(ss: Seq<Stage>, si: int)
    requires
        0 <= si <= ss.len(),
    ensures
        node_offset(ss, si) >= 0,
    decreases si,
{
    if si > 0 {
        lemma_node_offset_nonneg(ss, si - 1);
    }
}

pub proof fn lemma_node_offset_monotone(ss: Seq<Stage>, si: int, sj: int)
    requires
        0 <= si <= sj <= ss.len(),
    ensures
        0 <= node_offset(ss, si) <= node_offset(ss, sj),
    decreases sj - si,
{
    lemma_node_offset_nonneg(ss, si);
    if si < sj {
        lemma_node_offset_monotone(ss, si, sj - 1);
    }
}

pub proof fn lemma_edge_offset_nonneg(ss: Seq<Stage>, si: int)
    requires
        0 <= si <= ss.len(),
    ensures
        0 <= edge_offset(ss, si),
    decreases si,
{
    if si > 0 {
        lemma_edge_offset_nonneg(ss, si - 1);
    }
}

pub proof fn lemma_edge_offset_monotone(ss: Seq<Stage>, si: int, sj: int)
    requires
        0 <= si <= sj <= ss.len(),
    ensures
        0 <= edge_offset(ss, si) <= edge_offset(ss, sj),
    decreases sj - si,
{
    lemma_edge_offset_nonneg(ss, si);
    if si < sj {
        lemma_edge_offset_monotone(ss, si, sj - 1);
    }
}

/// Euclidean distance between the nodes at indices `i` and `j`.
pub open spec fn node_dist(nodes: Seq<Node>, i: int, j: int) -> int {
    euclid(nodes[i].x as int, nodes[i].y as int, nodes[j].x as int, nodes[j].y as int)
}

/// `j` is a trail node of a stage other than that of `ni`.
pub open spec fn other_stage_trail(nodes: Seq<Node>, ni: int, j: int) -> bool {
    0 <= j < nodes.len() && nodes[j].is_trail() && nodes[j].stage() != nodes[ni].stage()
}

/// `j` is the nearest other-stage trail node to `ni`; among equally near
/// candidates the highest index wins.
pub open spec fn is_closest_other_stage(nodes: Seq<Node>, ni: int, j: int) -> bool {
    &&& other_stage_trail(nodes, ni, j)
    &&& forall|k: int|
        #[trigger] other_stage_trail(nodes, ni, k) ==> (k <= j ==> node_dist(nodes, ni, j)
            <= node_dist(nodes, ni, k)) && (k > j ==> node_dist(nodes, ni, j) < node_dist(
            nodes,
            ni,
            k,
        ))
}

/// `j` is a stop-area node.
pub open spec fn stop_cand(nodes: Seq<Node>, j: int) -> bool {
    0 <= j < nodes.len() && nodes[j].is_stop()
}

/// `j` is the nearest stop-area node to `t`; among equally near
/// candidates the highest index wins.
pub open spec fn is_closest_stop(nodes: Seq<Node>, t: int, j: int) -> bool {
    &&& stop_cand(nodes, j)
    &&& forall|k: int|
        #[trigger] stop_cand(nodes, k) ==> (k <= j ==> node_dist(nodes, t, j) <= node_dist(
            nodes,
            t,
            k,
        )) && (k > j ==> node_dist(nodes, t, j) < node_dist(nodes, t, k))
}

/// Nearest trail node of a different stage, by linear scan.
pub fn closest_other_stage(g: &Graph, ni: usize) -> (r: Option<(usize, u64)>)
    requires
        g.wf(),
        ni < g.nodes@.len(),
        g.nodes@[ni as int].is_trail(),
    ensures
        match r {
            Some(jd) => is_closest_other_stage(g.nodes@, ni as int, jd.0 as int) && jd.1
                == node_dist(g.nodes@, ni as int, jd.0 as int),
            None => forall|k: int| !other_stage_trail(g.nodes@, ni as int, k),
        },
{
    let s: usize = match &g.nodes[ni].kind {
        NodeKind::Trail { stage, .. } => *stage,
        NodeKind::Stop { .. } => 0,
    };
    let mut best: Option<(usize, u64)> = None;
    let mut j: usize = 0;
    while j < g.nodes.len()
        invariant
            g.wf(),
            ni < g.nodes@.len(),
            g.nodes@[ni as int].is_trail(),
            s == g.nodes@[ni as int].stage(),
            j <= g.nodes@.len(),
            match best {
                Some(jd) => {
                    &&& jd.0 < j
                    &&& other_stage_trail(g.nodes@, ni as int, jd.0 as int)
                    &&& jd.1 == node_dist(g.nodes@, ni as int, jd.0 as int)
                    &&& forall|k: int|
                        k < j && #[trigger] other_stage_trail(g.nodes@, ni as int, k) ==> (k
                            <= jd.0 ==> jd.1 <= node_dist(g.nodes@, ni as int, k)) && (k > jd.0
                            ==> jd.1 < node_dist(g.nodes@, ni as int, k))
                },
                None => forall|k: int| k < j ==> !other_stage_trail(g.nodes@, ni as int, k),
            },
        decreases g.nodes@.len() - j,
    {
        let cand = match &g.nodes[j].kind {
            NodeKind::Trail { stage, .. } => *stage != s,
            NodeKind::Stop { .. } => false,
        };
        if cand {
            let a = &g.nodes[ni];
            let b = &g.nodes[j];
            let d = crate::geom::dist(a.x, a.y, b.x, b.y);
            let take = match &best {
                Some(jd) => d <= jd.1,
                None => true,
            };
            if take {
                best = Some((j, d));
            }
        }
        j = j + 1;
    }
    best
}

/// Nearest stop-area node to `t`, by linear scan.
pub fn closest_stop(g: &Graph, t: usize) -> (r: Option<(usize, u64)>)
    requires
        g.wf(),
        t < g.nodes@.len(),
    ensures
        match r {
            Some(jd) => is_closest_stop(g.nodes@, t as int, jd.0 as int) && jd.1 == node_dist(
                g.nodes@,
                t as int,
                jd.0 as int,
            ),
            None => forall|k: int| !stop_cand(g.nodes@, k),
        },
{
    let mut best: Option<(usize, u64)> = None;
    let mut j: usize = 0;
    while j < g.nodes.len()
        invariant
            g.wf(),
            t < g.nodes@.len(),
            j <= g.nodes@.len(),
            match best {
                Some(jd) => {
                    &&& jd.0 < j
                    &&& stop_cand(g.nodes@, jd.0 as int)
                    &&& jd.1 == node_dist(g.nodes@, t as int, jd.0 as int)
                    &&& forall|k: int|
                        k < j && #[trigger] stop_cand(g.nodes@, k) ==> (k <= jd.0 ==> jd.1
                            <= node_dist(g.nodes@, t as int, k)) && (k > jd.0 ==> jd.1 < node_dist(
                            g.nodes@,
                            t as int,
                            k,
                        ))
                },
                None => forall|k: int| k < j ==> !stop_cand(g.nodes@, k),
            },
        decreases g.nodes@.len() - j,
    {
        let cand = match &g.nodes[j].kind {
            NodeKind::Trail { .. } => false,
            NodeKind::Stop { .. } => true,
        };
        if cand {
            let a = &g.nodes[t];
            let b = &g.nodes[j];
            let d = crate::geom::dist(a.x, a.y, b.x, b.y);
            let take = match &best {
                Some(jd) => d <= jd.1,
                None => true,
            };
            if take {
                best = Some((j, d));
            }
        }
        j = j + 1;
    }
    best
}

/// An edge the stitching pass may add: it joins a trail node to the
/// nearest trail node of another stage, at most 250 m away.
pub open spec fn stitch_edge_ok(nodes: Seq<Node>, e: Edge) -> bool {
    &&& e.a < nodes.len() && e.b < nodes.len()
    &&& nodes[e.a as int].is_trail() && nodes[e.b as int].is_trail()
    &&& nodes[e.a as int].stage() != nodes[e.b as int].stage()
    &&& e.w == node_dist(nodes, e.a as int, e.b as int)
    &&& e.w <= 250
    &&& is_closest_other_stage(nodes, e.a as int, e.b as int)
}

/// No trail node of another stage lies within stitching range of `ni`.
pub open spec fn unstitchable(nodes: Seq<Node>, ni: int) -> bool {
    &&& 0 <= ni < nodes.len() && nodes[ni].is_trail()
    &&& forall|k: int| #[trigger] other_stage_trail(nodes, ni, k) ==> node_dist(nodes, ni, k) > 250
}

/// Endpoint stitching: every trail node of degree below two is joined to
/// the nearest trail node of a different stage when that lies within
/// 250 m; the ones left unconnected are reported.
pub fn stitch_endpoints(g: &mut Graph) -> (report: Vec<usize>)
    requires
        old(g).wf(),
    ensures
        final(g).wf(),
        final(g).nodes@ == old(g).nodes@,
        final(g).edges@.len() >= old(g).edges@.len(),
        final(g).edges@.subrange(0, old(g).edges@.len() as int) == old(g).edges@,
        old(g).edges_geometric() ==> final(g).edges_geometric(),
        forall|k: int|
            old(g).edges@.len() <= k < final(g).edges@.len() ==> stitch_edge_ok(
                final(g).nodes@,
                #[trigger] final(g).edges@[k],
            ),
        forall|i: int|
            0 <= i < report@.len() ==> unstitchable(final(g).nodes@, #[trigger] report@[i] as int),
        forall|ni: int|
            0 <= ni < final(g).nodes@.len() && (#[trigger] final(g).nodes@[ni]).is_trail()
                && degree(final(g).edges@, ni) < 2 ==> (exists|i: int|
                0 <= i < report@.len() && report@[i] == ni) || (exists|k: int|
                old(g).edges@.len() <= k < final(g).edges@.len() && (final(g).edges@[k].a == ni
                    || final(g).edges@[k].b == ni)),
{
    let ghost e0 = old(g).edges@.len() as int;
    let mut report: Vec<usize> = Vec::new();
    let mut ni: usize = 0;
    while ni < g.nodes.len()
        invariant
            g.wf(),
            g.nodes@ == old(g).nodes@,
            ni <= g.nodes@.len(),
            0 <= e0 == old(g).edges@.len(),
            e0 <= g.edges@.len(),
            g.edges@.subrange(0, e0) == old(g).edges@,
            old(g).edges_geometric() ==> g.edges_geometric(),
            forall|k: int|
                e0 <= k < g.edges@.len() ==> stitch_edge_ok(g.nodes@, #[trigger] g.edges@[k]),
            forall|i: int|
                0 <= i < report@.len() ==> unstitchable(g.nodes@, #[trigger] report@[i] as int),
            forall|n2: int|
                0 <= n2 < ni && (#[trigger] g.nodes@[n2]).is_trail() && degree(g.edges@, n2) < 2
                    ==> (exists|i: int| 0 <= i < report@.len() && report@[i] == n2) || (exists|
                    k: int,
                |
                    e0 <= k < g.edges@.len() && (g.edges@[k].a == n2 || g.edges@[k].b == n2)),
        decreases g.nodes@.len() - ni,
    {
        let ghost pre_edges = g.edges@;
        let ghost pre_report = report@;
        let is_trail = match &g.nodes[ni].kind {
            NodeKind::Trail { .. } => true,
            NodeKind::Stop { .. } => false,
        };
        proof {
            assert(is_trail == g.nodes@[ni as int].is_trail());
        }
        let deg_small = if is_trail {
            g.node_degree(ni) < 2
        } else {
            false
        };
        let mut stitched = false;
        let mut reported = false;
        if is_trail && deg_small {
            match closest_other_stage(g, ni) {
                Some((j, d)) => {
                    if d <= 250 {
                        let w = g.add_geometric_edge(ni, j);
                        stitched = true;
                        proof {
                            assert(g.edges@ == pre_edges.push(Edge { a: ni, b: j, w }));
                            assert(g.edges@.subrange(0, e0) =~= pre_edges.subrange(0, e0));
                            assert(g.edges@[g.edges@.len() - 1].a == ni);
                        }
                    }
                },
                None => {},
            }
            if !stitched {
                report.push(ni);
                reported = true;
                proof {
                    assert(report@ == pre_report.push(ni));
                    assert(report@[report@.len() - 1] == ni);
                }
            }
        }
        proof {
            assert forall|n2: int|
                0 <= n2 <= ni && (#[trigger] g.nodes@[n2]).is_trail() && degree(g.edges@, n2)
                    < 2 implies (exists|i: int| 0 <= i < report@.len() && report@[i] == n2) || (
            exists|k: int|
                e0 <= k < g.edges@.len() && (g.edges@[k].a == n2 || g.edges@[k].b == n2)) by {
                if n2 == ni {
                    if stitched {
                        assert(g.edges@[g.edges@.len() - 1].a == n2);
                        assert(e0 <= g.edges@.len() - 1 < g.edges@.len());
                    } else if reported {
                        assert(report@[report@.len() - 1] == n2);
                    } else {
                        assert(is_trail && !deg_small);
                        assert(degree(pre_edges, ni as int) >= 2);
                        assert(g.edges@ == pre_edges);
                    }
                } else {
                    if stitched {
                        crate::graph::lemma_degree_push(
                            pre_edges,
                            g.edges@[g.edges@.len() - 1],
                            n2,
                        );
                        assert(g.edges@ == pre_edges.push(g.edges@[g.edges@.len() - 1]));
                    } else {
                        assert(g.edges@ == pre_edges);
                    }
                    assert(degree(pre_edges, n2) < 2);
                    if exists|i: int| 0 <= i < pre_report.len() && pre_report[i] == n2 {
                        let i = choose|i: int| 0 <= i < pre_report.len() && pre_report[i] == n2;
                        assert(report@[i] == n2);
                    } else {
                        let k = choose|k: int|
                            e0 <= k < pre_edges.len() && (pre_edges[k].a == n2 || pre_edges[k].b
                                == n2);
                        assert(g.edges@[k] == pre_edges[k]);
                    }
                }
            }
        }
        ni = ni + 1;
    }
    report
}

/// Distance is symmetric in its endpoints.
pub proof fn lemma_euclid_symmetric(ax: int, ay: int, bx: int, by: int)
    ensures
        euclid(ax, ay, bx, by) == euclid(bx, by, ax, ay),
{
    assert(sq(ax - bx) == sq(bx - ax) && sq(ay - by) == sq(by - ay)) by (nonlinear_arith);
}

/// The nearest stop node is unique (ties are broken by index).
pub proof fn lemma_closest_stop_unique(nodes: Seq<Node>, t: int, j1: int, j2: int)
    requires
        is_closest_stop(nodes, t, j1),
        is_closest_stop(nodes, t, j2),
    ensures
        j1 == j2,
{
    if j1 < j2 {
        assert(stop_cand(nodes, j2));
        assert(stop_cand(nodes, j1));
    }
    if j2 < j1 {
        assert(stop_cand(nodes, j1));
        assert(stop_cand(nodes, j2));
    }
}

/// The node a kept stop-area record becomes.
pub open spec fn stop_node_of(sa: StopArea) -> Node {
    Node { x: sa.x as i64, y: sa.y as i64, kind: NodeKind::Stop { id: sa.id } }
}

/// A stop area is kept unless its name carries the local-service mark.
pub open spec fn sa_kept(sa: StopArea) -> bool {
    !has_substr(sa.name@, local_service_mark())
}

pub open spec fn sa_ok(sa: StopArea) -> bool {
    coord_ok(sa.x as i64) && coord_ok(sa.y as i64)
}

/// The stop nodes the kept records contribute, in catalogue order.
pub open spec fn kept_stop_nodes(sas: Seq<StopArea>) -> Seq<Node>
    decreases sas.len(),
{
    if sas.len() == 0 {
        Seq::empty()
    } else {
        kept_stop_nodes(sas.drop_last()) + if sa_kept(sas.last()) {
            seq![stop_node_of(sas.last())]
        } else {
            Seq::empty()
        }
    }
}

proof fn lemma_kept_step(sas: Seq<StopArea>, i: int)
    requires
        0 <= i < sas.len(),
    ensures
        kept_stop_nodes(sas.take(i + 1)) == kept_stop_nodes(sas.take(i)) + if sa_kept(sas[i]) {
            seq![stop_node_of(sas[i])]
        } else {
            Seq::empty()
        },
{
    assert(sas.take(i + 1).drop_last() =~= sas.take(i));
    assert(sas.take(i + 1).last() == sas[i]);
}

/// Trail node `t` is linked to stop node `sa` by the linking rule: `sa`
/// is its nearest stop node and lies within 5000 m.
pub open spec fn links_to(nodes: Seq<Node>, t: int, sa: int) -> bool {
    nodes[t].is_trail() && is_closest_stop(nodes, t, sa) && node_dist(nodes, t, sa) < 5000
}

/// Some trail point among the first `n0` nodes links to stop node `sa`.
pub open spec fn has_chooser(nodes: Seq<Node>, n0: int, sa: int) -> bool {
    exists|t: int| 0 <= t < n0 && #[trigger] links_to(nodes, t, sa)
}

/// Some edge appended after `e0` belongs to stop node `sa`.
pub open spec fn linked_in(es: Seq<Edge>, e0: int, sa: int) -> bool {
    exists|k: int| e0 <= k < es.len() && (#[trigger] es[k]).a == sa
}

/// An edge the linking pass may add: the stop area's single connection to
/// the trail, going to the best of the trail points that chose it.
pub open spec fn link_edge_ok(nodes: Seq<Node>, n0: int, e: Edge) -> bool {
    &&& n0 <= e.a < nodes.len() && nodes[e.a as int].is_stop()
    &&& 0 <= e.b < n0 && nodes[e.b as int].is_trail()
    &&& e.w == node_dist(nodes, e.a as int, e.b as int)
    &&& e.w < 5000
    &&& links_to(nodes, e.b as int, e.a as int)
    &&& forall|t: int|
        0 <= t < n0 && #[trigger] links_to(nodes, t, e.a as int) ==> node_dist(nodes, t, e.a as int)
            >= e.w && (t > e.b ==> node_dist(nodes, t, e.a as int) > e.w)
}

/// Stop-area linking: every record not marked as local service becomes a
/// stop node; each stop node that some trail point picked as its nearest
/// (within 5000 m) gets exactly one edge, to the best such trail point.
pub fn link_stop_areas(g: &mut Graph, stopareas: &Vec<StopArea>)
    requires
        old(g).wf(),
        forall|i: int| 0 <= i < stopareas@.len() ==> sa_ok(#[trigger] stopareas@[i]),
    ensures
        final(g).wf(),
        final(g).nodes@ == old(g).nodes@ + kept_stop_nodes(stopareas@),
        final(g).edges@.len() >= old(g).edges@.len(),
        final(g).edges@.subrange(0, old(g).edges@.len() as int) == old(g).edges@,
        old(g).edges_geometric() ==> final(g).edges_geometric(),
        forall|k: int|
            old(g).edges@.len() <= k < final(g).edges@.len() ==> link_edge_ok(
                final(g).nodes@,
                old(g).nodes@.len() as int,
                #[trigger] final(g).edges@[k],
            ),
        forall|k1: int, k2: int|
            old(g).edges@.len() <= k1 < k2 < final(g).edges@.len()
                ==> (#[trigger] final(g).edges@[k1]).a != (#[trigger] final(g).edges@[k2]).a,
        forall|sa: int|
            old(g).nodes@.len() <= sa < final(g).nodes@.len() && #[trigger] has_chooser(
                final(g).nodes@,
                old(g).nodes@.len() as int,
                sa,
            ) ==> linked_in(final(g).edges@, old(g).edges@.len() as int, sa),
{
    let n0 = g.nodes.len();
    let ghost e0 = old(g).edges@.len() as int;
    let ghost sas = stopareas@;

    // Phase one: add a node for every kept stop area.
    let mut i: usize = 0;
    while i < stopareas.len()
        invariant
            g.wf(),
            sas == stopareas@,
            forall|j: int| 0 <= j < sas.len() ==> sa_ok(#[trigger] sas[j]),
            i <= sas.len(),
            n0 == old(g).nodes@.len(),
            g.nodes@ == old(g).nodes@ + kept_stop_nodes(sas.take(i as int)),
            g.edges@ == old(g).edges@,
            forall|j: int| n0 <= j < g.nodes@.len() ==> (#[trigger] g.nodes@[j]).is_stop(),
        decreases sas.len() - i,
    {
        let sa = &stopareas[i];
        if !contains_sub(sa.name.as_str(), " NO ") {
            g.add_stop_node(sa.x as i64, sa.y as i64, sa.id);
        }
        proof {
            lemma_kept_step(sas, i as int);
        }
        i = i + 1;
    }
    proof {
        assert(sas.take(sas.len() as int) =~= sas);
    }

    // Phase two: give each stop node its single linking edge.
    let ghost nall = g.nodes@;
    let mut sa_i: usize = n0;
    while sa_i < g.nodes.len()
        invariant
            g.wf(),
            nall == g.nodes@,
            n0 == old(g).nodes@.len(),
            n0 <= sa_i <= g.nodes@.len(),
            0 <= e0 == old(g).edges@.len(),
            e0 <= g.edges@.len(),
            g.edges@.subrange(0, e0) == old(g).edges@,
            old(g).edges_geometric() ==> g.edges_geometric(),
            forall|j: int| n0 <= j < g.nodes@.len() ==> (#[trigger] g.nodes@[j]).is_stop(),
            forall|k: int|
                e0 <= k < g.edges@.len() ==> link_edge_ok(
                    g.nodes@,
                    n0 as int,
                    #[trigger] g.edges@[k],
                ) && g.edges@[k].a < sa_i,
            forall|k1: int, k2: int|
                e0 <= k1 < k2 < g.edges@.len() ==> (#[trigger] g.edges@[k1]).a
                    < (#[trigger] g.edges@[k2]).a,
            forall|sa: int|
                n0 <= sa < sa_i && #[trigger] has_chooser(g.nodes@, n0 as int, sa) ==> linked_in(
                    g.edges@,
                    e0,
                    sa,
                ),
        decreases g.nodes@.len() - sa_i,
    {
        let mut best: Option<(usize, u64)> = None;
        let mut t: usize = 0;
        while t < n0
            invariant
                g.wf(),
                nall == g.nodes@,
                n0 <= sa_i < g.nodes@.len(),
                n0 <= g.nodes@.len(),
                t <= n0,
                match best {
                    Some(td) => {
                        &&& td.0 < t
                        &&& links_to(g.nodes@, td.0 as int, sa_i as int)
                        &&& td.1 == node_dist(g.nodes@, td.0 as int, sa_i as int)
                        &&& td.1 < 5000
                        &&& forall|t2: int|
                            0 <= t2 < t && #[trigger] links_to(g.nodes@, t2, sa_i as int) ==> (t2
                                <= td.0 ==> td.1 <= node_dist(g.nodes@, t2, sa_i as int)) && (t2
                                > td.0 ==> td.1 < node_dist(g.nodes@, t2, sa_i as int))
                    },
                    None => forall|t2: int| 0 <= t2 < t ==> !links_to(g.nodes@, t2, sa_i as int),
                },
            decreases n0 - t,
        {
            let is_trail = match &g.nodes[t].kind {
                NodeKind::Trail { .. } => true,
                NodeKind::Stop { .. } => false,
            };
            if is_trail {
                match closest_stop(g, t) {
                    Some((sa2, d)) => {
                        if sa2 == sa_i && d < 5000 {
                            let take = match &best {
                                Some(td) => d <= td.1,
                                None => true,
                            };
                            if take {
                                best = Some((t, d));
                            }
                        } else {
                            proof {
                                if is_closest_stop(g.nodes@, t as int, sa_i as int) {
                                    lemma_closest_stop_unique(
                                        g.nodes@,
                                        t as int,
                                        sa2 as int,
                                        sa_i as int,
                                    );
                                }
                            }
                        }
                    },
                    None => {
                        proof {
                            assert(!stop_cand(g.nodes@, sa_i as int));
                        }
                    },
                }
            } else {
                proof {
                    assert(!links_to(g.nodes@, t as int, sa_i as int));
                }
            }
            t = t + 1;
        }
        let ghost pre_edges = g.edges@;
        let mut added = false;
        match best {
            Some((bt, bd)) => {
                let w = g.add_geometric_edge(sa_i, bt);
                added = true;
                proof {
                    lemma_euclid_symmetric(
                        g.nodes@[sa_i as int].x as int,
                        g.nodes@[sa_i as int].y as int,
                        g.nodes@[bt as int].x as int,
                        g.nodes@[bt as int].y as int,
                    );
                    assert(g.edges@ == pre_edges.push(Edge { a: sa_i, b: bt, w }));
                    assert(g.edges@.subrange(0, e0) =~= pre_edges.subrange(0, e0));
                    assert(w == bd);
                    assert(link_edge_ok(g.nodes@, n0 as int, g.edges@[g.edges@.len() - 1]));
                }
            },
            None => {},
        }
        proof {
            assert forall|sa: int|
                n0 <= sa < sa_i + 1 && #[trigger] has_chooser(g.nodes@, n0 as int, sa) implies linked_in(
                g.edges@,
                e0,
                sa,
            ) by {
                if sa == sa_i {
                    let t2 = choose|t2: int| 0 <= t2 < n0 && links_to(g.nodes@, t2, sa);
                    assert(added);
                    assert(g.edges@[g.edges@.len() - 1].a == sa);
                } else {
                    assert(linked_in(pre_edges, e0, sa));
                    let k = choose|k: int| e0 <= k < pre_edges.len() && (#[trigger] pre_edges[k]).a == sa;
                    if added {
                        assert(g.edges@[k] == pre_edges[k]);
                    }
                }
            }
        }
        sa_i = sa_i + 1;
    }
}

/// Build the per-stage trail chains: one trail node per point, in stage
/// order, and one geometric edge between each pair of consecutive points.
pub fn build_trail_graph(stages: &Vec<Stage>) -> (g: Graph)
    requires
        stages_ok(stages@),
        node_offset(stages@, stages@.len() as int) <= 4_000_000_000,
    ensures
        g.wf(),
        g.edges_geometric(),
        g.nodes@.len() == node_offset(stages@, stages@.len() as int),
        g.edges@.len() == edge_offset(stages@, stages@.len() as int),
        forall|si: int, pi: int|
            0 <= si < stages@.len() && 0 <= pi < stages@[si].points@.len() ==> g.nodes@[node_offset(
                stages@,
                si,
            ) + pi] == #[trigger] trail_node_at(stages@, si, pi),
        forall|si: int, k: int|
            0 <= si < stages@.len() && 0 <= k < stage_edge_count(stages@[si].points@.len() as int)
                ==> g.edges@[edge_offset(stages@, si) + k] == #[trigger] trail_edge_at(
                stages@,
                si,
                k,
            ),
{
    let ghost ss = stages@;
    let mut g = Graph::new();
    let mut si: usize = 0;
    while si < stages.len()
        invariant
            ss == stages@,
            stages_ok(ss),
            node_offset(ss, ss.len() as int) <= 4_000_000_000,
            si <= ss.len(),
            g.wf(),
            g.edges_geometric(),
            g.nodes@.len() == node_offset(ss, si as int),
            g.edges@.len() == edge_offset(ss, si as int),
            forall|sj: int, pi: int|
                0 <= sj < si && 0 <= pi < ss[sj].points@.len() ==> g.nodes@[node_offset(ss, sj)
                    + pi] == #[trigger] trail_node_at(ss, sj, pi),
            forall|sj: int, k: int|
                0 <= sj < si && 0 <= k < stage_edge_count(ss[sj].points@.len() as int)
                    ==> g.edges@[edge_offset(ss, sj) + k] == #[trigger] trail_edge_at(ss, sj, k),
        decreases ss.len() - si,
    {
        let ghost base_n = node_offset(ss, si as int);
        let ghost base_e = edge_offset(ss, si as int);
        proof {
            lemma_node_offset_monotone(ss, si as int, si as int);
            lemma_node_offset_monotone(ss, si as int + 1, ss.len() as int);
            lemma_edge_offset_nonneg(ss, si as int);
            assert(node_offset(ss, si as int + 1) == base_n + ss[si as int].points@.len());
        }
        let pts = &stages[si].points;
        let mut pi: usize = 0;
        let mut cum: u64 = 0;
        while pi < pts.len()
            invariant
                ss == stages@,
                stages_ok(ss),
                si < ss.len(),
                pts == ss[si as int].points,
                base_n == node_offset(ss, si as int),
                base_e == edge_offset(ss, si as int),
                0 <= base_n,
                0 <= base_e,
                base_n + pts@.len() <= 4_000_000_000,
                pi <= pts@.len(),
                g.wf(),
                g.edges_geometric(),
                g.nodes@.len() == base_n + pi,
                g.edges@.len() == base_e + stage_edge_count(pi as int),
                cum == prefix_dist(pts@, pi as int - 1),
                forall|sj: int, pj: int|
                    0 <= sj < si && 0 <= pj < ss[sj].points@.len() ==> g.nodes@[node_offset(ss, sj)
                        + pj] == #[trigger] trail_node_at(ss, sj, pj),
                forall|sj: int, k: int|
                    0 <= sj < si && 0 <= k < stage_edge_count(ss[sj].points@.len() as int)
                        ==> g.edges@[edge_offset(ss, sj) + k] == #[trigger] trail_edge_at(
                        ss,
                        sj,
                        k,
                    ),
                forall|pj: int|
                    0 <= pj < pi ==> g.nodes@[base_n + pj] == #[trigger] trail_node_at(
                        ss,
                        si as int,
                        pj,
                    ),
                forall|k: int|
                    0 <= k < stage_edge_count(pi as int) ==> g.edges@[base_e + k]
                        == #[trigger] trail_edge_at(ss, si as int, k),
            decreases pts@.len() - pi,
        {
            let (x, y) = pts[pi];
            proof {
                lemma_prefix_dist_bound(pts@, pi as int);
                assert(3_000_000_000 * (pi as int) <= 3_000_000_000 * 4_000_000_000)
                    by (nonlinear_arith)
                    requires
                        pi as int <= 4_000_000_000,
                ;
            }
            if pi > 0 {
                let (px, py) = pts[pi - 1];
                let d = crate::geom::dist(px, py, x, y);
                proof {
                    lemma_euclid_bound(px as int, py as int, x as int, y as int);
                    lemma_prefix_dist_bound(pts@, pi as int - 1);
                }
                cum = cum + d;
            }
            let ni = g.add_trail_node(x, y, si, cum);
            if pi > 0 {
                g.add_geometric_edge(ni - 1, ni);
            }
            proof {
                assert(g.nodes@[base_n + pi] == trail_node_at(ss, si as int, pi as int));
                if pi > 0 {
                    assert(g.nodes@[base_n + pi - 1] == trail_node_at(ss, si as int, pi as int - 1));
                    assert(g.edges@[base_e + pi - 1] == trail_edge_at(ss, si as int, pi as int - 1));
                }
                assert forall|sj: int, pj: int|
                    0 <= sj < si && 0 <= pj < ss[sj].points@.len() implies g.nodes@[node_offset(
                    ss,
                    sj,
                ) + pj] == #[trigger] trail_node_at(ss, sj, pj) by {
                    lemma_node_offset_monotone(ss, sj + 1, si as int);
                    lemma_node_offset_nonneg(ss, sj);
                    assert(node_offset(ss, sj + 1) == node_offset(ss, sj) + ss[sj].points@.len());
                }
                assert forall|sj: int, k: int|
                    0 <= sj < si && 0 <= k < stage_edge_count(ss[sj].points@.len() as int) implies g.edges@[edge_offset(
                    ss,
                    sj,
                ) + k] == #[trigger] trail_edge_at(ss, sj, k) by {
                    lemma_edge_offset_monotone(ss, sj + 1, si as int);
                    lemma_edge_offset_nonneg(ss, sj);
                    assert(edge_offset(ss, sj + 1) == edge_offset(ss, sj) + stage_edge_count(
                        ss[sj].points@.len() as int,
                    ));
                }
            }
            pi = pi + 1;
        }
        si = si + 1;
        proof {
            assert(node_offset(ss, si as int) == base_n + ss[si as int - 1].points@.len());
            assert(edge_offset(ss, si as int) == base_e + stage_edge_count(
                ss[si as int - 1].points@.len() as int,
            ));
        }
    }
    g
}

} // verus!
