//! Path Extractor: runs the shortest-path search from every stop-area
//! node of the simplified graph and packages the qualifying stop-to-stop
//! distances as walk-only `Path` candidates.

use vstd::prelude::*;
use crate::graph::{incident, Edge, Graph, Node, NodeKind};
use crate::records::Path;
use crate::shortest::shortest_from;
use crate::walks::{lemma_reach_monotone, reach_within};

verus! {

/// Index of the first edge incident to `v` at or after position `k`,
/// or -1 when there is none.
pub open spec fn first_inc_from(es: Seq<Edge>, v: int, k: int) -> int
    decreases es.len() - k,
{
    if k < 0 || k >= es.len() {
        -1
    } else if incident(es[k], v) {
        k
    } else {
        first_inc_from(es, v, k + 1)
    }
}

/// The weight of a stop area's single linking edge: the first (and in a
/// linked graph only) edge incident to it.
pub fn connector_dist(g: &Graph, v: usize) -> (r: Option<u64>)
    ensures
        match r {
            Some(w) => first_inc_from(g.edges@, v as int, 0) >= 0 && w == g.edges@[first_inc_from(
                g.edges@,
                v as int,
                0,
            )].w,
            None => first_inc_from(g.edges@, v as int, 0) == -1,
        },
{
    let mut k: usize = 0;
    while k < g.edges.len()
        invariant
            k <= g.edges@.len(),
            first_inc_from(g.edges@, v as int, 0) == first_inc_from(g.edges@, v as int, k as int),
        decreases g.edges@.len() - k,
    {
        let e = &g.edges[k];
        if (e.a == v || e.b == v) && e.a != e.b {
            return Some(e.w);
        }
        k = k + 1;
    }
    None
}

/// Exact shortest distance: a walk of weight `d` exists and none cheaper.
pub open spec fn is_short(es: Seq<Edge>, u: int, v: int, d: int) -> bool {
    reach_within(es, u, v, d) && !reach_within(es, u, v, d - 1)
}

/// The pair of stop nodes `(si, di)` yields a candidate of distance `v`:
/// both are stops, the shortest walk between them is `v`, `v` lies in
/// the hike band, and walking the two connector legs twice would not
/// beat the trail route.
pub open spec fn qualifies(nodes: Seq<Node>, es: Seq<Edge>, si: int, di: int, v: int) -> bool {
    &&& 0 <= si < nodes.len() && nodes[si].is_stop()
    &&& 0 <= di < nodes.len() && nodes[di].is_stop()
    &&& si != di
    &&& is_short(es, si, di, v)
    &&& 1000 <= v <= 40000
    &&& first_inc_from(es, si, 0) >= 0
    &&& first_inc_from(es, di, 0) >= 0
    &&& 2 * (es[first_inc_from(es, si, 0)].w + es[first_inc_from(es, di, 0)].w) <= v
}

/// A record for `(src, dest)` with distance `dd` is present.
pub open spec fn recorded(rs: Seq<Path>, src: i32, dest: i32, dd: i32) -> bool {
    exists|k: int|
        0 <= k < rs.len() && (#[trigger] rs[k]).src == src && rs[k].dest == dest && rs[k].dist
            == dd
}

/// Join with a semicolon.
pub open spec fn join_semi(s: Seq<Seq<char>>) -> Seq<char>
    decreases s.len(),
{
    if s.len() == 0 {
        Seq::empty()
    } else if s.len() == 1 {
        s[0]
    } else {
        join_semi(s.drop_last()) + ";"@ + s.last()
    }
}

/// The entries picked out by `flags`, in order, among the first `i`.
pub open spec fn sel_upto(entries: Seq<Seq<char>>, flags: Seq<bool>, i: int) -> Seq<Seq<char>>
    decreases i,
{
    if i <= 0 {
        Seq::empty()
    } else {
        sel_upto(entries, flags, i - 1) + if flags[i - 1] {
            seq![entries[i - 1]]
        } else {
            Seq::empty()
        }
    }
}

/// `t` is a `;`-join of some subset of the stage labels, in order.
pub open spec fn labels_subset_join(labels: Seq<Seq<char>>, t: Seq<char>) -> bool {
    exists|flags: Seq<bool>|
        flags.len() == labels.len() && t == #[trigger] join_semi(
            sel_upto(labels, flags, labels.len() as int),
        )
}

proof fn lemma_join_semi_push(s: Seq<Seq<char>>, y: Seq<char>)
    ensures
        join_semi(s.push(y)) == join_semi(s) + (if s.len() > 0 {
            ";"@
        } else {
            Seq::<char>::empty()
        }) + y,
{
    assert(s.push(y).drop_last() =~= s);
    assert(s.push(y).last() == y);
    if s.len() == 0 {
        assert(s.push(y)[0] == y);
        assert(Seq::<char>::empty() + Seq::<char>::empty() + y =~= y);
    }
}

/// Some distance qualifies the ordered pair of stop nodes.
pub open spec fn qual_pair(nodes: Seq<Node>, es: Seq<Edge>, si: int, di: int) -> bool {
    exists|v: int| #[trigger] qualifies(nodes, es, si, di, v)
}

/// How many destinations below `d_up` qualify with source `si`.
pub open spec fn count_dests(nodes: Seq<Node>, es: Seq<Edge>, si: int, d_up: int) -> int
    decreases d_up,
{
    if d_up <= 0 {
        0
    } else {
        count_dests(nodes, es, si, d_up - 1) + if qual_pair(nodes, es, si, d_up - 1) {
            1int
        } else {
            0int
        }
    }
}

/// How many ordered pairs with source below `s_up` qualify.
pub open spec fn count_pairs(nodes: Seq<Node>, es: Seq<Edge>, s_up: int) -> int
    decreases s_up,
{
    if s_up <= 0 {
        0
    } else {
        count_pairs(nodes, es, s_up - 1) + count_dests(nodes, es, s_up - 1, nodes.len() as int)
    }
}

proof fn lemma_count_dests_zero(nodes: Seq<Node>, es: Seq<Edge>, si: int, d_up: int)
    requires
        forall|di: int| !#[trigger] qual_pair(nodes, es, si, di),
    ensures
        count_dests(nodes, es, si, d_up) == 0,
    decreases d_up,
{
    if d_up > 0 {
        lemma_count_dests_zero(nodes, es, si, d_up - 1);
    }
}

/// The shortest distance is unique.
proof fn lemma_short_unique(es: Seq<Edge>, u: int, v: int, d1: int, d2: int)
    requires
        is_short(es, u, v, d1),
        is_short(es, u, v, d2),
    ensures
        d1 == d2,
{
    if d1 < d2 {
        lemma_reach_monotone(es, u, v, d1, d2 - 1);
    }
    if d2 < d1 {
        lemma_reach_monotone(es, u, v, d2, d1 - 1);
    }
}

/// Walk the graph from every stop area and emit one `Path` per
/// qualifying pair of stop areas, both soundly and exhaustively.
pub fn extract_paths(g: &Graph, labels: &Vec<String>) -> (out: Vec<Path>)
    requires
        g.wf(),
    ensures
        forall|k: int|
            0 <= k < out@.len() ==> {
                let p = #[trigger] out@[k];
                &&& p.wf()
                &&& 1000 <= p.dist <= 40000
                &&& 2 * (p.srcdist + p.destdist) <= p.dist
                &&& labels_subset_join(crate::labels::views_of(labels@), p.etapp@)
                &&& exists|si: int, di: int|
                    qualifies(g.nodes@, g.edges@, si, di, p.dist as int) && g.nodes@[si].stop_id()
                        == p.src && g.nodes@[di].stop_id() == p.dest && p.srcdist
                        == g.edges@[first_inc_from(g.edges@, si, 0)].w && p.destdist
                        == g.edges@[first_inc_from(g.edges@, di, 0)].w
            },
        forall|si: int, di: int, v: int|
            #[trigger] qualifies(g.nodes@, g.edges@, si, di, v) ==> recorded(
                out@,
                g.nodes@[si].stop_id(),
                g.nodes@[di].stop_id(),
                v as i32,
            ),
        out@.len() == count_pairs(g.nodes@, g.edges@, g.nodes@.len() as int),
{
    let n = g.nodes.len();
    let mut out: Vec<Path> = Vec::new();
    let mut si: usize = 0;
    while si < n
        invariant
            g.wf(),
            n == g.nodes@.len(),
            si <= n,
            forall|k: int|
                0 <= k < out@.len() ==> {
                    let p = #[trigger] out@[k];
                    &&& p.wf()
                    &&& 1000 <= p.dist <= 40000
                    &&& 2 * (p.srcdist + p.destdist) <= p.dist
                    &&& labels_subset_join(crate::labels::views_of(labels@), p.etapp@)
                    &&& exists|s2: int, d2: int|
                        qualifies(g.nodes@, g.edges@, s2, d2, p.dist as int)
                            && g.nodes@[s2].stop_id() == p.src && g.nodes@[d2].stop_id() == p.dest
                            && p.srcdist == g.edges@[first_inc_from(g.edges@, s2, 0)].w
                            && p.destdist == g.edges@[first_inc_from(g.edges@, d2, 0)].w
                },
            forall|s2: int, d2: int, v: int|
                s2 < si && #[trigger] qualifies(g.nodes@, g.edges@, s2, d2, v) ==> recorded(
                    out@,
                    g.nodes@[s2].stop_id(),
                    g.nodes@[d2].stop_id(),
                    v as i32,
                ),
            out@.len() == count_pairs(g.nodes@, g.edges@, si as int),
        decreases n - si,
    {
        let src_is_stop = match &g.nodes[si].kind {
            NodeKind::Trail { .. } => false,
            NodeKind::Stop { .. } => true,
        };
        if src_is_stop {
            let dist = shortest_from(g, si);
            let conn_s = connector_dist(g, si);
            match conn_s {
                None => {
                    proof {
                        assert forall|d2: int, v: int|
                            !qualifies(g.nodes@, g.edges@, si as int, d2, v) by {}
                        assert forall|d2: int|
                            !#[trigger] qual_pair(g.nodes@, g.edges@, si as int, d2) by {
                            if qual_pair(g.nodes@, g.edges@, si as int, d2) {
                                let v = choose|v: int|
                                    #[trigger] qualifies(g.nodes@, g.edges@, si as int, d2, v);
                            }
                        }
                        lemma_count_dests_zero(
                            g.nodes@,
                            g.edges@,
                            si as int,
                            g.nodes@.len() as int,
                        );
                    }
                },
                Some(cs) => {
                    let mut di: usize = 0;
                    while di < n
                        invariant
                            g.wf(),
                            n == g.nodes@.len(),
                            si < n,
                            di <= n,
                            g.nodes@[si as int].is_stop(),
                            dist@.len() == n,
                            forall|v: int|
                                0 <= v < dist@.len() ==> match #[trigger] dist@[v] {
                                    Some(d) => reach_within(g.edges@, si as int, v, d as int)
                                        && !reach_within(g.edges@, si as int, v, d as int - 1),
                                    None => forall|dd: int|
                                        !reach_within(g.edges@, si as int, v, dd),
                                },
                            first_inc_from(g.edges@, si as int, 0) >= 0,
                            cs == g.edges@[first_inc_from(g.edges@, si as int, 0)].w,
                            forall|k: int|
                                0 <= k < out@.len() ==> {
                                    let p = #[trigger] out@[k];
                                    &&& p.wf()
                                    &&& 1000 <= p.dist <= 40000
                                    &&& 2 * (p.srcdist + p.destdist) <= p.dist
                                    &&& labels_subset_join(
                                        crate::labels::views_of(labels@),
                                        p.etapp@,
                                    )
                                    &&& exists|s2: int, d2: int|
                                        qualifies(g.nodes@, g.edges@, s2, d2, p.dist as int)
                                            && g.nodes@[s2].stop_id() == p.src
                                            && g.nodes@[d2].stop_id() == p.dest && p.srcdist
                                            == g.edges@[first_inc_from(g.edges@, s2, 0)].w
                                            && p.destdist == g.edges@[first_inc_from(
                                            g.edges@,
                                            d2,
                                            0,
                                        )].w
                                },
                            forall|s2: int, d2: int, v: int|
                                s2 < si && #[trigger] qualifies(g.nodes@, g.edges@, s2, d2, v)
                                    ==> recorded(
                                    out@,
                                    g.nodes@[s2].stop_id(),
                                    g.nodes@[d2].stop_id(),
                                    v as i32,
                                ),
                            forall|d2: int, v: int|
                                d2 < di && #[trigger] qualifies(
                                    g.nodes@,
                                    g.edges@,
                                    si as int,
                                    d2,
                                    v,
                                ) ==> recorded(
                                    out@,
                                    g.nodes@[si as int].stop_id(),
                                    g.nodes@[d2].stop_id(),
                                    v as i32,
                                ),
                            out@.len() == count_pairs(g.nodes@, g.edges@, si as int) + count_dests(
                                g.nodes@,
                                g.edges@,
                                si as int,
                                di as int,
                            ),
                        decreases n - di,
                    {
                        let ghost pre_out = out@;
                        let dest_is_stop = match &g.nodes[di].kind {
                            NodeKind::Trail { .. } => false,
                            NodeKind::Stop { .. } => true,
                        };
                        let mut emitted = false;
                        if dest_is_stop && di != si {
                            if let Some(v) = dist[di] {
                                if 1000 <= v && v <= 40000 {
                                    if let Some(cd) = connector_dist(g, di) {
                                        let sum2: u128 = 2 * ((cs as u128) + (cd as u128));
                                        if sum2 <= v {
                                            let etapp = stage_labels_of(g, &dist, si, di, labels);
                                            let p = Path {
                                                dist: v as i32,
                                                srcdist: cs as i32,
                                                destdist: cd as i32,
                                                src: stop_id_of(g, si),
                                                dest: stop_id_of(g, di),
                                                etapp,
                                            };
                                            out.push(p);
                                            emitted = true;
                                            proof {
                                                assert(cs as int + cd as int <= 20000);
                                                assert(v as int <= 40000);
                                                let pnew = out@[out@.len() - 1];
                                                assert(pnew.srcdist == cs as int && pnew.destdist
                                                    == cd as int && pnew.dist == v as int);
                                                assert(qualifies(
                                                    g.nodes@,
                                                    g.edges@,
                                                    si as int,
                                                    di as int,
                                                    v as int,
                                                ));
                                                assert(pnew.wf());
                                                assert(g.nodes@[si as int].stop_id() == pnew.src
                                                    && g.nodes@[di as int].stop_id() == pnew.dest);
                                                assert(pnew.srcdist == g.edges@[first_inc_from(
                                                    g.edges@,
                                                    si as int,
                                                    0,
                                                )].w && pnew.destdist == g.edges@[first_inc_from(
                                                    g.edges@,
                                                    di as int,
                                                    0,
                                                )].w);
                                                assert forall|k: int|
                                                    0 <= k < out@.len() implies {
                                                    let p2 = #[trigger] out@[k];
                                                    &&& p2.wf()
                                                    &&& 1000 <= p2.dist <= 40000
                                                    &&& 2 * (p2.srcdist + p2.destdist) <= p2.dist
                                                    &&& labels_subset_join(
                                                        crate::labels::views_of(labels@),
                                                        p2.etapp@,
                                                    )
                                                    &&& exists|s2: int, d2: int|
                                                        qualifies(
                                                            g.nodes@,
                                                            g.edges@,
                                                            s2,
                                                            d2,
                                                            p2.dist as int,
                                                        ) && g.nodes@[s2].stop_id() == p2.src
                                                            && g.nodes@[d2].stop_id() == p2.dest
                                                            && p2.srcdist == g.edges@[first_inc_from(
                                                            g.edges@,
                                                            s2,
                                                            0,
                                                        )].w && p2.destdist
                                                            == g.edges@[first_inc_from(
                                                            g.edges@,
                                                            d2,
                                                            0,
                                                        )].w
                                                } by {
                                                    if k < out@.len() - 1 {
                                                        assert(out@[k] == pre_out[k]);
                                                    } else {
                                                        assert(out@[k] == pnew);
                                                    }
                                                }
                                            }
                                        }
                                    }
                                }
                            }
                        }
                        proof {
                            assert forall|d2: int, v: int|
                                d2 < di + 1 && #[trigger] qualifies(
                                    g.nodes@,
                                    g.edges@,
                                    si as int,
                                    d2,
                                    v,
                                ) implies recorded(
                                out@,
                                g.nodes@[si as int].stop_id(),
                                g.nodes@[d2].stop_id(),
                                v as i32,
                            ) by {
                                if d2 == di {
                                    assert(dist@[d2] is Some) by {
                                        if dist@[d2] is None {
                                            assert(!reach_within(g.edges@, si as int, d2, v));
                                        }
                                    }
                                    let dv = dist@[d2]->0;
                                    lemma_short_unique(
                                        g.edges@,
                                        si as int,
                                        d2,
                                        v,
                                        dv as int,
                                    );
                                    assert(emitted);
                                    assert(out@[out@.len() - 1].dist == v as i32);
                                } else {
                                    assert(recorded(
                                        pre_out,
                                        g.nodes@[si as int].stop_id(),
                                        g.nodes@[d2].stop_id(),
                                        v as i32,
                                    ));
                                    let k = choose|k: int|
                                        0 <= k < pre_out.len() && (#[trigger] pre_out[k]).src
                                            == g.nodes@[si as int].stop_id() && pre_out[k].dest
                                            == g.nodes@[d2].stop_id() && pre_out[k].dist == v as i32;
                                    assert(out@[k] == pre_out[k]);
                                }
                            }
                            assert forall|s2: int, d2: int, v: int|
                                s2 < si && #[trigger] qualifies(g.nodes@, g.edges@, s2, d2, v) implies recorded(
                                out@,
                                g.nodes@[s2].stop_id(),
                                g.nodes@[d2].stop_id(),
                                v as i32,
                            ) by {
                                let k = choose|k: int|
                                    0 <= k < pre_out.len() && (#[trigger] pre_out[k]).src
                                        == g.nodes@[s2].stop_id() && pre_out[k].dest
                                        == g.nodes@[d2].stop_id() && pre_out[k].dist == v as i32;
                                assert(out@[k] == pre_out[k]);
                            }
                            if !emitted {
                                assert forall|vv: int|
                                    !#[trigger] qualifies(
                                        g.nodes@,
                                        g.edges@,
                                        si as int,
                                        di as int,
                                        vv,
                                    ) by {
                                    if qualifies(g.nodes@, g.edges@, si as int, di as int, vv) {
                                        match dist@[di as int] {
                                            Some(dv) => {
                                                lemma_short_unique(
                                                    g.edges@,
                                                    si as int,
                                                    di as int,
                                                    vv,
                                                    dv as int,
                                                );
                                            },
                                            None => {},
                                        }
                                    }
                                }
                                assert(!qual_pair(g.nodes@, g.edges@, si as int, di as int));
                            } else {
                                assert(qual_pair(g.nodes@, g.edges@, si as int, di as int));
                            }
                        }
                        di = di + 1;
                    }
                },
            }
        } else {
            proof {
                assert forall|d2: int, v: int|
                    !qualifies(g.nodes@, g.edges@, si as int, d2, v) by {}
                assert forall|d2: int| !#[trigger] qual_pair(g.nodes@, g.edges@, si as int, d2) by {
                    if qual_pair(g.nodes@, g.edges@, si as int, d2) {
                        let v = choose|v: int|
                            #[trigger] qualifies(g.nodes@, g.edges@, si as int, d2, v);
                    }
                }
                lemma_count_dests_zero(g.nodes@, g.edges@, si as int, g.nodes@.len() as int);
            }
        }
        si = si + 1;
    }
    out
}

/// The stop-area id of the node at `v`.
fn stop_id_of(g: &Graph, v: usize) -> (id: i32)
    requires
        v < g.nodes@.len(),
        g.nodes@[v as int].is_stop(),
    ensures
        id == g.nodes@[v as int].stop_id(),
{
    match &g.nodes[v].kind {
        NodeKind::Stop { id } => *id,
        NodeKind::Trail { .. } => 0,
    }
}

/// Best-effort list of the stage labels a shortest route touches: walks
/// the distance labels backwards from `di`, collecting the stage of each
/// trail node passed, and joins the labels with `;`.
fn stage_labels_of(
    g: &Graph,
    dist: &Vec<Option<u128>>,
    si: usize,
    di: usize,
    labels: &Vec<String>,
) -> (out: String)
    requires
        g.wf(),
        si < g.nodes@.len(),
        di < g.nodes@.len(),
        dist@.len() == g.nodes@.len(),
    ensures
        labels_subset_join(crate::labels::views_of(labels@), out@),
{
    let mut seen: Vec<bool> = Vec::new();
    let mut i: usize = 0;
    while i < labels.len()
        invariant
            seen@.len() == i,
            i <= labels@.len(),
        decreases labels@.len() - i,
    {
        seen.push(false);
        i = i + 1;
    }
    let mut cur = di;
    let mut steps: usize = 0;
    let n = g.nodes.len();
    while cur != si && steps < n
        invariant
            g.wf(),
            n == g.nodes@.len(),
            dist@.len() == n,
            cur < n,
            seen@.len() == labels@.len(),
        decreases n - steps,
    {
        steps = steps + 1;
        let dc: u128 = match dist[cur] {
            Some(d) => d,
            None => {
                break ;
            },
        };
        let mut k: usize = 0;
        let mut moved = false;
        while k < g.edges.len()
            invariant
                g.wf(),
                n == g.nodes@.len(),
                dist@.len() == n,
                cur < n,
                seen@.len() == labels@.len(),
                k <= g.edges@.len(),
            decreases g.edges@.len() - k,
        {
            let e = g.edges[k];
            if e.a != e.b && (e.a == cur || e.b == cur) {
                let u = if e.a == cur {
                    e.b
                } else {
                    e.a
                };
                if let Some(du) = dist[u] {
                    if du <= dc && dc - du == e.w as u128 {
                        cur = u;
                        moved = true;
                        if let NodeKind::Trail { stage, .. } = &g.nodes[u].kind {
                            if *stage < seen.len() {
                                seen.set(*stage, true);
                            }
                        }
                        break ;
                    }
                }
            }
            k = k + 1;
        }
        if !moved {
            break ;
        }
    }
    let ghost flags = seen@;
    let ghost entries = crate::labels::views_of(labels@);
    let mut out = String::new();
    let mut first = true;
    let mut j: usize = 0;
    proof {
        assert(sel_upto(entries, flags, 0) =~= Seq::<Seq<char>>::empty());
    }
    while j < labels.len()
        invariant
            flags == seen@,
            entries == crate::labels::views_of(labels@),
            seen@.len() == labels@.len(),
            j <= labels@.len(),
            out@ == join_semi(sel_upto(entries, flags, j as int)),
            first == (sel_upto(entries, flags, j as int).len() == 0),
        decreases labels@.len() - j,
    {
        if seen[j] {
            if !first {
                out.append(";");
            }
            first = false;
            out.append(labels[j].as_str());
            proof {
                let base = sel_upto(entries, flags, j as int);
                assert(sel_upto(entries, flags, j as int + 1) =~= base.push(entries[j as int]));
                lemma_join_semi_push(base, entries[j as int]);
                assert(entries[j as int] == labels@[j as int]@);
                assert(out@ =~= join_semi(sel_upto(entries, flags, j as int + 1)));
            }
        } else {
            proof {
                assert(sel_upto(entries, flags, j as int + 1) =~= sel_upto(
                    entries,
                    flags,
                    j as int,
                ));
            }
        }
        j = j + 1;
    }
    proof {
        assert(flags.len() == entries.len());
        assert(out@ == join_semi(sel_upto(entries, flags, entries.len() as int)));
        assert(labels_subset_join(entries, out@));
    }
    out
}

} // verus!
