//! The graph model: an arena of nodes addressed by index, with undirected
//! weighted edges stored as index pairs.  Trail points and stop areas are
//! the two node kinds; a node's kind never changes after creation.

use vstd::prelude::*;
use crate::geom::{coord_ok, euclid};

verus! {

/// What a node is: a point on a trail stage (with the cumulative distance
/// walked along that stage), or a transit stop area.
#[derive(Clone, Copy)]
pub enum NodeKind {
    /// `stage` indexes the stage catalogue the graph was built from.
    Trail { stage: usize, cum: u64 },
    Stop { id: i32 },
}

#[derive(Clone, Copy)]
pub struct Node {
    pub x: i64,
    pub y: i64,
    pub kind: NodeKind,
}

/// An undirected edge between the nodes at indices `a` and `b`, weighted
/// in meters.  Parallel edges are allowed and kept distinct.
#[derive(Clone, Copy)]
pub struct Edge {
    pub a: usize,
    pub b: usize,
    pub w: u64,
}

pub struct Graph {
    pub nodes: Vec<Node>,
    pub edges: Vec<Edge>,
}

impl Node {
    pub open spec fn is_trail(self) -> bool {
        self.kind is Trail
    }

    pub open spec fn is_stop(self) -> bool {
        self.kind is Stop
    }

    pub open spec fn stage(self) -> usize {
        self.kind->Trail_stage
    }

    pub open spec fn stop_id(self) -> i32 {
        self.kind->Stop_id
    }
}

/// An edge `e` joins `u` and `v` (in either orientation).
pub open spec fn connects(e: Edge, u: int, v: int) -> bool {
    (e.a == u && e.b == v) || (e.a == v && e.b == u)
}

/// `e` counts toward the degree of `v`.  Self-loops never do: they arise
/// only as the dead remnants of collapsed edges and join nothing.
pub open spec fn incident(e: Edge, v: int) -> bool {
    (e.a == v || e.b == v) && e.a != e.b
}

/// Number of edges incident to `v` among the first `k` edges.
pub open spec fn degree_upto(es: Seq<Edge>, v: int, k: int) -> nat
    decreases k,
{
    if k <= 0 {
        0
    } else {
        degree_upto(es, v, k - 1) + if incident(es[k - 1], v) {
            1nat
        } else {
            0nat
        }
    }
}

pub open spec fn degree(es: Seq<Edge>, v: int) -> nat {
    degree_upto(es, v, es.len() as int)
}

impl Graph {
    /// Every edge points at existing nodes and every node sits at
    /// in-range coordinates.
    pub open spec fn wf(self) -> bool {
        &&& forall|i: int|
            0 <= i < self.edges@.len() ==> (#[trigger] self.edges@[i]).a < self.nodes@.len()
                && self.edges@[i].b < self.nodes@.len()
        &&& forall|i: int|
            0 <= i < self.nodes@.len() ==> coord_ok((#[trigger] self.nodes@[i]).x) && coord_ok(
                self.nodes@[i].y,
            )
    }

    /// Every edge weight is the Euclidean distance between its endpoints,
    /// as in a freshly built graph.
    pub open spec fn edges_geometric(self) -> bool {
        forall|i: int|
            0 <= i < self.edges@.len() ==> edge_geometric(self.nodes@, #[trigger] self.edges@[i])
    }

    pub fn new() -> (g: Graph)
        ensures
            g.wf(),
            g.edges_geometric(),
            g.nodes@.len() == 0,
            g.edges@.len() == 0,
    {
        Graph { nodes: Vec::new(), edges: Vec::new() }
    }

    /// Append a trail-point node; its index is returned.
    pub fn add_trail_node(&mut self, x: i64, y: i64, stage: usize, cum: u64) -> (ni: usize)
        requires
            old(self).wf(),
            coord_ok(x),
            coord_ok(y),
        ensures
            final(self).wf(),
            ni == old(self).nodes@.len(),
            final(self).nodes@ == old(self).nodes@.push(
                Node { x, y, kind: NodeKind::Trail { stage, cum } },
            ),
            final(self).edges@ == old(self).edges@,
    {
        let ni = self.nodes.len();
        self.nodes.push(Node { x, y, kind: NodeKind::Trail { stage, cum } });
        ni
    }

    /// Append a stop-area node; its index is returned.
    pub fn add_stop_node(&mut self, x: i64, y: i64, id: i32) -> (ni: usize)
        requires
            old(self).wf(),
            coord_ok(x),
            coord_ok(y),
        ensures
            final(self).wf(),
            ni == old(self).nodes@.len(),
            final(self).nodes@ == old(self).nodes@.push(Node { x, y, kind: NodeKind::Stop { id } }),
            final(self).edges@ == old(self).edges@,
    {
        let ni = self.nodes.len();
        self.nodes.push(Node { x, y, kind: NodeKind::Stop { id } });
        ni
    }

    /// Add an undirected edge of the exact geometric weight between two
    /// existing nodes.
    pub fn add_geometric_edge(&mut self, a: usize, b: usize) -> (w: u64)
        requires
            old(self).wf(),
            a < old(self).nodes@.len(),
            b < old(self).nodes@.len(),
        ensures
            final(self).wf(),
            final(self).nodes@ == old(self).nodes@,
            final(self).edges@ == old(self).edges@.push(Edge { a, b, w }),
            w == euclid(
                old(self).nodes@[a as int].x as int,
                old(self).nodes@[a as int].y as int,
                old(self).nodes@[b as int].x as int,
                old(self).nodes@[b as int].y as int,
            ),
            old(self).edges_geometric() ==> final(self).edges_geometric(),
    {
        let na = &self.nodes[a];
        let nb = &self.nodes[b];
        let w = crate::geom::dist(na.x, na.y, nb.x, nb.y);
        self.edges.push(Edge { a, b, w });
        w
    }

    /// Degree of node `v`: how many live (non-loop) edges touch it.
    pub fn node_degree(&self, v: usize) -> (d: usize)
        ensures
            d == degree(self.edges@, v as int),
    {
        let mut d: usize = 0;
        let mut k: usize = 0;
        while k < self.edges.len()
            invariant
                k <= self.edges@.len(),
                d <= k,
                d == degree_upto(self.edges@, v as int, k as int),
            decreases self.edges@.len() - k,
        {
            let e = &self.edges[k];
            if (e.a == v || e.b == v) && e.a != e.b {
                d = d + 1;
            }
            k = k + 1;
        }
        d
    }
}

pub open spec fn edge_geometric(nodes: Seq<Node>, e: Edge) -> bool {
    e.w == euclid(
        nodes[e.a as int].x as int,
        nodes[e.a as int].y as int,
        nodes[e.b as int].x as int,
        nodes[e.b as int].y as int,
    )
}

/// A prefix of the edge arena determines the degree over that prefix.
pub proof fn lemma_degree_upto_agree(es1: Seq<Edge>, es2: Seq<Edge>, v: int, k: int)
    requires
        0 <= k <= es1.len(),
        k <= es2.len(),
        forall|i: int| 0 <= i < k ==> es1[i] == es2[i],
    ensures
        degree_upto(es1, v, k) == degree_upto(es2, v, k),
    decreases k,
{
    if k > 0 {
        lemma_degree_upto_agree(es1, es2, v, k - 1);
    }
}

proof fn lemma_degree_upto_update(es: Seq<Edge>, k: int, e: Edge, v: int, m: int)
    requires
        0 <= k < es.len(),
        0 <= m <= es.len(),
    ensures
        degree_upto(es.update(k, e), v, m) == degree_upto(es, v, m) + if k < m {
            (if incident(e, v) {
                1int
            } else {
                0int
            }) - (if incident(es[k], v) {
                1int
            } else {
                0int
            })
        } else {
            0int
        },
    decreases m,
{
    if m > 0 {
        lemma_degree_upto_update(es, k, e, v, m - 1);
    }
}

/// Replacing the edge at `k` adjusts the degree by the change in
/// incidence at `k` alone.
pub proof fn lemma_degree_update(es: Seq<Edge>, k: int, e: Edge, v: int)
    requires
        0 <= k < es.len(),
    ensures
        degree(es.update(k, e), v) == degree(es, v) + (if incident(e, v) {
            1int
        } else {
            0int
        }) - (if incident(es[k], v) {
            1int
        } else {
            0int
        }),
{
    lemma_degree_upto_update(es, k, e, v, es.len() as int);
}

/// Degree over a longer prefix counts no fewer edges.
pub proof fn lemma_degree_upto_mono(es: Seq<Edge>, v: int, k1: int, k2: int)
    requires
        0 <= k1 <= k2 <= es.len(),
    ensures
        degree_upto(es, v, k1) <= degree_upto(es, v, k2),
    decreases k2 - k1,
{
    if k1 < k2 {
        lemma_degree_upto_mono(es, v, k1, k2 - 1);
    }
}

/// An incident edge witnesses a positive degree.
pub proof fn lemma_degree_pos(es: Seq<Edge>, k: int, v: int)
    requires
        0 <= k < es.len(),
        incident(es[k], v),
    ensures
        degree(es, v) >= 1,
{
    assert(degree_upto(es, v, k + 1) >= 1);
    lemma_degree_upto_mono(es, v, k + 1, es.len() as int);
}

/// A node no edge is incident to has degree zero.
pub proof fn lemma_degree_zero(es: Seq<Edge>, v: int)
    requires
        forall|k: int| 0 <= k < es.len() ==> !incident(#[trigger] es[k], v),
    ensures
        degree(es, v) == 0,
{
    lemma_degree_upto_zero(es, v, es.len() as int);
}

proof fn lemma_degree_upto_zero(es: Seq<Edge>, v: int, m: int)
    requires
        0 <= m <= es.len(),
        forall|k: int| 0 <= k < es.len() ==> !incident(#[trigger] es[k], v),
    ensures
        degree_upto(es, v, m) == 0,
    decreases m,
{
    if m > 0 {
        lemma_degree_upto_zero(es, v, m - 1);
    }
}

/// Appending one edge raises the degree by one exactly at its endpoints.
pub proof fn lemma_degree_push(es: Seq<Edge>, e: Edge, v: int)
    ensures
        degree(es.push(e), v) == degree(es, v) + if incident(e, v) {
            1int
        } else {
            0int
        },
{
    let es2 = es.push(e);
    lemma_degree_upto_agree(es2, es, v, es.len() as int);
    assert(es2[es.len() as int] == e);
}

} // verus!
