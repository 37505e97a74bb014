use trailplan::builder::{build_trail_graph, link_stop_areas, stitch_endpoints, Stage};
use trailplan::extract::extract_paths;
use trailplan::graph::{Edge, NodeKind};
use trailplan::records::StopArea;
use trailplan::shortest::shortest_from;
use trailplan::simplify::{prune_isolated, simplify_pass};

fn stage(label: &str, points: Vec<(i64, i64)>) -> Stage {
    Stage { label: label.to_string(), points }
}

fn sa(id: i32, name: &str, x: i32, y: i32) -> StopArea {
    StopArea { id, name: name.to_string(), x, y }
}

#[test]
fn builder_edge_weights_are_euclidean() {
    // One stage with a 3-4-5 triangle leg and an axis leg.
    let g = build_trail_graph(&vec![stage("1_1", vec![(0, 0), (3, 4), (3, 104)])]);
    assert_eq!(g.nodes.len(), 3);
    assert_eq!(g.edges.len(), 2);
    assert_eq!(g.edges[0].w, 5);
    assert_eq!(g.edges[1].w, 100);
    // Cumulative stage distance follows the edge weights.
    match g.nodes[2].kind {
        NodeKind::Trail { stage, cum } => {
            assert_eq!(stage, 0);
            assert_eq!(cum, 105);
        },
        _ => panic!("expected a trail node"),
    }
}

#[test]
fn builder_distance_is_floor_of_root() {
    // (0,0) to (1,1): sqrt(2) floors to 1.
    let g = build_trail_graph(&vec![stage("1_1", vec![(0, 0), (1, 1)])]);
    assert_eq!(g.edges[0].w, 1);
}

#[test]
fn stitching_joins_nearby_stages_only() {
    // Two stages whose endpoints sit 100 m apart, and one far away.
    let g0 = build_trail_graph(&vec![
        stage("1_1", vec![(0, 0), (0, 1000)]),
        stage("2_1", vec![(0, 1100), (0, 2000)]),
        stage("3_1", vec![(50000, 0), (50000, 1000)]),
    ]);
    let mut g = g0;
    let report = stitch_endpoints(&mut g);
    // A stitch edge of weight 100 appears between the two near stages.
    assert!(g.edges.iter().any(|e: &Edge| e.w == 100));
    // The far stage's endpoints cannot be stitched and are reported.
    assert!(report.contains(&4));
    assert!(report.contains(&5));
}

#[test]
fn linking_excludes_local_service_names() {
    let mut g = build_trail_graph(&vec![stage("1_1", vec![(0, 0), (0, 100)])]);
    link_stop_areas(
        &mut g,
        &vec![sa(1, "Centralen", 0, 30), sa(2, "Byn NO Torget", 0, 60)],
    );
    // Only the first stop area became a node.
    assert_eq!(g.nodes.len(), 3);
    match g.nodes[2].kind {
        NodeKind::Stop { id } => assert_eq!(id, 1),
        _ => panic!("expected a stop node"),
    }
    assert_eq!(g.edges.len(), 2);
}

#[test]
fn linking_ignores_stop_areas_beyond_range() {
    let mut g = build_trail_graph(&vec![stage("1_1", vec![(0, 0), (0, 100)])]);
    link_stop_areas(&mut g, &vec![sa(1, "Fjarran", 0, 100_000)]);
    // The stop area is added as a node but gets no linking edge.
    assert_eq!(g.nodes.len(), 3);
    assert_eq!(g.edges.len(), 1);
}

#[test]
fn simplify_collapses_interior_chain_and_keeps_distance() {
    let mut g = build_trail_graph(&vec![stage("1_1", vec![(0, 0), (0, 100), (0, 300)])]);
    let before = shortest_from(&g, 0);
    assert_eq!(before[2], Some(300));
    simplify_pass(&mut g);
    // The middle node lost both edges; the ends keep the summed edge.
    let after = shortest_from(&g, 0);
    assert_eq!(after[2], Some(300));
    assert!(g.edges.iter().any(|e: &Edge| e.a != e.b && e.w == 300));
    let (pruned, map) = prune_isolated(&g);
    assert_eq!(map, vec![0, 2]);
    assert_eq!(pruned.nodes.len(), 2);
}

#[test]
fn shortest_distances_are_symmetric() {
    let mut g = build_trail_graph(&vec![stage("1_1", vec![(0, 0), (0, 100), (0, 300)])]);
    link_stop_areas(&mut g, &vec![sa(101, "Start", 0, 50), sa(202, "Maal", 0, 250)]);
    let from_a = shortest_from(&g, 3);
    let from_b = shortest_from(&g, 4);
    assert_eq!(from_a[4], from_b[3]);
    assert_eq!(from_a[4], Some(300));
}

#[test]
fn worked_example_middle_point_survives_and_short_hop_is_rejected() {
    // Three collinear trail points of one stage, with stop areas at
    // (0,50) and (0,250): both link 50 m to the trail, the middle trail
    // point keeps its extra neighbour, and the 300 m stop-to-stop walk
    // falls below the 1000 m floor.
    let mut g = build_trail_graph(&vec![stage("5_1", vec![(0, 0), (0, 100), (0, 300)])]);
    stitch_endpoints(&mut g);
    link_stop_areas(&mut g, &vec![sa(101, "Norra", 0, 50), sa(202, "Sodra", 0, 250)]);
    // The first stop area links to the middle trail point (50 m), the
    // second to the last trail point (50 m).
    assert!(g.edges.iter().any(|e: &Edge| e.a == 3 && e.b == 1 && e.w == 50));
    assert!(g.edges.iter().any(|e: &Edge| e.a == 4 && e.b == 2 && e.w == 50));
    simplify_pass(&mut g);
    // The middle trail point has three neighbours, so it is kept.
    let dist = shortest_from(&g, 3);
    assert_eq!(dist[4], Some(300));
    let (pruned, _map) = prune_isolated(&g);
    let labels = vec!["5_1".to_string()];
    let paths = extract_paths(&pruned, &labels);
    assert!(paths.is_empty());
}

#[test]
fn extractor_emits_qualifying_pair_with_connector_distances() {
    // A 2 km trail with a stop area near each end.
    let mut g = build_trail_graph(&vec![stage("5_1", vec![(0, 0), (0, 1000), (0, 2000)])]);
    link_stop_areas(&mut g, &vec![sa(11, "A", 0, -40), sa(22, "B", 0, 2030)]);
    simplify_pass(&mut g);
    let (pruned, _) = prune_isolated(&g);
    let labels = vec!["5_1".to_string()];
    let paths = extract_paths(&pruned, &labels);
    assert_eq!(paths.len(), 2);
    let ab = paths.iter().find(|p| p.src == 11).expect("A to B");
    assert_eq!(ab.dest, 22);
    assert_eq!(ab.dist, 40 + 2000 + 30);
    assert_eq!(ab.srcdist, 40);
    assert_eq!(ab.destdist, 30);
    assert!(ab.dist >= ab.srcdist + ab.destdist);
    assert!(1000 <= ab.dist && ab.dist <= 40000);
    assert_eq!(ab.etapp, "5_1");
    let ba = paths.iter().find(|p| p.src == 22).expect("B to A");
    assert_eq!(ba.dest, 11);
    assert_eq!(ba.dist, ab.dist);
}

#[test]
fn extractor_rejects_trail_dodging_candidates() {
    // Connector legs of 900 m each against a 2 km trail: walking to and
    // from the trail twice outweighs the trail route, so no candidate.
    let mut g = build_trail_graph(&vec![stage("5_1", vec![(0, 0), (0, 1000), (0, 2000)])]);
    link_stop_areas(&mut g, &vec![sa(11, "A", -900, 0), sa(22, "B", 900, 2000)]);
    simplify_pass(&mut g);
    let (pruned, _) = prune_isolated(&g);
    let labels = vec!["5_1".to_string()];
    let paths = extract_paths(&pruned, &labels);
    // dist = 900 + 2000 + 900 = 3800 but 2 * (900 + 900) = 3600 <= 3800,
    // so the pair qualifies; shrink the trail to flip the rule.
    assert_eq!(paths.len(), 2);
    let mut g2 = build_trail_graph(&vec![stage("5_1", vec![(0, 0), (0, 500), (0, 1000)])]);
    link_stop_areas(&mut g2, &vec![sa(11, "A", -900, 0), sa(22, "B", 900, 1000)]);
    simplify_pass(&mut g2);
    let (pruned2, _) = prune_isolated(&g2);
    let paths2 = extract_paths(&pruned2, &labels);
    // dist = 900 + 1000 + 900 = 2800 < 2 * 1800: rejected.
    assert!(paths2.is_empty());
}
