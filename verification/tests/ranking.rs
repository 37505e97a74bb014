use trailplan::journeys::Journey;
use trailplan::ranker::{
    dest_departure, distinct_sources, make_itinerary, mirror_candidates, rank_itineraries,
    Itinerary,
};
use trailplan::records::Path;

fn path(dist: i32, srcdist: i32, destdist: i32, src: i32, dest: i32, etapp: &str) -> Path {
    Path { dist, srcdist, destdist, src, dest, etapp: etapp.to_string() }
}

fn j(deptime: i64, arrtime: i64) -> Journey {
    Journey { deptime, arrtime, changes: 0 }
}

#[test]
fn score_counts_travel_twice_and_wait_once() {
    // travel 1200 s, wait 600 s: 21600 - 2400 - 600.
    assert_eq!(j(1000, 2200).score(400), Some(18600));
}

#[test]
fn score_is_undefined_before_target_time() {
    assert_eq!(j(1000, 2200).score(1001), None);
}

#[test]
fn score_is_none_when_budget_is_spent() {
    // travel 10800 s twice over eats the whole six-hour budget.
    assert_eq!(j(0, 10800).score(0), None);
}

#[test]
fn score_boundaries() {
    // Departing exactly at the target time is allowed.
    assert_eq!(j(0, 0).score(0), Some(21600));
    // One second under the budget is still viable.
    assert_eq!(j(21599, 21599).score(0), Some(1));
    // Exactly spending the budget is not.
    assert_eq!(j(21600, 21600).score(0), None);
}

#[test]
fn score_decreases_as_travel_grows() {
    let fast = j(1000, 2000).score(0).unwrap();
    let slow = j(1000, 2600).score(0).unwrap();
    assert!(fast > slow);
}

#[test]
fn score_decreases_as_wait_grows() {
    let prompt = j(100, 1100).score(0).unwrap();
    let late = j(500, 1500).score(0).unwrap();
    assert!(prompt > late);
}

#[test]
fn best_picks_highest_score_and_earliest_on_tie() {
    let js = vec![j(500, 2000), j(100, 1100), j(100, 1100), j(50, 3000)];
    let (score, b) = Journey::best(&js, 0).unwrap();
    assert_eq!(score, 21600 - 2 * 1000 - 100);
    assert_eq!(b.deptime, 100);
    assert_eq!(b.arrtime, 1100);
}

#[test]
fn best_is_none_without_viable_journeys() {
    let js = vec![j(500, 90000), j(-100, 200)];
    assert!(Journey::best(&js, 0).is_none());
}

#[test]
fn mirroring_keeps_the_band_and_reverses() {
    let paths = vec![
        path(5000, 100, 200, 1, 2, "5_1"),
        path(90000, 10, 20, 3, 4, "5_2"),
        path(4500, 30, 40, 5, 6, "5_3"),
    ];
    let r = mirror_candidates(&paths, 4000, 6000);
    assert_eq!(r.len(), 4);
    assert_eq!(r[0].src, 1);
    assert_eq!(r[1].src, 2);
    assert_eq!(r[1].dest, 1);
    assert_eq!(r[1].srcdist, 200);
    assert_eq!(r[1].destdist, 100);
    assert_eq!(r[1].etapp, "5_1");
    assert_eq!(r[2].src, 5);
    assert_eq!(r[3].src, 6);
}

#[test]
fn distinct_sources_keeps_first_occurrences() {
    let paths = vec![
        path(5000, 0, 0, 7, 2, ""),
        path(5000, 0, 0, 9, 2, ""),
        path(5000, 0, 0, 7, 3, ""),
    ];
    assert_eq!(distinct_sources(&paths), vec![7, 9]);
}

#[test]
fn destination_departure_adds_walking_time() {
    // 6 km at 4000 m/h: 5400 s of walking.
    assert_eq!(dest_departure(1000, 6000, 4000), 6400);
}

#[test]
fn itinerary_score_subtracts_connector_legs() {
    let it = make_itinerary(j(0, 100), 9000, j(0, 100), 8000, path(5000, 300, 400, 1, 2, ""));
    assert_eq!(it.score, 9000 + 8000 - 300 - 400);
}

#[test]
fn ranking_never_reuses_a_stop_area() {
    let mk = |src: i32, dest: i32, score: i64| Itinerary {
        origj: j(0, 100),
        destj: j(0, 100),
        path: path(5000, 0, 0, src, dest, ""),
        score,
    };
    let picked = rank_itineraries(vec![
        mk(1, 2, 100),
        mk(1, 3, 90),
        mk(9, 1, 85),
        mk(4, 5, 80),
        mk(6, 2, 75),
    ]);
    assert_eq!(picked.len(), 2);
    assert_eq!(picked[0].path.src, 1);
    assert_eq!(picked[0].path.dest, 2);
    assert_eq!(picked[1].path.src, 4);
    assert_eq!(picked[1].path.dest, 5);
}

#[test]
fn ranking_orders_by_falling_score() {
    let mk = |src: i32, dest: i32, score: i64| Itinerary {
        origj: j(0, 100),
        destj: j(0, 100),
        path: path(5000, 0, 0, src, dest, ""),
        score,
    };
    let picked = rank_itineraries(vec![mk(1, 2, 10), mk(3, 4, 30), mk(5, 6, 20)]);
    assert_eq!(picked.len(), 3);
    assert_eq!(picked[0].score, 30);
    assert_eq!(picked[1].score, 20);
    assert_eq!(picked[2].score, 10);
}
