use geojoin::join::{
    check_pop_counts, do_double_loop, do_double_loop_with_envelope, do_loop_with_state_envelopes,
    do_rtree,
};
use geojoin::models::{Envelope, Point, PopCenter, Polygon};
use geojoin::rtree::build_rtree;
use geojoin::utils::{build_polygon_envelopes, build_state_id_to_counties};
use geojoin::GeoError;

fn pt(x: i64, y: i64) -> Point {
    Point { x, y }
}

fn square(id: &str, x0: i64, y0: i64, side: i64) -> Polygon {
    let coords = vec![
        pt(x0, y0),
        pt(x0 + side, y0),
        pt(x0 + side, y0 + side),
        pt(x0, y0 + side),
        pt(x0, y0),
    ];
    Polygon::new(id.to_string(), coords).unwrap()
}

fn center(x: i64, y: i64, population: i64) -> PopCenter {
    PopCenter { x, y, population }
}

fn state_env(id: &str, min_x: i64, min_y: i64, max_x: i64, max_y: i64) -> (String, Envelope) {
    (id.to_string(), Envelope { min_x, min_y, max_x, max_y })
}

#[test]
fn weights_accumulate_into_enclosing_polygon() {
    let counties = vec![square("06-001", 0, 0, 10), square("36-001", 100, 100, 10)];
    let centers = vec![center(2, 2, 10), center(5, 5, 20), center(8, 8, 30)];
    let m = do_double_loop(&centers, &counties);
    assert_eq!(m.get(&"06-001".to_string()), Some(60));
    assert_eq!(m.get(&"36-001".to_string()), None);
    assert_eq!(m.len(), 1);
}

#[test]
fn all_strategies_agree_on_simple_input() {
    let counties = vec![square("06-001", 0, 0, 10), square("36-001", 100, 100, 10)];
    let centers = vec![center(2, 2, 10), center(5, 5, 20), center(8, 8, 30)];
    let base = do_double_loop(&centers, &counties);
    let env = do_double_loop_with_envelope(&centers, &counties);
    assert!(check_pop_counts(&base, &env).is_ok());
    let state_envelopes =
        vec![state_env("06", 0, 0, 10, 10), state_env("36", 100, 100, 110, 110)];
    let grouped = do_loop_with_state_envelopes(&centers, &counties, &state_envelopes).unwrap();
    assert!(check_pop_counts(&base, &grouped).is_ok());
    let tree = build_rtree(&counties);
    let indexed = do_rtree(&centers, &counties, &tree);
    assert!(check_pop_counts(&base, &indexed).is_ok());
}

#[test]
fn shared_edge_point_consistent_across_strategies() {
    // Two adjacent non-overlapping squares sharing the edge x = 4.  The
    // winding rule resolves a point on the shared edge into the right-hand
    // square, and every strategy must say the same.
    let left = square("06-001", 0, 0, 4);
    let right = square("06-002", 4, 0, 4);
    assert!(!left.contains(pt(4, 2)));
    assert!(right.contains(pt(4, 2)));

    let counties = vec![left, right];
    let centers = vec![center(4, 2, 7)];
    let base = do_double_loop(&centers, &counties);
    assert_eq!(base.get(&"06-001".to_string()), None);
    assert_eq!(base.get(&"06-002".to_string()), Some(7));

    let env = do_double_loop_with_envelope(&centers, &counties);
    assert!(check_pop_counts(&base, &env).is_ok());
    let state_envelopes = vec![state_env("06", 0, 0, 8, 4)];
    let grouped = do_loop_with_state_envelopes(&centers, &counties, &state_envelopes).unwrap();
    assert!(check_pop_counts(&base, &grouped).is_ok());
    let tree = build_rtree(&counties);
    let indexed = do_rtree(&centers, &counties, &tree);
    assert!(check_pop_counts(&base, &indexed).is_ok());
}

#[test]
fn strategies_agree_on_overlapping_and_shared_ids() {
    // Two polygon parts under one id, one overlapping pair, points inside
    // zero, one and two polygons, and a negative weight.
    let counties = vec![
        square("06-001", 0, 0, 4),
        square("06-001", 10, 0, 4),
        square("06-002", 2, 2, 4),
        square("36-001", 20, 20, 4),
    ];
    let centers = vec![
        center(3, 3, 10),
        center(11, 1, 5),
        center(50, 50, 99),
        center(21, 21, -4),
        center(1, 1, 2),
    ];
    let base = do_double_loop(&centers, &counties);
    assert_eq!(base.get(&"06-001".to_string()), Some(17));
    assert_eq!(base.get(&"06-002".to_string()), Some(10));
    assert_eq!(base.get(&"36-001".to_string()), Some(-4));
    assert_eq!(base.len(), 3);

    let env = do_double_loop_with_envelope(&centers, &counties);
    assert!(check_pop_counts(&base, &env).is_ok());
    let state_envelopes = vec![state_env("06", 0, 0, 14, 6), state_env("36", 20, 20, 24, 24)];
    let grouped = do_loop_with_state_envelopes(&centers, &counties, &state_envelopes).unwrap();
    assert!(check_pop_counts(&base, &grouped).is_ok());
    let tree = build_rtree(&counties);
    let indexed = do_rtree(&centers, &counties, &tree);
    assert!(check_pop_counts(&base, &indexed).is_ok());
}

#[test]
fn zero_weight_center_still_creates_entry() {
    let counties = vec![square("06-001", 0, 0, 4)];
    let centers = vec![center(1, 1, 0)];
    let m = do_double_loop(&centers, &counties);
    assert_eq!(m.get(&"06-001".to_string()), Some(0));
    assert_eq!(m.len(), 1);
}

#[test]
fn empty_inputs_give_empty_mapping() {
    let counties = vec![square("06-001", 0, 0, 4)];
    let no_centers: Vec<PopCenter> = Vec::new();
    let m = do_double_loop(&no_centers, &counties);
    assert_eq!(m.len(), 0);
    let centers = vec![center(1, 1, 10)];
    let no_counties: Vec<Polygon> = Vec::new();
    let m2 = do_double_loop(&centers, &no_counties);
    assert_eq!(m2.len(), 0);
}

#[test]
fn check_pop_counts_reports_mismatch() {
    let counties = vec![square("06-001", 0, 0, 4)];
    let a = do_double_loop(&vec![center(1, 1, 10)], &counties);
    let b = do_double_loop(&vec![center(1, 1, 11)], &counties);
    assert_eq!(check_pop_counts(&a, &b), Err(GeoError::CountMismatch));
    let c = do_double_loop(&Vec::new(), &counties);
    assert_eq!(check_pop_counts(&a, &c), Err(GeoError::CountMismatch));
    assert!(check_pop_counts(&a, &a).is_ok());
}

#[test]
fn grouping_partitions_by_parent_id() {
    let counties = vec![
        square("06-001", 0, 0, 4),
        square("06-003", 10, 0, 4),
        square("36-001", 20, 0, 4),
    ];
    let groups = build_state_id_to_counties(&counties).unwrap();
    assert_eq!(groups.len(), 2);
    let six = groups.iter().find(|g| g.0 == "06").unwrap();
    assert_eq!(six.1, vec![0, 1]);
    let thirtysix = groups.iter().find(|g| g.0 == "36").unwrap();
    assert_eq!(thirtysix.1, vec![2]);
}

#[test]
fn grouping_fails_on_missing_parent_id() {
    let counties = vec![square("06-001", 0, 0, 4), square("NOPARENT", 10, 0, 4)];
    assert_eq!(build_state_id_to_counties(&counties), Err(GeoError::MissingStateId));
}

#[test]
fn missing_parent_aborts_hierarchical_strategy() {
    let counties = vec![square("NOPARENT", 0, 0, 4)];
    let centers = vec![center(1, 1, 10)];
    let state_envelopes = vec![state_env("NO", 0, 0, 4, 4)];
    let r = do_loop_with_state_envelopes(&centers, &counties, &state_envelopes);
    assert_eq!(r.map(|_| ()), Err(GeoError::MissingStateId));
}

#[test]
fn polygon_envelopes_merge_by_id() {
    let polys = vec![
        square("06", 0, 0, 4),
        square("06", 10, 10, 4),
        square("36", -5, -5, 2),
    ];
    let envs = build_polygon_envelopes(&polys);
    assert_eq!(envs.len(), 2);
    let six = envs.iter().find(|e| e.0 == "06").unwrap();
    assert_eq!(six.1, Envelope { min_x: 0, min_y: 0, max_x: 14, max_y: 14 });
    let thirtysix = envs.iter().find(|e| e.0 == "36").unwrap();
    assert_eq!(thirtysix.1, Envelope { min_x: -5, min_y: -5, max_x: -3, max_y: -3 });
}

#[test]
fn rtree_candidates_filtered_to_exact_containment() {
    // Many polygons, some with overlapping envelopes; the index-accelerated
    // totals must match the naive ones exactly.
    let mut counties = Vec::new();
    for i in 0..10i64 {
        counties.push(square(&format!("0{}-001", i), i * 3, 0, 4));
    }
    let centers = vec![center(2, 2, 1), center(5, 1, 10), center(17, 3, 100), center(40, 40, 7)];
    let base = do_double_loop(&centers, &counties);
    let tree = build_rtree(&counties);
    let indexed = do_rtree(&centers, &counties, &tree);
    assert!(check_pop_counts(&base, &indexed).is_ok());
    assert_eq!(base.get(&"00-001".to_string()), Some(1));
    assert!(base.get(&"09-001".to_string()).is_none());
}

#[test]
fn rtree_over_empty_collection() {
    let counties: Vec<Polygon> = Vec::new();
    let centers = vec![center(1, 1, 10)];
    let tree = build_rtree(&counties);
    let m = do_rtree(&centers, &counties, &tree);
    assert_eq!(m.len(), 0);
}
