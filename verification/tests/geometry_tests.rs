use geojoin::models::{Envelope, Point, Polygon};
use geojoin::utils::find_state_id;

fn pt(x: i64, y: i64) -> Point {
    Point { x, y }
}

fn square(id: &str, x0: i64, y0: i64, side: i64) -> Polygon {
    let coords = vec![
        pt(x0, y0),
        pt(x0 + side, y0),
        pt(x0 + side, y0 + side),
        pt(x0, y0 + side),
        pt(x0, y0),
    ];
    Polygon::new(id.to_string(), coords).unwrap()
}

#[test]
fn square_contains_interior_point() {
    let poly = square("06-001", 0, 0, 4);
    assert!(poly.contains(pt(2, 2)));
}

#[test]
fn square_excludes_far_point() {
    let poly = square("06-001", 0, 0, 4);
    assert!(!poly.contains(pt(5, 5)));
}

#[test]
fn square_vertex_resolves_contained() {
    // Regression baseline for the winding rule's boundary behavior: the
    // lower-left vertex of this square resolves to "contained".
    let poly = square("06-001", 0, 0, 4);
    assert!(poly.contains(pt(0, 0)));
}

#[test]
fn containment_invariant_under_ring_rotation() {
    let rings = [
        vec![pt(0, 0), pt(4, 0), pt(4, 4), pt(0, 4), pt(0, 0)],
        vec![pt(4, 0), pt(4, 4), pt(0, 4), pt(0, 0), pt(4, 0)],
        vec![pt(4, 4), pt(0, 4), pt(0, 0), pt(4, 0), pt(4, 4)],
        vec![pt(0, 4), pt(0, 0), pt(4, 0), pt(4, 4), pt(0, 4)],
    ];
    let probes = [pt(2, 2), pt(5, 5), pt(0, 0), pt(4, 2), pt(2, 0), pt(-1, 2)];
    for probe in probes {
        let baseline = Polygon::new("x".to_string(), rings[0].clone()).unwrap().contains(probe);
        for ring in &rings[1..] {
            let rotated = Polygon::new("x".to_string(), ring.clone()).unwrap();
            assert_eq!(rotated.contains(probe), baseline);
        }
    }
}

#[test]
fn nonconvex_polygon_containment() {
    // A U-shaped (non-convex) ring: the notch is outside, the arms inside.
    let coords = vec![
        pt(0, 0),
        pt(6, 0),
        pt(6, 6),
        pt(4, 6),
        pt(4, 2),
        pt(2, 2),
        pt(2, 6),
        pt(0, 6),
        pt(0, 0),
    ];
    let poly = Polygon::new("u".to_string(), coords).unwrap();
    assert!(poly.contains(pt(1, 5)));
    assert!(poly.contains(pt(5, 5)));
    assert!(!poly.contains(pt(3, 5)));
    assert!(poly.contains(pt(3, 1)));
}

#[test]
fn envelope_of_is_tight_bounding_box() {
    let poly = square("06-001", 1, 2, 3);
    assert_eq!(poly.envelope.min_x, 1);
    assert_eq!(poly.envelope.min_y, 2);
    assert_eq!(poly.envelope.max_x, 4);
    assert_eq!(poly.envelope.max_y, 5);
}

#[test]
fn envelope_of_empty_sequence_is_identity() {
    let env = Envelope::of(&Vec::new());
    let empty = Envelope::empty();
    assert_eq!(env, empty);
    // The empty envelope contains nothing.
    assert!(!env.contains(pt(0, 0)));
    assert!(!env.contains(pt(i64::MAX, i64::MIN)));
}

#[test]
fn expand_is_commutative() {
    let a = Envelope { min_x: 0, min_y: 5, max_x: 10, max_y: 7 };
    let b = Envelope { min_x: -3, min_y: 6, max_x: 4, max_y: 20 };
    let mut ab = a;
    ab.expand(b);
    let mut ba = b;
    ba.expand(a);
    assert_eq!(ab, ba);
}

#[test]
fn expand_is_associative() {
    let a = Envelope { min_x: 0, min_y: 5, max_x: 10, max_y: 7 };
    let b = Envelope { min_x: -3, min_y: 6, max_x: 4, max_y: 20 };
    let c = Envelope { min_x: 2, min_y: -9, max_x: 3, max_y: 1 };
    let mut left = a;
    left.expand(b);
    left.expand(c);
    let mut bc = b;
    bc.expand(c);
    let mut right = a;
    right.expand(bc);
    assert_eq!(left, right);
}

#[test]
fn expand_with_empty_is_identity() {
    let a = Envelope { min_x: 0, min_y: 5, max_x: 10, max_y: 7 };
    let mut merged = a;
    merged.expand(Envelope::empty());
    assert_eq!(merged, a);
    let mut other_way = Envelope::empty();
    other_way.expand(a);
    assert_eq!(other_way, a);
}

#[test]
fn expand_tracks_axes_independently() {
    // The y minimum must come from the y coordinates, never from x.
    let a = Envelope { min_x: 100, min_y: 0, max_x: 200, max_y: 10 };
    let b = Envelope { min_x: -50, min_y: 5, max_x: 150, max_y: 8 };
    let mut merged = a;
    merged.expand(b);
    assert_eq!(merged.min_x, -50);
    assert_eq!(merged.min_y, 0);
    assert_eq!(merged.max_x, 200);
    assert_eq!(merged.max_y, 10);
}

#[test]
fn point_outside_envelope_never_contained() {
    let poly = square("06-001", 0, 0, 4);
    let probes = [pt(-1, 2), pt(5, 2), pt(2, -1), pt(2, 5), pt(100, 100)];
    for probe in probes {
        assert!(!poly.envelope.contains(probe));
        assert!(!poly.contains(probe));
    }
}

#[test]
fn polygon_new_rejects_short_ring() {
    let coords = vec![pt(0, 0), pt(4, 0), pt(0, 0)];
    assert!(Polygon::new("x".to_string(), coords).is_none());
}

#[test]
fn polygon_new_rejects_unclosed_ring() {
    let coords = vec![pt(0, 0), pt(4, 0), pt(4, 4), pt(0, 4)];
    assert!(Polygon::new("x".to_string(), coords).is_none());
}

#[test]
fn polygon_new_rejects_oversized_coordinates() {
    let coords = vec![pt(0, 0), pt(i64::MAX, 0), pt(4, 4), pt(0, 4), pt(0, 0)];
    assert!(Polygon::new("x".to_string(), coords).is_none());
}

#[test]
fn find_state_id_splits_on_first_separator() {
    assert_eq!(find_state_id("06-001"), Some("06".to_string()));
    assert_eq!(find_state_id("a-b-c"), Some("a".to_string()));
    assert_eq!(find_state_id("-x"), Some(String::new()));
}

#[test]
fn find_state_id_rejects_id_without_separator() {
    assert_eq!(find_state_id("NOPARENT"), None);
    assert_eq!(find_state_id(""), None);
}

#[test]
fn find_state_id_counts_characters_not_bytes() {
    assert_eq!(find_state_id("çé-01"), Some("çé".to_string()));
    assert_eq!(find_state_id("ü"), None);
}
