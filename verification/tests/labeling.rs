use which_country::geo::{point_in_ring, Pt};
use which_country::label::{horizontal_spans, ring_label_point, vertical_spans};

const DEG: i64 = 1_000_000;

fn pt(lon: i64, lat: i64) -> Pt {
    Pt { lon, lat }
}

fn square_ring() -> Vec<Pt> {
    vec![
        pt(0, 0),
        pt(10 * DEG, 0),
        pt(10 * DEG, 10 * DEG),
        pt(0, 10 * DEG),
    ]
}

#[test]
fn horizontal_spans_of_square() {
    let ring = square_ring();
    let spans = horizontal_spans(5 * DEG, &ring);
    assert_eq!(spans, vec![(0, 10 * DEG)]);
}

#[test]
fn vertical_spans_of_square() {
    let ring = square_ring();
    let spans = vertical_spans(5 * DEG, &ring);
    assert_eq!(spans, vec![(0, 10 * DEG)]);
}

#[test]
fn spans_of_degenerate_ring_are_empty() {
    let two = vec![pt(0, 0), pt(DEG, DEG)];
    assert!(horizontal_spans(0, &two).is_empty());
    assert!(vertical_spans(0, &two).is_empty());
}

#[test]
fn spans_outside_the_ring_are_empty() {
    let ring = square_ring();
    assert!(horizontal_spans(20 * DEG, &ring).is_empty());
    assert!(vertical_spans(-5 * DEG, &ring).is_empty());
}

#[test]
fn label_point_of_square_is_interior() {
    let ring = square_ring();
    let p = ring_label_point(&ring);
    assert!(point_in_ring(p.lon, p.lat, &ring));
    // for a square the most interior point is its center
    assert_eq!((p.lon, p.lat), (5 * DEG, 5 * DEG));
}

#[test]
fn label_point_of_convex_rings_is_interior() {
    // a triangle and a convex pentagon
    let triangle = vec![pt(0, 0), pt(8 * DEG, 0), pt(4 * DEG, 6 * DEG)];
    let p = ring_label_point(&triangle);
    assert!(point_in_ring(p.lon, p.lat, &triangle));

    let pentagon = vec![
        pt(2 * DEG, 0),
        pt(8 * DEG, 0),
        pt(10 * DEG, 5 * DEG),
        pt(5 * DEG, 9 * DEG),
        pt(0, 5 * DEG),
    ];
    let p2 = ring_label_point(&pentagon);
    assert!(point_in_ring(p2.lon, p2.lat, &pentagon));
}

#[test]
fn label_point_of_degenerate_ring_is_box_center() {
    let two = vec![pt(2 * DEG, 2 * DEG), pt(4 * DEG, 6 * DEG)];
    let p = ring_label_point(&two);
    assert_eq!((p.lon, p.lat), (3 * DEG, 4 * DEG));
}

/// A U-shaped (concave) ring: outer box 10x10 degrees with a notch cut from
/// the top between longitudes 2 and 8 down to latitude 2.
fn u_ring() -> Vec<Pt> {
    vec![
        pt(0, 0),
        pt(10 * DEG, 0),
        pt(10 * DEG, 10 * DEG),
        pt(8 * DEG, 10 * DEG),
        pt(8 * DEG, 2 * DEG),
        pt(2 * DEG, 2 * DEG),
        pt(2 * DEG, 10 * DEG),
        pt(0, 10 * DEG),
    ]
}

#[test]
fn horizontal_spans_of_concave_ring() {
    let ring = u_ring();
    let spans = horizontal_spans(5 * DEG, &ring);
    assert_eq!(spans, vec![(0, 2 * DEG), (8 * DEG, 10 * DEG)]);
}

#[test]
fn concave_ring_membership() {
    let ring = u_ring();
    assert!(!point_in_ring(5 * DEG, 5 * DEG, &ring)); // inside the notch
    assert!(point_in_ring(1 * DEG, 5 * DEG, &ring)); // west arm
    assert!(point_in_ring(9 * DEG, 5 * DEG, &ring)); // east arm
    assert!(point_in_ring(5 * DEG, 1 * DEG, &ring)); // base
}

#[test]
fn label_point_of_concave_ring_is_interior() {
    let ring = u_ring();
    let p = ring_label_point(&ring);
    assert!(point_in_ring(p.lon, p.lat, &ring));
}
