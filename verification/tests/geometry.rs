use which_country::geo::{
    find_country, load_countries, point_in_country, point_in_polygon, point_in_ring,
    ring_signed_area, Country, Feature, Geometry, Pt,
};

const DEG: i64 = 1_000_000;

fn pt(lon: i64, lat: i64) -> Pt {
    Pt { lon, lat }
}

/// A 10x10 degree square ring, counter-clockwise, unclosed.
fn square_ring() -> Vec<Pt> {
    vec![
        pt(0, 0),
        pt(10 * DEG, 0),
        pt(10 * DEG, 10 * DEG),
        pt(0, 10 * DEG),
    ]
}

/// A 2x2 degree hole centered at (5, 5) degrees.
fn hole_ring() -> Vec<Pt> {
    vec![
        pt(4 * DEG, 4 * DEG),
        pt(6 * DEG, 4 * DEG),
        pt(6 * DEG, 6 * DEG),
        pt(4 * DEG, 6 * DEG),
    ]
}

fn square_country(code: &str, name: &str) -> Country {
    let features = vec![Feature {
        iso_a2: code.to_string(),
        name: name.to_string(),
        geometry: Geometry::Polygon(vec![square_ring(), hole_ring()]),
    }];
    load_countries(features).remove(0)
}

#[test]
fn inside_simple_ring() {
    let ring = square_ring();
    assert!(point_in_ring(5 * DEG, 5 * DEG, &ring));
    assert!(point_in_ring(1 * DEG, 9 * DEG, &ring));
    assert!(!point_in_ring(11 * DEG, 5 * DEG, &ring));
    assert!(!point_in_ring(-1 * DEG, 5 * DEG, &ring));
    assert!(!point_in_ring(5 * DEG, -3 * DEG, &ring));
}

#[test]
fn degenerate_rings_contain_nothing() {
    let empty: Vec<Pt> = vec![];
    assert!(!point_in_ring(0, 0, &empty));
    let two = vec![pt(0, 0), pt(DEG, DEG)];
    assert!(!point_in_ring(0, 0, &two));
    let rings: Vec<Vec<Pt>> = vec![];
    assert!(!point_in_polygon(0, 0, &rings));
}

#[test]
fn hole_excludes_center_ring_keeps_rest() {
    let rings = vec![square_ring(), hole_ring()];
    // hole center is excluded
    assert!(!point_in_polygon(5 * DEG, 5 * DEG, &rings));
    // between the hole and the outer boundary is included
    assert!(point_in_polygon(2 * DEG, 5 * DEG, &rings));
    assert!(point_in_polygon(5 * DEG, 7 * DEG, &rings));
    // outside the outer ring is excluded
    assert!(!point_in_polygon(20 * DEG, 5 * DEG, &rings));
}

#[test]
fn ring_in_ring_invariant_under_rotation() {
    let ring = square_ring();
    let probes = [
        (5 * DEG, 5 * DEG),
        (1 * DEG, 1 * DEG),
        (11 * DEG, 5 * DEG),
        (0, 5 * DEG),
        (10 * DEG, 5 * DEG),
    ];
    for shift in 0..ring.len() {
        let mut rotated = Vec::new();
        for i in 0..ring.len() {
            rotated.push(ring[(i + shift) % ring.len()]);
        }
        for &(lon, lat) in probes.iter() {
            assert_eq!(
                point_in_ring(lon, lat, &ring),
                point_in_ring(lon, lat, &rotated),
                "rotation by {shift} changed the result at ({lon}, {lat})"
            );
        }
    }
}

#[test]
fn signed_area_square_exact() {
    // 10x10 degrees, counter-clockwise: the shoelace sum is twice the area.
    let ring = square_ring();
    assert_eq!(ring_signed_area(&ring), 2 * (10 * DEG as i128) * (10 * DEG as i128));
}

#[test]
fn signed_area_reversal_flips_sign() {
    let ring = square_ring();
    let mut rev = ring.clone();
    rev.reverse();
    assert_eq!(ring_signed_area(&rev), -ring_signed_area(&ring));
}

#[test]
fn signed_area_invariant_under_rotation() {
    let ring = square_ring();
    let a = ring_signed_area(&ring);
    for shift in 0..ring.len() {
        let mut rotated = Vec::new();
        for i in 0..ring.len() {
            rotated.push(ring[(i + shift) % ring.len()]);
        }
        assert_eq!(ring_signed_area(&rotated), a);
    }
}

#[test]
fn signed_area_degenerate_is_zero() {
    let two = vec![pt(0, 0), pt(DEG, DEG)];
    assert_eq!(ring_signed_area(&two), 0);
}

#[test]
fn point_in_country_uses_bbox_then_polygons() {
    let c = square_country("AA", "Alpha");
    assert!(point_in_country(5 * DEG, 7 * DEG, &c));
    assert!(!point_in_country(5 * DEG, 5 * DEG, &c)); // hole
    assert!(!point_in_country(50 * DEG, 50 * DEG, &c)); // far outside bbox
}

#[test]
fn empty_geometry_country_contains_nothing() {
    let features = vec![Feature {
        iso_a2: "ZZ".to_string(),
        name: "Nowhere".to_string(),
        geometry: Geometry::MultiPolygon(vec![]),
    }];
    let c = load_countries(features).remove(0);
    assert!(!point_in_country(0, 0, &c));
}

#[test]
fn find_country_exact_hit_returns_first_index() {
    let features = vec![
        Feature {
            iso_a2: "AA".to_string(),
            name: "Alpha".to_string(),
            geometry: Geometry::Polygon(vec![square_ring()]),
        },
        Feature {
            iso_a2: "BB".to_string(),
            name: "Beta".to_string(),
            geometry: Geometry::Polygon(vec![vec![
                pt(20 * DEG, 0),
                pt(30 * DEG, 0),
                pt(30 * DEG, 10 * DEG),
                pt(20 * DEG, 10 * DEG),
            ]]),
        },
    ];
    let countries = load_countries(features);
    assert_eq!(find_country(5 * DEG, 5 * DEG, &countries), Some(0));
    assert_eq!(find_country(25 * DEG, 5 * DEG, &countries), Some(1));
}

#[test]
fn find_country_probe_recovers_near_miss() {
    let features = vec![Feature {
        iso_a2: "AA".to_string(),
        name: "Alpha".to_string(),
        geometry: Geometry::Polygon(vec![square_ring()]),
    }];
    let countries = load_countries(features);
    // 0.2 degrees west of the square: the first 0.25-degree east probe hits.
    assert_eq!(find_country(-DEG / 5, 5 * DEG, &countries), Some(0));
}

#[test]
fn find_country_far_from_everything_is_none() {
    let features = vec![Feature {
        iso_a2: "AA".to_string(),
        name: "Alpha".to_string(),
        geometry: Geometry::Polygon(vec![square_ring()]),
    }];
    let countries = load_countries(features);
    // more than 1 degree away from the square in every direction
    assert_eq!(find_country(-40 * DEG, -40 * DEG, &countries), None);
}

#[test]
fn load_countries_bbox_and_order() {
    let features = vec![
        Feature {
            iso_a2: "AA".to_string(),
            name: "Alpha".to_string(),
            geometry: Geometry::Polygon(vec![square_ring(), hole_ring()]),
        },
        Feature {
            iso_a2: "BB".to_string(),
            name: "Beta".to_string(),
            geometry: Geometry::MultiPolygon(vec![
                vec![vec![pt(-5 * DEG, -5 * DEG), pt(-DEG, -5 * DEG), pt(-DEG, -DEG)]],
                vec![vec![pt(7 * DEG, 7 * DEG), pt(8 * DEG, 7 * DEG), pt(8 * DEG, 8 * DEG)]],
            ]),
        },
    ];
    let countries = load_countries(features);
    assert_eq!(countries.len(), 2);
    assert_eq!(countries[0].iso_a2, "AA");
    assert_eq!(countries[0].name, "Alpha");
    assert_eq!(countries[0].polygons.len(), 1);
    assert_eq!(countries[0].polygons[0].len(), 2);
    let bb = countries[0].bbox;
    assert_eq!(
        (bb.min_lon, bb.min_lat, bb.max_lon, bb.max_lat),
        (0, 0, 10 * DEG, 10 * DEG)
    );
    assert_eq!(countries[1].iso_a2, "BB");
    assert_eq!(countries[1].polygons.len(), 2);
    let bb1 = countries[1].bbox;
    assert_eq!(
        (bb1.min_lon, bb1.min_lat, bb1.max_lon, bb1.max_lat),
        (-5 * DEG, -5 * DEG, 8 * DEG, 8 * DEG)
    );
}

#[test]
fn label_point_of_square_with_hole_stays_inside() {
    let c = square_country("AA", "Alpha");
    // the label anchor is inside the outer ring
    assert!(point_in_ring(c.label_pos.lon, c.label_pos.lat, &c.polygons[0][0]));
}

#[test]
fn find_country_probe_direction_priority() {
    // A point exactly between two equally distant countries: the east probe
    // (+lon) comes before the west probe, so the eastern country wins even
    // when the western one is listed first.
    let west = Feature {
        iso_a2: "WW".to_string(),
        name: "West".to_string(),
        geometry: Geometry::Polygon(vec![vec![
            pt(-DEG, 0),
            pt(-DEG / 5, 0),
            pt(-DEG / 5, 10 * DEG),
            pt(-DEG, 10 * DEG),
        ]]),
    };
    let east = Feature {
        iso_a2: "EE".to_string(),
        name: "East".to_string(),
        geometry: Geometry::Polygon(vec![vec![
            pt(DEG / 5, 0),
            pt(DEG, 0),
            pt(DEG, 10 * DEG),
            pt(DEG / 5, 10 * DEG),
        ]]),
    };
    let countries = load_countries(vec![west, east]);
    assert_eq!(find_country(0, 5 * DEG, &countries), Some(1));
}
