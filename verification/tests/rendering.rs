use which_country::geo::{load_countries, Feature, Geometry, Pt};
use which_country::render::render_map;

const DEG: i64 = 1_000_000;

fn pt(lon: i64, lat: i64) -> Pt {
    Pt { lon, lat }
}

fn closed_square_ring() -> Vec<Pt> {
    vec![
        pt(0, 0),
        pt(10 * DEG, 0),
        pt(10 * DEG, 10 * DEG),
        pt(0, 10 * DEG),
        pt(0, 0),
    ]
}

fn two_countries() -> Vec<which_country::geo::Country> {
    load_countries(vec![
        Feature {
            iso_a2: "AA".to_string(),
            name: "Alpha".to_string(),
            geometry: Geometry::Polygon(vec![closed_square_ring()]),
        },
        Feature {
            iso_a2: "BB".to_string(),
            name: "Beta".to_string(),
            geometry: Geometry::Polygon(vec![vec![
                pt(12 * DEG, 0),
                pt(22 * DEG, 0),
                pt(22 * DEG, 10 * DEG),
                pt(12 * DEG, 10 * DEG),
                pt(12 * DEG, 0),
            ]]),
        },
    ])
}

#[test]
fn render_has_exact_shape() {
    let countries = two_countries();
    for &(w, h) in [(80usize, 24usize), (10, 5), (1, 1), (3, 7)].iter() {
        let text = render_map(&countries, "AA", w, h).expect("target exists");
        let lines: Vec<&str> = text.split('\n').collect();
        assert_eq!(lines.len(), h, "wrong line count at {w}x{h}");
        for line in lines {
            assert_eq!(line.chars().count(), w, "wrong line width at {w}x{h}");
        }
    }
}

#[test]
fn render_absent_code_fails_predictably() {
    let countries = two_countries();
    assert!(render_map(&countries, "XX", 40, 12).is_none());
    assert!(render_map(&Vec::new(), "AA", 40, 12).is_none());
}

#[test]
fn render_empty_geometry_target_fails_predictably() {
    let countries = load_countries(vec![Feature {
        iso_a2: "ZZ".to_string(),
        name: "Nowhere".to_string(),
        geometry: Geometry::MultiPolygon(vec![]),
    }]);
    assert!(render_map(&countries, "ZZ", 40, 12).is_none());
}

#[test]
fn render_marks_target_and_labels() {
    let countries = two_countries();
    let text = render_map(&countries, "AA", 60, 20).expect("target exists");
    // the target's border glyph and both labels appear
    assert!(text.contains('#'), "no target border drawn:\n{text}");
    assert!(text.contains("AA"), "no target label drawn:\n{text}");
    assert!(text.contains("BB"), "no neighbor label drawn:\n{text}");
    // the neighbor's border uses the light glyph
    assert!(text.contains('\u{00b7}'), "no neighbor border drawn:\n{text}");
}

#[test]
fn render_skips_sentinel_label() {
    let countries = load_countries(vec![
        Feature {
            iso_a2: "AA".to_string(),
            name: "Alpha".to_string(),
            geometry: Geometry::Polygon(vec![closed_square_ring()]),
        },
        Feature {
            iso_a2: "-99".to_string(),
            name: "Unrecognized".to_string(),
            geometry: Geometry::Polygon(vec![vec![
                pt(12 * DEG, 0),
                pt(22 * DEG, 0),
                pt(22 * DEG, 10 * DEG),
                pt(12 * DEG, 10 * DEG),
                pt(12 * DEG, 0),
            ]]),
        },
    ]);
    let text = render_map(&countries, "AA", 60, 20).expect("target exists");
    assert!(!text.contains("-99"), "sentinel code must not be labeled:\n{text}");
    assert!(!text.contains('9'), "sentinel code must not be labeled:\n{text}");
}

#[test]
fn render_far_neighbor_is_not_drawn() {
    let countries = load_countries(vec![
        Feature {
            iso_a2: "AA".to_string(),
            name: "Alpha".to_string(),
            geometry: Geometry::Polygon(vec![closed_square_ring()]),
        },
        Feature {
            iso_a2: "FF".to_string(),
            name: "Far".to_string(),
            geometry: Geometry::Polygon(vec![vec![
                pt(160 * DEG, -80 * DEG),
                pt(165 * DEG, -80 * DEG),
                pt(165 * DEG, -75 * DEG),
                pt(160 * DEG, -75 * DEG),
                pt(160 * DEG, -80 * DEG),
            ]]),
        },
    ]);
    let text = render_map(&countries, "AA", 40, 12).expect("target exists");
    assert!(!text.contains('\u{00b7}'), "far country's border must be culled:\n{text}");
}
