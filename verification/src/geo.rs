//! Point-in-polygon tests and country lookup over fixed-point coordinates.
//!
//! A coordinate is stored in microdegrees (`SCALE` units per degree) so the
//! even-odd ray-casting test can be decided with exact integer arithmetic:
//! the float comparison `lon < (xj - xi) * (lat - yi) / (yj - yi) + xi`
//! becomes a cross-multiplied comparison that never rounds.

use vstd::arithmetic::div_mod::{lemma_div_is_ordered, lemma_div_pos_is_pos};
use vstd::prelude::*;

use crate::label::{ring_label_point, ring_label_point_spec};

verus! {

/// Fixed-point scale: one degree is `SCALE` coordinate units.
pub const SCALE: i64 = 1_000_000;

/// Magnitude bound accepted by the geometric predicates: twice the world
/// longitude range, so every intermediate product fits comfortably in `i64`.
pub const COORD_LIMIT: i64 = 360_000_000;

/// A (longitude, latitude) vertex in microdegrees.
#[derive(Clone, Copy, PartialEq, Eq, Structural, Debug)]
pub struct Pt {
    pub lon: i64,
    pub lat: i64,
}

pub open spec fn coord_ok(v: int) -> bool {
    -(COORD_LIMIT as int) <= v && v <= COORD_LIMIT as int
}

pub open spec fn pt_ok(p: Pt) -> bool {
    coord_ok(p.lon as int) && coord_ok(p.lat as int)
}

pub open spec fn ring_ok(r: Seq<Pt>) -> bool {
    forall|i: int| 0 <= i < r.len() ==> pt_ok(#[trigger] r[i])
}

pub open spec fn poly_ok(rings: Seq<Vec<Pt>>) -> bool {
    forall|i: int| 0 <= i < rings.len() ==> ring_ok(#[trigger] rings[i]@)
}

pub open spec fn polys_ok(ps: Seq<Vec<Vec<Pt>>>) -> bool {
    forall|i: int| 0 <= i < ps.len() ==> poly_ok(#[trigger] ps[i]@)
}

pub open spec fn imax(a: int, b: int) -> int {
    if a >= b {
        a
    } else {
        b
    }
}

pub open spec fn imin(a: int, b: int) -> int {
    if a <= b {
        a
    } else {
        b
    }
}

pub open spec fn iabs(a: int) -> int {
    if a >= 0 {
        a
    } else {
        -a
    }
}

/// Truncating division: rounds toward zero, as a float-to-int cast does.
pub open spec fn tdiv(a: int, b: int) -> int {
    if a >= 0 {
        a / b
    } else {
        -((-a) / b)
    }
}

/// Index of the vertex preceding `i` in a ring of length `len`, wrapping.
pub open spec fn prev_idx(len: int, i: int) -> int {
    if i == 0 {
        len - 1
    } else {
        i - 1
    }
}

/// Whether the edge from `pi` to `pj` straddles latitude `lat` and crosses it
/// strictly east of longitude `lon`.  This is the exact form of the ray-cast
/// comparison `lon < (xj - xi) * (lat - yi) / (yj - yi) + xi`, obtained by
/// multiplying both sides by `yj - yi` (nonzero whenever the edge straddles).
pub open spec fn edge_crosses(lon: int, lat: int, pi: Pt, pj: Pt) -> bool {
    let xi = pi.lon as int;
    let yi = pi.lat as int;
    let xj = pj.lon as int;
    let yj = pj.lat as int;
    ((yi > lat) != (yj > lat)) && (if yj > yi {
        (lon - xi) * (yj - yi) < (xj - xi) * (lat - yi)
    } else {
        (lon - xi) * (yj - yi) > (xj - xi) * (lat - yi)
    })
}

/// Sum of `f` over the first `k` wrapping edges of a ring: edge `e` joins
/// vertex `e` to its predecessor.
pub open spec fn edge_sum(ring: Seq<Pt>, f: spec_fn(Pt, Pt) -> int, k: int) -> int
    decreases k,
{
    if k <= 0 {
        0
    } else {
        edge_sum(ring, f, k - 1) + f(ring[k - 1], ring[prev_idx(ring.len() as int, k - 1)])
    }
}

/// Per-edge crossing indicator for a fixed query point.
pub open spec fn cross_ind(lon: int, lat: int) -> spec_fn(Pt, Pt) -> int {
    |pi: Pt, pj: Pt| if edge_crosses(lon, lat, pi, pj) { 1int } else { 0int }
}

/// Number of ring edges whose crossing lies strictly east of the query point.
pub open spec fn ring_crossings(lon: int, lat: int, ring: Seq<Pt>) -> int {
    edge_sum(ring, cross_ind(lon, lat), ring.len() as int)
}

/// Even-odd rule: a point is inside a ring iff the eastward ray meets an odd
/// number of edges.  Rings with fewer than three vertices contain nothing.
pub open spec fn point_in_ring_spec(lon: int, lat: int, ring: Seq<Pt>) -> bool {
    ring.len() >= 3 && ring_crossings(lon, lat, ring) % 2 == 1
}

pub proof fn lemma_mul_bound(a: int, b: int, m: int)
    requires
        0 <= m,
        -m <= a && a <= m,
        -m <= b && b <= m,
    ensures
        -(m * m) <= a * b && a * b <= m * m,
{
    assert(-(m * m) <= a * b && a * b <= m * m) by (nonlinear_arith)
        requires
            0 <= m,
            -m <= a && a <= m,
            -m <= b && b <= m,
    {
    }
}

/// Even-odd ray-casting point-in-ring test.
pub fn point_in_ring(lon: i64, lat: i64, ring: &Vec<Pt>) -> (r: bool)
    requires
        coord_ok(lon as int),
        coord_ok(lat as int),
        ring_ok(ring@),
    ensures
        r == point_in_ring_spec(lon as int, lat as int, ring@),
{
    let n = ring.len();
    if n < 3 {
        return false;
    }
    let ghost f = cross_ind(lon as int, lat as int);
    let mut inside = false;
    let mut j = n - 1;
    let mut i: usize = 0;
    while i < n
        invariant
            3 <= n == ring@.len(),
            0 <= i <= n,
            j as int == prev_idx(n as int, i as int),
            coord_ok(lon as int),
            coord_ok(lat as int),
            ring_ok(ring@),
            f == cross_ind(lon as int, lat as int),
            inside == (edge_sum(ring@, f, i as int) % 2 == 1),
        decreases n - i,
    {
        let pi = ring[i];
        let pj = ring[j];
        proof {
            assert(pt_ok(ring@[i as int]));
            assert(pt_ok(ring@[j as int]));
            lemma_mul_bound(lon as int - pi.lon as int, pj.lat as int - pi.lat as int, 2 * COORD_LIMIT as int);
            lemma_mul_bound(pj.lon as int - pi.lon as int, lat as int - pi.lat as int, 2 * COORD_LIMIT as int);
        }
        if (pi.lat > lat) != (pj.lat > lat) {
            let lhs: i64 = (lon - pi.lon) * (pj.lat - pi.lat);
            let rhs: i64 = (pj.lon - pi.lon) * (lat - pi.lat);
            let crosses = if pj.lat > pi.lat { lhs < rhs } else { lhs > rhs };
            if crosses {
                inside = !inside;
            }
            proof {
                assert(crosses == edge_crosses(lon as int, lat as int, pi, pj));
            }
        }
        proof {
            assert(edge_sum(ring@, f, i as int + 1)
                == edge_sum(ring@, f, i as int) + f(ring@[i as int], ring@[prev_idx(n as int, i as int)]));
            assert(f(pi, pj) == if edge_crosses(lon as int, lat as int, pi, pj) { 1int } else { 0int });
        }
        j = i;
        i = i + 1;
    }
    inside
}

/// A point is in a polygon iff it is inside the outer ring and outside every
/// hole ring.
pub open spec fn point_in_polygon_spec(lon: int, lat: int, rings: Seq<Vec<Pt>>) -> bool {
    &&& rings.len() > 0
    &&& point_in_ring_spec(lon, lat, rings[0]@)
    &&& forall|k: int| 1 <= k < rings.len() ==> !point_in_ring_spec(lon, lat, #[trigger] rings[k]@)
}

/// Point-in-polygon test: inside the outer ring, outside all holes.
pub fn point_in_polygon(lon: i64, lat: i64, rings: &Vec<Vec<Pt>>) -> (r: bool)
    requires
        coord_ok(lon as int),
        coord_ok(lat as int),
        poly_ok(rings@),
    ensures
        r == point_in_polygon_spec(lon as int, lat as int, rings@),
{
    if rings.len() == 0 {
        return false;
    }
    if !point_in_ring(lon, lat, &rings[0]) {
        return false;
    }
    let mut k: usize = 1;
    while k < rings.len()
        invariant
            1 <= k <= rings@.len(),
            coord_ok(lon as int),
            coord_ok(lat as int),
            poly_ok(rings@),
            point_in_ring_spec(lon as int, lat as int, rings@[0]@),
            forall|m: int| 1 <= m < k ==> !point_in_ring_spec(lon as int, lat as int, #[trigger] rings@[m]@),
        decreases rings@.len() - k,
    {
        if point_in_ring(lon, lat, &rings[k]) {
            return false;
        }
        k = k + 1;
    }
    true
}

/// Axis-aligned bounding box in microdegrees.
#[derive(Clone, Copy, PartialEq, Eq, Structural, Debug)]
pub struct BBox {
    pub min_lon: i64,
    pub min_lat: i64,
    pub max_lon: i64,
    pub max_lat: i64,
}

/// One country record: code, display name, multipolygon geometry, its
/// bounding box, and a precomputed interior label anchor.
pub struct Country {
    pub iso_a2: String,
    pub name: String,
    pub polygons: Vec<Vec<Vec<Pt>>>,
    pub bbox: BBox,
    pub label_pos: Pt,
}

pub open spec fn country_geom_ok(c: Country) -> bool {
    polys_ok(c.polygons@)
}

pub open spec fn countries_geom_ok(cs: Seq<Country>) -> bool {
    forall|i: int| 0 <= i < cs.len() ==> country_geom_ok(#[trigger] cs[i])
}

pub open spec fn in_bbox(lon: int, lat: int, bb: BBox) -> bool {
    bb.min_lon <= lon && lon <= bb.max_lon && bb.min_lat <= lat && lat <= bb.max_lat
}

/// A point is in a country iff it is inside the bounding box and inside at
/// least one of the country's polygons.
pub open spec fn point_in_country_spec(lon: int, lat: int, c: Country) -> bool {
    &&& in_bbox(lon, lat, c.bbox)
    &&& exists|p: int|
        0 <= p < c.polygons@.len() && point_in_polygon_spec(lon, lat, #[trigger] c.polygons@[p]@)
}

/// Bounding-box reject first, then the polygon tests.
pub fn point_in_country(lon: i64, lat: i64, country: &Country) -> (r: bool)
    requires
        coord_ok(lon as int),
        coord_ok(lat as int),
        country_geom_ok(*country),
    ensures
        r == point_in_country_spec(lon as int, lat as int, *country),
{
    if lon < country.bbox.min_lon || lon > country.bbox.max_lon || lat < country.bbox.min_lat
        || lat > country.bbox.max_lat {
        return false;
    }
    let mut p: usize = 0;
    while p < country.polygons.len()
        invariant
            0 <= p <= country.polygons@.len(),
            in_bbox(lon as int, lat as int, country.bbox),
            coord_ok(lon as int),
            coord_ok(lat as int),
            country_geom_ok(*country),
            forall|m: int|
                0 <= m < p ==> !point_in_polygon_spec(
                    lon as int,
                    lat as int,
                    #[trigger] country.polygons@[m]@,
                ),
        decreases country.polygons@.len() - p,
    {
        if point_in_polygon(lon, lat, &country.polygons[p]) {
            proof {
                assert(point_in_polygon_spec(lon as int, lat as int, country.polygons@[p as int]@));
            }
            return true;
        }
        p = p + 1;
    }
    false
}

/// Index of the first country (in input order) containing the point, starting
/// the scan at position `k`.
pub open spec fn first_match_from(lon: int, lat: int, cs: Seq<Country>, k: int) -> Option<int>
    decreases cs.len() - k,
{
    if k < 0 || k >= cs.len() {
        None
    } else if point_in_country_spec(lon, lat, cs[k]) {
        Some(k)
    } else {
        first_match_from(lon, lat, cs, k + 1)
    }
}

pub open spec fn first_match(lon: int, lat: int, cs: Seq<Country>) -> Option<int> {
    first_match_from(lon, lat, cs, 0)
}

/// Probe magnitudes for the expanding fallback, in microdegrees.
pub open spec fn probe_mag(m: int) -> int {
    if m == 0 {
        250_000
    } else if m == 1 {
        500_000
    } else {
        1_000_000
    }
}

/// The eight fixed probe directions, in their fixed priority order.
pub open spec fn probe_dir(d: int) -> (int, int) {
    if d == 0 {
        (1, 0)
    } else if d == 1 {
        (-1, 0)
    } else if d == 2 {
        (0, 1)
    } else if d == 3 {
        (0, -1)
    } else if d == 4 {
        (1, 1)
    } else if d == 5 {
        (1, -1)
    } else if d == 6 {
        (-1, 1)
    } else {
        (-1, -1)
    }
}

/// The `k`-th of the 24 fallback offsets: magnitudes in increasing order, and
/// for each magnitude the eight directions in their fixed order.
pub open spec fn probe_delta(k: int) -> (int, int) {
    let m = probe_mag(k / 8);
    let d = probe_dir(k % 8);
    (m * d.0, m * d.1)
}

/// Result of the fallback probes from probe index `k` on.
pub open spec fn probe_from(lon: int, lat: int, cs: Seq<Country>, k: int) -> Option<int>
    decreases 24 - k,
{
    if k < 0 || k >= 24 {
        None
    } else {
        let d = probe_delta(k);
        match first_match(lon + d.0, lat + d.1, cs) {
            Some(i) => Some(i),
            None => probe_from(lon, lat, cs, k + 1),
        }
    }
}

/// Which country `find_country` reports: the first exact containment in input
/// order, or failing that the first hit over the 24 fallback probes.
pub open spec fn find_country_spec(lon: int, lat: int, cs: Seq<Country>) -> Option<int> {
    match first_match(lon, lat, cs) {
        Some(i) => Some(i),
        None => probe_from(lon, lat, cs, 0),
    }
}

/// Query coordinates must leave room for the 1-degree probe offsets.
pub open spec fn query_ok(v: int) -> bool {
    -(COORD_LIMIT as int - SCALE as int) <= v && v <= COORD_LIMIT as int - SCALE as int
}

fn first_match_exec(lon: i64, lat: i64, countries: &Vec<Country>) -> (r: Option<usize>)
    requires
        coord_ok(lon as int),
        coord_ok(lat as int),
        countries_geom_ok(countries@),
    ensures
        r.is_some() == first_match(lon as int, lat as int, countries@).is_some(),
        r matches Some(i) ==> first_match(lon as int, lat as int, countries@) == Some(i as int),
{
    let mut i: usize = 0;
    while i < countries.len()
        invariant
            0 <= i <= countries@.len(),
            coord_ok(lon as int),
            coord_ok(lat as int),
            countries_geom_ok(countries@),
            first_match(lon as int, lat as int, countries@) == first_match_from(
                lon as int,
                lat as int,
                countries@,
                i as int,
            ),
        decreases countries@.len() - i,
    {
        if point_in_country(lon, lat, &countries[i]) {
            return Some(i);
        }
        i = i + 1;
    }
    None
}

/// Scan the countries in input order for an exact containment; if none
/// contains the point, retry at the 24 fixed fallback offsets, in their
/// priority order, returning the first country any probe hits.
pub fn find_country(lon: i64, lat: i64, countries: &Vec<Country>) -> (r: Option<usize>)
    requires
        query_ok(lon as int),
        query_ok(lat as int),
        countries_geom_ok(countries@),
    ensures
        r.is_some() == find_country_spec(lon as int, lat as int, countries@).is_some(),
        r matches Some(i) ==> find_country_spec(lon as int, lat as int, countries@) == Some(
            i as int,
        ),
{
    let exact = first_match_exec(lon, lat, countries);
    if exact.is_some() {
        return exact;
    }
    let mut k: usize = 0;
    while k < 24
        invariant
            0 <= k <= 24,
            query_ok(lon as int),
            query_ok(lat as int),
            countries_geom_ok(countries@),
            first_match(lon as int, lat as int, countries@) is None,
            probe_from(lon as int, lat as int, countries@, 0) == probe_from(
                lon as int,
                lat as int,
                countries@,
                k as int,
            ),
        decreases 24 - k,
    {
        let m = k / 8;
        let off: i64 = if m == 0 {
            250_000
        } else if m == 1 {
            500_000
        } else {
            1_000_000
        };
        let d = k % 8;
        let dlon: i64 = if d == 0 {
            off
        } else if d == 1 {
            -off
        } else if d == 2 || d == 3 {
            0
        } else if d == 4 || d == 5 {
            off
        } else {
            -off
        };
        let dlat: i64 = if d == 0 || d == 1 {
            0
        } else if d == 2 {
            off
        } else if d == 3 {
            -off
        } else if d == 4 || d == 6 {
            off
        } else {
            -off
        };
        proof {
            assert((dlon as int, dlat as int) == probe_delta(k as int));
        }
        let hit = first_match_exec(lon + dlon, lat + dlat, countries);
        if hit.is_some() {
            return hit;
        }
        k = k + 1;
    }
    None
}

/// Shoelace contribution of the edge from the predecessor `pj` to vertex `pi`,
/// written exactly as the running sum accumulates it.
pub open spec fn shoelace_term(pi: Pt, pj: Pt) -> int {
    (pj.lon as int - pi.lon as int) * (pj.lat as int + pi.lat as int)
}

pub open spec fn shoelace_f() -> spec_fn(Pt, Pt) -> int {
    |pi: Pt, pj: Pt| shoelace_term(pi, pj)
}

/// Twice the signed area of a ring, in square microdegrees: positive for
/// counter-clockwise winding, zero for rings with fewer than three vertices.
pub open spec fn ring_shoelace(ring: Seq<Pt>) -> int {
    if ring.len() < 3 {
        0
    } else {
        edge_sum(ring, shoelace_f(), ring.len() as int)
    }
}

/// Shoelace sum over consecutive vertex pairs, wrapping last to first.
/// Returns twice the signed area in square microdegrees (halving would only
/// discard the low bit; every comparison made of it is unaffected).
pub fn ring_signed_area(ring: &Vec<Pt>) -> (a: i128)
    requires
        ring_ok(ring@),
    ensures
        a == ring_shoelace(ring@),
        i128::MIN < a,
{
    let n = ring.len();
    if n < 3 {
        return 0;
    }
    let ghost f = shoelace_f();
    let ghost m: int = 518_400_000_000_000_000;
    let mut area: i128 = 0;
    let mut j = n - 1;
    let mut i: usize = 0;
    while i < n
        invariant
            3 <= n == ring@.len(),
            0 <= i <= n,
            j as int == prev_idx(n as int, i as int),
            ring_ok(ring@),
            f == shoelace_f(),
            m == 518_400_000_000_000_000,
            area == edge_sum(ring@, f, i as int),
            -(i as int * m) <= area as int <= i as int * m,
        decreases n - i,
    {
        let pi = ring[i];
        let pj = ring[j];
        proof {
            assert(pt_ok(ring@[i as int]));
            assert(pt_ok(ring@[j as int]));
            lemma_mul_bound(
                pj.lon as int - pi.lon as int,
                pj.lat as int + pi.lat as int,
                2 * COORD_LIMIT as int,
            );
            assert(edge_sum(ring@, f, i as int + 1)
                == edge_sum(ring@, f, i as int) + f(ring@[i as int], ring@[prev_idx(n as int, i as int)]));
            assert(f(pi, pj) == shoelace_term(pi, pj));
        }
        let term: i128 = (pj.lon as i128 - pi.lon as i128) * (pj.lat as i128 + pi.lat as i128);
        area = area + term;
        j = i;
        i = i + 1;
    }
    proof {
        assert(n as int * m < 0x40000000000000000000000000000000) by (nonlinear_arith)
            requires
                0 <= n as int <= 0xffffffffffffffff,
                m == 518_400_000_000_000_000,
        {
        }
    }
    area
}

/// The ring with its starting vertex advanced by one position.
pub open spec fn rotate1(ring: Seq<Pt>) -> Seq<Pt> {
    ring.subrange(1, ring.len() as int).push(ring[0])
}

/// The ring with its starting vertex advanced by `m` positions.
pub open spec fn rotate(ring: Seq<Pt>, m: int) -> Seq<Pt>
    decreases m,
{
    if m <= 0 {
        ring
    } else {
        rotate1(rotate(ring, m - 1))
    }
}

/// Rotating `m` times moves the first `m` vertices to the back.
pub proof fn lemma_rotate_shift(ring: Seq<Pt>, m: int)
    requires
        0 <= m <= ring.len(),
    ensures
        rotate(ring, m) =~= ring.subrange(m, ring.len() as int) + ring.subrange(0, m),
    decreases m,
{
    if m == 0 {
        assert(rotate(ring, 0) =~= ring.subrange(0, ring.len() as int) + ring.subrange(0, 0));
    } else {
        lemma_rotate_shift(ring, m - 1);
        assert(rotate(ring, m) =~= ring.subrange(m, ring.len() as int) + ring.subrange(0, m));
    }
}

proof fn lemma_edge_sum_rotate1_partial(ring: Seq<Pt>, f: spec_fn(Pt, Pt) -> int, k: int)
    requires
        2 <= ring.len(),
        0 <= k <= ring.len() - 1,
    ensures
        edge_sum(rotate1(ring), f, k) == edge_sum(ring, f, k + 1) - f(
            ring[0],
            ring[ring.len() - 1],
        ),
    decreases k,
{
    reveal_with_fuel(edge_sum, 3);
    let n = ring.len() as int;
    let rot = rotate1(ring);
    if k == 0 {
        assert(edge_sum(ring, f, 1) == f(ring[0], ring[prev_idx(n, 0)]));
    } else {
        lemma_edge_sum_rotate1_partial(ring, f, k - 1);
        assert(rot[k - 1] == ring[k]);
        if k - 1 == 0 {
            assert(rot[prev_idx(n, 0)] == ring[0]);
        } else {
            assert(rot[k - 2] == ring[k - 1]);
        }
    }
}

proof fn lemma_edge_sum_rotate1(ring: Seq<Pt>, f: spec_fn(Pt, Pt) -> int)
    requires
        1 <= ring.len(),
    ensures
        rotate1(ring).len() == ring.len(),
        edge_sum(rotate1(ring), f, ring.len() as int) == edge_sum(ring, f, ring.len() as int),
{
    reveal_with_fuel(edge_sum, 3);
    let n = ring.len() as int;
    let rot = rotate1(ring);
    if n == 1 {
        assert(rot =~= ring);
    } else {
        lemma_edge_sum_rotate1_partial(ring, f, n - 1);
        assert(rot[n - 1] == ring[0]);
        assert(rot[n - 2] == ring[n - 1]);
        assert(edge_sum(rot, f, n) == edge_sum(rot, f, n - 1) + f(rot[n - 1], rot[prev_idx(n, n - 1)]));
        assert(edge_sum(ring, f, 1) == f(ring[0], ring[prev_idx(n, 0)]));
    }
}

proof fn lemma_edge_sum_rotate(ring: Seq<Pt>, f: spec_fn(Pt, Pt) -> int, m: int)
    requires
        1 <= ring.len(),
        0 <= m,
    ensures
        rotate(ring, m).len() == ring.len(),
        edge_sum(rotate(ring, m), f, ring.len() as int) == edge_sum(ring, f, ring.len() as int),
    decreases m,
{
    if m > 0 {
        lemma_edge_sum_rotate(ring, f, m - 1);
        lemma_edge_sum_rotate1(rotate(ring, m - 1), f);
    }
}

/// Law: the even-odd containment test does not depend on which vertex a ring
/// starts at — rotating the vertex list cyclically leaves it unchanged.
pub proof fn lemma_point_in_ring_rotation(lon: int, lat: int, ring: Seq<Pt>, m: int)
    requires
        1 <= ring.len(),
        0 <= m,
    ensures
        point_in_ring_spec(lon, lat, rotate(ring, m)) == point_in_ring_spec(lon, lat, ring),
{
    lemma_edge_sum_rotate(ring, cross_ind(lon, lat), m);
}

/// Law: the signed area does not depend on which vertex a ring starts at.
pub proof fn lemma_signed_area_rotation(ring: Seq<Pt>, m: int)
    requires
        1 <= ring.len(),
        0 <= m,
    ensures
        ring_shoelace(rotate(ring, m)) == ring_shoelace(ring),
{
    lemma_edge_sum_rotate(ring, shoelace_f(), m);
}

proof fn lemma_edge_sum_reverse_partial(ring: Seq<Pt>, f: spec_fn(Pt, Pt) -> int, k: int)
    requires
        1 <= ring.len(),
        1 <= k <= ring.len(),
        forall|a: Pt, b: Pt| #[trigger] f(a, b) == -f(b, a),
    ensures
        edge_sum(ring.reverse(), f, k) == -f(ring[0], ring[ring.len() - 1]) - (edge_sum(
            ring,
            f,
            ring.len() as int,
        ) - edge_sum(ring, f, ring.len() - k + 1)),
    decreases k,
{
    reveal_with_fuel(edge_sum, 3);
    let n = ring.len() as int;
    let rev = ring.reverse();
    if k == 1 {
        assert(rev[0] == ring[n - 1]);
        assert(rev[prev_idx(n, 0)] == ring[0]);
        assert(edge_sum(rev, f, 1) == f(rev[0], rev[prev_idx(n, 0)]));
    } else {
        lemma_edge_sum_reverse_partial(ring, f, k - 1);
        assert(rev[k - 1] == ring[n - k]);
        assert(rev[k - 2] == ring[n - k + 1]);
        assert(edge_sum(rev, f, k) == edge_sum(rev, f, k - 1) + f(rev[k - 1], rev[prev_idx(n, k - 1)]));
        assert(edge_sum(ring, f, n - k + 2) == edge_sum(ring, f, n - k + 1) + f(
            ring[n - k + 1],
            ring[prev_idx(n, n - k + 1)],
        ));
        assert(prev_idx(n, n - k + 1) == n - k);
    }
}

/// Law: reversing a ring's vertex order flips the sign of its signed area but
/// keeps the magnitude.
pub proof fn lemma_signed_area_reverse(ring: Seq<Pt>)
    ensures
        ring_shoelace(ring.reverse()) == -ring_shoelace(ring),
{
    if ring.len() >= 3 {
        reveal_with_fuel(edge_sum, 3);
        let n = ring.len() as int;
        let f = shoelace_f();
        assert forall|a: Pt, b: Pt| #[trigger] f(a, b) == -f(b, a) by {
            assert(shoelace_term(a, b) == -shoelace_term(b, a)) by (nonlinear_arith);
        }
        lemma_edge_sum_reverse_partial(ring, f, n);
        assert(edge_sum(ring, f, 1) == f(ring[0], ring[prev_idx(n, 0)]));
    }
}

proof fn lemma_first_match_from_props(lon: int, lat: int, cs: Seq<Country>, k: int)
    requires
        0 <= k <= cs.len(),
    ensures
        match first_match_from(lon, lat, cs, k) {
            Some(i) => k <= i < cs.len() && point_in_country_spec(lon, lat, cs[i])
                && forall|j: int| k <= j < i ==> !point_in_country_spec(lon, lat, #[trigger] cs[j]),
            None => forall|j: int| k <= j < cs.len() ==> !point_in_country_spec(
                lon,
                lat,
                #[trigger] cs[j],
            ),
        },
    decreases cs.len() - k,
{
    if k < cs.len() {
        if !point_in_country_spec(lon, lat, cs[k]) {
            lemma_first_match_from_props(lon, lat, cs, k + 1);
        }
    }
}

/// Law: when some country contains the query point itself and no earlier
/// country does, `find_country` reports exactly that country, at the
/// exact-match stage, before any fallback probing.
pub proof fn lemma_find_country_exact(lon: int, lat: int, cs: Seq<Country>, i: int)
    requires
        0 <= i < cs.len(),
        point_in_country_spec(lon, lat, cs[i]),
        forall|j: int| 0 <= j < i ==> !point_in_country_spec(lon, lat, #[trigger] cs[j]),
    ensures
        find_country_spec(lon, lat, cs) == Some(i),
{
    lemma_first_match_from_props(lon, lat, cs, 0);
}

proof fn lemma_probe_from_none(lon: int, lat: int, cs: Seq<Country>, k: int)
    requires
        0 <= k <= 24,
        forall|m: int, j: int|
            #![trigger point_in_country_spec(lon + probe_delta(m).0, lat + probe_delta(m).1, cs[j])]
            0 <= m < 24 && 0 <= j < cs.len() ==> !point_in_country_spec(
                lon + probe_delta(m).0,
                lat + probe_delta(m).1,
                cs[j],
            ),
    ensures
        probe_from(lon, lat, cs, k) == None::<int>,
    decreases 24 - k,
{
    if k < 24 {
        let d = probe_delta(k);
        lemma_first_match_from_props(lon + d.0, lat + d.1, cs, 0);
        lemma_probe_from_none(lon, lat, cs, k + 1);
    }
}

/// Law: when neither the query point itself nor any of the 24 fallback probe
/// points lies in any country, `find_country` reports no match.
pub proof fn lemma_find_country_no_match(lon: int, lat: int, cs: Seq<Country>)
    requires
        forall|j: int| 0 <= j < cs.len() ==> !point_in_country_spec(lon, lat, #[trigger] cs[j]),
        forall|m: int, j: int|
            #![trigger point_in_country_spec(lon + probe_delta(m).0, lat + probe_delta(m).1, cs[j])]
            0 <= m < 24 && 0 <= j < cs.len() ==> !point_in_country_spec(
                lon + probe_delta(m).0,
                lat + probe_delta(m).1,
                cs[j],
            ),
    ensures
        find_country_spec(lon, lat, cs) == None::<int>,
{
    lemma_first_match_from_props(lon, lat, cs, 0);
    lemma_probe_from_none(lon, lat, cs, 0);
}

/// A feature's geometry: one polygon, or a list of polygons.  Each polygon is
/// a list of rings; ring index 0 is the outer boundary, the rest are holes.
pub enum Geometry {
    Polygon(Vec<Vec<Pt>>),
    MultiPolygon(Vec<Vec<Vec<Pt>>>),
}

/// One decoded input feature: code, display name, geometry.
pub struct Feature {
    pub iso_a2: String,
    pub name: String,
    pub geometry: Geometry,
}

/// Normalization: a single polygon becomes a one-element polygon list.
pub open spec fn geometry_polys(g: Geometry) -> Seq<Vec<Vec<Pt>>> {
    match g {
        Geometry::Polygon(rings) => seq![rings],
        Geometry::MultiPolygon(ps) => ps@,
    }
}

pub open spec fn bb_join(b: (int, int, int, int), p: Pt) -> (int, int, int, int) {
    (imin(b.0, p.lon as int), imin(b.1, p.lat as int), imax(b.2, p.lon as int), imax(
        b.3,
        p.lat as int,
    ))
}

pub open spec fn bb_ring_fold(b: (int, int, int, int), ring: Seq<Pt>, k: int) -> (
    int,
    int,
    int,
    int,
)
    decreases k,
{
    if k <= 0 {
        b
    } else {
        bb_join(bb_ring_fold(b, ring, k - 1), ring[k - 1])
    }
}

pub open spec fn bb_rings_fold(b: (int, int, int, int), rings: Seq<Vec<Pt>>, k: int) -> (
    int,
    int,
    int,
    int,
)
    decreases k,
{
    if k <= 0 {
        b
    } else {
        bb_ring_fold(bb_rings_fold(b, rings, k - 1), rings[k - 1]@, rings[k - 1]@.len() as int)
    }
}

pub open spec fn bb_polys_fold(b: (int, int, int, int), ps: Seq<Vec<Vec<Pt>>>, k: int) -> (
    int,
    int,
    int,
    int,
)
    decreases k,
{
    if k <= 0 {
        b
    } else {
        bb_rings_fold(bb_polys_fold(b, ps, k - 1), ps[k - 1]@, ps[k - 1]@.len() as int)
    }
}

/// The bounding box over every vertex of every ring of every polygon, folded
/// from the inverted sentinel box in input order.
pub open spec fn polys_bbox(ps: Seq<Vec<Vec<Pt>>>) -> (int, int, int, int) {
    bb_polys_fold(
        (i64::MAX as int, i64::MAX as int, i64::MIN as int, i64::MIN as int),
        ps,
        ps.len() as int,
    )
}

/// A polygon can carry the label iff it has a nonempty outer ring with at
/// least three vertices.
pub open spec fn label_qualified(poly: Vec<Vec<Pt>>) -> bool {
    poly@.len() > 0 && poly@[0]@.len() >= 3
}

/// Among the first `k` polygons, the first one whose outer ring has the
/// strictly largest absolute signed area (ties keep the earlier polygon).
pub open spec fn best_label_poly(ps: Seq<Vec<Vec<Pt>>>, k: int) -> Option<int>
    decreases k,
{
    if k <= 0 {
        None
    } else {
        let prev = best_label_poly(ps, k - 1);
        if !label_qualified(ps[k - 1]) {
            prev
        } else {
            match prev {
                None => Some(k - 1),
                Some(b) => if iabs(ring_shoelace(ps[k - 1]@[0]@)) > iabs(
                    ring_shoelace(ps[b]@[0]@),
                ) {
                    Some(k - 1)
                } else {
                    Some(b)
                },
            }
        }
    }
}

/// Where a country's label anchor lands: the label heuristic on the outer
/// ring of the best-scoring polygon, or the bounding-box center when no
/// polygon qualifies.
pub open spec fn label_pos_spec(ps: Seq<Vec<Vec<Pt>>>) -> (int, int) {
    match best_label_poly(ps, ps.len() as int) {
        Some(b) => ring_label_point_spec(ps[b]@[0]@),
        None => {
            let bb = polys_bbox(ps);
            (tdiv(bb.0 + bb.2, 2), tdiv(bb.1 + bb.3, 2))
        },
    }
}

/// Truncating halving of the sum of two `i64` values, computed widely.
fn avg2(a: i64, b: i64) -> (c: i64)
    ensures
        c as int == tdiv(a as int + b as int, 2),
{
    let sum: i128 = a as i128 + b as i128;
    proof {
        lemma_div_pos_is_pos(iabs(sum as int), 2);
        lemma_div_is_ordered(iabs(sum as int), 36_893_488_147_419_103_230, 2);
    }
    if sum >= 0 {
        (((sum as u128) / 2) as i128) as i64
    } else {
        (-((((-sum) as u128) / 2) as i128)) as i64
    }
}

fn bbox_of_polys(polys: &Vec<Vec<Vec<Pt>>>) -> (bb: BBox)
    ensures
        (bb.min_lon as int, bb.min_lat as int, bb.max_lon as int, bb.max_lat as int)
            == polys_bbox(polys@),
{
    let mut min_lon: i64 = i64::MAX;
    let mut min_lat: i64 = i64::MAX;
    let mut max_lon: i64 = i64::MIN;
    let mut max_lat: i64 = i64::MIN;
    let ghost sent = (i64::MAX as int, i64::MAX as int, i64::MIN as int, i64::MIN as int);
    let mut pi: usize = 0;
    while pi < polys.len()
        invariant
            0 <= pi <= polys@.len(),
            (min_lon as int, min_lat as int, max_lon as int, max_lat as int) == bb_polys_fold(
                sent,
                polys@,
                pi as int,
            ),
            sent == (i64::MAX as int, i64::MAX as int, i64::MIN as int, i64::MIN as int),
        decreases polys@.len() - pi,
    {
        let rings = &polys[pi];
        let ghost b_poly = (min_lon as int, min_lat as int, max_lon as int, max_lat as int);
        let mut ri: usize = 0;
        while ri < rings.len()
            invariant
                0 <= ri <= rings@.len(),
                rings@ == polys@[pi as int]@,
                (min_lon as int, min_lat as int, max_lon as int, max_lat as int)
                    == bb_rings_fold(b_poly, rings@, ri as int),
            decreases rings@.len() - ri,
        {
            let ring = &rings[ri];
            let ghost b_ring = (min_lon as int, min_lat as int, max_lon as int, max_lat as int);
            let mut ci: usize = 0;
            while ci < ring.len()
                invariant
                    0 <= ci <= ring@.len(),
                    ring@ == rings@[ri as int]@,
                    (min_lon as int, min_lat as int, max_lon as int, max_lat as int)
                        == bb_ring_fold(b_ring, ring@, ci as int),
                decreases ring@.len() - ci,
            {
                let p = ring[ci];
                if p.lon < min_lon {
                    min_lon = p.lon;
                }
                if p.lon > max_lon {
                    max_lon = p.lon;
                }
                if p.lat < min_lat {
                    min_lat = p.lat;
                }
                if p.lat > max_lat {
                    max_lat = p.lat;
                }
                ci = ci + 1;
            }
            ri = ri + 1;
        }
        pi = pi + 1;
    }
    BBox { min_lon, min_lat, max_lon, max_lat }
}

/// Build one immutable `Country` per decoded feature, preserving input order:
/// geometry normalized to a polygon list, the bounding box folded over every
/// vertex, and the label anchor placed inside the largest-area polygon (box
/// center when no polygon qualifies).
pub fn load_countries(features: Vec<Feature>) -> (r: Vec<Country>)
    requires
        forall|i: int|
            0 <= i < features@.len() ==> polys_ok(
                geometry_polys(#[trigger] features@[i].geometry),
            ),
    ensures
        r@.len() == features@.len(),
        forall|i: int|
            0 <= i < r@.len() ==> {
                &&& (#[trigger] r@[i]).iso_a2 == features@[i].iso_a2
                &&& r@[i].name == features@[i].name
                &&& r@[i].polygons@ == geometry_polys(features@[i].geometry)
                &&& (r@[i].bbox.min_lon as int, r@[i].bbox.min_lat as int, r@[i].bbox.max_lon
                    as int, r@[i].bbox.max_lat as int) == polys_bbox(r@[i].polygons@)
                &&& (r@[i].label_pos.lon as int, r@[i].label_pos.lat as int) == label_pos_spec(
                    r@[i].polygons@,
                )
            },
{
    let ghost orig = features@;
    let mut feats = features;
    let mut r: Vec<Country> = Vec::new();
    let ghost n = orig.len();
    while feats.len() > 0
        invariant
            r@.len() + feats@.len() == n == orig.len(),
            feats@ =~= orig.skip(r@.len() as int),
            forall|i: int|
                0 <= i < orig.len() ==> polys_ok(geometry_polys(#[trigger] orig[i].geometry)),
            forall|i: int|
                0 <= i < r@.len() ==> {
                    &&& (#[trigger] r@[i]).iso_a2 == orig[i].iso_a2
                    &&& r@[i].name == orig[i].name
                    &&& r@[i].polygons@ == geometry_polys(orig[i].geometry)
                    &&& (r@[i].bbox.min_lon as int, r@[i].bbox.min_lat as int, r@[i].bbox.max_lon
                        as int, r@[i].bbox.max_lat as int) == polys_bbox(r@[i].polygons@)
                    &&& (r@[i].label_pos.lon as int, r@[i].label_pos.lat as int)
                        == label_pos_spec(r@[i].polygons@)
                },
        decreases feats@.len(),
    {
        let f = feats.remove(0);
        proof {
            assert(f == orig[r@.len() as int]);
        }
        let ghost g = f.geometry;
        let polygons: Vec<Vec<Vec<Pt>>> = match f.geometry {
            Geometry::Polygon(rings) => {
                let mut ps: Vec<Vec<Vec<Pt>>> = Vec::new();
                ps.push(rings);
                ps
            },
            Geometry::MultiPolygon(ps) => ps,
        };
        proof {
            assert(polygons@ =~= geometry_polys(g));
            assert(polys_ok(polygons@));
        }
        let bbox = bbox_of_polys(&polygons);
        let mut best: usize = 0;
        let mut has_best = false;
        let mut best_abs: i128 = 0;
        let mut k: usize = 0;
        while k < polygons.len()
            invariant
                0 <= k <= polygons@.len(),
                polys_ok(polygons@),
                !has_best ==> best_label_poly(polygons@, k as int) == None::<int>,
                has_best ==> {
                    &&& best_label_poly(polygons@, k as int) == Some(best as int)
                    &&& best < k
                    &&& label_qualified(polygons@[best as int])
                    &&& best_abs as int == iabs(ring_shoelace(polygons@[best as int]@[0]@))
                },
            decreases polygons@.len() - k,
        {
            let poly = &polygons[k];
            if poly.len() > 0 && poly[0].len() >= 3 {
                proof {
                    assert(poly_ok(polygons@[k as int]@));
                    assert(ring_ok(polygons@[k as int]@[0]@));
                }
                let a = ring_signed_area(&poly[0]);
                let aa: i128 = if a < 0 {
                    -a
                } else {
                    a
                };
                if !has_best || aa > best_abs {
                    best = k;
                    has_best = true;
                    best_abs = aa;
                }
            }
            k = k + 1;
        }
        let label_pos: Pt;
        if has_best {
            proof {
                assert(ring_ok(polygons@[best as int]@[0]@));
            }
            label_pos = ring_label_point(&polygons[best][0]);
        } else {
            label_pos = Pt {
                lon: avg2(bbox.min_lon, bbox.max_lon),
                lat: avg2(bbox.min_lat, bbox.max_lat),
            };
        }
        r.push(
            Country { iso_a2: f.iso_a2, name: f.name, polygons, bbox, label_pos },
        );
    }
    r
}

} // verus!
