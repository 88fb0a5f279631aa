//! Interior-label-point heuristic: scan 23 evenly spaced latitudes across a
//! ring's bounding box; at each one pair the sorted edge crossings into
//! interior spans, probe each span's midpoint vertically, and keep the
//! candidate with the best min(half-width, half-height) clearance.

use vstd::prelude::*;

use vstd::arithmetic::div_mod::{
    lemma_div_is_ordered, lemma_div_multiples_vanish, lemma_div_nonincreasing,
    lemma_div_pos_is_pos,
};

use crate::geo::{
    iabs, imax, imin, lemma_mul_bound, prev_idx, pt_ok, ring_ok, tdiv, Pt,
};

verus! {

/// Crossing longitudes are clamped to twice the coordinate bound, so span
/// midpoints and label anchors stay well inside `i64` arithmetic.
pub const SPAN_CLAMP: i64 = 720_000_000;

pub open spec fn iclamp(a: int) -> int {
    if a > SPAN_CLAMP as int {
        SPAN_CLAMP as int
    } else if a < -(SPAN_CLAMP as int) {
        -(SPAN_CLAMP as int)
    } else {
        a
    }
}

/// Truncating division with the divisor's sign normalized away.
pub open spec fn cross_div(num: int, den: int) -> int {
    if den > 0 {
        tdiv(num, den)
    } else {
        tdiv(-num, -den)
    }
}

/// Whether the edge between `pi` and its predecessor `pj` straddles `lat`.
pub open spec fn straddles_lat(lat: int, pi: Pt, pj: Pt) -> bool {
    (pi.lat > lat) != (pj.lat > lat)
}

/// Whether the edge between `pi` and its predecessor `pj` straddles `lon`.
pub open spec fn straddles_lon(lon: int, pi: Pt, pj: Pt) -> bool {
    (pi.lon > lon) != (pj.lon > lon)
}

/// Longitude where the edge crosses latitude `lat`, by linear interpolation
/// rounded toward `pi`, clamped.
pub open spec fn h_cross_val(lat: int, pi: Pt, pj: Pt) -> int {
    let num = (pj.lon - pi.lon) * (lat - pi.lat);
    let den = pj.lat - pi.lat;
    iclamp(pi.lon + cross_div(num, den))
}

/// Latitude where the edge crosses longitude `lon`, analogously.
pub open spec fn v_cross_val(lon: int, pi: Pt, pj: Pt) -> int {
    let num = (pj.lat - pi.lat) * (lon - pi.lon);
    let den = pj.lon - pi.lon;
    iclamp(pi.lat + cross_div(num, den))
}

/// Crossing longitudes of the first `k` wrapping edges at latitude `lat`.
pub open spec fn h_crossings(lat: int, ring: Seq<Pt>, k: int) -> Seq<i64>
    decreases k,
{
    if k <= 0 {
        Seq::empty()
    } else {
        let pi = ring[k - 1];
        let pj = ring[prev_idx(ring.len() as int, k - 1)];
        h_crossings(lat, ring, k - 1) + (if straddles_lat(lat, pi, pj) {
            seq![h_cross_val(lat, pi, pj) as i64]
        } else {
            Seq::empty()
        })
    }
}

/// Crossing latitudes of the first `k` wrapping edges at longitude `lon`.
pub open spec fn v_crossings(lon: int, ring: Seq<Pt>, k: int) -> Seq<i64>
    decreases k,
{
    if k <= 0 {
        Seq::empty()
    } else {
        let pi = ring[k - 1];
        let pj = ring[prev_idx(ring.len() as int, k - 1)];
        v_crossings(lon, ring, k - 1) + (if straddles_lon(lon, pi, pj) {
            seq![v_cross_val(lon, pi, pj) as i64]
        } else {
            Seq::empty()
        })
    }
}

/// Ascending insertion of one value into a sorted sequence.
pub open spec fn insert_sorted(s: Seq<i64>, v: i64) -> Seq<i64>
    decreases s.len(),
{
    if s.len() == 0 {
        seq![v]
    } else if v < s[0] {
        seq![v] + s
    } else {
        seq![s[0]] + insert_sorted(s.drop_first(), v)
    }
}

/// Ascending insertion sort of a sequence.
pub open spec fn sort_seq(s: Seq<i64>) -> Seq<i64>
    decreases s.len(),
{
    if s.len() == 0 {
        Seq::empty()
    } else {
        insert_sorted(sort_seq(s.drop_last()), s.last())
    }
}

/// Consecutive pairing of crossings into (enter, exit) spans; an odd tail
/// crossing is dropped.
pub open spec fn pair_up(s: Seq<i64>) -> Seq<(i64, i64)> {
    Seq::new((s.len() / 2) as nat, |k: int| (s[2 * k], s[2 * k + 1]))
}

/// Interior horizontal spans of a ring at latitude `lat`.
pub open spec fn h_spans_spec(lat: int, ring: Seq<Pt>) -> Seq<(i64, i64)> {
    if ring.len() < 3 {
        Seq::empty()
    } else {
        pair_up(sort_seq(h_crossings(lat, ring, ring.len() as int)))
    }
}

/// Interior vertical spans of a ring at longitude `lon`.
pub open spec fn v_spans_spec(lon: int, ring: Seq<Pt>) -> Seq<(i64, i64)> {
    if ring.len() < 3 {
        Seq::empty()
    } else {
        pair_up(sort_seq(v_crossings(lon, ring, ring.len() as int)))
    }
}

proof fn lemma_insert_sorted_at(s: Seq<i64>, v: i64, i: int)
    requires
        0 <= i <= s.len(),
        forall|k: int| 0 <= k < i ==> !(v < #[trigger] s[k]),
        i == s.len() || v < s[i],
    ensures
        insert_sorted(s, v) == s.insert(i, v),
    decreases i,
{
    if i == 0 {
        if s.len() == 0 {
            assert(insert_sorted(s, v) =~= s.insert(0, v));
        } else {
            assert(insert_sorted(s, v) =~= s.insert(0, v));
        }
    } else {
        lemma_insert_sorted_at(s.drop_first(), v, i - 1);
        assert(insert_sorted(s, v) =~= s.insert(i, v));
    }
}

proof fn lemma_insert_sorted_bounded(s: Seq<i64>, v: i64, m: i64)
    requires
        forall|k: int| 0 <= k < s.len() ==> -m <= #[trigger] s[k] <= m,
        -m <= v <= m,
    ensures
        forall|k: int|
            0 <= k < insert_sorted(s, v).len() ==> -m <= #[trigger] insert_sorted(s, v)[k] <= m,
        insert_sorted(s, v).len() == s.len() + 1,
    decreases s.len(),
{
    if s.len() != 0 && !(v < s[0]) {
        assert(forall|k: int|
            0 <= k < s.drop_first().len() ==> -m <= #[trigger] s.drop_first()[k] <= m);
        lemma_insert_sorted_bounded(s.drop_first(), v, m);
    }
}

proof fn lemma_sort_seq_bounded(s: Seq<i64>, m: i64)
    requires
        forall|k: int| 0 <= k < s.len() ==> -m <= #[trigger] s[k] <= m,
    ensures
        forall|k: int| 0 <= k < sort_seq(s).len() ==> -m <= #[trigger] sort_seq(s)[k] <= m,
        sort_seq(s).len() == s.len(),
    decreases s.len(),
{
    if s.len() != 0 {
        assert(forall|k: int|
            0 <= k < s.drop_last().len() ==> -m <= #[trigger] s.drop_last()[k] <= m);
        lemma_sort_seq_bounded(s.drop_last(), m);
        lemma_insert_sorted_bounded(sort_seq(s.drop_last()), s.last(), m);
    }
}

fn insert_one(r: &mut Vec<i64>, v: i64)
    ensures
        final(r)@ == insert_sorted(old(r)@, v),
{
    let mut i: usize = 0;
    while i < r.len() && r[i] <= v
        invariant
            0 <= i <= r@.len(),
            r@ == old(r)@,
            forall|k: int| 0 <= k < i ==> !(v < #[trigger] r@[k]),
        decreases r@.len() - i,
    {
        i = i + 1;
    }
    proof {
        lemma_insert_sorted_at(r@, v, i as int);
    }
    r.insert(i, v);
}

fn sort_i64(v: &Vec<i64>) -> (r: Vec<i64>)
    ensures
        r@ == sort_seq(v@),
{
    let mut r: Vec<i64> = Vec::new();
    let mut i: usize = 0;
    while i < v.len()
        invariant
            0 <= i <= v@.len(),
            r@ == sort_seq(v@.take(i as int)),
        decreases v@.len() - i,
    {
        insert_one(&mut r, v[i]);
        i = i + 1;
        proof {
            assert(v@.take(i as int).drop_last() =~= v@.take(i as int - 1));
            assert(v@.take(i as int).last() == v@[i as int - 1]);
        }
    }
    proof {
        assert(v@.take(v@.len() as int) =~= v@);
    }
    r
}

fn pair_up_exec(s: &Vec<i64>) -> (r: Vec<(i64, i64)>)
    ensures
        r@ == pair_up(s@),
{
    let mut r: Vec<(i64, i64)> = Vec::new();
    let mut k: usize = 0;
    while k + 1 < s.len()
        invariant
            0 <= k <= s@.len(),
            k % 2 == 0,
            r@.len() == k / 2,
            forall|m: int| 0 <= m < r@.len() ==> #[trigger] r@[m] == (s@[2 * m], s@[2 * m + 1]),
        decreases s@.len() - k,
    {
        r.push((s[k], s[k + 1]));
        k = k + 2;
    }
    proof {
        assert(r@.len() == s@.len() / 2);
        assert(r@ =~= pair_up(s@));
    }
    r
}

proof fn lemma_div2_bound(a: int, s: int)
    requires
        0 <= s,
        -(2 * s) <= a <= 2 * s,
    ensures
        -s <= tdiv(a, 2) <= s,
{
    if a >= 0 {
        lemma_div_is_ordered(a, 2 * s, 2);
        lemma_div_multiples_vanish(s, 2);
        lemma_div_pos_is_pos(a, 2);
    } else {
        lemma_div_is_ordered(-a, 2 * s, 2);
        lemma_div_multiples_vanish(s, 2);
        lemma_div_pos_is_pos(-a, 2);
    }
}

/// Truncating division of `a` by a positive `b`, rounding toward zero.
fn tdiv64(a: i64, b: i64) -> (q: i64)
    requires
        1 <= b,
        i64::MIN < a,
    ensures
        q as int == tdiv(a as int, b as int),
        iabs(q as int) <= iabs(a as int),
{
    proof {
        lemma_div_pos_is_pos(iabs(a as int), b as int);
        lemma_div_nonincreasing(iabs(a as int), b as int);
    }
    if a >= 0 {
        ((a as u64) / (b as u64)) as i64
    } else {
        let m = ((-a) as u64) / (b as u64);
        -(m as i64)
    }
}

/// Interior horizontal spans of a ring at latitude `lat`: sorted edge
/// crossings of the horizontal line, paired consecutively (even-odd rule).
pub fn horizontal_spans(lat: i64, ring: &Vec<Pt>) -> (r: Vec<(i64, i64)>)
    requires
        -SPAN_CLAMP <= lat <= SPAN_CLAMP,
        ring_ok(ring@),
    ensures
        r@ == h_spans_spec(lat as int, ring@),
        forall|m: int|
            0 <= m < r@.len() ==> -SPAN_CLAMP <= #[trigger] r@[m].0 <= SPAN_CLAMP && -SPAN_CLAMP
                <= r@[m].1 <= SPAN_CLAMP,
{
    let n = ring.len();
    if n < 3 {
        return Vec::new();
    }
    let mut cr: Vec<i64> = Vec::new();
    let mut j = n - 1;
    let mut i: usize = 0;
    while i < n
        invariant
            3 <= n == ring@.len(),
            0 <= i <= n,
            j as int == prev_idx(n as int, i as int),
            -SPAN_CLAMP <= lat <= SPAN_CLAMP,
            ring_ok(ring@),
            cr@ == h_crossings(lat as int, ring@, i as int),
            forall|m: int| 0 <= m < cr@.len() ==> -SPAN_CLAMP <= #[trigger] cr@[m] <= SPAN_CLAMP,
        decreases n - i,
    {
        let pi = ring[i];
        let pj = ring[j];
        proof {
            assert(pt_ok(ring@[i as int]));
            assert(pt_ok(ring@[j as int]));
        }
        let ghost cr_before = cr@;
        if (pi.lat > lat) != (pj.lat > lat) {
            proof {
                lemma_mul_bound(
                    pj.lon as int - pi.lon as int,
                    lat as int - pi.lat as int,
                    1_080_000_000,
                );
            }
            let num = (pj.lon - pi.lon) * (lat - pi.lat);
            let den = pj.lat - pi.lat;
            let q = if den > 0 {
                tdiv64(num, den)
            } else {
                tdiv64(-num, -den)
            };
            let val0 = pi.lon + q;
            let val: i64 = if val0 > SPAN_CLAMP {
                SPAN_CLAMP
            } else if val0 < -SPAN_CLAMP {
                -SPAN_CLAMP
            } else {
                val0
            };
            proof {
                assert(val as int == h_cross_val(lat as int, pi, pj));
            }
            cr.push(val);
            proof {
                assert(cr@ =~= h_crossings(lat as int, ring@, i as int + 1));
            }
        } else {
            proof {
                assert(cr@ =~= h_crossings(lat as int, ring@, i as int + 1));
            }
        }
        j = i;
        i = i + 1;
    }
    let sorted = sort_i64(&cr);
    proof {
        lemma_sort_seq_bounded(cr@, SPAN_CLAMP);
    }
    let r = pair_up_exec(&sorted);
    r
}

/// Interior vertical spans of a ring at longitude `lon`, analogously.
pub fn vertical_spans(lon: i64, ring: &Vec<Pt>) -> (r: Vec<(i64, i64)>)
    requires
        -SPAN_CLAMP <= lon <= SPAN_CLAMP,
        ring_ok(ring@),
    ensures
        r@ == v_spans_spec(lon as int, ring@),
        forall|m: int|
            0 <= m < r@.len() ==> -SPAN_CLAMP <= #[trigger] r@[m].0 <= SPAN_CLAMP && -SPAN_CLAMP
                <= r@[m].1 <= SPAN_CLAMP,
{
    let n = ring.len();
    if n < 3 {
        return Vec::new();
    }
    let mut cr: Vec<i64> = Vec::new();
    let mut j = n - 1;
    let mut i: usize = 0;
    while i < n
        invariant
            3 <= n == ring@.len(),
            0 <= i <= n,
            j as int == prev_idx(n as int, i as int),
            -SPAN_CLAMP <= lon <= SPAN_CLAMP,
            ring_ok(ring@),
            cr@ == v_crossings(lon as int, ring@, i as int),
            forall|m: int| 0 <= m < cr@.len() ==> -SPAN_CLAMP <= #[trigger] cr@[m] <= SPAN_CLAMP,
        decreases n - i,
    {
        let pi = ring[i];
        let pj = ring[j];
        proof {
            assert(pt_ok(ring@[i as int]));
            assert(pt_ok(ring@[j as int]));
        }
        if (pi.lon > lon) != (pj.lon > lon) {
            proof {
                lemma_mul_bound(
                    pj.lat as int - pi.lat as int,
                    lon as int - pi.lon as int,
                    1_080_000_000,
                );
            }
            let num = (pj.lat - pi.lat) * (lon - pi.lon);
            let den = pj.lon - pi.lon;
            let q = if den > 0 {
                tdiv64(num, den)
            } else {
                tdiv64(-num, -den)
            };
            let val0 = pi.lat + q;
            let val: i64 = if val0 > SPAN_CLAMP {
                SPAN_CLAMP
            } else if val0 < -SPAN_CLAMP {
                -SPAN_CLAMP
            } else {
                val0
            };
            proof {
                assert(val as int == v_cross_val(lon as int, pi, pj));
            }
            cr.push(val);
            proof {
                assert(cr@ =~= v_crossings(lon as int, ring@, i as int + 1));
            }
        } else {
            proof {
                assert(cr@ =~= v_crossings(lon as int, ring@, i as int + 1));
            }
        }
        j = i;
        i = i + 1;
    }
    let sorted = sort_i64(&cr);
    proof {
        lemma_sort_seq_bounded(cr@, SPAN_CLAMP);
    }
    let r = pair_up_exec(&sorted);
    r
}

/// The first span in list order that contains `x`.
pub open spec fn first_span_from(vs: Seq<(i64, i64)>, x: int, k: int) -> Option<(i64, i64)>
    decreases vs.len() - k,
{
    if k < 0 || k >= vs.len() {
        None
    } else if vs[k].0 <= x && x <= vs[k].1 {
        Some(vs[k])
    } else {
        first_span_from(vs, x, k + 1)
    }
}

fn first_containing(vs: &Vec<(i64, i64)>, x: i64) -> (r: Option<(i64, i64)>)
    ensures
        r == first_span_from(vs@, x as int, 0),
        r matches Some(sp) ==> exists|k: int| 0 <= k < vs@.len() && #[trigger] vs@[k] == sp,
{
    let mut k: usize = 0;
    while k < vs.len()
        invariant
            0 <= k <= vs@.len(),
            first_span_from(vs@, x as int, 0) == first_span_from(vs@, x as int, k as int),
        decreases vs@.len() - k,
    {
        let sp = vs[k];
        if sp.0 <= x && x <= sp.1 {
            proof {
                assert(vs@[k as int] == sp);
            }
            return Some(sp);
        }
        k = k + 1;
    }
    None
}

/// Running bounding box of the first `k` ring vertices, starting from the
/// inverted sentinel box.
pub open spec fn ring_bbox_upto(ring: Seq<Pt>, k: int) -> (int, int, int, int)
    decreases k,
{
    if k <= 0 {
        (i64::MAX as int, i64::MAX as int, i64::MIN as int, i64::MIN as int)
    } else {
        let b = ring_bbox_upto(ring, k - 1);
        let p = ring[k - 1];
        (imin(b.0, p.lon as int), imin(b.1, p.lat as int), imax(b.2, p.lon as int), imax(
            b.3,
            p.lat as int,
        ))
    }
}

/// The scan latitude of row `r`: the box bottom plus `r` 24ths of its height.
pub open spec fn row_lat(ring: Seq<Pt>, r: int) -> int {
    let b = ring_bbox_upto(ring, ring.len() as int);
    b.1 + (b.3 - b.1) * r / 24
}

/// One span's candidate: the span midpoint, scored by the smaller of its
/// half-width and the local half-height at the first vertical span containing
/// the scan latitude (capped at the half-width); no vertical span, no score.
pub open spec fn span_candidate(ring: Seq<Pt>, lat: int, span: (i64, i64)) -> Option<(int, int)> {
    let mid = tdiv(span.0 + span.1, 2);
    let half_w = tdiv(span.1 - span.0, 2);
    match first_span_from(v_spans_spec(mid, ring), lat, 0) {
        None => None,
        Some(vs) => {
            let half_h = imin(imin(lat - vs.0, vs.1 - lat), half_w);
            Some((mid, imin(half_w, half_h)))
        },
    }
}

/// Best (lon, lat, score) after considering the first `k` spans of one row.
pub open spec fn scan_spans(
    ring: Seq<Pt>,
    lat: int,
    spans: Seq<(i64, i64)>,
    k: int,
    st: (int, int, int),
) -> (int, int, int)
    decreases k,
{
    if k <= 0 {
        st
    } else {
        let st1 = scan_spans(ring, lat, spans, k - 1, st);
        match span_candidate(ring, lat, spans[k - 1]) {
            None => st1,
            Some(c) => if c.1 > st1.2 {
                (c.0, lat, c.1)
            } else {
                st1
            },
        }
    }
}

/// Best (lon, lat, score) after scanning rows 1 through `row - 1`; the
/// starting candidate is the box center with score zero.
pub open spec fn scan_rows(ring: Seq<Pt>, row: int) -> (int, int, int)
    decreases row,
{
    if row <= 1 {
        let b = ring_bbox_upto(ring, ring.len() as int);
        (tdiv(b.0 + b.2, 2), tdiv(b.1 + b.3, 2), 0)
    } else {
        let st = scan_rows(ring, row - 1);
        let lat = row_lat(ring, row - 1);
        scan_spans(ring, lat, h_spans_spec(lat, ring), h_spans_spec(lat, ring).len() as int, st)
    }
}

/// Where the label anchor of a ring lands: the best-scoring scan candidate,
/// or the ring's bounding-box center when nothing scores above zero or the
/// ring has fewer than three vertices (such a ring has no interior spans, so
/// scanning it could never move the candidate anyway).
pub open spec fn ring_label_point_spec(ring: Seq<Pt>) -> (int, int) {
    if ring.len() < 3 {
        let b = ring_bbox_upto(ring, ring.len() as int);
        (tdiv(b.0 + b.2, 2), tdiv(b.1 + b.3, 2))
    } else {
        let st = scan_rows(ring, 24);
        (st.0, st.1)
    }
}

/// Grid-scan label placement: at 23 interior latitudes, score every interior
/// horizontal span's midpoint by its axis-aligned clearance and return the
/// best candidate; the bounding-box center is the fallback.
pub fn ring_label_point(ring: &Vec<Pt>) -> (r: Pt)
    requires
        ring_ok(ring@),
    ensures
        (r.lon as int, r.lat as int) == ring_label_point_spec(ring@),
        -SPAN_CLAMP <= r.lon <= SPAN_CLAMP,
        -SPAN_CLAMP <= r.lat <= SPAN_CLAMP,
{
    let n = ring.len();
    let mut min_lon: i64 = i64::MAX;
    let mut min_lat: i64 = i64::MAX;
    let mut max_lon: i64 = i64::MIN;
    let mut max_lat: i64 = i64::MIN;
    let mut i: usize = 0;
    while i < n
        invariant
            0 <= i <= n == ring@.len(),
            ring_ok(ring@),
            (min_lon as int, min_lat as int, max_lon as int, max_lat as int) == ring_bbox_upto(
                ring@,
                i as int,
            ),
        decreases n - i,
    {
        let p = ring[i];
        proof {
            assert(pt_ok(ring@[i as int]));
        }
        if p.lon < min_lon {
            min_lon = p.lon;
        }
        if p.lat < min_lat {
            min_lat = p.lat;
        }
        if p.lon > max_lon {
            max_lon = p.lon;
        }
        if p.lat > max_lat {
            max_lat = p.lat;
        }
        i = i + 1;
    }
    proof {
        if n >= 1 {
            lemma_ring_bbox_bounds(ring@, n as int);
        }
    }
    let center_lon = tdiv64(min_lon + max_lon, 2);
    let center_lat = tdiv64(min_lat + max_lat, 2);
    if n < 3 {
        return Pt { lon: center_lon, lat: center_lat };
    }
    let mut best_lon = center_lon;
    let mut best_lat = center_lat;
    let mut best_score: i64 = 0;
    let mut row: usize = 1;
    while row < 24
        invariant
            1 <= row <= 24,
            3 <= n == ring@.len(),
            ring_ok(ring@),
            (min_lon as int, min_lat as int, max_lon as int, max_lat as int) == ring_bbox_upto(
                ring@,
                n as int,
            ),
            -360_000_000 <= min_lon <= max_lon <= 360_000_000,
            -360_000_000 <= min_lat <= max_lat <= 360_000_000,
            (best_lon as int, best_lat as int, best_score as int) == scan_rows(
                ring@,
                row as int,
            ),
            -SPAN_CLAMP <= best_lon <= SPAN_CLAMP,
            -SPAN_CLAMP <= best_lat <= SPAN_CLAMP,
            0 <= best_score <= SPAN_CLAMP,
        decreases 24 - row,
    {
        proof {
            let d: int = (max_lat - min_lat) as int;
            lemma_div_nonincreasing(d * row as int, 24);
            lemma_div_pos_is_pos(d * row as int, 24);
            assert(d * row as int <= 24 * d) by (nonlinear_arith)
                requires
                    0 <= d,
                    0 <= row as int <= 24,
            {
            }
            lemma_div_is_ordered(d * row as int, 24 * d, 24);
            lemma_div_multiples_vanish(d, 24);
        }
        let diff: u64 = (max_lat - min_lat) as u64;
        let lat: i64 = min_lat + ((diff * (row as u64)) / 24) as i64;
        proof {
            assert(min_lat <= lat <= max_lat);
            assert(lat as int == row_lat(ring@, row as int));
        }
        let spans = horizontal_spans(lat, ring);
        let ghost st0 = scan_rows(ring@, row as int);
        let ghost lat_g = lat as int;
        let mut si: usize = 0;
        while si < spans.len()
            invariant
                0 <= si <= spans@.len(),
                3 <= n == ring@.len(),
                ring_ok(ring@),
                -SPAN_CLAMP <= lat <= SPAN_CLAMP,
                lat_g == lat as int,
                spans@ == h_spans_spec(lat as int, ring@),
                forall|m: int|
                    0 <= m < spans@.len() ==> -SPAN_CLAMP <= #[trigger] spans@[m].0 <= SPAN_CLAMP
                        && -SPAN_CLAMP <= spans@[m].1 <= SPAN_CLAMP,
                (best_lon as int, best_lat as int, best_score as int) == scan_spans(
                    ring@,
                    lat_g,
                    spans@,
                    si as int,
                    st0,
                ),
                -SPAN_CLAMP <= best_lon <= SPAN_CLAMP,
                -SPAN_CLAMP <= best_lat <= SPAN_CLAMP,
                0 <= best_score <= SPAN_CLAMP,
            decreases spans@.len() - si,
        {
            let sp = spans[si];
            let mid = tdiv64(sp.0 + sp.1, 2);
            let half_w = tdiv64(sp.1 - sp.0, 2);
            proof {
                lemma_div2_bound(sp.0 as int + sp.1 as int, SPAN_CLAMP as int);
                lemma_div2_bound(sp.1 as int - sp.0 as int, SPAN_CLAMP as int);
            }
            let vspans = vertical_spans(mid, ring);
            match first_containing(&vspans, lat) {
                Some(vs) => {
                    proof {
                        assert(-SPAN_CLAMP <= vs.0 <= SPAN_CLAMP && -SPAN_CLAMP <= vs.1
                            <= SPAN_CLAMP);
                    }
                    let d0 = lat - vs.0;
                    let d1 = vs.1 - lat;
                    let half_h0: i64 = if d0 <= d1 {
                        d0
                    } else {
                        d1
                    };
                    let half_h: i64 = if half_h0 <= half_w {
                        half_h0
                    } else {
                        half_w
                    };
                    let sc: i64 = if half_w <= half_h {
                        half_w
                    } else {
                        half_h
                    };
                    if sc > best_score {
                        best_lon = mid;
                        best_lat = lat;
                        best_score = sc;
                    }
                },
                None => {},
            }
            si = si + 1;
        }
        proof {
            assert(scan_rows(ring@, row as int + 1) == scan_spans(
                ring@,
                lat_g,
                spans@,
                spans@.len() as int,
                st0,
            ));
        }
        row = row + 1;
    }
    Pt { lon: best_lon, lat: best_lat }
}

/// For a nonempty prefix, the running box bounds lie within the coordinate
/// bound and are ordered.
proof fn lemma_ring_bbox_bounds(ring: Seq<Pt>, k: int)
    requires
        ring_ok(ring),
        1 <= k <= ring.len(),
    ensures
        -360_000_000 <= ring_bbox_upto(ring, k).0 <= ring_bbox_upto(ring, k).2 <= 360_000_000,
        -360_000_000 <= ring_bbox_upto(ring, k).1 <= ring_bbox_upto(ring, k).3 <= 360_000_000,
    decreases k,
{
    reveal_with_fuel(ring_bbox_upto, 3);
    assert(pt_ok(ring[k - 1]));
    if k > 1 {
        lemma_ring_bbox_bounds(ring, k - 1);
    }
}

} // verus!
