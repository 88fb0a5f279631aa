//! Viewport-projecting ASCII map renderer.
//!
//! The viewport is a padded, aspect-corrected window around the target
//! country's bounding box; every country whose box overlaps it has its ring
//! edges rasterized with an integer Bresenham walk, and country-code labels
//! are composited afterwards.  Target marks always win; neighbor marks only
//! land on blank cells, and neighbor labels may also cover neighbor borders.

use vstd::arithmetic::div_mod::{
    lemma_div_by_self, lemma_div_is_ordered, lemma_div_multiples_vanish,
    lemma_div_nonincreasing, lemma_div_pos_is_pos, lemma_mod_multiples_vanish, lemma_small_mod,
};
use vstd::prelude::*;

use crate::geo::{iabs, imax, imin, tdiv, BBox, Country, Pt, SCALE};

verus! {

/// World longitude bound in microdegrees.
pub const WORLD_LON: i64 = 180_000_000;

/// World latitude bound in microdegrees.
pub const WORLD_LAT: i64 = 90_000_000;

/// Label anchors may sit up to one clamped span midpoint outside the world
/// box, so they get twice the coordinate headroom.
pub const LABEL_LIMIT: i64 = 720_000_000;

/// Largest accepted grid dimension; keeps every viewport product in `i64`.
pub const MAX_DIM: usize = 10_000;

pub open spec fn pt_world(p: Pt) -> bool {
    -WORLD_LON <= p.lon && p.lon <= WORLD_LON && -WORLD_LAT <= p.lat && p.lat <= WORLD_LAT
}

pub open spec fn ring_world(r: Seq<Pt>) -> bool {
    forall|i: int| 0 <= i < r.len() ==> pt_world(#[trigger] r[i])
}

pub open spec fn poly_world(rings: Seq<Vec<Pt>>) -> bool {
    forall|i: int| 0 <= i < rings.len() ==> ring_world(#[trigger] rings[i]@)
}

pub open spec fn polys_world(ps: Seq<Vec<Vec<Pt>>>) -> bool {
    forall|i: int| 0 <= i < ps.len() ==> poly_world(#[trigger] ps[i]@)
}

pub open spec fn label_pt_ok(p: Pt) -> bool {
    -LABEL_LIMIT <= p.lon && p.lon <= LABEL_LIMIT && -LABEL_LIMIT <= p.lat && p.lat
        <= LABEL_LIMIT
}

/// A bounding box no vertex was ever folded into: minima above maxima.
pub open spec fn bbox_empty(bb: BBox) -> bool {
    bb.min_lon > bb.max_lon || bb.min_lat > bb.max_lat
}

pub open spec fn bbox_world(bb: BBox) -> bool {
    &&& -WORLD_LON <= bb.min_lon
    &&& bb.min_lon <= bb.max_lon
    &&& bb.max_lon <= WORLD_LON
    &&& -WORLD_LAT <= bb.min_lat
    &&& bb.min_lat <= bb.max_lat
    &&& bb.max_lat <= WORLD_LAT
}

pub open spec fn no_nl(s: Seq<char>) -> bool {
    forall|i: int| 0 <= i < s.len() ==> #[trigger] s[i] != '\n'
}

/// What the renderer needs of each country record: world-bounded geometry, a
/// bounded label anchor, a world (or empty-sentinel) bounding box, and a short
/// code string free of line breaks.
pub open spec fn country_render_ok(c: Country) -> bool {
    &&& polys_world(c.polygons@)
    &&& label_pt_ok(c.label_pos)
    &&& (bbox_empty(c.bbox) || bbox_world(c.bbox))
    &&& no_nl(c.iso_a2@)
    &&& c.iso_a2@.len() <= 1000
}

pub open spec fn countries_render_ok(cs: Seq<Country>) -> bool {
    forall|i: int| 0 <= i < cs.len() ==> country_render_ok(#[trigger] cs[i])
}

/// The final viewport: west edge, north edge, angular ranges, and the angular
/// size of one character cell along each axis.
#[derive(Clone, Copy, PartialEq, Eq, Structural, Debug)]
pub struct Viewport {
    pub min_lon: i64,
    pub max_lat: i64,
    pub lon_range: i64,
    pub lat_range: i64,
    pub lon_per_col: i64,
    pub lat_per_row: i64,
}

/// The padded, aspect-corrected viewport around a bounding box, as six
/// integers: west edge, north edge, both final ranges, both cell sizes.
pub open spec fn view_spec(bb: BBox, w: int, h: int) -> (int, int, int, int, int, int) {
    let lon_span = imax(bb.max_lon - bb.min_lon, 4 * SCALE as int);
    let lat_span = imax(bb.max_lat - bb.min_lat, 4 * SCALE as int);
    let view_min_lon = imax(bb.min_lon - lon_span, -(WORLD_LON as int));
    let view_max_lon = imin(bb.max_lon + lon_span, WORLD_LON as int);
    let view_min_lat = imax(bb.min_lat - lat_span, -(WORLD_LAT as int));
    let view_max_lat = imin(bb.max_lat + lat_span, WORLD_LAT as int);
    let lon_range = view_max_lon - view_min_lon;
    let lat_range = view_max_lat - view_min_lat;
    let desired_lon = lat_range * w / (h * 2);
    let desired_lat = lon_range * h * 2 / w;
    let final_lon = if desired_lon > lon_range {
        desired_lon
    } else {
        lon_range
    };
    let final_lat = if desired_lon > lon_range {
        lat_range
    } else {
        desired_lat
    };
    let center_lon = tdiv(view_min_lon + view_max_lon, 2);
    let center_lat = tdiv(view_min_lat + view_max_lat, 2);
    let vp_min_lon = imax(center_lon - final_lon / 2, -(WORLD_LON as int));
    let vp_max_lat = imin(center_lat + final_lat / 2, WORLD_LAT as int);
    (vp_min_lon, vp_max_lat, final_lon, final_lat, final_lon / w, final_lat / h)
}

pub open spec fn view_of(bb: BBox, w: int, h: int) -> Viewport {
    let t = view_spec(bb, w, h);
    Viewport {
        min_lon: t.0 as i64,
        max_lat: t.1 as i64,
        lon_range: t.2 as i64,
        lat_range: t.3 as i64,
        lon_per_col: t.4 as i64,
        lat_per_row: t.5 as i64,
    }
}

/// Magnitude bounds every rasterization step needs of a viewport.
pub open spec fn view_ok(v: Viewport) -> bool {
    &&& -WORLD_LON <= v.min_lon && v.min_lon <= WORLD_LON
    &&& -WORLD_LAT <= v.max_lat && v.max_lat <= WORLD_LAT
    &&& 1 <= v.lon_range && v.lon_range <= 2_000_000_000_000
    &&& 1 <= v.lat_range && v.lat_range <= 10_000_000_000_000
    &&& 1 <= v.lon_per_col && v.lon_per_col <= v.lon_range
    &&& 1 <= v.lat_per_row && v.lat_per_row <= v.lat_range
}

proof fn lemma_div_le(a: int, b: int)
    requires
        0 <= a,
        1 <= b,
    ensures
        0 <= a / b <= a,
{
    lemma_div_pos_is_pos(a, b);
    lemma_div_nonincreasing(a, b);
}

/// Truncating division of `a` by a positive `b`, rounding toward zero.
fn tdiv64(a: i64, b: i64) -> (q: i64)
    requires
        1 <= b,
        i64::MIN < a,
    ensures
        q as int == tdiv(a as int, b as int),
        iabs(q as int) <= iabs(a as int),
{
    proof {
        lemma_div_le(iabs(a as int), b as int);
    }
    if a >= 0 {
        ((a as u64) / (b as u64)) as i64
    } else {
        let m = ((-a) as u64) / (b as u64);
        -(m as i64)
    }
}

/// Compute the rendering viewport for a target bounding box: pad each axis by
/// one span (at least 4 degrees), widen one axis so character cells (taken as
/// twice as tall as wide) keep the aspect, recenter, and clamp to the world.
#[verifier::rlimit(100)]
pub fn compute_view(bb: BBox, width: usize, height: usize) -> (v: Viewport)
    requires
        bbox_world(bb),
        1 <= width <= MAX_DIM,
        1 <= height <= MAX_DIM,
    ensures
        v == view_of(bb, width as int, height as int),
        view_ok(v),
{
    let four: i64 = 4 * SCALE;
    let s0 = bb.max_lon - bb.min_lon;
    let lon_span: i64 = if s0 >= four {
        s0
    } else {
        four
    };
    let s1 = bb.max_lat - bb.min_lat;
    let lat_span: i64 = if s1 >= four {
        s1
    } else {
        four
    };
    let t0 = bb.min_lon - lon_span;
    let view_min_lon: i64 = if t0 >= -WORLD_LON {
        t0
    } else {
        -WORLD_LON
    };
    let t1 = bb.max_lon + lon_span;
    let view_max_lon: i64 = if t1 <= WORLD_LON {
        t1
    } else {
        WORLD_LON
    };
    let t2 = bb.min_lat - lat_span;
    let view_min_lat: i64 = if t2 >= -WORLD_LAT {
        t2
    } else {
        -WORLD_LAT
    };
    let t3 = bb.max_lat + lat_span;
    let view_max_lat: i64 = if t3 <= WORLD_LAT {
        t3
    } else {
        WORLD_LAT
    };
    let lon_range = view_max_lon - view_min_lon;
    let lat_range = view_max_lat - view_min_lat;
    proof {
        assert(4 * SCALE <= lon_range <= 360_000_000);
        assert(4 * SCALE <= lat_range <= 180_000_000);
        assert(lat_range as int * width as int <= 1_800_000_000_000) by (nonlinear_arith)
            requires
                0 <= lat_range as int <= 180_000_000,
                0 <= width as int <= 10_000,
        {
        }
        assert(lon_range as int * height as int * 2 <= 7_200_000_000_000) by (nonlinear_arith)
            requires
                0 <= lon_range as int <= 360_000_000,
                0 <= height as int <= 10_000,
        {
        }
        lemma_div_le(lat_range as int * width as int, height as int * 2);
        lemma_div_le(lon_range as int * height as int * 2, width as int);
    }
    let desired_lon: i64 = ((lat_range as u64 * width as u64) / (height as u64 * 2)) as i64;
    let desired_lat: i64 = ((lon_range as u64 * height as u64 * 2) / (width as u64)) as i64;
    let final_lon: i64;
    let final_lat: i64;
    if desired_lon > lon_range {
        final_lon = desired_lon;
        final_lat = lat_range;
    } else {
        final_lon = lon_range;
        final_lat = desired_lat;
    }
    let center_lon = tdiv64(view_min_lon + view_max_lon, 2);
    let center_lat = tdiv64(view_min_lat + view_max_lat, 2);
    let half_lon = ((final_lon as u64) / 2) as i64;
    let half_lat = ((final_lat as u64) / 2) as i64;
    proof {
        lemma_div_le(final_lon as int, 2);
        lemma_div_le(final_lat as int, 2);
    }
    let u0 = center_lon - half_lon;
    let vp_min_lon: i64 = if u0 >= -WORLD_LON {
        u0
    } else {
        -WORLD_LON
    };
    let u1 = center_lat + half_lat;
    let vp_max_lat: i64 = if u1 <= WORLD_LAT {
        u1
    } else {
        WORLD_LAT
    };
    let lon_per_col = ((final_lon as u64) / (width as u64)) as i64;
    let lat_per_row = ((final_lat as u64) / (height as u64)) as i64;
    proof {
        lemma_div_le(final_lon as int, width as int);
        lemma_div_le(final_lat as int, height as int);
        assert(final_lon as int >= width as int);
        lemma_div_is_ordered(width as int, final_lon as int, width as int);
        lemma_div_by_self(width as int);
        if !(desired_lon > lon_range) {
            assert(lon_range as int * height as int * 2 >= width as int * height as int)
                by (nonlinear_arith)
                requires
                    lon_range as int * 2 >= width as int,
                    height as int >= 0,
            {
            }
            lemma_div_is_ordered(
                width as int * height as int,
                lon_range as int * height as int * 2,
                width as int,
            );
            lemma_div_multiples_vanish(height as int, width as int);
        }
        assert(final_lat as int >= height as int);
        lemma_div_is_ordered(height as int, final_lat as int, height as int);
        lemma_div_by_self(height as int);
    }
    proof {
        assert(-WORLD_LON <= vp_min_lon && vp_min_lon <= WORLD_LON);
        assert(-WORLD_LAT <= vp_max_lat && vp_max_lat <= WORLD_LAT);
        assert(1 <= final_lon && final_lon <= 2_000_000_000_000);
        assert(1 <= final_lat && final_lat <= 10_000_000_000_000);
        assert(1 <= lon_per_col && lon_per_col <= final_lon);
        assert(1 <= lat_per_row && lat_per_row <= final_lat);
    }
    Viewport {
        min_lon: vp_min_lon,
        max_lat: vp_max_lat,
        lon_range: final_lon,
        lat_range: final_lat,
        lon_per_col,
        lat_per_row,
    }
}

/// Write one border cell: inside the grid, the target glyph always lands, a
/// neighbor glyph only on a blank cell.
pub open spec fn plot(
    g: Seq<char>,
    w: int,
    h: int,
    x: int,
    y: int,
    ch: char,
    is_target: bool,
) -> Seq<char> {
    if 0 <= x < w && 0 <= y < h && (is_target || g[y * w + x] == ' ') {
        g.update(y * w + x, ch)
    } else {
        g
    }
}

/// One Bresenham walk, mirrored step for step: plot the current cell, stop at
/// the end cell, otherwise advance by the accumulated error.  `fuel` bounds
/// the walk by the taxicab length of the segment.
pub open spec fn bres(
    g: Seq<char>,
    w: int,
    h: int,
    x: int,
    y: int,
    c1: int,
    r1: int,
    dx: int,
    dy: int,
    sx: int,
    sy: int,
    err: int,
    ch: char,
    is_target: bool,
    fuel: int,
) -> Seq<char>
    decreases fuel,
{
    if fuel <= 0 {
        g
    } else {
        let g1 = plot(g, w, h, x, y, ch, is_target);
        if x == c1 && y == r1 {
            g1
        } else {
            let e2 = 2 * err;
            let x2 = if e2 >= dy {
                x + sx
            } else {
                x
            };
            let err2 = if e2 >= dy {
                err + dy
            } else {
                err
            };
            let y2 = if e2 <= dx {
                y + sy
            } else {
                y
            };
            let err3 = if e2 <= dx {
                err2 + dx
            } else {
                err2
            };
            bres(g1, w, h, x2, y2, c1, r1, dx, dy, sx, sy, err3, ch, is_target, fuel - 1)
        }
    }
}

/// Project both endpoints onto the grid and run the Bresenham walk.
pub open spec fn rast_edge_spec(
    g: Seq<char>,
    p0: Pt,
    p1: Pt,
    v: Viewport,
    w: int,
    h: int,
    ch: char,
    is_target: bool,
) -> Seq<char> {
    let c0 = tdiv(p0.lon - v.min_lon, v.lon_per_col as int);
    let r0 = tdiv(v.max_lat - p0.lat, v.lat_per_row as int);
    let c1 = tdiv(p1.lon - v.min_lon, v.lon_per_col as int);
    let r1 = tdiv(v.max_lat - p1.lat, v.lat_per_row as int);
    let dx = iabs(c1 - c0);
    let dy = -iabs(r1 - r0);
    let sx: int = if c0 < c1 {
        1
    } else {
        -1
    };
    let sy: int = if r0 < r1 {
        1
    } else {
        -1
    };
    bres(g, w, h, c0, r0, c1, r1, dx, dy, sx, sy, dx + dy, ch, is_target, dx - dy + 1)
}

/// Rasterize one edge of a ring onto the grid.
fn rasterize_edge(
    grid: &mut Vec<char>,
    p0: Pt,
    p1: Pt,
    v: &Viewport,
    width: usize,
    height: usize,
    ch: char,
    is_target: bool,
)
    requires
        view_ok(*v),
        label_pt_ok(p0),
        label_pt_ok(p1),
        old(grid)@.len() == width * height,
        1 <= width <= MAX_DIM,
        1 <= height <= MAX_DIM,
    ensures
        final(grid)@ == rast_edge_spec(
            old(grid)@,
            p0,
            p1,
            *v,
            width as int,
            height as int,
            ch,
            is_target,
        ),
        final(grid)@.len() == old(grid)@.len(),
{
    let c0 = tdiv64(p0.lon - v.min_lon, v.lon_per_col);
    let r0 = tdiv64(v.max_lat - p0.lat, v.lat_per_row);
    let c1 = tdiv64(p1.lon - v.min_lon, v.lon_per_col);
    let r1 = tdiv64(v.max_lat - p1.lat, v.lat_per_row);
    let dx: i64 = if c1 >= c0 {
        c1 - c0
    } else {
        c0 - c1
    };
    let dy: i64 = if r1 >= r0 {
        -(r1 - r0)
    } else {
        -(r0 - r1)
    };
    let sx: i64 = if c0 < c1 {
        1
    } else {
        -1
    };
    let sy: i64 = if r0 < r1 {
        1
    } else {
        -1
    };
    let mut x = c0;
    let mut y = r0;
    let mut err: i64 = dx + dy;
    let mut fuel: i64 = dx - dy + 1;
    let ghost fuel0: int = fuel as int;
    let ghost target = rast_edge_spec(
        grid@,
        p0,
        p1,
        *v,
        width as int,
        height as int,
        ch,
        is_target,
    );
    let mut done: bool = false;
    while !done && fuel > 0
        invariant
            grid@.len() == width * height,
            1 <= width <= MAX_DIM,
            1 <= height <= MAX_DIM,
            0 <= dx as int <= 2_000_000_000,
            -2_000_000_000 <= dy as int <= 0,
            sx as int == 1 || sx as int == -1,
            sy as int == 1 || sy as int == -1,
            -1_000_000_000 <= c1 as int <= 1_000_000_000,
            -1_000_000_000 <= r1 as int <= 1_000_000_000,
            2 * dy as int <= err as int <= 2 * dx as int,
            0 <= fuel as int <= fuel0,
            fuel0 <= 4_000_000_001,
            iabs(x as int) <= 1_000_000_000 + (fuel0 - fuel as int),
            iabs(y as int) <= 1_000_000_000 + (fuel0 - fuel as int),
            !done ==> target == bres(
                grid@,
                width as int,
                height as int,
                x as int,
                y as int,
                c1 as int,
                r1 as int,
                dx as int,
                dy as int,
                sx as int,
                sy as int,
                err as int,
                ch,
                is_target,
                fuel as int,
            ),
            done ==> target == grid@,
        decreases fuel as int, (if done { 0int } else { 1int }),
    {
        let ghost g_before = grid@;
        if x >= 0 && x < width as i64 && y >= 0 && y < height as i64 {
            let xu = x as usize;
            let yu = y as usize;
            proof {
                assert((yu as int) * (width as int) + (xu as int) < (width as int) * (height
                    as int) && (width as int) * (height as int) <= 100_000_000)
                    by (nonlinear_arith)
                    requires
                        0 <= xu as int && (xu as int) < width as int && width as int <= 10_000,
                        0 <= yu as int && (yu as int) < height as int && height as int
                            <= 10_000,
                {
                }
            }
            let idx: usize = yu * width + xu;
            if is_target || grid[idx] == ' ' {
                grid.set(idx, ch);
            }
        }
        proof {
            assert(grid@ == plot(
                g_before,
                width as int,
                height as int,
                x as int,
                y as int,
                ch,
                is_target,
            ));
        }
        if x == c1 && y == r1 {
            done = true;
        } else {
            let e2 = 2 * err;
            if e2 >= dy {
                err = err + dy;
                x = x + sx;
            }
            if e2 <= dx {
                err = err + dx;
                y = y + sy;
            }
            fuel = fuel - 1;
        }
    }
}

/// Border glyph: a heavy mark for the target country, a light dot for others.
pub open spec fn border_glyph(is_target: bool) -> char {
    if is_target {
        '#'
    } else {
        '\u{00b7}'
    }
}

/// Grid after drawing the first `e` consecutive-vertex edges of a ring.
pub open spec fn rast_ring_upto(
    g: Seq<char>,
    ring: Seq<Pt>,
    v: Viewport,
    w: int,
    h: int,
    ch: char,
    is_target: bool,
    e: int,
) -> Seq<char>
    decreases e,
{
    if e <= 0 {
        g
    } else {
        rast_edge_spec(
            rast_ring_upto(g, ring, v, w, h, ch, is_target, e - 1),
            ring[e - 1],
            ring[e],
            v,
            w,
            h,
            ch,
            is_target,
        )
    }
}

/// Grid after drawing a whole ring: only edges between consecutive stored
/// vertices are drawn — there is no implicit closing edge, so a ring that does
/// not repeat its first vertex renders with a gap.
pub open spec fn rast_ring_spec(
    g: Seq<char>,
    ring: Seq<Pt>,
    v: Viewport,
    w: int,
    h: int,
    ch: char,
    is_target: bool,
) -> Seq<char> {
    if ring.len() < 2 {
        g
    } else {
        rast_ring_upto(g, ring, v, w, h, ch, is_target, ring.len() - 1)
    }
}

/// Grid after drawing the first `j` rings of a polygon.
pub open spec fn rast_poly_upto(
    g: Seq<char>,
    rings: Seq<Vec<Pt>>,
    v: Viewport,
    w: int,
    h: int,
    ch: char,
    is_target: bool,
    j: int,
) -> Seq<char>
    decreases j,
{
    if j <= 0 {
        g
    } else {
        rast_ring_spec(
            rast_poly_upto(g, rings, v, w, h, ch, is_target, j - 1),
            rings[j - 1]@,
            v,
            w,
            h,
            ch,
            is_target,
        )
    }
}

/// Grid after drawing the first `p` polygons of a country.
pub open spec fn rast_polys_upto(
    g: Seq<char>,
    ps: Seq<Vec<Vec<Pt>>>,
    v: Viewport,
    w: int,
    h: int,
    ch: char,
    is_target: bool,
    p: int,
) -> Seq<char>
    decreases p,
{
    if p <= 0 {
        g
    } else {
        rast_poly_upto(
            rast_polys_upto(g, ps, v, w, h, ch, is_target, p - 1),
            ps[p - 1]@,
            v,
            w,
            h,
            ch,
            is_target,
            ps[p - 1]@.len() as int,
        )
    }
}

/// Cheap rectangle-overlap test between a country's box and the viewport.
pub open spec fn country_overlaps(c: Country, v: Viewport) -> bool {
    !(c.bbox.max_lon < v.min_lon || c.bbox.min_lon > v.min_lon + v.lon_range
        || c.bbox.max_lat < v.max_lat - v.lat_range || c.bbox.min_lat > v.max_lat)
}

/// Grid after drawing one country's borders, if its box overlaps the viewport.
pub open spec fn rast_country_spec(
    g: Seq<char>,
    c: Country,
    v: Viewport,
    w: int,
    h: int,
    is_target: bool,
) -> Seq<char> {
    if country_overlaps(c, v) {
        rast_polys_upto(
            g,
            c.polygons@,
            v,
            w,
            h,
            border_glyph(is_target),
            is_target,
            c.polygons@.len() as int,
        )
    } else {
        g
    }
}

/// Grid after drawing the borders of the first `i` countries, in input order.
pub open spec fn rast_countries_upto(
    g: Seq<char>,
    cs: Seq<Country>,
    ti: int,
    v: Viewport,
    w: int,
    h: int,
    i: int,
) -> Seq<char>
    decreases i,
{
    if i <= 0 {
        g
    } else {
        rast_country_spec(rast_countries_upto(g, cs, ti, v, w, h, i - 1), cs[i - 1], v, w, h, i
            - 1 == ti)
    }
}

/// Write one label character: inside the grid, the target's characters always
/// land; a neighbor's land only on blanks or neighbor-border dots.
pub open spec fn put_label_char(
    g: Seq<char>,
    w: int,
    h: int,
    x: int,
    y: int,
    ch: char,
    is_target: bool,
) -> Seq<char> {
    if 0 <= x < w && 0 <= y < h && (is_target || g[y * w + x] == ' ' || g[y * w + x]
        == '\u{00b7}') {
        g.update(y * w + x, ch)
    } else {
        g
    }
}

/// Grid after writing the first `j` characters of a label.
pub open spec fn put_label_upto(
    g: Seq<char>,
    s: Seq<char>,
    start: int,
    row: int,
    w: int,
    h: int,
    is_target: bool,
    j: int,
) -> Seq<char>
    decreases j,
{
    if j <= 0 {
        g
    } else {
        put_label_char(
            put_label_upto(g, s, start, row, w, h, is_target, j - 1),
            w,
            h,
            start + (j - 1),
            row,
            s[j - 1],
            is_target,
        )
    }
}

/// Grid after compositing one country's code label, centered on its label
/// anchor; the unrecognized-code sentinel is never labeled.
pub open spec fn label_country_spec(
    g: Seq<char>,
    c: Country,
    v: Viewport,
    w: int,
    h: int,
    is_target: bool,
) -> Seq<char> {
    if c.iso_a2@ == "-99"@ {
        g
    } else {
        let col = tdiv(c.label_pos.lon - v.min_lon, v.lon_per_col as int);
        let row = tdiv(v.max_lat - c.label_pos.lat, v.lat_per_row as int);
        let start = col - c.iso_a2@.len() / 2;
        put_label_upto(g, c.iso_a2@, start, row, w, h, is_target, c.iso_a2@.len() as int)
    }
}

/// Grid after compositing the labels of the first `i` countries, in order.
pub open spec fn label_countries_upto(
    g: Seq<char>,
    cs: Seq<Country>,
    ti: int,
    v: Viewport,
    w: int,
    h: int,
    i: int,
) -> Seq<char>
    decreases i,
{
    if i <= 0 {
        g
    } else {
        label_country_spec(label_countries_upto(g, cs, ti, v, w, h, i - 1), cs[i - 1], v, w, h, i
            - 1 == ti)
    }
}

/// The whole rendered grid: blank cells, then all borders, then all labels.
pub open spec fn render_grid_spec(cs: Seq<Country>, ti: int, w: int, h: int) -> Seq<char> {
    let v = view_of(cs[ti].bbox, w, h);
    let g0 = Seq::new((w * h) as nat, |k: int| ' ');
    let g1 = rast_countries_upto(g0, cs, ti, v, w, h, cs.len() as int);
    label_countries_upto(g1, cs, ti, v, w, h, cs.len() as int)
}

/// Row `r` of a flat grid.
pub open spec fn grid_row(g: Seq<char>, w: int, r: int) -> Seq<char> {
    g.subrange(r * w, r * w + w)
}

/// The first `k` rows of a grid, joined with line breaks.
pub open spec fn grid_to_string(g: Seq<char>, w: int, k: int) -> Seq<char>
    decreases k,
{
    if k <= 1 {
        grid_row(g, w, 0)
    } else {
        grid_to_string(g, w, k - 1) + seq!['\n'] + grid_row(g, w, k - 1)
    }
}

/// Index of the first country whose code equals `code`, scanning from `k`.
pub open spec fn first_code_idx_from(cs: Seq<Country>, code: Seq<char>, k: int) -> Option<int>
    decreases cs.len() - k,
{
    if k < 0 || k >= cs.len() {
        None
    } else if cs[k].iso_a2@ == code {
        Some(k)
    } else {
        first_code_idx_from(cs, code, k + 1)
    }
}

pub open spec fn first_code_idx(cs: Seq<Country>, code: Seq<char>) -> Option<int> {
    first_code_idx_from(cs, code, 0)
}

/// A map can be rendered iff the target code occurs and the first country
/// carrying it has at least one vertex to define a viewport around.
pub open spec fn renderable(cs: Seq<Country>, code: Seq<char>) -> bool {
    match first_code_idx(cs, code) {
        Some(i) => !bbox_empty(cs[i].bbox),
        None => false,
    }
}

/// The full rendered text for a target code, when it is renderable.
pub open spec fn render_string_spec(cs: Seq<Country>, code: Seq<char>, w: int, h: int) -> Seq<
    char,
> {
    match first_code_idx(cs, code) {
        Some(ti) => grid_to_string(render_grid_spec(cs, ti, w, h), w, h),
        None => Seq::empty(),
    }
}

fn rast_ring(
    grid: &mut Vec<char>,
    ring: &Vec<Pt>,
    v: &Viewport,
    width: usize,
    height: usize,
    ch: char,
    is_target: bool,
)
    requires
        view_ok(*v),
        ring_world(ring@),
        old(grid)@.len() == width * height,
        1 <= width <= MAX_DIM,
        1 <= height <= MAX_DIM,
    ensures
        final(grid)@ == rast_ring_spec(
            old(grid)@,
            ring@,
            *v,
            width as int,
            height as int,
            ch,
            is_target,
        ),
        final(grid)@.len() == old(grid)@.len(),
{
    let n = ring.len();
    if n < 2 {
        return ;
    }
    let ghost g0 = grid@;
    let mut e: usize = 0;
    while e < n - 1
        invariant
            2 <= n == ring@.len(),
            0 <= e <= n - 1,
            view_ok(*v),
            ring_world(ring@),
            1 <= width <= MAX_DIM,
            1 <= height <= MAX_DIM,
            grid@.len() == width * height,
            grid@ == rast_ring_upto(g0, ring@, *v, width as int, height as int, ch, is_target, e as int),
        decreases n - 1 - e,
    {
        let p0 = ring[e];
        let p1 = ring[e + 1];
        proof {
            assert(pt_world(ring@[e as int]));
            assert(pt_world(ring@[e as int + 1]));
        }
        rasterize_edge(grid, p0, p1, v, width, height, ch, is_target);
        e = e + 1;
    }
}

fn rast_poly(
    grid: &mut Vec<char>,
    rings: &Vec<Vec<Pt>>,
    v: &Viewport,
    width: usize,
    height: usize,
    ch: char,
    is_target: bool,
)
    requires
        view_ok(*v),
        poly_world(rings@),
        old(grid)@.len() == width * height,
        1 <= width <= MAX_DIM,
        1 <= height <= MAX_DIM,
    ensures
        final(grid)@ == rast_poly_upto(
            old(grid)@,
            rings@,
            *v,
            width as int,
            height as int,
            ch,
            is_target,
            rings@.len() as int,
        ),
        final(grid)@.len() == old(grid)@.len(),
{
    let ghost g0 = grid@;
    let mut j: usize = 0;
    while j < rings.len()
        invariant
            0 <= j <= rings@.len(),
            view_ok(*v),
            poly_world(rings@),
            1 <= width <= MAX_DIM,
            1 <= height <= MAX_DIM,
            grid@.len() == width * height,
            grid@ == rast_poly_upto(g0, rings@, *v, width as int, height as int, ch, is_target, j as int),
        decreases rings@.len() - j,
    {
        proof {
            assert(ring_world(rings@[j as int]@));
        }
        rast_ring(grid, &rings[j], v, width, height, ch, is_target);
        j = j + 1;
    }
}

fn rast_country(
    grid: &mut Vec<char>,
    c: &Country,
    v: &Viewport,
    width: usize,
    height: usize,
    is_target: bool,
)
    requires
        view_ok(*v),
        country_render_ok(*c),
        old(grid)@.len() == width * height,
        1 <= width <= MAX_DIM,
        1 <= height <= MAX_DIM,
    ensures
        final(grid)@ == rast_country_spec(
            old(grid)@,
            *c,
            *v,
            width as int,
            height as int,
            is_target,
        ),
        final(grid)@.len() == old(grid)@.len(),
{
    if c.bbox.max_lon < v.min_lon || c.bbox.min_lon > v.min_lon + v.lon_range || c.bbox.max_lat
        < v.max_lat - v.lat_range || c.bbox.min_lat > v.max_lat {
        return ;
    }
    let ch: char = if is_target {
        '#'
    } else {
        '\u{00b7}'
    };
    let ghost g0 = grid@;
    let mut p: usize = 0;
    while p < c.polygons.len()
        invariant
            0 <= p <= c.polygons@.len(),
            view_ok(*v),
            country_render_ok(*c),
            ch == border_glyph(is_target),
            1 <= width <= MAX_DIM,
            1 <= height <= MAX_DIM,
            grid@.len() == width * height,
            grid@ == rast_polys_upto(g0, c.polygons@, *v, width as int, height as int, ch, is_target, p as int),
        decreases c.polygons@.len() - p,
    {
        proof {
            assert(poly_world(c.polygons@[p as int]@));
        }
        rast_poly(grid, &c.polygons[p], v, width, height, ch, is_target);
        p = p + 1;
    }
}

/// Character-wise string equality, decided over the views.
fn str_eq(a: &str, b: &str) -> (r: bool)
    ensures
        r == (a@ == b@),
{
    let n = a.unicode_len();
    let m = b.unicode_len();
    if n != m {
        return false;
    }
    let mut i: usize = 0;
    while i < n
        invariant
            0 <= i <= n,
            n == a@.len(),
            n == b@.len(),
            forall|k: int| 0 <= k < i ==> a@[k] == b@[k],
        decreases n - i,
    {
        let ca = a.get_char(i);
        let cb = b.get_char(i);
        if ca != cb {
            return false;
        }
        i = i + 1;
    }
    proof {
        assert(a@ =~= b@);
    }
    true
}

fn label_country(
    grid: &mut Vec<char>,
    c: &Country,
    v: &Viewport,
    width: usize,
    height: usize,
    is_target: bool,
)
    requires
        view_ok(*v),
        country_render_ok(*c),
        old(grid)@.len() == width * height,
        1 <= width <= MAX_DIM,
        1 <= height <= MAX_DIM,
    ensures
        final(grid)@ == label_country_spec(
            old(grid)@,
            *c,
            *v,
            width as int,
            height as int,
            is_target,
        ),
        final(grid)@.len() == old(grid)@.len(),
{
    if str_eq(c.iso_a2.as_str(), "-99") {
        return ;
    }
    let col = tdiv64(c.label_pos.lon - v.min_lon, v.lon_per_col);
    let row = tdiv64(v.max_lat - c.label_pos.lat, v.lat_per_row);
    let n = c.iso_a2.as_str().unicode_len();
    let half: i64 = ((n as u64) / 2) as i64;
    let start_col = col - half;
    let ghost g0 = grid@;
    let ghost s = c.iso_a2@;
    let mut j: usize = 0;
    while j < n
        invariant
            0 <= j <= n,
            n == c.iso_a2@.len() <= 1000,
            s == c.iso_a2@,
            view_ok(*v),
            country_render_ok(*c),
            1 <= width <= MAX_DIM,
            1 <= height <= MAX_DIM,
            grid@.len() == width * height,
            -2_000_000_000 <= col as int <= 2_000_000_000,
            0 <= half as int <= 500,
            start_col as int == col as int - half as int,
            col as int == tdiv(c.label_pos.lon as int - v.min_lon as int, v.lon_per_col as int),
            row as int == tdiv(v.max_lat as int - c.label_pos.lat as int, v.lat_per_row as int),
            -2_000_000_000 <= row as int <= 2_000_000_000,
            grid@ == put_label_upto(g0, s, start_col as int, row as int, width as int, height as int, is_target, j as int),
        decreases n - j,
    {
        let ch = c.iso_a2.as_str().get_char(j);
        let cc = start_col + j as i64;
        let ghost g_before = grid@;
        if cc >= 0 && cc < width as i64 && row >= 0 && row < height as i64 {
            let xu = cc as usize;
            let yu = row as usize;
            proof {
                assert((yu as int) * (width as int) + (xu as int) < (width as int) * (height
                    as int) && (width as int) * (height as int) <= 100_000_000)
                    by (nonlinear_arith)
                    requires
                        0 <= xu as int && (xu as int) < width as int && width as int <= 10_000,
                        0 <= yu as int && (yu as int) < height as int && height as int
                            <= 10_000,
                {
                }
            }
            let idx: usize = yu * width + xu;
            let existing = grid[idx];
            if is_target || existing == ' ' || existing == '\u{00b7}' {
                grid.set(idx, ch);
            }
        }
        proof {
            assert(grid@ == put_label_char(
                g_before,
                width as int,
                height as int,
                cc as int,
                row as int,
                s[j as int],
                is_target,
            ));
        }
        j = j + 1;
    }
}

/// Relies on `String: FromIterator<char>`: collecting characters yields
/// exactly that sequence of characters.
#[verifier::external_body]
fn chars_to_string(chars: &Vec<char>) -> (r: String)
    ensures
        r@ == chars@,
{
    chars.iter().collect()
}

proof fn lemma_plot_no_nl(g: Seq<char>, w: int, h: int, x: int, y: int, ch: char, is_target: bool)
    requires
        g.len() == w * h,
        no_nl(g),
        ch != '\n',
    ensures
        no_nl(plot(g, w, h, x, y, ch, is_target)),
        plot(g, w, h, x, y, ch, is_target).len() == g.len(),
{
    let g2 = plot(g, w, h, x, y, ch, is_target);
    if 0 <= x < w && 0 <= y < h {
        assert(0 <= y * w + x < w * h) by (nonlinear_arith)
            requires
                0 <= x < w,
                0 <= y < h,
        {
        }
    }
    assert forall|i: int| 0 <= i < g2.len() implies #[trigger] g2[i] != '\n' by {
        if 0 <= x < w && 0 <= y < h && (is_target || g[y * w + x] == ' ') {
            if i != y * w + x {
                assert(g2[i] == g[i]);
            }
        }
    }
}

proof fn lemma_bres_no_nl(
    g: Seq<char>,
    w: int,
    h: int,
    x: int,
    y: int,
    c1: int,
    r1: int,
    dx: int,
    dy: int,
    sx: int,
    sy: int,
    err: int,
    ch: char,
    is_target: bool,
    fuel: int,
)
    requires
        g.len() == w * h,
        no_nl(g),
        ch != '\n',
    ensures
        no_nl(bres(g, w, h, x, y, c1, r1, dx, dy, sx, sy, err, ch, is_target, fuel)),
        bres(g, w, h, x, y, c1, r1, dx, dy, sx, sy, err, ch, is_target, fuel).len() == g.len(),
    decreases fuel,
{
    if fuel > 0 {
        let g1 = plot(g, w, h, x, y, ch, is_target);
        lemma_plot_no_nl(g, w, h, x, y, ch, is_target);
        if !(x == c1 && y == r1) {
            let e2 = 2 * err;
            let x2 = if e2 >= dy {
                x + sx
            } else {
                x
            };
            let err2 = if e2 >= dy {
                err + dy
            } else {
                err
            };
            let y2 = if e2 <= dx {
                y + sy
            } else {
                y
            };
            let err3 = if e2 <= dx {
                err2 + dx
            } else {
                err2
            };
            lemma_bres_no_nl(g1, w, h, x2, y2, c1, r1, dx, dy, sx, sy, err3, ch, is_target, fuel - 1);
        }
    }
}

proof fn lemma_rast_edge_no_nl(
    g: Seq<char>,
    p0: Pt,
    p1: Pt,
    v: Viewport,
    w: int,
    h: int,
    ch: char,
    is_target: bool,
)
    requires
        g.len() == w * h,
        no_nl(g),
        ch != '\n',
    ensures
        no_nl(rast_edge_spec(g, p0, p1, v, w, h, ch, is_target)),
        rast_edge_spec(g, p0, p1, v, w, h, ch, is_target).len() == g.len(),
{
    let c0 = tdiv(p0.lon - v.min_lon, v.lon_per_col as int);
    let r0 = tdiv(v.max_lat - p0.lat, v.lat_per_row as int);
    let c1 = tdiv(p1.lon - v.min_lon, v.lon_per_col as int);
    let r1 = tdiv(v.max_lat - p1.lat, v.lat_per_row as int);
    let dx = iabs(c1 - c0);
    let dy = -iabs(r1 - r0);
    let sx: int = if c0 < c1 {
        1
    } else {
        -1
    };
    let sy: int = if r0 < r1 {
        1
    } else {
        -1
    };
    lemma_bres_no_nl(g, w, h, c0, r0, c1, r1, dx, dy, sx, sy, dx + dy, ch, is_target, dx - dy + 1);
}

proof fn lemma_rast_ring_no_nl(
    g: Seq<char>,
    ring: Seq<Pt>,
    v: Viewport,
    w: int,
    h: int,
    ch: char,
    is_target: bool,
    e: int,
)
    requires
        g.len() == w * h,
        no_nl(g),
        ch != '\n',
    ensures
        no_nl(rast_ring_upto(g, ring, v, w, h, ch, is_target, e)),
        rast_ring_upto(g, ring, v, w, h, ch, is_target, e).len() == g.len(),
    decreases e,
{
    if e > 0 {
        lemma_rast_ring_no_nl(g, ring, v, w, h, ch, is_target, e - 1);
        lemma_rast_edge_no_nl(
            rast_ring_upto(g, ring, v, w, h, ch, is_target, e - 1),
            ring[e - 1],
            ring[e],
            v,
            w,
            h,
            ch,
            is_target,
        );
    }
}

proof fn lemma_rast_ring_spec_no_nl(
    g: Seq<char>,
    ring: Seq<Pt>,
    v: Viewport,
    w: int,
    h: int,
    ch: char,
    is_target: bool,
)
    requires
        g.len() == w * h,
        no_nl(g),
        ch != '\n',
    ensures
        no_nl(rast_ring_spec(g, ring, v, w, h, ch, is_target)),
        rast_ring_spec(g, ring, v, w, h, ch, is_target).len() == g.len(),
{
    if ring.len() >= 2 {
        lemma_rast_ring_no_nl(g, ring, v, w, h, ch, is_target, ring.len() - 1);
    }
}

proof fn lemma_rast_poly_no_nl(
    g: Seq<char>,
    rings: Seq<Vec<Pt>>,
    v: Viewport,
    w: int,
    h: int,
    ch: char,
    is_target: bool,
    j: int,
)
    requires
        g.len() == w * h,
        no_nl(g),
        ch != '\n',
    ensures
        no_nl(rast_poly_upto(g, rings, v, w, h, ch, is_target, j)),
        rast_poly_upto(g, rings, v, w, h, ch, is_target, j).len() == g.len(),
    decreases j,
{
    if j > 0 {
        lemma_rast_poly_no_nl(g, rings, v, w, h, ch, is_target, j - 1);
        lemma_rast_ring_spec_no_nl(
            rast_poly_upto(g, rings, v, w, h, ch, is_target, j - 1),
            rings[j - 1]@,
            v,
            w,
            h,
            ch,
            is_target,
        );
    }
}

proof fn lemma_rast_polys_no_nl(
    g: Seq<char>,
    ps: Seq<Vec<Vec<Pt>>>,
    v: Viewport,
    w: int,
    h: int,
    ch: char,
    is_target: bool,
    p: int,
)
    requires
        g.len() == w * h,
        no_nl(g),
        ch != '\n',
    ensures
        no_nl(rast_polys_upto(g, ps, v, w, h, ch, is_target, p)),
        rast_polys_upto(g, ps, v, w, h, ch, is_target, p).len() == g.len(),
    decreases p,
{
    if p > 0 {
        lemma_rast_polys_no_nl(g, ps, v, w, h, ch, is_target, p - 1);
        lemma_rast_poly_no_nl(
            rast_polys_upto(g, ps, v, w, h, ch, is_target, p - 1),
            ps[p - 1]@,
            v,
            w,
            h,
            ch,
            is_target,
            ps[p - 1]@.len() as int,
        );
    }
}

proof fn lemma_rast_countries_no_nl(
    g: Seq<char>,
    cs: Seq<Country>,
    ti: int,
    v: Viewport,
    w: int,
    h: int,
    i: int,
)
    requires
        g.len() == w * h,
        no_nl(g),
    ensures
        no_nl(rast_countries_upto(g, cs, ti, v, w, h, i)),
        rast_countries_upto(g, cs, ti, v, w, h, i).len() == g.len(),
    decreases i,
{
    if i > 0 {
        lemma_rast_countries_no_nl(g, cs, ti, v, w, h, i - 1);
        let g1 = rast_countries_upto(g, cs, ti, v, w, h, i - 1);
        if country_overlaps(cs[i - 1], v) {
            lemma_rast_polys_no_nl(
                g1,
                cs[i - 1].polygons@,
                v,
                w,
                h,
                border_glyph(i - 1 == ti),
                i - 1 == ti,
                cs[i - 1].polygons@.len() as int,
            );
        }
    }
}

proof fn lemma_put_label_char_no_nl(
    g: Seq<char>,
    w: int,
    h: int,
    x: int,
    y: int,
    ch: char,
    is_target: bool,
)
    requires
        g.len() == w * h,
        no_nl(g),
        ch != '\n',
    ensures
        no_nl(put_label_char(g, w, h, x, y, ch, is_target)),
        put_label_char(g, w, h, x, y, ch, is_target).len() == g.len(),
{
    let g2 = put_label_char(g, w, h, x, y, ch, is_target);
    if 0 <= x < w && 0 <= y < h {
        assert(0 <= y * w + x < w * h) by (nonlinear_arith)
            requires
                0 <= x < w,
                0 <= y < h,
        {
        }
    }
    assert forall|i: int| 0 <= i < g2.len() implies #[trigger] g2[i] != '\n' by {
        if 0 <= x < w && 0 <= y < h && (is_target || g[y * w + x] == ' ' || g[y * w + x]
            == '\u{00b7}') {
            if i != y * w + x {
                assert(g2[i] == g[i]);
            }
        }
    }
}

proof fn lemma_put_label_no_nl(
    g: Seq<char>,
    s: Seq<char>,
    start: int,
    row: int,
    w: int,
    h: int,
    is_target: bool,
    j: int,
)
    requires
        g.len() == w * h,
        no_nl(g),
        no_nl(s),
        j <= s.len(),
    ensures
        no_nl(put_label_upto(g, s, start, row, w, h, is_target, j)),
        put_label_upto(g, s, start, row, w, h, is_target, j).len() == g.len(),
    decreases j,
{
    if j > 0 {
        lemma_put_label_no_nl(g, s, start, row, w, h, is_target, j - 1);
        lemma_put_label_char_no_nl(
            put_label_upto(g, s, start, row, w, h, is_target, j - 1),
            w,
            h,
            start + (j - 1),
            row,
            s[j - 1],
            is_target,
        );
    }
}

proof fn lemma_label_countries_no_nl(
    g: Seq<char>,
    cs: Seq<Country>,
    ti: int,
    v: Viewport,
    w: int,
    h: int,
    i: int,
)
    requires
        g.len() == w * h,
        no_nl(g),
        countries_render_ok(cs),
        i <= cs.len(),
    ensures
        no_nl(label_countries_upto(g, cs, ti, v, w, h, i)),
        label_countries_upto(g, cs, ti, v, w, h, i).len() == g.len(),
    decreases i,
{
    if i > 0 {
        lemma_label_countries_no_nl(g, cs, ti, v, w, h, i - 1);
        let g1 = label_countries_upto(g, cs, ti, v, w, h, i - 1);
        let c = cs[i - 1];
        if !(c.iso_a2@ == "-99"@) {
            let col = tdiv(c.label_pos.lon - v.min_lon, v.lon_per_col as int);
            let row = tdiv(v.max_lat - c.label_pos.lat, v.lat_per_row as int);
            let start = col - c.iso_a2@.len() / 2;
            lemma_put_label_no_nl(
                g1,
                c.iso_a2@,
                start,
                row,
                w,
                h,
                i - 1 == ti,
                c.iso_a2@.len() as int,
            );
        }
    }
}

/// Law: a grid without line breaks joins into text of exactly `h` lines of
/// exactly `w` characters — the length is `h * (w + 1) - 1` and a character is
/// a line break exactly at the positions that end a line.
pub proof fn lemma_grid_string_shape(g: Seq<char>, w: int, h: int)
    requires
        1 <= w,
        1 <= h,
        w * h <= g.len(),
        no_nl(g),
    ensures
        grid_to_string(g, w, h).len() == h * (w + 1) - 1,
        forall|k: int|
            0 <= k < grid_to_string(g, w, h).len() ==> ((#[trigger] grid_to_string(g, w, h)[k]
                == '\n') <==> k % (w + 1) == w),
    decreases h,
{
    let s = grid_to_string(g, w, h);
    if h == 1 {
        assert(w * h == w && 0 * w == 0) by (nonlinear_arith)
            requires
                h == 1,
        {
        }
        assert(s == grid_row(g, w, 0));
        assert(s =~= g.subrange(0, w));
        assert forall|k: int| 0 <= k < s.len() implies ((#[trigger] s[k] == '\n') <==> k % (w + 1)
            == w) by {
            assert(s[k] == g[k]);
            lemma_small_mod(k as nat, (w + 1) as nat);
        }
    } else {
        assert(w * (h - 1) <= g.len() && (h - 1) * w + w <= g.len()) by (nonlinear_arith)
            requires
                1 <= w,
                2 <= h,
                w * h <= g.len(),
        {
        }
        lemma_grid_string_shape(g, w, h - 1);
        let sp = grid_to_string(g, w, h - 1);
        let row = grid_row(g, w, h - 1);
        assert(s == sp + seq!['\n'] + row);
        assert((h - 1) * (w + 1) - 1 + 1 + w == h * (w + 1) - 1 && (h - 1) * (w + 1) - 1 == (w
            + 1) * (h - 2) + w && (h - 1) * (w + 1) == (w + 1) * (h - 1)) by (nonlinear_arith);
        assert(s.len() == h * (w + 1) - 1);
        assert forall|k: int| 0 <= k < s.len() implies ((#[trigger] s[k] == '\n') <==> k % (w + 1)
            == w) by {
            if k < sp.len() {
                assert(s[k] == sp[k]);
            } else if k == sp.len() {
                assert(s[k] == '\n');
                assert(k == (w + 1) * (h - 2) + w);
                lemma_mod_multiples_vanish(h - 2, w, w + 1);
                lemma_small_mod(w as nat, (w + 1) as nat);
            } else {
                let c = k - sp.len() - 1;
                assert(s[k] == row[c]);
                assert(row[c] == g[(h - 1) * w + c]);
                assert(k == (w + 1) * (h - 1) + c);
                lemma_mod_multiples_vanish(h - 1, c, w + 1);
                lemma_small_mod(c as nat, (w + 1) as nat);
            }
        }
    }
}

/// Render the zoomed ASCII map centered on the country carrying `target_code`.
/// Returns `None` exactly when the code is absent from the list or the first
/// country carrying it has no geometry to define a viewport; otherwise the
/// text is exactly `height` lines of exactly `width` characters.
pub fn render_map(
    countries: &Vec<Country>,
    target_code: &str,
    width: usize,
    height: usize,
) -> (r: Option<String>)
    requires
        1 <= width <= MAX_DIM,
        1 <= height <= MAX_DIM,
        countries_render_ok(countries@),
    ensures
        r.is_some() == renderable(countries@, target_code@),
        r matches Some(text) ==> text@ == render_string_spec(
            countries@,
            target_code@,
            width as int,
            height as int,
        ),
        r matches Some(text) ==> text@.len() == height as int * (width as int + 1) - 1,
        r matches Some(text) ==> forall|k: int|
            0 <= k < text@.len() ==> ((text@[k] == '\n') <==> #[trigger] (k % (
            width as int + 1)) == width as int),
{
    let n = countries.len();
    let mut ti: usize = 0;
    let mut found = false;
    let mut i: usize = 0;
    while i < n && !found
        invariant
            0 <= i <= n == countries@.len(),
            !found ==> first_code_idx(countries@, target_code@) == first_code_idx_from(
                countries@,
                target_code@,
                i as int,
            ),
            found ==> ti < n && first_code_idx(countries@, target_code@) == Some(ti as int),
        decreases n - i, (if found { 0int } else { 1int }),
    {
        if str_eq(countries[i].iso_a2.as_str(), target_code) {
            ti = i;
            found = true;
        } else {
            i = i + 1;
        }
    }
    if !found {
        return None;
    }
    let bb = countries[ti].bbox;
    if bb.min_lon > bb.max_lon || bb.min_lat > bb.max_lat {
        return None;
    }
    proof {
        assert(country_render_ok(countries@[ti as int]));
    }
    let v = compute_view(bb, width, height);
    proof {
        assert((width as int) * (height as int) <= 100_000_000) by (nonlinear_arith)
            requires
                1 <= width as int <= 10_000,
                1 <= height as int <= 10_000,
        {
        }
    }
    let total: usize = width * height;
    let mut grid: Vec<char> = Vec::new();
    while grid.len() < total
        invariant
            grid@.len() <= total,
            forall|k: int| 0 <= k < grid@.len() ==> #[trigger] grid@[k] == ' ',
        decreases total - grid@.len(),
    {
        grid.push(' ');
    }
    proof {
        assert(grid@ =~= Seq::new((width as int * height as int) as nat, |k: int| ' '));
    }
    let ghost g0 = grid@;
    let mut ci: usize = 0;
    while ci < n
        invariant
            0 <= ci <= n == countries@.len(),
            ti < n,
            view_ok(v),
            countries_render_ok(countries@),
            1 <= width <= MAX_DIM,
            1 <= height <= MAX_DIM,
            grid@.len() == width * height,
            grid@ == rast_countries_upto(g0, countries@, ti as int, v, width as int, height as int, ci as int),
        decreases n - ci,
    {
        rast_country(&mut grid, &countries[ci], &v, width, height, ci == ti);
        ci = ci + 1;
    }
    let ghost g1 = grid@;
    let mut li: usize = 0;
    while li < n
        invariant
            0 <= li <= n == countries@.len(),
            ti < n,
            view_ok(v),
            countries_render_ok(countries@),
            1 <= width <= MAX_DIM,
            1 <= height <= MAX_DIM,
            grid@.len() == width * height,
            grid@ == label_countries_upto(g1, countries@, ti as int, v, width as int, height as int, li as int),
        decreases n - li,
    {
        label_country(&mut grid, &countries[li], &v, width, height, li == ti);
        li = li + 1;
    }
    proof {
        assert(no_nl(g0));
        lemma_rast_countries_no_nl(
            g0,
            countries@,
            ti as int,
            v,
            width as int,
            height as int,
            n as int,
        );
        lemma_label_countries_no_nl(
            g1,
            countries@,
            ti as int,
            v,
            width as int,
            height as int,
            n as int,
        );
        lemma_grid_string_shape(grid@, width as int, height as int);
        assert(grid@ == render_grid_spec(countries@, ti as int, width as int, height as int));
    }
    let ghost gfin = grid@;
    let mut out = String::new();
    let mut rr: usize = 0;
    while rr < height
        invariant
            0 <= rr <= height,
            1 <= width <= MAX_DIM,
            1 <= height <= MAX_DIM,
            grid@ == gfin,
            grid@.len() == width * height,
            (width as int) * (height as int) <= 100_000_000,
            rr == 0 ==> out@ == Seq::<char>::empty(),
            rr >= 1 ==> out@ == grid_to_string(grid@, width as int, rr as int),
        decreases height - rr,
    {
        let mut rowv: Vec<char> = Vec::new();
        let mut cx: usize = 0;
        proof {
            assert((rr as int) * (width as int) + (width as int) <= (width as int) * (height
                as int)) by (nonlinear_arith)
                requires
                    0 <= rr as int && (rr as int) < height as int,
                    1 <= width as int,
            {
            }
        }
        while cx < width
            invariant
                0 <= cx <= width,
                rr < height,
                grid@ == gfin,
                grid@.len() == width * height,
                (rr as int) * (width as int) + (width as int) <= (width as int) * (height as int),
                (width as int) * (height as int) <= 100_000_000,
                1 <= width <= MAX_DIM,
                1 <= height <= MAX_DIM,
                rowv@ == grid@.subrange(
                    (rr as int) * (width as int),
                    (rr as int) * (width as int) + cx as int,
                ),
            decreases width - cx,
        {
            let idx: usize = rr * width + cx;
            rowv.push(grid[idx]);
            cx = cx + 1;
            proof {
                let a = (rr as int) * (width as int);
                assert(grid@.subrange(a, a + cx as int) =~= grid@.subrange(a, a + cx as int - 1)
                    .push(grid@[a + cx as int - 1]));
            }
        }
        proof {
            assert(rowv@ =~= grid_row(grid@, width as int, rr as int));
        }
        let row_str = chars_to_string(&rowv);
        if rr == 0 {
            out = row_str;
        } else {
            proof {
                reveal_strlit("\n");
                assert("\n"@ =~= seq!['\n']);
            }
            out.append("\n");
            out.append(row_str.as_str());
        }
        rr = rr + 1;
    }
    Some(out)
}

} // verus!
