//! Fixed-point planar geometry: points, segments, envelopes, exact
//! interval overlap, integer square roots, segment lengths, the exact
//! segment-to-segment distance test and the shared-length estimate.

use vstd::prelude::*;

verus! {

/// Largest coordinate magnitude the engine accepts (2^30). Keeping
/// coordinates, tolerances and attribute values inside this bound lets every
/// intermediate product fit comfortably in 128-bit arithmetic.
pub const COORD_LIMIT: i64 = 1073741824;

/// A planar point in fixed-point units.
#[derive(Clone, Copy, Debug, PartialEq, Eq, Structural)]
pub struct Coord {
    pub x: i64,
    pub y: i64,
}

/// One segment of a polyline: the owning polyline's index and both endpoints.
#[derive(Clone, Copy, Debug, PartialEq, Eq, Structural)]
pub struct SegRec {
    pub poly: usize,
    pub ax: i64,
    pub ay: i64,
    pub bx: i64,
    pub by: i64,
}

/// An axis-aligned rectangle given by its extreme coordinates.
#[derive(Clone, Copy, Debug, PartialEq, Eq, Structural)]
pub struct EnvRect {
    pub min_x: i64,
    pub min_y: i64,
    pub max_x: i64,
    pub max_y: i64,
}

pub open spec fn coord_ok(c: Coord) -> bool {
    -COORD_LIMIT <= c.x <= COORD_LIMIT && -COORD_LIMIT <= c.y <= COORD_LIMIT
}

pub open spec fn seg_ok(s: SegRec) -> bool {
    &&& -COORD_LIMIT <= s.ax <= COORD_LIMIT
    &&& -COORD_LIMIT <= s.ay <= COORD_LIMIT
    &&& -COORD_LIMIT <= s.bx <= COORD_LIMIT
    &&& -COORD_LIMIT <= s.by <= COORD_LIMIT
}

pub open spec fn spec_min(a: int, b: int) -> int {
    if a <= b { a } else { b }
}

pub open spec fn spec_max(a: int, b: int) -> int {
    if a >= b { a } else { b }
}

pub open spec fn spec_abs(a: int) -> int {
    if a >= 0 { a } else { -a }
}

// ---------------------------------------------------------------------------
// Integer square root
// ---------------------------------------------------------------------------

/// Floor of the square root of `n` (0 for negative arguments).
pub open spec fn sqrt_floor(n: int) -> int
    decreases n,
{
    if n < 1 {
        0
    } else {
        let r: int = sqrt_floor(n - 1);
        if (r + 1) * (r + 1) <= n {
            r + 1
        } else {
            r
        }
    }
}

pub proof fn lemma_sqrt_floor_bounds(n: int)
    requires
        n >= 0,
    ensures
        sqrt_floor(n) >= 0,
        sqrt_floor(n) * sqrt_floor(n) <= n,
        n < (sqrt_floor(n) + 1) * (sqrt_floor(n) + 1),
    decreases n,
{
    if n >= 1 {
        lemma_sqrt_floor_bounds(n - 1);
        let r: int = sqrt_floor(n - 1);
        if (r + 1) * (r + 1) <= n {
            assert(n - 1 < (r + 1) * (r + 1));
            assert(n < (r + 2) * (r + 2)) by (nonlinear_arith)
                requires n == (r + 1) * (r + 1) && r >= 0;
        }
    }
}

pub proof fn lemma_sqrt_floor_unique(n: int, r: int)
    requires
        n >= 0,
        r >= 0,
        r * r <= n,
        n < (r + 1) * (r + 1),
    ensures
        r == sqrt_floor(n),
{
    lemma_sqrt_floor_bounds(n);
    let s: int = sqrt_floor(n);
    if r < s {
        assert((r + 1) * (r + 1) <= s * s) by (nonlinear_arith)
            requires 0 <= r && r + 1 <= s;
        assert(false);
    }
    if s < r {
        assert((s + 1) * (s + 1) <= r * r) by (nonlinear_arith)
            requires 0 <= s && s + 1 <= r;
        assert(false);
    }
}

/// Exact integer square root, by binary search.
pub fn isqrt(n: u64) -> (r: u64)
    ensures
        r == sqrt_floor(n as int),
{
    let mut lo: u64 = 0;
    let mut hi: u64 = 4294967296;
    assert((n as int) < (hi as int) * (hi as int)) by (nonlinear_arith)
        requires n as int <= 0xffff_ffff_ffff_ffff && hi as int == 4294967296;
    while lo + 1 < hi
        invariant
            0 <= lo < hi <= 4294967296,
            (lo as int) * (lo as int) <= n as int,
            (n as int) < (hi as int) * (hi as int),
        decreases hi - lo,
    {
        let mid: u64 = lo + (hi - lo) / 2;
        assert((mid as int) * (mid as int) <= 0x1_0000_0000_0000_0000) by (nonlinear_arith)
            requires 0 <= mid as int <= 4294967296;
        if (mid as u128) * (mid as u128) <= n as u128 {
            lo = mid;
        } else {
            hi = mid;
        }
    }
    proof {
        lemma_sqrt_floor_unique(n as int, lo as int);
    }
    lo
}

// ---------------------------------------------------------------------------
// Segment length
// ---------------------------------------------------------------------------

/// Squared Euclidean length of a segment.
pub open spec fn seg_sq(s: SegRec) -> int {
    (s.bx - s.ax) * (s.bx - s.ax) + (s.by - s.ay) * (s.by - s.ay)
}

/// Fixed-point Euclidean length of a segment: the floor of the exact root.
pub open spec fn seg_len(s: SegRec) -> int {
    sqrt_floor(seg_sq(s))
}

/// Any bounded segment is shorter than 2^32 units.
pub proof fn lemma_seg_len_cap(s: SegRec)
    requires
        seg_ok(s),
    ensures
        0 <= seg_len(s) < 4294967296,
        0 <= seg_sq(s) <= 0x8000_0000_0000_0000,
{
    let dx: int = s.bx - s.ax;
    let dy: int = s.by - s.ay;
    assert(0 <= dx * dx + dy * dy <= 0x8000_0000_0000_0000) by (nonlinear_arith)
        requires -2147483648 <= dx <= 2147483648 && -2147483648 <= dy <= 2147483648;
    assert(seg_sq(s) == dx * dx + dy * dy);
    lemma_sqrt_floor_bounds(seg_sq(s));
    let r: int = seg_len(s);
    if r >= 4294967296 {
        assert(r * r >= 0x1_0000_0000_0000_0000) by (nonlinear_arith)
            requires r >= 4294967296;
        assert(false);
    }
}

/// Euclidean length of one segment, exact over the fixed-point model.
pub fn seg_length(s: &SegRec) -> (r: u64)
    requires
        seg_ok(*s),
    ensures
        r == seg_len(*s),
        r < 4294967296,
{
    proof {
        lemma_seg_len_cap(*s);
    }
    let dx: i64 = s.bx - s.ax;
    let dy: i64 = s.by - s.ay;
    assert(
        0 <= (dx as i128) * (dx as i128) <= 0x4000_0000_0000_0000
        && 0 <= (dy as i128) * (dy as i128) <= 0x4000_0000_0000_0000
    ) by (nonlinear_arith)
        requires -2147483648 <= dx as i128 <= 2147483648 && -2147483648 <= dy as i128 <= 2147483648;
    let sq: u64 = ((dx as i128 * dx as i128 + dy as i128 * dy as i128)) as u64;
    assert(sq == seg_sq(*s));
    isqrt(sq)
}

/// Arc length of a polyline: the sum of its segment lengths.
pub open spec fn poly_len(ps: Seq<Coord>) -> int
    decreases ps.len(),
{
    if ps.len() < 2 {
        0
    } else {
        let k: int = ps.len() - 2;
        poly_len(ps.drop_last()) + sqrt_floor(
            (ps[k + 1].x - ps[k].x) * (ps[k + 1].x - ps[k].x)
                + (ps[k + 1].y - ps[k].y) * (ps[k + 1].y - ps[k].y),
        )
    }
}

// ---------------------------------------------------------------------------
// Envelopes and interval overlap
// ---------------------------------------------------------------------------

/// The tight axis-aligned bounding rectangle of a segment.
pub open spec fn tight_env(s: SegRec) -> EnvRect {
    EnvRect {
        min_x: spec_min(s.ax as int, s.bx as int) as i64,
        min_y: spec_min(s.ay as int, s.by as int) as i64,
        max_x: spec_max(s.ax as int, s.bx as int) as i64,
        max_y: spec_max(s.ay as int, s.by as int) as i64,
    }
}

/// A rectangle grown outward by `tol` on all four sides.
pub open spec fn expand_env(e: EnvRect, tol: int) -> EnvRect {
    EnvRect {
        min_x: (e.min_x - tol) as i64,
        min_y: (e.min_y - tol) as i64,
        max_x: (e.max_x + tol) as i64,
        max_y: (e.max_y + tol) as i64,
    }
}

/// Two closed intervals overlap exactly when each starts no later than the
/// other ends.
pub open spec fn ranges_overlap(lo1: int, hi1: int, lo2: int, hi2: int) -> bool {
    hi1 >= lo2 && hi2 >= lo1
}

/// Length of the intersection of two overlapping closed intervals.
pub open spec fn overlap_len(lo1: int, hi1: int, lo2: int, hi2: int) -> int {
    spec_min(hi1, hi2) - spec_max(lo1, lo2)
}

/// A rectangle whose minima do not exceed its maxima. The spatial index
/// normalizes the corners it is handed, so only well-formed rectangles may
/// be loaded into it: that keeps the loaded values and the stored boxes the
/// same.
pub open spec fn rect_wf(e: EnvRect) -> bool {
    e.min_x <= e.max_x && e.min_y <= e.max_y
}

/// Closed-rectangle intersection, the same test the spatial index runs.
pub open spec fn rects_intersect(a: EnvRect, b: EnvRect) -> bool {
    ranges_overlap(a.min_x as int, a.max_x as int, b.min_x as int, b.max_x as int)
        && ranges_overlap(a.min_y as int, a.max_y as int, b.min_y as int, b.max_y as int)
}

pub fn tight_rect(s: &SegRec) -> (e: EnvRect)
    ensures
        e == tight_env(*s),
{
    EnvRect {
        min_x: if s.ax <= s.bx { s.ax } else { s.bx },
        min_y: if s.ay <= s.by { s.ay } else { s.by },
        max_x: if s.ax >= s.bx { s.ax } else { s.bx },
        max_y: if s.ay >= s.by { s.ay } else { s.by },
    }
}

// ---------------------------------------------------------------------------
// Exact segment-to-segment distance test
// ---------------------------------------------------------------------------

/// Twice the signed area of the triangle (o, a, b).
pub open spec fn orient(ox: int, oy: int, ax: int, ay: int, bx: int, by: int) -> int {
    (ax - ox) * (by - oy) - (ay - oy) * (bx - ox)
}

/// Whether point (px, py) lies on segment `s`.
pub open spec fn on_seg(px: int, py: int, s: SegRec) -> bool {
    orient(s.ax as int, s.ay as int, s.bx as int, s.by as int, px, py) == 0
        && spec_min(s.ax as int, s.bx as int) <= px <= spec_max(s.ax as int, s.bx as int)
        && spec_min(s.ay as int, s.by as int) <= py <= spec_max(s.ay as int, s.by as int)
}

/// Whether two closed segments share at least one point.
pub open spec fn segs_intersect(a: SegRec, b: SegRec) -> bool {
    let d1: int = orient(b.ax as int, b.ay as int, b.bx as int, b.by as int, a.ax as int, a.ay as int);
    let d2: int = orient(b.ax as int, b.ay as int, b.bx as int, b.by as int, a.bx as int, a.by as int);
    let d3: int = orient(a.ax as int, a.ay as int, a.bx as int, a.by as int, b.ax as int, b.ay as int);
    let d4: int = orient(a.ax as int, a.ay as int, a.bx as int, a.by as int, b.bx as int, b.by as int);
    ||| ((d1 > 0 && d2 < 0) || (d1 < 0 && d2 > 0)) && ((d3 > 0 && d4 < 0) || (d3 < 0 && d4 > 0))
    ||| on_seg(a.ax as int, a.ay as int, b)
    ||| on_seg(a.bx as int, a.by as int, b)
    ||| on_seg(b.ax as int, b.ay as int, a)
    ||| on_seg(b.bx as int, b.by as int, a)
}

/// Whether the Euclidean distance from point (px, py) to segment `s` is at
/// most `tol`, decided exactly on squared quantities.
pub open spec fn pt_seg_within(px: int, py: int, s: SegRec, tol: int) -> bool {
    let vx: int = s.bx - s.ax;
    let vy: int = s.by - s.ay;
    let wx: int = px - s.ax;
    let wy: int = py - s.ay;
    let dot: int = vx * wx + vy * wy;
    let len2: int = vx * vx + vy * vy;
    if len2 == 0 {
        wx * wx + wy * wy <= tol * tol
    } else if dot < 0 {
        wx * wx + wy * wy <= tol * tol
    } else if dot > len2 {
        (px - s.bx) * (px - s.bx) + (py - s.by) * (py - s.by) <= tol * tol
    } else {
        let cr: int = vx * wy - vy * wx;
        cr * cr <= tol * tol * len2
    }
}

/// Whether two segments come within `tol` of one another: they intersect, or
/// an endpoint of one lies within `tol` of the other. For disjoint segments
/// the minimum distance is always attained at an endpoint, so this test is
/// exact.
pub open spec fn segs_within(a: SegRec, b: SegRec, tol: int) -> bool {
    ||| segs_intersect(a, b)
    ||| pt_seg_within(a.ax as int, a.ay as int, b, tol)
    ||| pt_seg_within(a.bx as int, a.by as int, b, tol)
    ||| pt_seg_within(b.ax as int, b.ay as int, a, tol)
    ||| pt_seg_within(b.bx as int, b.by as int, a, tol)
}

fn orient_exec(ox: i64, oy: i64, ax: i64, ay: i64, bx: i64, by: i64) -> (r: i128)
    requires
        -COORD_LIMIT <= ox <= COORD_LIMIT,
        -COORD_LIMIT <= oy <= COORD_LIMIT,
        -COORD_LIMIT <= ax <= COORD_LIMIT,
        -COORD_LIMIT <= ay <= COORD_LIMIT,
        -COORD_LIMIT <= bx <= COORD_LIMIT,
        -COORD_LIMIT <= by <= COORD_LIMIT,
    ensures
        r == orient(ox as int, oy as int, ax as int, ay as int, bx as int, by as int),
        -0x8000_0000_0000_0000 <= r <= 0x8000_0000_0000_0000,
{
    let v1x: i128 = ax as i128 - ox as i128;
    let v1y: i128 = ay as i128 - oy as i128;
    let v2x: i128 = bx as i128 - ox as i128;
    let v2y: i128 = by as i128 - oy as i128;
    assert(-0x4000_0000_0000_0000 <= v1x * v2y <= 0x4000_0000_0000_0000) by (nonlinear_arith)
        requires -2147483648 <= v1x <= 2147483648 && -2147483648 <= v2y <= 2147483648;
    assert(-0x4000_0000_0000_0000 <= v1y * v2x <= 0x4000_0000_0000_0000) by (nonlinear_arith)
        requires -2147483648 <= v1y <= 2147483648 && -2147483648 <= v2x <= 2147483648;
    v1x * v2y - v1y * v2x
}

fn on_seg_exec(px: i64, py: i64, s: &SegRec) -> (r: bool)
    requires
        seg_ok(*s),
        -COORD_LIMIT <= px <= COORD_LIMIT,
        -COORD_LIMIT <= py <= COORD_LIMIT,
    ensures
        r == on_seg(px as int, py as int, *s),
{
    let d: i128 = orient_exec(s.ax, s.ay, s.bx, s.by, px, py);
    d == 0
        && (if s.ax <= s.bx { s.ax <= px && px <= s.bx } else { s.bx <= px && px <= s.ax })
        && (if s.ay <= s.by { s.ay <= py && py <= s.by } else { s.by <= py && py <= s.ay })
}

fn pt_seg_within_exec(px: i64, py: i64, s: &SegRec, tol: i64) -> (r: bool)
    requires
        seg_ok(*s),
        -COORD_LIMIT <= px <= COORD_LIMIT,
        -COORD_LIMIT <= py <= COORD_LIMIT,
        0 <= tol <= COORD_LIMIT,
    ensures
        r == pt_seg_within(px as int, py as int, *s, tol as int),
{
    let vx: i128 = s.bx as i128 - s.ax as i128;
    let vy: i128 = s.by as i128 - s.ay as i128;
    let wx: i128 = px as i128 - s.ax as i128;
    let wy: i128 = py as i128 - s.ay as i128;
    assert(
        -0x4000_0000_0000_0000 <= vx * wx <= 0x4000_0000_0000_0000
        && -0x4000_0000_0000_0000 <= vy * wy <= 0x4000_0000_0000_0000
        && 0 <= vx * vx <= 0x4000_0000_0000_0000
        && 0 <= vy * vy <= 0x4000_0000_0000_0000
        && 0 <= wx * wx <= 0x4000_0000_0000_0000
        && 0 <= wy * wy <= 0x4000_0000_0000_0000
        && -0x4000_0000_0000_0000 <= vx * wy <= 0x4000_0000_0000_0000
        && -0x4000_0000_0000_0000 <= vy * wx <= 0x4000_0000_0000_0000
    ) by (nonlinear_arith)
        requires
            -2147483648 <= vx <= 2147483648,
            -2147483648 <= vy <= 2147483648,
            -2147483648 <= wx <= 2147483648,
            -2147483648 <= wy <= 2147483648;
    assert(0 <= (tol as i128) * (tol as i128) <= 0x1000_0000_0000_0000) by (nonlinear_arith)
        requires 0 <= tol as i128 <= 1073741824;
    let tol2: i128 = tol as i128 * tol as i128;
    let dot: i128 = vx * wx + vy * wy;
    let len2: i128 = vx * vx + vy * vy;
    if len2 == 0 || dot < 0 {
        wx * wx + wy * wy <= tol2
    } else if dot > len2 {
        let ux: i128 = px as i128 - s.bx as i128;
        let uy: i128 = py as i128 - s.by as i128;
        assert(
            0 <= ux * ux <= 0x4000_0000_0000_0000 && 0 <= uy * uy <= 0x4000_0000_0000_0000
        ) by (nonlinear_arith)
            requires -2147483648 <= ux <= 2147483648 && -2147483648 <= uy <= 2147483648;
        ux * ux + uy * uy <= tol2
    } else {
        let cr: i128 = vx * wy - vy * wx;
        assert(0 <= cr * cr <= 0x4000_0000_0000_0000_0000_0000_0000_0000) by (nonlinear_arith)
            requires -0x8000_0000_0000_0000 <= cr <= 0x8000_0000_0000_0000;
        assert(
            0 <= tol2 * len2 < 0x4000_0000_0000_0000_0000_0000_0000_0000
        ) by (nonlinear_arith)
            requires 0 <= tol2 <= 0x1000_0000_0000_0000 && 0 <= len2 <= 0x8000_0000_0000_0000;
        cr * cr <= tol2 * len2
    }
}

/// Exact segment-to-segment distance filter: true when the Euclidean
/// distance between the two closed segments is at most `tol`.
pub fn segs_within_tol(a: &SegRec, b: &SegRec, tol: i64) -> (r: bool)
    requires
        seg_ok(*a),
        seg_ok(*b),
        0 <= tol <= COORD_LIMIT,
    ensures
        r == segs_within(*a, *b, tol as int),
{
    let d1: i128 = orient_exec(b.ax, b.ay, b.bx, b.by, a.ax, a.ay);
    let d2: i128 = orient_exec(b.ax, b.ay, b.bx, b.by, a.bx, a.by);
    let d3: i128 = orient_exec(a.ax, a.ay, a.bx, a.by, b.ax, b.ay);
    let d4: i128 = orient_exec(a.ax, a.ay, a.bx, a.by, b.bx, b.by);
    let proper: bool = ((d1 > 0 && d2 < 0) || (d1 < 0 && d2 > 0)) && ((d3 > 0 && d4 < 0) || (d3
        < 0 && d4 > 0));
    if proper {
        return true;
    }
    if on_seg_exec(a.ax, a.ay, b) || on_seg_exec(a.bx, a.by, b) || on_seg_exec(b.ax, b.ay, a)
        || on_seg_exec(b.bx, b.by, a) {
        return true;
    }
    pt_seg_within_exec(a.ax, a.ay, b, tol) || pt_seg_within_exec(a.bx, a.by, b, tol)
        || pt_seg_within_exec(b.ax, b.ay, a, tol) || pt_seg_within_exec(b.bx, b.by, a, tol)
}

// ---------------------------------------------------------------------------
// Shared-length estimate
// ---------------------------------------------------------------------------

/// Shared-length estimate for one filtered segment pair. The axis overlap of
/// the two tight rectangles is projected back onto the source segment's
/// line: along x when the source slope is at most 45 degrees in magnitude,
/// along y otherwise. Degenerate configurations contribute zero.
pub open spec fn contribution(a: SegRec, b: SegRec) -> int {
    let ea: EnvRect = tight_env(a);
    let eb: EnvRect = tight_env(b);
    let adx: int = spec_abs(a.bx - a.ax);
    let ady: int = spec_abs(a.by - a.ay);
    if ady <= adx {
        if ranges_overlap(ea.min_x as int, ea.max_x as int, eb.min_x as int, eb.max_x as int)
            && adx > 0 {
            overlap_len(ea.min_x as int, ea.max_x as int, eb.min_x as int, eb.max_x as int)
                * seg_len(a) / adx
        } else {
            0
        }
    } else {
        if ranges_overlap(ea.min_y as int, ea.max_y as int, eb.min_y as int, eb.max_y as int) {
            overlap_len(ea.min_y as int, ea.max_y as int, eb.min_y as int, eb.max_y as int)
                * seg_len(a) / ady
        } else {
            0
        }
    }
}

/// A pair's shared length never exceeds the source segment's own length.
pub proof fn lemma_contribution_cap(a: SegRec, b: SegRec)
    requires
        seg_ok(a),
        seg_ok(b),
    ensures
        0 <= contribution(a, b) <= seg_len(a),
        contribution(a, b) < 4294967296,
{
    lemma_seg_len_cap(a);
    let ea: EnvRect = tight_env(a);
    let eb: EnvRect = tight_env(b);
    let adx: int = spec_abs(a.bx - a.ax);
    let ady: int = spec_abs(a.by - a.ay);
    let ln: int = seg_len(a);
    if ady <= adx {
        if ranges_overlap(ea.min_x as int, ea.max_x as int, eb.min_x as int, eb.max_x as int)
            && adx > 0 {
            let ov: int = overlap_len(ea.min_x as int, ea.max_x as int, eb.min_x as int, eb.max_x as int);
            assert(0 <= ov <= adx);
            assert(0 <= ov * ln / adx <= ln) by (nonlinear_arith)
                requires 0 <= ov <= adx && adx > 0 && ln >= 0;
        }
    } else {
        if ranges_overlap(ea.min_y as int, ea.max_y as int, eb.min_y as int, eb.max_y as int) {
            let ov: int = overlap_len(ea.min_y as int, ea.max_y as int, eb.min_y as int, eb.max_y as int);
            assert(0 <= ov <= ady);
            assert(0 <= ov * ln / ady <= ln) by (nonlinear_arith)
                requires 0 <= ov <= ady && ady > 0 && ln >= 0;
        }
    }
}

/// Shared length of one candidate pair, exact over the fixed-point model.
pub fn contribution_of(a: &SegRec, b: &SegRec) -> (r: u64)
    requires
        seg_ok(*a),
        seg_ok(*b),
    ensures
        r == contribution(*a, *b),
        r < 4294967296,
{
    proof {
        lemma_contribution_cap(*a, *b);
        lemma_seg_len_cap(*a);
    }
    let ea = tight_rect(a);
    let eb = tight_rect(b);
    let adx: i64 = if a.bx >= a.ax { a.bx - a.ax } else { a.ax - a.bx };
    let ady: i64 = if a.by >= a.ay { a.by - a.ay } else { a.ay - a.by };
    if ady <= adx {
        if ea.max_x >= eb.min_x && eb.max_x >= ea.min_x && adx > 0 {
            let hi: i64 = if ea.max_x <= eb.max_x { ea.max_x } else { eb.max_x };
            let lo: i64 = if ea.min_x >= eb.min_x { ea.min_x } else { eb.min_x };
            let ov: u64 = (hi - lo) as u64;
            let ln: u64 = seg_length(a);
            assert(ov * ln <= 0x8000_0000_0000_0000) by (nonlinear_arith)
                requires 0 <= ov <= 2147483648 && 0 <= ln < 4294967296;
            ov * ln / (adx as u64)
        } else {
            0
        }
    } else {
        if ea.max_y >= eb.min_y && eb.max_y >= ea.min_y {
            let hi: i64 = if ea.max_y <= eb.max_y { ea.max_y } else { eb.max_y };
            let lo: i64 = if ea.min_y >= eb.min_y { ea.min_y } else { eb.min_y };
            let ov: u64 = (hi - lo) as u64;
            let ln: u64 = seg_length(a);
            assert(ov * ln <= 0x8000_0000_0000_0000) by (nonlinear_arith)
                requires 0 <= ov <= 2147483648 && 0 <= ln < 4294967296;
            ov * ln / (ady as u64)
        } else {
            0
        }
    }
}

} // verus!
