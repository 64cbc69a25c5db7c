//! The angle filter, decided exactly over rational slopes.
//!
//! A segment's direction is canonicalised so that its angle from the x-axis
//! lies in (-90, 90] degrees: the x component is made positive, a vertical
//! segment points up, and a degenerate segment has no direction. The filter
//! accepts two segments when the absolute difference of their angles is
//! below the tolerance, compared through a scaled integer tangent table so
//! that no transcendental arithmetic is needed: for a difference d below 90
//! degrees, d < t holds exactly when |cross| * 10^6 < tan_micro(t) * dot.

use crate::geom::{seg_ok, spec_abs, SegRec};
use vstd::prelude::*;

verus! {

/// Tangent of `d` whole degrees, scaled by 10^6 and rounded to the nearest
/// integer; fixed at the table's last entry beyond 88 degrees.
pub open spec fn tan_micro(d: int) -> int {
    if d <= 0 { 0 }
    else if d == 1 { 17455 }
    else if d == 2 { 34921 }
    else if d == 3 { 52408 }
    else if d == 4 { 69927 }
    else if d == 5 { 87489 }
    else if d == 6 { 105104 }
    else if d == 7 { 122785 }
    else if d == 8 { 140541 }
    else if d == 9 { 158384 }
    else if d == 10 { 176327 }
    else if d == 11 { 194380 }
    else if d == 12 { 212557 }
    else if d == 13 { 230868 }
    else if d == 14 { 249328 }
    else if d == 15 { 267949 }
    else if d == 16 { 286745 }
    else if d == 17 { 305731 }
    else if d == 18 { 324920 }
    else if d == 19 { 344328 }
    else if d == 20 { 363970 }
    else if d == 21 { 383864 }
    else if d == 22 { 404026 }
    else if d == 23 { 424475 }
    else if d == 24 { 445229 }
    else if d == 25 { 466308 }
    else if d == 26 { 487733 }
    else if d == 27 { 509525 }
    else if d == 28 { 531709 }
    else if d == 29 { 554309 }
    else if d == 30 { 577350 }
    else if d == 31 { 600861 }
    else if d == 32 { 624869 }
    else if d == 33 { 649408 }
    else if d == 34 { 674509 }
    else if d == 35 { 700208 }
    else if d == 36 { 726543 }
    else if d == 37 { 753554 }
    else if d == 38 { 781286 }
    else if d == 39 { 809784 }
    else if d == 40 { 839100 }
    else if d == 41 { 869287 }
    else if d == 42 { 900404 }
    else if d == 43 { 932515 }
    else if d == 44 { 965689 }
    else if d == 45 { 1000000 }
    else if d == 46 { 1035530 }
    else if d == 47 { 1072369 }
    else if d == 48 { 1110613 }
    else if d == 49 { 1150368 }
    else if d == 50 { 1191754 }
    else if d == 51 { 1234897 }
    else if d == 52 { 1279942 }
    else if d == 53 { 1327045 }
    else if d == 54 { 1376382 }
    else if d == 55 { 1428148 }
    else if d == 56 { 1482561 }
    else if d == 57 { 1539865 }
    else if d == 58 { 1600335 }
    else if d == 59 { 1664279 }
    else if d == 60 { 1732051 }
    else if d == 61 { 1804048 }
    else if d == 62 { 1880726 }
    else if d == 63 { 1962611 }
    else if d == 64 { 2050304 }
    else if d == 65 { 2144507 }
    else if d == 66 { 2246037 }
    else if d == 67 { 2355852 }
    else if d == 68 { 2475087 }
    else if d == 69 { 2605089 }
    else if d == 70 { 2747477 }
    else if d == 71 { 2904211 }
    else if d == 72 { 3077684 }
    else if d == 73 { 3270853 }
    else if d == 74 { 3487414 }
    else if d == 75 { 3732051 }
    else if d == 76 { 4010781 }
    else if d == 77 { 4331476 }
    else if d == 78 { 4704630 }
    else if d == 79 { 5144554 }
    else if d == 80 { 5671282 }
    else if d == 81 { 6313752 }
    else if d == 82 { 7115370 }
    else if d == 83 { 8144346 }
    else if d == 84 { 9514364 }
    else if d == 85 { 11430052 }
    else if d == 86 { 14300666 }
    else if d == 87 { 19081137 }
    else if d == 88 { 28636253 }
    else { 57289962 }
}

fn tan_micro_x(d: u32) -> (t: u64)
    requires
        d < 90,
    ensures
        t == tan_micro(d as int),
{
    match d {
        0 => 0,
        1 => 17455,
        2 => 34921,
        3 => 52408,
        4 => 69927,
        5 => 87489,
        6 => 105104,
        7 => 122785,
        8 => 140541,
        9 => 158384,
        10 => 176327,
        11 => 194380,
        12 => 212557,
        13 => 230868,
        14 => 249328,
        15 => 267949,
        16 => 286745,
        17 => 305731,
        18 => 324920,
        19 => 344328,
        20 => 363970,
        21 => 383864,
        22 => 404026,
        23 => 424475,
        24 => 445229,
        25 => 466308,
        26 => 487733,
        27 => 509525,
        28 => 531709,
        29 => 554309,
        30 => 577350,
        31 => 600861,
        32 => 624869,
        33 => 649408,
        34 => 674509,
        35 => 700208,
        36 => 726543,
        37 => 753554,
        38 => 781286,
        39 => 809784,
        40 => 839100,
        41 => 869287,
        42 => 900404,
        43 => 932515,
        44 => 965689,
        45 => 1000000,
        46 => 1035530,
        47 => 1072369,
        48 => 1110613,
        49 => 1150368,
        50 => 1191754,
        51 => 1234897,
        52 => 1279942,
        53 => 1327045,
        54 => 1376382,
        55 => 1428148,
        56 => 1482561,
        57 => 1539865,
        58 => 1600335,
        59 => 1664279,
        60 => 1732051,
        61 => 1804048,
        62 => 1880726,
        63 => 1962611,
        64 => 2050304,
        65 => 2144507,
        66 => 2246037,
        67 => 2355852,
        68 => 2475087,
        69 => 2605089,
        70 => 2747477,
        71 => 2904211,
        72 => 3077684,
        73 => 3270853,
        74 => 3487414,
        75 => 3732051,
        76 => 4010781,
        77 => 4331476,
        78 => 4704630,
        79 => 5144554,
        80 => 5671282,
        81 => 6313752,
        82 => 7115370,
        83 => 8144346,
        84 => 9514364,
        85 => 11430052,
        86 => 14300666,
        87 => 19081137,
        88 => 28636253,
        _ => 57289962,
    }
}

/// The table never decreases: a wider tolerance admits at least as much.
pub proof fn lemma_tan_micro_mono(d1: int, d2: int)
    requires
        d1 <= d2,
    ensures
        tan_micro(d1) <= tan_micro(d2),
{
}

// ---------------------------------------------------------------------------
// Canonical directions
// ---------------------------------------------------------------------------

/// The x component of a segment's canonical direction: directions are
/// flipped so the x component is never negative, vertical segments point up
/// along (0, 1), and degenerate segments collapse to (0, 0). A canonical
/// direction's angle from the x-axis therefore lies in (-90, 90] degrees.
pub open spec fn dir_x(s: SegRec) -> int {
    spec_abs(s.bx - s.ax)
}

/// The y component of a segment's canonical direction.
pub open spec fn dir_y(s: SegRec) -> int {
    let dx: int = s.bx - s.ax;
    let dy: int = s.by - s.ay;
    if dx > 0 {
        dy
    } else if dx < 0 {
        -dy
    } else if dy != 0 {
        1
    } else {
        0
    }
}

/// The angle filter: accept when the absolute difference of the two
/// segments' angles from the x-axis is strictly below `atol` degrees,
/// measured through the scaled tangent table. Degenerate segments are never
/// accepted. Writing d for the difference, which lies in [0, 180):
/// dot > 0 puts d below 90 and tan(d) = |cross| / dot; dot == 0 puts d at
/// exactly 90; dot < 0 puts d above 90 and tan(d - 90) = -dot / |cross|.
pub open spec fn angle_ok(a: SegRec, b: SegRec, atol: int) -> bool {
    let ux: int = dir_x(a);
    let uy: int = dir_y(a);
    let vx: int = dir_x(b);
    let vy: int = dir_y(b);
    if (ux == 0 && uy == 0) || (vx == 0 && vy == 0) {
        false
    } else {
        let dot: int = ux * vx + uy * vy;
        let cr: int = spec_abs(ux * vy - uy * vx);
        if atol >= 180 {
            true
        } else if dot > 0 {
            atol >= 90 || cr * 1000000 < tan_micro(atol) * dot
        } else if dot == 0 {
            atol > 90
        } else {
            atol > 90 && (-dot) * 1000000 < tan_micro(atol - 90) * cr
        }
    }
}

/// The filter does not care which segment is source and which is target.
pub proof fn lemma_angle_ok_sym(a: SegRec, b: SegRec, atol: int)
    ensures
        angle_ok(a, b, atol) == angle_ok(b, a, atol),
{
    let ux: int = dir_x(a);
    let uy: int = dir_y(a);
    let vx: int = dir_x(b);
    let vy: int = dir_y(b);
    assert(ux * vx + uy * vy == vx * ux + vy * uy) by (nonlinear_arith);
    assert(spec_abs(ux * vy - uy * vx) == spec_abs(vx * uy - vy * ux)) by (nonlinear_arith);
}

/// Raising the tolerance never rejects a pair it used to accept.
pub proof fn lemma_angle_ok_mono(a: SegRec, b: SegRec, t1: int, t2: int)
    requires
        t1 <= t2,
        angle_ok(a, b, t1),
    ensures
        angle_ok(a, b, t2),
{
    let ux: int = dir_x(a);
    let uy: int = dir_y(a);
    let vx: int = dir_x(b);
    let vy: int = dir_y(b);
    let dot: int = ux * vx + uy * vy;
    let cr: int = spec_abs(ux * vy - uy * vx);
    if t2 < 180 {
        if dot > 0 {
            if !(t2 > 90) && !(t1 > 90) {
                lemma_tan_micro_mono(t1, t2);
                assert(tan_micro(t1) * dot <= tan_micro(t2) * dot) by (nonlinear_arith)
                    requires tan_micro(t1) <= tan_micro(t2) && dot > 0;
            }
        } else if dot < 0 {
            if t1 > 90 {
                lemma_tan_micro_mono(t1 - 90, t2 - 90);
                assert(tan_micro(t1 - 90) * cr <= tan_micro(t2 - 90) * cr) by (nonlinear_arith)
                    requires tan_micro(t1 - 90) <= tan_micro(t2 - 90) && cr >= 0;
            }
        }
    }
}

/// Exact evaluation of the angle filter.
pub fn angle_ok_at(a: &SegRec, b: &SegRec, atol: u32) -> (r: bool)
    requires
        seg_ok(*a),
        seg_ok(*b),
    ensures
        r == angle_ok(*a, *b, atol as int),
{
    let adx: i64 = a.bx - a.ax;
    let ady: i64 = a.by - a.ay;
    let bdx: i64 = b.bx - b.ax;
    let bdy: i64 = b.by - b.ay;
    let ux: i64 = if adx >= 0 { adx } else { -adx };
    let uy: i64 = if adx > 0 { ady } else if adx < 0 { -ady } else if ady != 0 { 1 } else { 0 };
    let vx: i64 = if bdx >= 0 { bdx } else { -bdx };
    let vy: i64 = if bdx > 0 { bdy } else if bdx < 0 { -bdy } else if bdy != 0 { 1 } else { 0 };
    assert(ux == dir_x(*a) && uy == dir_y(*a) && vx == dir_x(*b) && vy == dir_y(*b));
    if (ux == 0 && uy == 0) || (vx == 0 && vy == 0) {
        return false;
    }
    assert(
        -0x4000_0000_0000_0000 <= (ux as i128) * (vx as i128) <= 0x4000_0000_0000_0000
        && -0x4000_0000_0000_0000 <= (uy as i128) * (vy as i128) <= 0x4000_0000_0000_0000
        && -0x4000_0000_0000_0000 <= (ux as i128) * (vy as i128) <= 0x4000_0000_0000_0000
        && -0x4000_0000_0000_0000 <= (uy as i128) * (vx as i128) <= 0x4000_0000_0000_0000
    ) by (nonlinear_arith)
        requires
            -2147483648 <= ux as i128 <= 2147483648,
            -2147483648 <= uy as i128 <= 2147483648,
            -2147483648 <= vx as i128 <= 2147483648,
            -2147483648 <= vy as i128 <= 2147483648;
    let dot: i128 = (ux as i128) * (vx as i128) + (uy as i128) * (vy as i128);
    let crs: i128 = (ux as i128) * (vy as i128) - (uy as i128) * (vx as i128);
    let cr: i128 = if crs >= 0 { crs } else { -crs };
    if atol >= 180 {
        true
    } else if dot > 0 {
        if atol >= 90 {
            true
        } else {
            let lhs: i128 = cr * 1000000;
            let tt: u64 = tan_micro_x(atol);
            assert(0 <= (tt as i128) * dot <= 0x1000_0000_0000_0000_0000_0000) by (nonlinear_arith)
                requires 0 <= tt as i128 <= 57289962 && 0 < dot <= 0x8000_0000_0000_0000;
            lhs < (tt as i128) * dot
        }
    } else if dot == 0 {
        atol > 90
    } else {
        if atol > 90 {
            let lhs: i128 = (-dot) * 1000000;
            let tt: u64 = tan_micro_x(atol - 90);
            assert(0 <= (tt as i128) * cr <= 0x1000_0000_0000_0000_0000_0000) by (nonlinear_arith)
                requires 0 <= tt as i128 <= 57289962 && 0 <= cr <= 0x8000_0000_0000_0000;
            lhs < (tt as i128) * cr
        } else {
            false
        }
    }
}

} // verus!
