//! The candidate filter and the order-free double sum that defines each
//! matched pair's total shared length.

use crate::angle::{angle_ok, lemma_angle_ok_mono, lemma_angle_ok_sym};
use crate::geom::{
    contribution, expand_env, lemma_contribution_cap, pt_seg_within, ranges_overlap,
    rects_intersect, seg_len, seg_ok, segs_within, tight_env, EnvRect, SegRec, COORD_LIMIT,
};
use vstd::prelude::*;

verus! {

/// The matching filter for one segment pair: the angle filter, the tight
/// axis-overlap filter and the exact distance filter, together with the
/// candidacy condition the spatial index enforces — the source segment's
/// tight envelope meets the target segment's tolerance-expanded envelope.
/// Candidate pairs reach the filters only through the index's enumeration,
/// so candidacy is part of what it means for a pair to match.
pub open spec fn passes(a: SegRec, b: SegRec, dtol: int, atol: int) -> bool {
    let ea: EnvRect = tight_env(a);
    let eb: EnvRect = tight_env(b);
    &&& angle_ok(a, b, atol)
    &&& (ranges_overlap(ea.min_x as int, ea.max_x as int, eb.min_x as int, eb.max_x as int)
        || ranges_overlap(ea.min_y as int, ea.max_y as int, eb.min_y as int, eb.max_y as int))
    &&& segs_within(a, b, dtol)
    &&& rects_intersect(ea, expand_env(eb, dtol))
}

/// Whether index pair (p, q) is an accepted candidate pair of the two
/// segment lists.
pub open spec fn pair_passes(
    ss: Seq<SegRec>,
    ts: Seq<SegRec>,
    dtol: int,
    atol: int,
    p: int,
    q: int,
) -> bool {
    0 <= p < ss.len() && 0 <= q < ts.len() && passes(ss[p], ts[q], dtol, atol)
}

/// The set of all accepted candidate index pairs.
pub open spec fn passing_pairs(ss: Seq<SegRec>, ts: Seq<SegRec>, dtol: int, atol: int) -> Set<
    (int, int),
> {
    Set::new(|pq: (int, int)| pair_passes(ss, ts, dtol, atol, pq.0, pq.1))
}

/// The contribution of segment pair (p, q) to the matched total of source
/// polyline `i` and target polyline `j`, counted only when (p, q) lies in
/// `s`.
pub open spec fn cell(
    s: Set<(int, int)>,
    ss: Seq<SegRec>,
    ts: Seq<SegRec>,
    i: int,
    j: int,
    p: int,
    q: int,
) -> int {
    if s.contains((p, q)) && 0 <= p < ss.len() && 0 <= q < ts.len() && ss[p].poly == i
        && ts[q].poly == j {
        contribution(ss[p], ts[q])
    } else {
        0
    }
}

/// Sum of `cell` over target-segment indices below `q`, at fixed `p`.
pub open spec fn row_sum(
    s: Set<(int, int)>,
    ss: Seq<SegRec>,
    ts: Seq<SegRec>,
    i: int,
    j: int,
    p: int,
    q: int,
) -> int
    decreases q,
{
    if q <= 0 {
        0
    } else {
        row_sum(s, ss, ts, i, j, p, q - 1) + cell(s, ss, ts, i, j, p, q - 1)
    }
}

/// Sum of `row_sum` over source-segment indices below `p`.
pub open spec fn grid_sum(
    s: Set<(int, int)>,
    ss: Seq<SegRec>,
    ts: Seq<SegRec>,
    i: int,
    j: int,
    p: int,
) -> int
    decreases p,
{
    if p <= 0 {
        0
    } else {
        grid_sum(s, ss, ts, i, j, p - 1) + row_sum(s, ss, ts, i, j, p - 1, ts.len() as int)
    }
}

/// Total shared length of (source polyline i, target polyline j) over the
/// pairs in `s`.
pub open spec fn shared_sum(
    s: Set<(int, int)>,
    ss: Seq<SegRec>,
    ts: Seq<SegRec>,
    i: int,
    j: int,
) -> int {
    grid_sum(s, ss, ts, i, j, ss.len() as int)
}

/// Total shared length of (source polyline i, target polyline j) over every
/// accepted candidate pair: the quantity `find_matches` computes.
pub open spec fn shared_total(
    ss: Seq<SegRec>,
    ts: Seq<SegRec>,
    dtol: int,
    atol: int,
    i: int,
    j: int,
) -> int {
    shared_sum(passing_pairs(ss, ts, dtol, atol), ss, ts, i, j)
}

// ---------------------------------------------------------------------------
// Summation lemmas
// ---------------------------------------------------------------------------

proof fn lemma_row_insert(
    s: Set<(int, int)>,
    ss: Seq<SegRec>,
    ts: Seq<SegRec>,
    i: int,
    j: int,
    p: int,
    q: int,
    p0: int,
    q0: int,
)
    requires
        !s.contains((p0, q0)),
    ensures
        row_sum(s.insert((p0, q0)), ss, ts, i, j, p, q) == row_sum(s, ss, ts, i, j, p, q) + (
        if p0 == p && 0 <= q0 < q {
            cell(s.insert((p0, q0)), ss, ts, i, j, p0, q0)
        } else {
            0
        }),
    decreases q,
{
    if q > 0 {
        lemma_row_insert(s, ss, ts, i, j, p, q - 1, p0, q0);
    }
}

proof fn lemma_grid_insert(
    s: Set<(int, int)>,
    ss: Seq<SegRec>,
    ts: Seq<SegRec>,
    i: int,
    j: int,
    p: int,
    p0: int,
    q0: int,
)
    requires
        !s.contains((p0, q0)),
    ensures
        grid_sum(s.insert((p0, q0)), ss, ts, i, j, p) == grid_sum(s, ss, ts, i, j, p) + (
        if 0 <= p0 < p && 0 <= q0 < ts.len() {
            cell(s.insert((p0, q0)), ss, ts, i, j, p0, q0)
        } else {
            0
        }),
    decreases p,
{
    if p > 0 {
        lemma_grid_insert(s, ss, ts, i, j, p - 1, p0, q0);
        lemma_row_insert(s, ss, ts, i, j, p - 1, ts.len() as int, p0, q0);
    }
}

/// Adding one fresh pair to `s` raises exactly one (i, j) total, by that
/// pair's contribution.
pub proof fn lemma_shared_insert(
    s: Set<(int, int)>,
    ss: Seq<SegRec>,
    ts: Seq<SegRec>,
    i: int,
    j: int,
    p0: int,
    q0: int,
)
    requires
        !s.contains((p0, q0)),
        0 <= p0 < ss.len(),
        0 <= q0 < ts.len(),
    ensures
        shared_sum(s.insert((p0, q0)), ss, ts, i, j) == shared_sum(s, ss, ts, i, j) + cell(
            s.insert((p0, q0)),
            ss,
            ts,
            i,
            j,
            p0,
            q0,
        ),
{
    lemma_grid_insert(s, ss, ts, i, j, ss.len() as int, p0, q0);
}

proof fn lemma_row_mono(
    s1: Set<(int, int)>,
    s2: Set<(int, int)>,
    ss: Seq<SegRec>,
    ts: Seq<SegRec>,
    i: int,
    j: int,
    p: int,
    q: int,
)
    requires
        s1.subset_of(s2),
        forall|k: int| 0 <= k < ss.len() ==> seg_ok(ss[k]),
        forall|k: int| 0 <= k < ts.len() ==> seg_ok(ts[k]),
    ensures
        row_sum(s1, ss, ts, i, j, p, q) <= row_sum(s2, ss, ts, i, j, p, q),
    decreases q,
{
    if q > 0 {
        lemma_row_mono(s1, s2, ss, ts, i, j, p, q - 1);
        if s2.contains((p, q - 1)) && 0 <= p < ss.len() && 0 <= q - 1 < ts.len() && ss[p].poly == i
            && ts[q - 1].poly == j {
            lemma_contribution_cap(ss[p], ts[q - 1]);
        }
    }
}

proof fn lemma_grid_mono(
    s1: Set<(int, int)>,
    s2: Set<(int, int)>,
    ss: Seq<SegRec>,
    ts: Seq<SegRec>,
    i: int,
    j: int,
    p: int,
)
    requires
        s1.subset_of(s2),
        forall|k: int| 0 <= k < ss.len() ==> seg_ok(ss[k]),
        forall|k: int| 0 <= k < ts.len() ==> seg_ok(ts[k]),
    ensures
        grid_sum(s1, ss, ts, i, j, p) <= grid_sum(s2, ss, ts, i, j, p),
    decreases p,
{
    if p > 0 {
        lemma_grid_mono(s1, s2, ss, ts, i, j, p - 1);
        lemma_row_mono(s1, s2, ss, ts, i, j, p - 1, ts.len() as int);
    }
}

/// A larger pair set can only raise a total.
pub proof fn lemma_shared_mono(
    s1: Set<(int, int)>,
    s2: Set<(int, int)>,
    ss: Seq<SegRec>,
    ts: Seq<SegRec>,
    i: int,
    j: int,
)
    requires
        s1.subset_of(s2),
        forall|k: int| 0 <= k < ss.len() ==> seg_ok(ss[k]),
        forall|k: int| 0 <= k < ts.len() ==> seg_ok(ts[k]),
    ensures
        shared_sum(s1, ss, ts, i, j) <= shared_sum(s2, ss, ts, i, j),
{
    lemma_grid_mono(s1, s2, ss, ts, i, j, ss.len() as int);
}

proof fn lemma_row_zero(
    s: Set<(int, int)>,
    ss: Seq<SegRec>,
    ts: Seq<SegRec>,
    i: int,
    j: int,
    p: int,
    q: int,
)
    requires
        forall|p2: int, q2: int|
            s.contains((p2, q2)) && 0 <= p2 < ss.len() && 0 <= q2 < ts.len() ==> !(ss[p2].poly == i
                && ts[q2].poly == j),
    ensures
        row_sum(s, ss, ts, i, j, p, q) == 0,
    decreases q,
{
    if q > 0 {
        lemma_row_zero(s, ss, ts, i, j, p, q - 1);
    }
}

/// A total with no matched pair behind it is zero.
pub proof fn lemma_shared_zero(
    s: Set<(int, int)>,
    ss: Seq<SegRec>,
    ts: Seq<SegRec>,
    i: int,
    j: int,
    p: int,
)
    requires
        forall|p2: int, q2: int|
            s.contains((p2, q2)) && 0 <= p2 < ss.len() && 0 <= q2 < ts.len() ==> !(ss[p2].poly == i
                && ts[q2].poly == j),
    ensures
        grid_sum(s, ss, ts, i, j, p) == 0,
    decreases p,
{
    if p > 0 {
        lemma_shared_zero(s, ss, ts, i, j, p - 1);
        lemma_row_zero(s, ss, ts, i, j, p - 1, ts.len() as int);
    }
}

// ---------------------------------------------------------------------------
// Filter laws
// ---------------------------------------------------------------------------

/// The filter is symmetric: which collection plays source and which plays
/// target does not affect which segment pairs are accepted.
pub proof fn lemma_passes_sym(a: SegRec, b: SegRec, dtol: int, atol: int)
    requires
        seg_ok(a),
        seg_ok(b),
        0 <= dtol <= COORD_LIMIT,
    ensures
        passes(a, b, dtol, atol) == passes(b, a, dtol, atol),
{
    lemma_angle_ok_sym(a, b, atol);
}

/// The filter is monotone in both tolerances: widening either one never
/// rejects a pair it used to accept.
pub proof fn lemma_passes_mono(a: SegRec, b: SegRec, d1: int, d2: int, t1: int, t2: int)
    requires
        seg_ok(a),
        seg_ok(b),
        0 <= d1 <= d2 <= COORD_LIMIT,
        t1 <= t2,
        passes(a, b, d1, t1),
    ensures
        passes(a, b, d2, t2),
{
    lemma_angle_ok_mono(a, b, t1, t2);
    lemma_segs_within_mono(a, b, d1, d2);
}

/// Widening the distance tolerance keeps every pair the narrow tolerance
/// admitted.
pub proof fn lemma_segs_within_mono(a: SegRec, b: SegRec, d1: int, d2: int)
    requires
        seg_ok(a),
        seg_ok(b),
        0 <= d1 <= d2 <= COORD_LIMIT,
        segs_within(a, b, d1),
    ensures
        segs_within(a, b, d2),
{
    if pt_seg_within(a.ax as int, a.ay as int, b, d1) {
        lemma_pt_within_mono(a.ax as int, a.ay as int, b, d1, d2);
    }
    if pt_seg_within(a.bx as int, a.by as int, b, d1) {
        lemma_pt_within_mono(a.bx as int, a.by as int, b, d1, d2);
    }
    if pt_seg_within(b.ax as int, b.ay as int, a, d1) {
        lemma_pt_within_mono(b.ax as int, b.ay as int, a, d1, d2);
    }
    if pt_seg_within(b.bx as int, b.by as int, a, d1) {
        lemma_pt_within_mono(b.bx as int, b.by as int, a, d1, d2);
    }
}

proof fn lemma_pt_within_mono(px: int, py: int, s: SegRec, d1: int, d2: int)
    requires
        0 <= d1 <= d2,
        pt_seg_within(px, py, s, d1),
    ensures
        pt_seg_within(px, py, s, d2),
{
    let vx: int = s.bx - s.ax;
    let vy: int = s.by - s.ay;
    let wx: int = px - s.ax;
    let wy: int = py - s.ay;
    let dot: int = vx * wx + vy * wy;
    let len2: int = vx * vx + vy * vy;
    assert(d1 * d1 <= d2 * d2) by (nonlinear_arith)
        requires 0 <= d1 <= d2;
    assert(vx * vx >= 0 && vy * vy >= 0) by (nonlinear_arith);
    if len2 != 0 && !(dot < 0) && !(dot > len2) {
        assert(d1 * d1 * len2 <= d2 * d2 * len2) by (nonlinear_arith)
            requires d1 * d1 <= d2 * d2 && len2 >= 0;
    }
}

// ---------------------------------------------------------------------------
// Relabeling: splitting a source polyline
// ---------------------------------------------------------------------------

/// Two segments with the same endpoints, whatever their owners.
pub open spec fn same_coords(a: SegRec, b: SegRec) -> bool {
    a.ax == b.ax && a.ay == b.ay && a.bx == b.bx && a.by == b.by
}

/// The shared-length estimate reads only the endpoints: the owning
/// polyline's index never enters it.
pub proof fn lemma_contribution_ignores_poly(a1: SegRec, a2: SegRec, b: SegRec)
    requires
        same_coords(a1, a2),
    ensures
        contribution(a1, b) == contribution(a2, b),
{
    assert(crate::geom::seg_sq(a1) == crate::geom::seg_sq(a2));
    assert(tight_env(a1) == tight_env(a2));
}

/// The filter reads only the endpoints: the owning polyline's index never
/// enters it.
pub proof fn lemma_passes_ignores_poly(a1: SegRec, a2: SegRec, b: SegRec, dtol: int, atol: int)
    requires
        same_coords(a1, a2),
    ensures
        passes(a1, b, dtol, atol) == passes(a2, b, dtol, atol),
{
    assert(crate::angle::dir_x(a1) == crate::angle::dir_x(a2));
    assert(crate::angle::dir_y(a1) == crate::angle::dir_y(a2));
    assert(tight_env(a1) == tight_env(a2));
    assert(crate::geom::segs_intersect(a1, b) == crate::geom::segs_intersect(a2, b));
}

/// `ss2` is `ss` with polyline `i`'s segments repartitioned between the two
/// fresh labels `i1` and `i2`, all endpoints unchanged.
pub open spec fn relabels_split(ss: Seq<SegRec>, ss2: Seq<SegRec>, i: int, i1: int, i2: int) -> bool {
    &&& ss.len() == ss2.len()
    &&& i1 != i2
    &&& forall|p: int| 0 <= p < ss.len() ==> same_coords(#[trigger] ss[p], ss2[p])
    &&& forall|p: int|
        0 <= p < ss.len() ==> ((#[trigger] ss[p]).poly == i <==> (ss2[p].poly == i1 || ss2[p].poly
            == i2))
    &&& forall|p: int|
        0 <= p < ss.len() && (#[trigger] ss[p]).poly != i ==> ss2[p].poly == ss[p].poly
            && ss[p].poly != i1 && ss[p].poly != i2
}

proof fn lemma_row_split(
    s: Set<(int, int)>,
    ss: Seq<SegRec>,
    ss2: Seq<SegRec>,
    ts: Seq<SegRec>,
    i: int,
    i1: int,
    i2: int,
    j: int,
    p: int,
    q: int,
)
    requires
        relabels_split(ss, ss2, i, i1, i2),
    ensures
        row_sum(s, ss2, ts, i1, j, p, q) + row_sum(s, ss2, ts, i2, j, p, q) == row_sum(
            s,
            ss,
            ts,
            i,
            j,
            p,
            q,
        ),
    decreases q,
{
    if q > 0 {
        lemma_row_split(s, ss, ss2, ts, i, i1, i2, j, p, q - 1);
        if 0 <= p < ss.len() && 0 <= q - 1 < ts.len() {
            lemma_contribution_ignores_poly(ss[p], ss2[p], ts[q - 1]);
        }
    }
}

proof fn lemma_grid_split(
    s: Set<(int, int)>,
    ss: Seq<SegRec>,
    ss2: Seq<SegRec>,
    ts: Seq<SegRec>,
    i: int,
    i1: int,
    i2: int,
    j: int,
    p: int,
)
    requires
        relabels_split(ss, ss2, i, i1, i2),
    ensures
        grid_sum(s, ss2, ts, i1, j, p) + grid_sum(s, ss2, ts, i2, j, p) == grid_sum(
            s,
            ss,
            ts,
            i,
            j,
            p,
        ),
    decreases p,
{
    if p > 0 {
        lemma_grid_split(s, ss, ss2, ts, i, i1, i2, j, p - 1);
        lemma_row_split(s, ss, ss2, ts, i, i1, i2, j, p - 1, ts.len() as int);
    }
}

proof fn lemma_row_same(
    s: Set<(int, int)>,
    ss: Seq<SegRec>,
    ss2: Seq<SegRec>,
    ts: Seq<SegRec>,
    i: int,
    i1: int,
    i2: int,
    io: int,
    j: int,
    p: int,
    q: int,
)
    requires
        relabels_split(ss, ss2, i, i1, i2),
        io != i && io != i1 && io != i2,
    ensures
        row_sum(s, ss2, ts, io, j, p, q) == row_sum(s, ss, ts, io, j, p, q),
    decreases q,
{
    if q > 0 {
        lemma_row_same(s, ss, ss2, ts, i, i1, i2, io, j, p, q - 1);
        if 0 <= p < ss.len() && 0 <= q - 1 < ts.len() {
            lemma_contribution_ignores_poly(ss[p], ss2[p], ts[q - 1]);
        }
    }
}

proof fn lemma_grid_same(
    s: Set<(int, int)>,
    ss: Seq<SegRec>,
    ss2: Seq<SegRec>,
    ts: Seq<SegRec>,
    i: int,
    i1: int,
    i2: int,
    io: int,
    j: int,
    p: int,
)
    requires
        relabels_split(ss, ss2, i, i1, i2),
        io != i && io != i1 && io != i2,
    ensures
        grid_sum(s, ss2, ts, io, j, p) == grid_sum(s, ss, ts, io, j, p),
    decreases p,
{
    if p > 0 {
        lemma_grid_same(s, ss, ss2, ts, i, i1, i2, io, j, p - 1);
        lemma_row_same(s, ss, ss2, ts, i, i1, i2, io, j, p - 1, ts.len() as int);
    }
}

/// The two halves of a split polyline pass the filters exactly as the whole
/// did, so the accepted pair sets agree.
pub proof fn lemma_passing_pairs_split(
    ss: Seq<SegRec>,
    ss2: Seq<SegRec>,
    ts: Seq<SegRec>,
    dtol: int,
    atol: int,
    i: int,
    i1: int,
    i2: int,
)
    requires
        relabels_split(ss, ss2, i, i1, i2),
    ensures
        passing_pairs(ss2, ts, dtol, atol) == passing_pairs(ss, ts, dtol, atol),
{
    let s1 = passing_pairs(ss, ts, dtol, atol);
    let s2 = passing_pairs(ss2, ts, dtol, atol);
    assert forall|pq: (int, int)| #[trigger] s1.contains(pq) == s2.contains(pq) by {
        if 0 <= pq.0 < ss.len() && 0 <= pq.1 < ts.len() {
            lemma_passes_ignores_poly(ss[pq.0], ss2[pq.0], ts[pq.1], dtol, atol);
        }
    }
    assert(s1 =~= s2);
}

/// Splitting a source polyline's segments between two fresh labels splits
/// each target's total shared length additively and leaves every other
/// source polyline's total unchanged, over any pair set.
pub proof fn lemma_shared_sum_split(
    s: Set<(int, int)>,
    ss: Seq<SegRec>,
    ss2: Seq<SegRec>,
    ts: Seq<SegRec>,
    i: int,
    i1: int,
    i2: int,
    io: int,
    j: int,
)
    requires
        relabels_split(ss, ss2, i, i1, i2),
    ensures
        shared_sum(s, ss2, ts, i1, j) + shared_sum(s, ss2, ts, i2, j) == shared_sum(
            s,
            ss,
            ts,
            i,
            j,
        ),
        io != i && io != i1 && io != i2 ==> shared_sum(s, ss2, ts, io, j) == shared_sum(
            s,
            ss,
            ts,
            io,
            j,
        ),
{
    lemma_grid_split(s, ss, ss2, ts, i, i1, i2, j, ss.len() as int);
    if io != i && io != i1 && io != i2 {
        lemma_grid_same(s, ss, ss2, ts, i, i1, i2, io, j, ss.len() as int);
    }
}

// ---------------------------------------------------------------------------
// Conservation: shared length against the source polyline's own length
// ---------------------------------------------------------------------------

/// Sum of the segment lengths that polyline `i` owns among the first `p`
/// segments of `ss`.
pub open spec fn seg_len_sum(ss: Seq<SegRec>, i: int, p: int) -> int
    decreases p,
{
    if p <= 0 {
        0
    } else {
        seg_len_sum(ss, i, p - 1) + (if 0 <= p - 1 < ss.len() && ss[p - 1].poly == i {
            seg_len(ss[p - 1])
        } else {
            0
        })
    }
}

/// At most one segment of target polyline `j` pairs with any one source
/// segment in `s`.
pub open spec fn at_most_one_partner(
    s: Set<(int, int)>,
    ts: Seq<SegRec>,
    j: int,
) -> bool {
    forall|p: int, q1: int, q2: int|
        #[trigger] s.contains((p, q1)) && #[trigger] s.contains((p, q2)) && 0 <= q1 < ts.len() && 0
            <= q2 < ts.len() && ts[q1].poly == j && ts[q2].poly == j ==> q1 == q2
}

proof fn lemma_row_zero_without_partner(
    s: Set<(int, int)>,
    ss: Seq<SegRec>,
    ts: Seq<SegRec>,
    i: int,
    j: int,
    p: int,
    q: int,
)
    requires
        forall|q0: int|
            0 <= q0 < q && #[trigger] s.contains((p, q0)) && q0 < ts.len() ==> ts[q0].poly != j,
    ensures
        row_sum(s, ss, ts, i, j, p, q) == 0,
    decreases q,
{
    if q > 0 {
        lemma_row_zero_without_partner(s, ss, ts, i, j, p, q - 1);
    }
}

proof fn lemma_row_conserved(
    s: Set<(int, int)>,
    ss: Seq<SegRec>,
    ts: Seq<SegRec>,
    i: int,
    j: int,
    p: int,
    q: int,
)
    requires
        at_most_one_partner(s, ts, j),
        forall|k: int| 0 <= k < ss.len() ==> seg_ok(#[trigger] ss[k]),
        forall|k: int| 0 <= k < ts.len() ==> seg_ok(#[trigger] ts[k]),
        q <= ts.len(),
    ensures
        row_sum(s, ss, ts, i, j, p, q) <= (if 0 <= p < ss.len() && ss[p].poly == i {
            seg_len(ss[p])
        } else {
            0
        }),
    decreases q,
{
    if q > 0 {
        lemma_row_conserved(s, ss, ts, i, j, p, q - 1);
        if s.contains((p, q - 1)) && 0 <= p < ss.len() && 0 <= q - 1 < ts.len() && ss[p].poly == i
            && ts[q - 1].poly == j {
            lemma_contribution_cap(ss[p], ts[q - 1]);
            assert forall|q0: int|
                0 <= q0 < q - 1 && #[trigger] s.contains((p, q0)) && q0 < ts.len() implies ts[q0].poly
                != j by {
                if ts[q0].poly == j {
                    assert(s.contains((p, q0)) && s.contains((p, q - 1)));
                }
            }
            lemma_row_zero_without_partner(s, ss, ts, i, j, p, q - 1);
        } else {
            if 0 <= p < ss.len() && ss[p].poly == i {
                lemma_contribution_cap(ss[p], ss[p]);
                lemma_sqrt_nonneg_for(ss[p]);
            }
        }
    } else {
        if 0 <= p < ss.len() && ss[p].poly == i {
            lemma_sqrt_nonneg_for(ss[p]);
        }
    }
}

proof fn lemma_sqrt_nonneg_for(a: SegRec)
    requires
        seg_ok(a),
    ensures
        seg_len(a) >= 0,
{
    lemma_contribution_cap(a, a);
}

proof fn lemma_grid_conserved(
    s: Set<(int, int)>,
    ss: Seq<SegRec>,
    ts: Seq<SegRec>,
    i: int,
    j: int,
    p: int,
)
    requires
        at_most_one_partner(s, ts, j),
        forall|k: int| 0 <= k < ss.len() ==> seg_ok(#[trigger] ss[k]),
        forall|k: int| 0 <= k < ts.len() ==> seg_ok(#[trigger] ts[k]),
    ensures
        grid_sum(s, ss, ts, i, j, p) <= seg_len_sum(ss, i, p),
    decreases p,
{
    if p > 0 {
        lemma_grid_conserved(s, ss, ts, i, j, p - 1);
        lemma_row_conserved(s, ss, ts, i, j, p - 1, ts.len() as int);
    }
}

/// Conservation over any pair set in which each source segment has at most
/// one partner among target `j`'s segments: the accumulated shared length of
/// (i, j) never exceeds the summed length of polyline `i`'s own segments.
pub proof fn lemma_shared_sum_conserved(
    s: Set<(int, int)>,
    ss: Seq<SegRec>,
    ts: Seq<SegRec>,
    i: int,
    j: int,
)
    requires
        at_most_one_partner(s, ts, j),
        forall|k: int| 0 <= k < ss.len() ==> seg_ok(#[trigger] ss[k]),
        forall|k: int| 0 <= k < ts.len() ==> seg_ok(#[trigger] ts[k]),
    ensures
        shared_sum(s, ss, ts, i, j) <= seg_len_sum(ss, i, ss.len() as int),
{
    lemma_grid_conserved(s, ss, ts, i, j, ss.len() as int);
}

} // verus!
