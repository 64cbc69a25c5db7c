//! Collection-level laws of the matching engine: symmetry of ingestion and
//! monotonicity in the tolerances.

use crate::geom::{seg_ok, SegRec, COORD_LIMIT};
use crate::matching::pair_for;
use crate::sums::{
    at_most_one_partner, lemma_passes_mono, lemma_passes_sym, lemma_passing_pairs_split,
    lemma_shared_mono, lemma_shared_sum_conserved, lemma_shared_sum_split, pair_passes,
    passing_pairs, relabels_split, seg_len_sum, shared_total,
};
use vstd::prelude::*;

verus! {

/// Law: matching is symmetric in the two collections. Source polyline `i`
/// matches target polyline `j` exactly when, with the collections swapped
/// and the same tolerances, `j` matches `i`: swapping source and target and
/// swapping each resulting triple gives the original matched pairs.
pub proof fn lemma_match_symmetry(
    ss: Seq<SegRec>,
    ts: Seq<SegRec>,
    dtol: int,
    atol: int,
    i: int,
    j: int,
)
    requires
        forall|k: int| 0 <= k < ss.len() ==> seg_ok(#[trigger] ss[k]),
        forall|k: int| 0 <= k < ts.len() ==> seg_ok(#[trigger] ts[k]),
        0 <= dtol <= COORD_LIMIT,
    ensures
        pair_for(passing_pairs(ss, ts, dtol, atol), ss, ts, i, j) <==> pair_for(
            passing_pairs(ts, ss, dtol, atol),
            ts,
            ss,
            j,
            i,
        ),
{
    if pair_for(passing_pairs(ss, ts, dtol, atol), ss, ts, i, j) {
        let pq = choose|pq: (int, int)|
            #[trigger] passing_pairs(ss, ts, dtol, atol).contains(pq) && 0 <= pq.0 < ss.len() && 0
                <= pq.1 < ts.len() && ss[pq.0].poly == i && ts[pq.1].poly == j;
        lemma_passes_sym(ss[pq.0], ts[pq.1], dtol, atol);
        assert(pair_passes(ts, ss, dtol, atol, pq.1, pq.0));
        assert(passing_pairs(ts, ss, dtol, atol).contains((pq.1, pq.0)));
    }
    if pair_for(passing_pairs(ts, ss, dtol, atol), ts, ss, j, i) {
        let pq = choose|pq: (int, int)|
            #[trigger] passing_pairs(ts, ss, dtol, atol).contains(pq) && 0 <= pq.0 < ts.len() && 0
                <= pq.1 < ss.len() && ts[pq.0].poly == j && ss[pq.1].poly == i;
        lemma_passes_sym(ts[pq.0], ss[pq.1], dtol, atol);
        assert(pair_passes(ss, ts, dtol, atol, pq.1, pq.0));
        assert(passing_pairs(ss, ts, dtol, atol).contains((pq.1, pq.0)));
    }
}

/// Law: widening either tolerance can only add matched pairs and can only
/// raise every accumulated shared-length total; narrowing can only remove
/// and lower.
pub proof fn lemma_tolerance_monotone(
    ss: Seq<SegRec>,
    ts: Seq<SegRec>,
    d1: int,
    d2: int,
    t1: int,
    t2: int,
    i: int,
    j: int,
)
    requires
        forall|k: int| 0 <= k < ss.len() ==> seg_ok(#[trigger] ss[k]),
        forall|k: int| 0 <= k < ts.len() ==> seg_ok(#[trigger] ts[k]),
        0 <= d1 <= d2 <= COORD_LIMIT,
        t1 <= t2,
    ensures
        shared_total(ss, ts, d1, t1, i, j) <= shared_total(ss, ts, d2, t2, i, j),
        pair_for(passing_pairs(ss, ts, d1, t1), ss, ts, i, j) ==> pair_for(
            passing_pairs(ss, ts, d2, t2),
            ss,
            ts,
            i,
            j,
        ),
{
    let s1 = passing_pairs(ss, ts, d1, t1);
    let s2 = passing_pairs(ss, ts, d2, t2);
    assert forall|pq: (int, int)| #[trigger] s1.contains(pq) implies s2.contains(pq) by {
        lemma_passes_mono(ss[pq.0], ts[pq.1], d1, d2, t1, t2);
    }
    lemma_shared_mono(s1, s2, ss, ts, i, j);
    if pair_for(s1, ss, ts, i, j) {
        let pq = choose|pq: (int, int)|
            #[trigger] s1.contains(pq) && 0 <= pq.0 < ss.len() && 0 <= pq.1 < ts.len()
                && ss[pq.0].poly == i && ts[pq.1].poly == j;
        assert(s2.contains(pq));
    }
}

/// Law: shared length is additive under a source split. When one source
/// polyline's segments are repartitioned between two fresh polyline labels
/// — as happens when a polyline is split at one of its vertices — every
/// target's total shared length with the two pieces sums to its total with
/// the original, and every other source polyline's totals are untouched.
///
/// The extensive interpolation output itself is not preserved by a split:
/// its weights divide by each piece's own length, so a piece that is
/// entirely matched transfers its whole value where the unsplit polyline
/// transferred only a fraction.
pub proof fn lemma_split_additivity(
    ss: Seq<SegRec>,
    ss2: Seq<SegRec>,
    ts: Seq<SegRec>,
    dtol: int,
    atol: int,
    i: int,
    i1: int,
    i2: int,
    io: int,
    j: int,
)
    requires
        relabels_split(ss, ss2, i, i1, i2),
    ensures
        shared_total(ss2, ts, dtol, atol, i1, j) + shared_total(ss2, ts, dtol, atol, i2, j)
            == shared_total(ss, ts, dtol, atol, i, j),
        io != i && io != i1 && io != i2 ==> shared_total(ss2, ts, dtol, atol, io, j)
            == shared_total(ss, ts, dtol, atol, io, j),
{
    lemma_passing_pairs_split(ss, ss2, ts, dtol, atol, i, i1, i2);
    lemma_shared_sum_split(
        passing_pairs(ss, ts, dtol, atol),
        ss,
        ss2,
        ts,
        i,
        i1,
        i2,
        io,
        j,
    );
}

/// Law: extensive transfer conserves each source's total. When no source
/// segment is co-located with more than one segment of target `j`, the
/// accumulated shared length of (source polyline i, target j) is at most the
/// summed length of polyline i's own segments — so the extensive weight
/// shared length over source length never exceeds one. A target that doubles
/// back over the same source segment can break the hypothesis and count that
/// segment more than once.
pub proof fn lemma_extensive_conservation(
    ss: Seq<SegRec>,
    ts: Seq<SegRec>,
    dtol: int,
    atol: int,
    i: int,
    j: int,
)
    requires
        forall|k: int| 0 <= k < ss.len() ==> seg_ok(#[trigger] ss[k]),
        forall|k: int| 0 <= k < ts.len() ==> seg_ok(#[trigger] ts[k]),
        at_most_one_partner(passing_pairs(ss, ts, dtol, atol), ts, j),
    ensures
        shared_total(ss, ts, dtol, atol, i, j) <= seg_len_sum(ss, i, ss.len() as int),
{
    lemma_shared_sum_conserved(passing_pairs(ss, ts, dtol, atol), ss, ts, i, j);
}

} // verus!
