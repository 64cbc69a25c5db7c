//! The interpolation engine: extensive (length-weighted sum) and intensive
//! (length-weighted mean) transfer of per-source attribute values onto the
//! matched targets.

use crate::matching::{
    lemma_list_le_lists, lemma_list_member_le, lemma_list_sum_nonneg, lemma_lists_sum_nonneg,
    list_ok, list_sum, matches_view, Anime, MatchCandidate, SHARED_SUM_CAP,
};
use crate::AnimeError;
use vstd::arithmetic::div_mod::{
    lemma_div_is_ordered, lemma_div_multiples_vanish, lemma_div_nonincreasing,
};
use vstd::prelude::*;

verus! {

/// Largest attribute magnitude interpolation accepts (2^30): with it, every
/// weighted sum stays inside 128-bit arithmetic.
pub const VAL_LIMIT: i64 = 1073741824;

/// Intensive or extensive interpolation.
///
/// Extensive interpolation treats the attribute as a total: each source's
/// value is scaled by the fraction of that source's length shared with the
/// target, and the scaled values are summed.
///
/// Intensive interpolation treats the attribute as a density: the matched
/// sources' values are averaged, weighted by shared length.
pub enum Tensive {
    In,
    Ex,
}

/// Division that rounds toward zero, as the machine division does; zero for
/// a non-positive divisor.
pub open spec fn div_trunc(a: int, b: int) -> int {
    if b <= 0 {
        0
    } else if a >= 0 {
        a / b
    } else {
        -((-a) / b)
    }
}

/// Truncating division never grows the magnitude.
proof fn lemma_div_trunc_le(a: int, b: int)
    requires
        b > 0,
    ensures
        a >= 0 ==> 0 <= div_trunc(a, b) <= a,
        a < 0 ==> a <= div_trunc(a, b) <= 0,
{
    if a >= 0 {
        lemma_div_nonincreasing(a, b);
        lemma_div_is_ordered(0, a, b);
    } else {
        lemma_div_nonincreasing(-a, b);
        lemma_div_is_ordered(0, -a, b);
    }
}

/// Bounds transfer through truncating division: if `lo * b <= a <= hi * b`
/// then the quotient lies in [lo, hi].
pub proof fn lemma_div_trunc_bounds(a: int, b: int, lo: int, hi: int)
    requires
        b > 0,
        lo * b <= a,
        a <= hi * b,
    ensures
        lo <= div_trunc(a, b) <= hi,
{
    if a >= 0 {
        lemma_div_is_ordered(lo * b, a, b);
        lemma_div_is_ordered(a, hi * b, b);
        lemma_div_multiples_vanish(lo, b);
        lemma_div_multiples_vanish(hi, b);
        assert(lo * b == b * lo) by (nonlinear_arith);
        assert(hi * b == b * hi) by (nonlinear_arith);
        lemma_div_trunc_le(a, b);
    } else {
        // a < 0: div_trunc(a, b) == -((-a) / b)
        lemma_div_is_ordered(-a, -(lo * b), b);
        lemma_div_multiples_vanish(-lo, b);
        assert(-(lo * b) == b * (-lo)) by (nonlinear_arith);
        assert((-a) / b <= -lo);
        lemma_div_trunc_le(a, b);
        if hi < 0 {
            lemma_div_is_ordered(-(hi * b), -a, b);
            lemma_div_multiples_vanish(-hi, b);
            assert(-(hi * b) == b * (-hi)) by (nonlinear_arith);
            assert(-hi <= (-a) / b);
        }
    }
}

/// Truncating division on machine integers.
fn div_trunc_i(a: i128, b: u128) -> (r: i128)
    requires
        b > 0,
        -0x4000_0000_0000_0000_0000_0000_0000_0000 <= a,
        a <= 0x4000_0000_0000_0000_0000_0000_0000_0000,
    ensures
        r == div_trunc(a as int, b as int),
        a >= 0 ==> 0 <= r <= a,
        a < 0 ==> a <= r <= 0,
{
    proof {
        lemma_div_trunc_le(a as int, b as int);
    }
    if a >= 0 {
        ((a as u128) / b) as i128
    } else {
        let neg: u128 = (-a) as u128;
        -((neg / b) as i128)
    }
}

// ---------------------------------------------------------------------------
// Specification of the two transfers
// ---------------------------------------------------------------------------

/// One candidate's extensive term: the source value scaled by the shared
/// fraction of the source polyline's length. A zero-length source polyline
/// contributes nothing.
pub open spec fn ext_term(c: MatchCandidate, ys: Seq<i64>, lens: Seq<u128>) -> int {
    let i = c.source_index as int;
    if 0 <= i < lens.len() && i < ys.len() && lens[i] > 0 {
        div_trunc(ys[i] * c.shared_len, lens[i] as int)
    } else {
        0
    }
}

/// Extensive value of one target: the sum of its candidates' terms.
pub open spec fn ext_value(l: Seq<MatchCandidate>, ys: Seq<i64>, lens: Seq<u128>) -> int
    decreases l.len(),
{
    if l.len() == 0 {
        0
    } else {
        ext_value(l.drop_last(), ys, lens) + ext_term(l.last(), ys, lens)
    }
}

/// Shared-length-weighted sum of the source values of one target's
/// candidates: the intensive numerator.
pub open spec fn weighted_sum(l: Seq<MatchCandidate>, ys: Seq<i64>) -> int
    decreases l.len(),
{
    if l.len() == 0 {
        0
    } else {
        weighted_sum(l.drop_last(), ys) + (if 0 <= l.last().source_index < ys.len() {
            ys[l.last().source_index as int] * l.last().shared_len
        } else {
            0
        })
    }
}

/// Intensive value of one target: the weighted mean of its matched source
/// values, with the unnormalized shared lengths as weights; zero when no
/// shared length was accumulated.
pub open spec fn int_value(l: Seq<MatchCandidate>, ys: Seq<i64>) -> int {
    if list_sum(l) > 0 {
        div_trunc(weighted_sum(l, ys), list_sum(l))
    } else {
        0
    }
}

/// All attribute values within the fixed-point limit.
pub open spec fn vals_ok(ys: Seq<i64>) -> bool {
    forall|k: int| 0 <= k < ys.len() ==> -VAL_LIMIT <= #[trigger] ys[k] <= VAL_LIMIT
}

proof fn lemma_list_sum_take(l: Seq<MatchCandidate>, t: int)
    requires
        0 <= t < l.len(),
    ensures
        list_sum(l.take(t + 1)) == list_sum(l.take(t)) + l[t].shared_len,
{
    assert(l.take(t + 1).drop_last() =~= l.take(t));
    assert(l.take(t + 1).last() == l[t]);
}

proof fn lemma_list_sum_take_le(l: Seq<MatchCandidate>, t: int)
    requires
        0 <= t <= l.len(),
    ensures
        0 <= list_sum(l.take(t)) <= list_sum(l),
    decreases l.len() - t,
{
    lemma_list_sum_nonneg(l.take(t));
    if t == l.len() {
        assert(l.take(t) =~= l);
    } else {
        lemma_list_sum_take(l, t);
        lemma_list_sum_take_le(l, t + 1);
    }
}


proof fn lemma_weighted_sum_take(l: Seq<MatchCandidate>, ys: Seq<i64>, t: int)
    requires
        0 <= t < l.len(),
    ensures
        weighted_sum(l.take(t + 1), ys) == weighted_sum(l.take(t), ys) + (
        if 0 <= l[t].source_index < ys.len() {
            ys[l[t].source_index as int] * l[t].shared_len
        } else {
            0
        }),
{
    assert(l.take(t + 1).drop_last() =~= l.take(t));
    assert(l.take(t + 1).last() == l[t]);
}

proof fn lemma_ext_value_take(l: Seq<MatchCandidate>, ys: Seq<i64>, lens: Seq<u128>, t: int)
    requires
        0 <= t < l.len(),
    ensures
        ext_value(l.take(t + 1), ys, lens) == ext_value(l.take(t), ys, lens) + ext_term(
            l[t],
            ys,
            lens,
        ),
{
    assert(l.take(t + 1).drop_last() =~= l.take(t));
    assert(l.take(t + 1).last() == l[t]);
}

impl Anime {
    /// Extensive interpolation: for each target, sum over its candidates of
    /// the source value scaled by shared length over the source polyline's
    /// length, each term rounded toward zero. The output is dense: one value
    /// per target polyline, zero where nothing matched. Fails with
    /// `IncorrectLength` when the attribute vector does not have one value
    /// per source polyline, and with `MatchesNotFound` before `find_matches`
    /// has run.
    #[verifier::loop_isolation(false)]
    pub fn interpolate_extensive(&self, source_var: &Vec<i64>) -> (r: Result<
        Vec<i128>,
        AnimeError,
    >)
        requires
            self.wf(),
            vals_ok(source_var@),
        ensures
            r is Ok <==> (source_var@.len() == self.source_lens@.len() && self.is_matched()),
            source_var@.len() != self.source_lens@.len() ==> r == Err::<
                Vec<i128>,
                AnimeError,
            >(AnimeError::IncorrectLength),
            source_var@.len() == self.source_lens@.len() && !self.is_matched() ==> r == Err::<
                Vec<i128>,
                AnimeError,
            >(AnimeError::MatchesNotFound),
            r matches Ok(out) ==> self.matches matches Some(mm) && out@.len() == mm@.len()
                && forall|j: int|
                0 <= j < out@.len() ==> out@[j] == ext_value(
                    matches_view(mm@)[j],
                    source_var@,
                    self.source_lens@,
                ),
    {
        if source_var.len() != self.source_lens.len() {
            return Err(AnimeError::IncorrectLength);
        }
        let mlists: &Vec<Vec<MatchCandidate>> = match &self.matches {
            Some(mm) => mm,
            None => {
                return Err(AnimeError::MatchesNotFound);
            },
        };
        let ghost mv = matches_view(mlists@);
        let ghost ys = source_var@;
        let ghost lens = self.source_lens@;
        let ghost full = crate::sums::passing_pairs(
            self.source_segs@,
            self.target_segs@,
            self.distance_tolerance as int,
            self.angle_tolerance as int,
        );
        let ghost ns = self.source_lens@.len() as int;
        let mut out: Vec<i128> = Vec::new();
        let mut j: usize = 0;
        while j < mlists.len()
            invariant
                j <= mv.len(),
                out@.len() == j,
                forall|t: int| 0 <= t < j ==> out@[t] == ext_value(mv[t], ys, lens),
            decreases mv.len() - j,
        {
            let l: &Vec<MatchCandidate> = &mlists[j];
            proof {
                assert(l@ == mv[j as int]);
                assert(list_ok(mv[j as int], full, self.source_segs@, self.target_segs@, ns, j as int));
                lemma_list_le_lists(mv, j as int);
                lemma_lists_sum_nonneg(mv);
            }
            let mut acc: i128 = 0;
            let mut t: usize = 0;
            while t < l.len()
                invariant
                    t <= l@.len(),
                    acc == ext_value(l@.take(t as int), ys, lens),
                    -(VAL_LIMIT as int) * list_sum(l@.take(t as int)) <= acc,
                    acc <= (VAL_LIMIT as int) * list_sum(l@.take(t as int)),
                decreases l@.len() - t,
            {
                let c: MatchCandidate = l[t];
                let ghost pre = list_sum(l@.take(t as int));
                let ghost post = list_sum(l@.take(t as int + 1));
                proof {
                    lemma_list_member_le(l@, t as int);
                    lemma_list_sum_take(l@, t as int);
                    lemma_list_sum_take_le(l@, t as int);
                    lemma_list_sum_take_le(l@, t as int + 1);
                    lemma_ext_value_take(l@, ys, lens, t as int);
                }
                let i: usize = c.source_index;
                let sl: u128 = self.source_lens[i];
                let ghost sh = c.shared_len as int;
                let ghost y = ys[i as int] as int;
                proof {
                    assert(0 <= sh <= SHARED_SUM_CAP);
                    assert(-(VAL_LIMIT as int) * sh <= y * sh <= (VAL_LIMIT as int) * sh)
                        by (nonlinear_arith)
                        requires -(VAL_LIMIT as int) <= y <= VAL_LIMIT as int && 0 <= sh;
                    assert((VAL_LIMIT as int) * sh <= 1073741824 * 79228162514264337593543950336)
                        by (nonlinear_arith)
                        requires 0 <= sh <= 79228162514264337593543950336;
                    assert((VAL_LIMIT as int) * post == (VAL_LIMIT as int) * pre + (
                    VAL_LIMIT as int) * sh) by (nonlinear_arith)
                        requires post == pre + sh;
                    assert(0 <= (VAL_LIMIT as int) * pre && (VAL_LIMIT as int) * pre <= (
                    VAL_LIMIT as int) * post) by (nonlinear_arith)
                        requires 0 <= pre && pre <= post;
                    assert((VAL_LIMIT as int) * post <= 1073741824
                        * 79228162514264337593543950336) by (nonlinear_arith)
                        requires 0 <= post <= 79228162514264337593543950336;
                }
                let term: i128 = if sl > 0 {
                    let prod: i128 = (source_var[i] as i128) * (c.shared_len as i128);
                    div_trunc_i(prod, sl)
                } else {
                    0
                };
                assert(term == ext_term(c, ys, lens));
                acc = acc + term;
                t = t + 1;
            }
            proof {
                assert(l@.take(t as int) =~= l@);
            }
            out.push(acc);
            j = j + 1;
        }
        Ok(out)
    }

    /// Intensive interpolation: for each target, the weighted mean of its
    /// matched sources' values with the accumulated shared lengths as
    /// weights, rounded toward zero; zero where no shared length was
    /// accumulated. The output is dense: one value per target polyline.
    /// Fails with `IncorrectLength` when the attribute vector does not have
    /// one value per source polyline, and with `MatchesNotFound` before
    /// `find_matches` has run.
    #[verifier::loop_isolation(false)]
    pub fn interpolate_intensive(&self, source_var: &Vec<i64>) -> (r: Result<
        Vec<i128>,
        AnimeError,
    >)
        requires
            self.wf(),
            vals_ok(source_var@),
        ensures
            r is Ok <==> (source_var@.len() == self.source_lens@.len() && self.is_matched()),
            source_var@.len() != self.source_lens@.len() ==> r == Err::<
                Vec<i128>,
                AnimeError,
            >(AnimeError::IncorrectLength),
            source_var@.len() == self.source_lens@.len() && !self.is_matched() ==> r == Err::<
                Vec<i128>,
                AnimeError,
            >(AnimeError::MatchesNotFound),
            r matches Ok(out) ==> self.matches matches Some(mm) && out@.len() == mm@.len()
                && forall|j: int|
                0 <= j < out@.len() ==> out@[j] == int_value(matches_view(mm@)[j], source_var@),
    {
        if source_var.len() != self.source_lens.len() {
            return Err(AnimeError::IncorrectLength);
        }
        let mlists: &Vec<Vec<MatchCandidate>> = match &self.matches {
            Some(mm) => mm,
            None => {
                return Err(AnimeError::MatchesNotFound);
            },
        };
        let ghost mv = matches_view(mlists@);
        let ghost ys = source_var@;
        let ghost full = crate::sums::passing_pairs(
            self.source_segs@,
            self.target_segs@,
            self.distance_tolerance as int,
            self.angle_tolerance as int,
        );
        let ghost ns = self.source_lens@.len() as int;
        let mut out: Vec<i128> = Vec::new();
        let mut j: usize = 0;
        while j < mlists.len()
            invariant
                j <= mv.len(),
                out@.len() == j,
                forall|t: int| 0 <= t < j ==> out@[t] == int_value(mv[t], ys),
            decreases mv.len() - j,
        {
            let l: &Vec<MatchCandidate> = &mlists[j];
            proof {
                assert(l@ == mv[j as int]);
                assert(list_ok(mv[j as int], full, self.source_segs@, self.target_segs@, ns, j as int));
                lemma_list_le_lists(mv, j as int);
                lemma_lists_sum_nonneg(mv);
            }
            let mut num: i128 = 0;
            let mut den: u128 = 0;
            let mut t: usize = 0;
            while t < l.len()
                invariant
                    t <= l@.len(),
                    num == weighted_sum(l@.take(t as int), ys),
                    den == list_sum(l@.take(t as int)),
                    -(VAL_LIMIT as int) * list_sum(l@.take(t as int)) <= num,
                    num <= (VAL_LIMIT as int) * list_sum(l@.take(t as int)),
                decreases l@.len() - t,
            {
                let c: MatchCandidate = l[t];
                let ghost pre = list_sum(l@.take(t as int));
                let ghost post = list_sum(l@.take(t as int + 1));
                proof {
                    lemma_list_member_le(l@, t as int);
                    lemma_list_sum_take(l@, t as int);
                    lemma_list_sum_take_le(l@, t as int);
                    lemma_list_sum_take_le(l@, t as int + 1);
                    lemma_weighted_sum_take(l@, ys, t as int);
                }
                let i: usize = c.source_index;
                let ghost sh = c.shared_len as int;
                let ghost y = ys[i as int] as int;
                proof {
                    assert(0 <= sh <= SHARED_SUM_CAP);
                    assert(-(VAL_LIMIT as int) * sh <= y * sh <= (VAL_LIMIT as int) * sh)
                        by (nonlinear_arith)
                        requires -(VAL_LIMIT as int) <= y <= VAL_LIMIT as int && 0 <= sh;
                    assert((VAL_LIMIT as int) * sh <= 1073741824 * 79228162514264337593543950336)
                        by (nonlinear_arith)
                        requires 0 <= sh <= 79228162514264337593543950336;
                    assert((VAL_LIMIT as int) * post == (VAL_LIMIT as int) * pre + (
                    VAL_LIMIT as int) * sh) by (nonlinear_arith)
                        requires post == pre + sh;
                    assert(0 <= (VAL_LIMIT as int) * pre && (VAL_LIMIT as int) * pre <= (
                    VAL_LIMIT as int) * post) by (nonlinear_arith)
                        requires 0 <= pre && pre <= post;
                    assert((VAL_LIMIT as int) * post <= 1073741824
                        * 79228162514264337593543950336) by (nonlinear_arith)
                        requires 0 <= post <= 79228162514264337593543950336;
                }
                let w: i128 = (source_var[i] as i128) * (c.shared_len as i128);
                num = num + w;
                den = den + c.shared_len;
                t = t + 1;
            }
            proof {
                assert(l@.take(t as int) =~= l@);
            }
            let v: i128 = if den > 0 {
                div_trunc_i(num, den)
            } else {
                0
            };
            out.push(v);
            j = j + 1;
        }
        Ok(out)
    }

    /// Dispatch to intensive or extensive interpolation.
    pub fn interpolate(&self, source_var: &Vec<i64>, tensive: Tensive) -> (r: Result<
        Vec<i128>,
        AnimeError,
    >)
        requires
            self.wf(),
            vals_ok(source_var@),
        ensures
            r is Ok <==> (source_var@.len() == self.source_lens@.len() && self.is_matched()),
            source_var@.len() != self.source_lens@.len() ==> r == Err::<
                Vec<i128>,
                AnimeError,
            >(AnimeError::IncorrectLength),
            source_var@.len() == self.source_lens@.len() && !self.is_matched() ==> r == Err::<
                Vec<i128>,
                AnimeError,
            >(AnimeError::MatchesNotFound),
            r matches Ok(out) ==> self.matches matches Some(mm) && out@.len() == mm@.len()
                && forall|j: int|
                0 <= j < out@.len() ==> out@[j] == (match tensive {
                    Tensive::In => int_value(matches_view(mm@)[j], source_var@),
                    Tensive::Ex => ext_value(
                        matches_view(mm@)[j],
                        source_var@,
                        self.source_lens@,
                    ),
                }),
    {
        match tensive {
            Tensive::In => self.interpolate_intensive(source_var),
            Tensive::Ex => self.interpolate_extensive(source_var),
        }
    }
}

// ---------------------------------------------------------------------------
// The intensive bound
// ---------------------------------------------------------------------------

proof fn lemma_weighted_sum_bounds(l: Seq<MatchCandidate>, ys: Seq<i64>, lo: int, hi: int)
    requires
        forall|k: int| 0 <= k < l.len() ==> (#[trigger] l[k]).source_index < ys.len(),
        forall|k: int|
            0 <= k < l.len() ==> lo <= ys[(#[trigger] l[k]).source_index as int] <= hi,
    ensures
        lo * list_sum(l) <= weighted_sum(l, ys),
        weighted_sum(l, ys) <= hi * list_sum(l),
    decreases l.len(),
{
    if l.len() == 0 {
        assert(lo * 0 == 0) by (nonlinear_arith);
        assert(hi * 0 == 0) by (nonlinear_arith);
    } else {
        assert(forall|k: int| 0 <= k < l.drop_last().len() ==> l.drop_last()[k] == l[k]);
        lemma_weighted_sum_bounds(l.drop_last(), ys, lo, hi);
        let c = l.last();
        let sh = c.shared_len as int;
        let y = ys[c.source_index as int] as int;
        assert(lo <= y <= hi);
        assert(lo * sh <= y * sh && y * sh <= hi * sh) by (nonlinear_arith)
            requires lo <= y <= hi && 0 <= sh;
        let spre = list_sum(l.drop_last());
        assert(lo * (spre + sh) == lo * spre + lo * sh) by (nonlinear_arith);
        assert(hi * (spre + sh) == hi * spre + hi * sh) by (nonlinear_arith);
    }
}

/// Law: a target's intensive value is a convex combination of its matched
/// sources' attribute values. Any pair of bounds that holds of every matched
/// source value also bounds the intensive result; taking the minimum and the
/// maximum of the matched values shows
/// min <= intensive output <= max whenever any shared length was
/// accumulated.
pub proof fn lemma_intensive_convex(l: Seq<MatchCandidate>, ys: Seq<i64>, lo: int, hi: int)
    requires
        list_sum(l) > 0,
        forall|k: int| 0 <= k < l.len() ==> (#[trigger] l[k]).source_index < ys.len(),
        forall|k: int|
            0 <= k < l.len() ==> lo <= ys[(#[trigger] l[k]).source_index as int] <= hi,
    ensures
        lo <= int_value(l, ys) <= hi,
{
    lemma_weighted_sum_bounds(l, ys, lo, hi);
    lemma_div_trunc_bounds(weighted_sum(l, ys), list_sum(l), lo, hi);
}

} // verus!
