//! The matching engine: ingestion of the two polyline collections into
//! segment records, lengths and spatial indexes, and the one-shot
//! `find_matches` pass that accumulates shared lengths per matched pair.

use crate::geom::{
    coord_ok, expand_env, poly_len, rect_wf, seg_len, seg_length, seg_ok, tight_env, tight_rect,
    Coord, EnvRect, SegRec, COORD_LIMIT,
};
use crate::index::{bulk_load_rects, intersection_pairs, tree_rects, SegTree};
use crate::sums::{
    cell, lemma_shared_insert, lemma_shared_zero, pair_passes, passes, passing_pairs, seg_len_sum,
    shared_sum,
};
use crate::AnimeError;
use crate::angle::angle_ok_at;
use crate::geom::segs_within_tol;
use crate::geom::contribution_of;
use crate::geom::contribution;
use vstd::prelude::*;

verus! {

/// One partial source-to-target match: a source polyline index and the
/// accumulated shared length with one target polyline.
#[derive(Clone, Copy, Debug, PartialEq, Eq, Structural)]
pub struct MatchCandidate {
    /// Index of the source polyline.
    pub source_index: usize,
    /// Accumulated shared length between the two polylines.
    pub shared_len: u128,
}

/// Largest total the accumulated shared lengths can reach (2^96): at most
/// usize::MAX candidate pairs each contribute less than 2^32.
pub const SHARED_SUM_CAP: u128 = 79228162514264337593543950336;

// ---------------------------------------------------------------------------
// Sums over the accumulated candidate lists
// ---------------------------------------------------------------------------

/// Sum of the shared lengths in one candidate list.
pub open spec fn list_sum(l: Seq<MatchCandidate>) -> int
    decreases l.len(),
{
    if l.len() == 0 {
        0
    } else {
        list_sum(l.drop_last()) + l.last().shared_len
    }
}

/// Sum of the shared lengths over all candidate lists.
pub open spec fn lists_sum(m: Seq<Seq<MatchCandidate>>) -> int
    decreases m.len(),
{
    if m.len() == 0 {
        0
    } else {
        lists_sum(m.drop_last()) + list_sum(m.last())
    }
}

pub proof fn lemma_list_sum_nonneg(l: Seq<MatchCandidate>)
    ensures
        0 <= list_sum(l),
    decreases l.len(),
{
    if l.len() > 0 {
        lemma_list_sum_nonneg(l.drop_last());
    }
}

pub proof fn lemma_list_member_le(l: Seq<MatchCandidate>, k: int)
    requires
        0 <= k < l.len(),
    ensures
        l[k].shared_len <= list_sum(l),
    decreases l.len(),
{
    if k + 1 == l.len() {
        lemma_list_sum_nonneg(l.drop_last());
    } else {
        lemma_list_member_le(l.drop_last(), k);
        assert(l.drop_last()[k] == l[k]);
    }
}

pub proof fn lemma_list_sum_push(l: Seq<MatchCandidate>, c: MatchCandidate)
    ensures
        list_sum(l.push(c)) == list_sum(l) + c.shared_len,
{
    assert(l.push(c).drop_last() =~= l);
}

pub proof fn lemma_list_sum_insert(l: Seq<MatchCandidate>, pos: int, c: MatchCandidate)
    requires
        0 <= pos <= l.len(),
    ensures
        list_sum(l.insert(pos, c)) == list_sum(l) + c.shared_len,
    decreases l.len(),
{
    if pos == l.len() {
        assert(l.insert(pos, c) =~= l.push(c));
        lemma_list_sum_push(l, c);
    } else {
        let l2 = l.insert(pos, c);
        assert(l2.drop_last() =~= l.drop_last().insert(pos, c));
        assert(l2.last() == l.last());
        lemma_list_sum_insert(l.drop_last(), pos, c);
    }
}

pub proof fn lemma_list_sum_update(l: Seq<MatchCandidate>, k: int, c: MatchCandidate)
    requires
        0 <= k < l.len(),
    ensures
        list_sum(l.update(k, c)) == list_sum(l) - l[k].shared_len + c.shared_len,
    decreases l.len(),
{
    if k + 1 == l.len() {
        assert(l.update(k, c).drop_last() =~= l.drop_last());
        assert(l.update(k, c).last() == c);
    } else {
        lemma_list_sum_update(l.drop_last(), k, c);
        assert(l.update(k, c).drop_last() =~= l.drop_last().update(k, c));
        assert(l.update(k, c).last() == l.last());
        assert(l.drop_last()[k] == l[k]);
    }
}

pub proof fn lemma_lists_sum_nonneg(m: Seq<Seq<MatchCandidate>>)
    ensures
        0 <= lists_sum(m),
    decreases m.len(),
{
    if m.len() > 0 {
        lemma_lists_sum_nonneg(m.drop_last());
        lemma_list_sum_nonneg(m.last());
    }
}

pub proof fn lemma_list_le_lists(m: Seq<Seq<MatchCandidate>>, j: int)
    requires
        0 <= j < m.len(),
    ensures
        list_sum(m[j]) <= lists_sum(m),
    decreases m.len(),
{
    if j + 1 == m.len() {
        lemma_lists_sum_nonneg(m.drop_last());
    } else {
        lemma_list_le_lists(m.drop_last(), j);
        assert(m.drop_last()[j] == m[j]);
        lemma_list_sum_nonneg(m.last());
    }
}

pub proof fn lemma_lists_sum_update(m: Seq<Seq<MatchCandidate>>, j: int, l: Seq<MatchCandidate>)
    requires
        0 <= j < m.len(),
    ensures
        lists_sum(m.update(j, l)) == lists_sum(m) - list_sum(m[j]) + list_sum(l),
    decreases m.len(),
{
    if j + 1 == m.len() {
        assert(m.update(j, l).drop_last() =~= m.drop_last());
        assert(m.update(j, l).last() == l);
    } else {
        lemma_lists_sum_update(m.drop_last(), j, l);
        assert(m.update(j, l).drop_last() =~= m.drop_last().update(j, l));
        assert(m.update(j, l).last() == m.last());
        assert(m.drop_last()[j] == m[j]);
    }
}

// ---------------------------------------------------------------------------
// The matches model
// ---------------------------------------------------------------------------

/// Whether `l` holds an entry for source polyline `i`.
pub open spec fn has_source(l: Seq<MatchCandidate>, i: int) -> bool {
    exists|k: int| 0 <= k < l.len() && (#[trigger] l[k]).source_index == i
}

/// Whether `s` holds a segment pair joining source polyline `i` to target
/// polyline `j`.
pub open spec fn pair_for(
    s: Set<(int, int)>,
    ss: Seq<SegRec>,
    ts: Seq<SegRec>,
    i: int,
    j: int,
) -> bool {
    exists|pq: (int, int)|
        #[trigger] s.contains(pq) && 0 <= pq.0 < ss.len() && 0 <= pq.1 < ts.len()
            && ss[pq.0].poly == i && ts[pq.1].poly == j
}

/// One target's candidate list against the pair set `s`: source indices are
/// in range and strictly ascending — so the list is the unique sorted
/// enumeration of the matched sources, deterministic for identical inputs —
/// and every entry carries exactly the total shared length that `s` assigns
/// to its (source, target) pair.
pub open spec fn list_ok(
    l: Seq<MatchCandidate>,
    s: Set<(int, int)>,
    ss: Seq<SegRec>,
    ts: Seq<SegRec>,
    ns: int,
    j: int,
) -> bool {
    &&& forall|k: int|
        0 <= k < l.len() ==> (#[trigger] l[k]).source_index < ns && l[k].shared_len == shared_sum(
            s,
            ss,
            ts,
            l[k].source_index as int,
            j,
        )
    &&& forall|k1: int, k2: int|
        0 <= k1 < k2 < l.len() ==> (#[trigger] l[k1]).source_index < (#[trigger]
        l[k2]).source_index
}

/// The whole matches map against the pair set `s`: every list is sound and
/// a source polyline appears under a target exactly when `s` joins them.
pub open spec fn entries_model(
    m: Seq<Seq<MatchCandidate>>,
    s: Set<(int, int)>,
    ss: Seq<SegRec>,
    ts: Seq<SegRec>,
    ns: int,
) -> bool {
    &&& forall|j: int| 0 <= j < m.len() ==> list_ok(#[trigger] m[j], s, ss, ts, ns, j)
    &&& forall|j: int, i: int|
        0 <= j < m.len() && 0 <= i < ns ==> ((#[trigger] has_source(m[j], i)) <==> #[trigger]
        pair_for(s, ss, ts, i, j))
}

/// Deep view of the matches vector.
pub open spec fn matches_view(m: Seq<Vec<MatchCandidate>>) -> Seq<Seq<MatchCandidate>> {
    m.map_values(|l: Vec<MatchCandidate>| l@)
}

/// All segments are in bounds and owned by a polyline below `n`.
pub open spec fn segs_ok(ss: Seq<SegRec>, n: int) -> bool {
    forall|k: int| 0 <= k < ss.len() ==> seg_ok(#[trigger] ss[k]) && (ss[k]).poly < n
}

// ---------------------------------------------------------------------------
// The engine
// ---------------------------------------------------------------------------

/// The matching and interpolation engine: segment records, lengths and
/// spatial indexes for one source collection and one target collection of
/// polylines, the two tolerances, and the one-shot matches map.
pub struct Anime {
    /// Greatest segment-to-segment distance, in coordinate units, at which a
    /// pair of segments is considered co-located.
    pub distance_tolerance: i64,
    /// Greatest difference of segment angles, in whole degrees, at which a
    /// pair of segments is considered co-located.
    pub angle_tolerance: u32,
    /// Every segment of every source polyline.
    pub source_segs: Vec<SegRec>,
    /// R*-tree over the source segments' tight envelopes.
    pub source_tree: SegTree,
    /// Arc length of each source polyline.
    pub source_lens: Vec<u128>,
    /// Every segment of every target polyline.
    pub target_segs: Vec<SegRec>,
    /// R*-tree over the target segments' envelopes, expanded by the distance
    /// tolerance so near misses surface as candidates.
    pub target_tree: SegTree,
    /// Arc length of each target polyline.
    pub target_lens: Vec<u128>,
    /// The one-shot matches map: entry `j` lists the matched source
    /// polylines of target `j` with their accumulated shared lengths.
    pub matches: Option<Vec<Vec<MatchCandidate>>>,
}

impl Anime {
    /// Internal consistency: tolerances in range, segments bounded, both
    /// trees holding exactly the segments' envelopes, and, once populated,
    /// the matches map agreeing with the filter-and-accumulate semantics.
    pub open spec fn wf(self) -> bool {
        &&& 0 <= self.distance_tolerance <= COORD_LIMIT
        &&& segs_ok(self.source_segs@, self.source_lens@.len() as int)
        &&& segs_ok(self.target_segs@, self.target_lens@.len() as int)
        &&& tree_rects(self.source_tree) == self.source_segs@.map_values(
            |s: SegRec| tight_env(s),
        )
        &&& tree_rects(self.target_tree) == self.target_segs@.map_values(
            |s: SegRec| expand_env(tight_env(s), self.distance_tolerance as int),
        )
        &&& match self.matches {
            Some(m) => {
                &&& matches_view(m@).len() == self.target_lens@.len()
                &&& entries_model(
                    matches_view(m@),
                    passing_pairs(
                        self.source_segs@,
                        self.target_segs@,
                        self.distance_tolerance as int,
                        self.angle_tolerance as int,
                    ),
                    self.source_segs@,
                    self.target_segs@,
                    self.source_lens@.len() as int,
                )
                &&& lists_sum(matches_view(m@)) <= SHARED_SUM_CAP
            },
            None => true,
        }
    }

    /// Whether the one-shot matches map has been populated.
    pub open spec fn is_matched(self) -> bool {
        self.matches is Some
    }
}

/// A polyline must have at least two points, all within coordinate bounds.
pub open spec fn poly_ok(ps: Seq<Coord>) -> bool {
    ps.len() >= 2 && forall|k: int| 0 <= k < ps.len() ==> coord_ok(#[trigger] ps[k])
}

pub open spec fn polys_ok(polys: Seq<Vec<Coord>>) -> bool {
    forall|i: int| 0 <= i < polys.len() ==> poly_ok((#[trigger] polys[i])@)
}

/// Views of a polyline collection.
pub open spec fn poly_views(polys: Seq<Vec<Coord>>) -> Seq<Seq<Coord>> {
    polys.map_values(|v: Vec<Coord>| v@)
}

/// The segments of one polyline, owned by polyline `i`.
pub open spec fn poly_segs(ps: Seq<Coord>, i: int) -> Seq<SegRec> {
    Seq::new(
        (if ps.len() < 1 {
            0
        } else {
            ps.len() - 1
        }) as nat,
        |k: int|
            SegRec {
                poly: i as usize,
                ax: ps[k].x,
                ay: ps[k].y,
                bx: ps[k + 1].x,
                by: ps[k + 1].y,
            },
    )
}

/// Every polyline of the collection exploded into segments, in order.
pub open spec fn explode(polys: Seq<Seq<Coord>>) -> Seq<SegRec>
    decreases polys.len(),
{
    if polys.len() == 0 {
        Seq::empty()
    } else {
        explode(polys.drop_last()) + poly_segs(polys.last(), polys.len() - 1)
    }
}

/// Explode one collection: segment records, per-polyline lengths and the
/// envelopes to index, expanded by `expand` on every side.
#[verifier::loop_isolation(false)]
fn build_side(polys: &Vec<Vec<Coord>>, expand: i64) -> (r: (Vec<SegRec>, Vec<u128>, SegTree))
    requires
        polys_ok(polys@),
        0 <= expand <= COORD_LIMIT,
    ensures
        r.0@ == explode(poly_views(polys@)),
        r.1@.len() == polys@.len(),
        forall|i: int| 0 <= i < polys@.len() ==> r.1@[i] == poly_len((#[trigger] polys@[i])@),
        segs_ok(r.0@, polys@.len() as int),
        tree_rects(r.2) == r.0@.map_values(|s: SegRec| expand_env(tight_env(s), expand as int)),
{
    let mut segs: Vec<SegRec> = Vec::new();
    let mut lens: Vec<u128> = Vec::new();
    let mut i: usize = 0;
    while i < polys.len()
        invariant
            i <= polys@.len(),
            lens@.len() == i,
            forall|t: int| 0 <= t < i ==> lens@[t] == poly_len((#[trigger] polys@[t])@),
            segs@ == explode(poly_views(polys@).take(i as int)),
            segs_ok(segs@, i as int),
        decreases polys@.len() - i,
    {
        let ps: &Vec<Coord> = &polys[i];
        assert(ps@.len() >= 2);
        let last: usize = ps.len() - 1;
        let mut k: usize = 0;
        let mut acc: u128 = 0;
        let ghost segs0 = segs@;
        while k < last
            invariant
                last == ps@.len() - 1,
                k <= last,
                acc == poly_len(ps@.take(k + 1 as int)),
                acc <= k * 0x1_0000_0000,
                segs@ == segs0 + poly_segs(ps@, i as int).take(k as int),
                segs_ok(segs@, i as int + 1),
            decreases ps@.len() - k,
        {
            let seg = SegRec {
                poly: i,
                ax: ps[k].x,
                ay: ps[k].y,
                bx: ps[k + 1].x,
                by: ps[k + 1].y,
            };
            let ln: u64 = seg_length(&seg);
            proof {
                let pre = ps@.take(k + 1 as int);
                let post = ps@.take(k + 2 as int);
                assert(post.drop_last() =~= pre);
                assert(post.last() == ps@[k as int + 1]);
                assert(post[k as int] == ps@[k as int]);
                assert(poly_len(post) == poly_len(pre) + seg_len(seg));
                assert(segs@.push(seg) =~= segs0 + poly_segs(ps@, i as int).take(k as int + 1));
            }
            acc = acc + ln as u128;
            segs.push(seg);
            k = k + 1;
        }
        proof {
            assert(ps@.take(k + 1 as int) =~= ps@);
            assert(poly_segs(ps@, i as int).take(k as int) =~= poly_segs(ps@, i as int));
            let pv = poly_views(polys@);
            assert(pv.take(i as int + 1).drop_last() =~= pv.take(i as int));
            assert(pv.take(i as int + 1).last() == ps@);
            assert(explode(pv.take(i as int + 1)) == explode(pv.take(i as int)) + poly_segs(
                ps@,
                i as int,
            ));
        }
        lens.push(acc);
        i = i + 1;
    }
    proof {
        assert(poly_views(polys@).take(i as int) =~= poly_views(polys@));
    }
    let mut rects: Vec<EnvRect> = Vec::new();
    let mut t: usize = 0;
    while t < segs.len()
        invariant
            t <= segs@.len(),
            rects@ == segs@.take(t as int).map_values(
                |s: SegRec| expand_env(tight_env(s), expand as int),
            ),
            forall|x: int| 0 <= x < rects@.len() ==> rect_wf(#[trigger] rects@[x]),
        decreases segs@.len() - t,
    {
        let e: EnvRect = tight_rect(&segs[t]);
        let ex: EnvRect = EnvRect {
            min_x: e.min_x - expand,
            min_y: e.min_y - expand,
            max_x: e.max_x + expand,
            max_y: e.max_y + expand,
        };
        proof {
            assert(ex == expand_env(tight_env(segs@[t as int]), expand as int));
            assert(segs@.take(t as int + 1).map_values(
                |s: SegRec| expand_env(tight_env(s), expand as int),
            ) =~= segs@.take(t as int).map_values(
                |s: SegRec| expand_env(tight_env(s), expand as int),
            ).push(ex));
        }
        rects.push(ex);
        t = t + 1;
    }
    proof {
        assert(segs@.take(t as int) =~= segs@);
    }
    let tree: SegTree = bulk_load_rects(&rects);
    (segs, lens, tree)
}

impl Anime {
    /// Ingest the source and target polyline collections: compute every
    /// polyline's length, explode both collections into segment records, and
    /// bulk-load one R*-tree per side — target envelopes expanded by the
    /// distance tolerance. The matches map starts unpopulated.
    pub fn load_geometries(
        source: &Vec<Vec<Coord>>,
        target: &Vec<Vec<Coord>>,
        distance_tolerance: i64,
        angle_tolerance: u32,
    ) -> (a: Anime)
        requires
            polys_ok(source@),
            polys_ok(target@),
            0 <= distance_tolerance <= COORD_LIMIT,
        ensures
            a.wf(),
            !a.is_matched(),
            a.distance_tolerance == distance_tolerance,
            a.angle_tolerance == angle_tolerance,
            a.source_lens@.len() == source@.len(),
            a.target_lens@.len() == target@.len(),
            forall|i: int|
                0 <= i < source@.len() ==> a.source_lens@[i] == poly_len(
                    (#[trigger] source@[i])@,
                ),
            forall|j: int|
                0 <= j < target@.len() ==> a.target_lens@[j] == poly_len(
                    (#[trigger] target@[j])@,
                ),
            a.source_segs@ == explode(poly_views(source@)),
            a.target_segs@ == explode(poly_views(target@)),
    {
        let src = build_side(source, 0);
        let tgt = build_side(target, distance_tolerance);
        proof {
            assert forall|s: SegRec| true implies expand_env(tight_env(s), 0) == tight_env(
                s,
            ) by {}
            assert(src.0@.map_values(|s: SegRec| expand_env(tight_env(s), 0int))
                =~= src.0@.map_values(|s: SegRec| tight_env(s)));
        }
        Anime {
            distance_tolerance,
            angle_tolerance,
            source_segs: src.0,
            source_tree: src.2,
            source_lens: src.1,
            target_segs: tgt.0,
            target_tree: tgt.2,
            target_lens: tgt.1,
            matches: None,
        }
    }
}

/// The pairs already folded in after the first `k` candidates: those among
/// `pairs[0..k]` that pass every filter, as index pairs.
pub open spec fn seen_pairs(
    pairs: Seq<(u64, u64)>,
    k: int,
    ss: Seq<SegRec>,
    ts: Seq<SegRec>,
    dt: int,
    at: int,
) -> Set<(int, int)> {
    Set::new(
        |pq: (int, int)|
            exists|t: int|
                0 <= t < k && #[trigger] pairs[t] == (pq.0 as u64, pq.1 as u64) && pair_passes(
                    ss,
                    ts,
                    dt,
                    at,
                    pq.0,
                    pq.1,
                ),
    )
}

proof fn lemma_seg_len_sum_prefix(a: Seq<SegRec>, b: Seq<SegRec>, i: int, p: int)
    requires
        p <= a.len(),
        p <= b.len(),
        forall|k: int| 0 <= k < p ==> a[k] == b[k],
    ensures
        seg_len_sum(a, i, p) == seg_len_sum(b, i, p),
    decreases p,
{
    if p > 0 {
        lemma_seg_len_sum_prefix(a, b, i, p - 1);
    }
}

proof fn lemma_seg_len_sum_append(a: Seq<SegRec>, b: Seq<SegRec>, i: int, m: int)
    requires
        0 <= m <= b.len(),
    ensures
        seg_len_sum(a + b, i, a.len() + m) == seg_len_sum(a, i, a.len() as int) + seg_len_sum(
            b,
            i,
            m,
        ),
    decreases m,
{
    if m == 0 {
        lemma_seg_len_sum_prefix(a + b, a, i, a.len() as int);
    } else {
        lemma_seg_len_sum_append(a, b, i, m - 1);
        assert((a + b)[a.len() + m - 1] == b[m - 1]);
    }
}

proof fn lemma_seg_len_sum_other(ps: Seq<Coord>, owner: int, i: int, m: int)
    requires
        owner != i,
        0 <= owner <= usize::MAX,
        0 <= m <= poly_segs(ps, owner).len(),
    ensures
        seg_len_sum(poly_segs(ps, owner), i, m) == 0,
    decreases m,
{
    if m > 0 {
        lemma_seg_len_sum_other(ps, owner, i, m - 1);
        assert(poly_segs(ps, owner)[m - 1].poly == owner as usize);
    }
}

proof fn lemma_seg_len_sum_own(ps: Seq<Coord>, i: int, m: int)
    requires
        0 <= i <= usize::MAX,
        0 <= m,
        m + 1 <= ps.len(),
    ensures
        seg_len_sum(poly_segs(ps, i), i, m) == poly_len(ps.take(m + 1)),
    decreases m,
{
    if m == 0 {
        assert(poly_len(ps.take(1)) == 0);
    } else {
        lemma_seg_len_sum_own(ps, i, m - 1);
        let pre = ps.take(m);
        let post = ps.take(m + 1);
        assert(post.drop_last() =~= pre);
        assert(post.last() == ps[m]);
        assert(post[m - 1] == ps[m - 1]);
        let sg = poly_segs(ps, i)[m - 1];
        assert(sg.ax == ps[m - 1].x && sg.ay == ps[m - 1].y && sg.bx == ps[m].x && sg.by
            == ps[m].y);
        assert(poly_len(post) == poly_len(pre) + seg_len(sg));
        assert(sg.poly == i as usize);
    }
}

/// The engine's per-polyline length is the sum of its exploded segments'
/// lengths: entry `i` of the length array equals `seg_len_sum` of the
/// segment records that polyline `i` owns.
pub proof fn lemma_seg_len_sum_explode(polys: Seq<Seq<Coord>>, i: int, k: int)
    requires
        polys.len() <= usize::MAX,
        0 <= i < polys.len(),
        0 <= k <= polys.len(),
        forall|t: int| 0 <= t < polys.len() ==> (#[trigger] polys[t]).len() >= 2,
    ensures
        seg_len_sum(explode(polys.take(k)), i, explode(polys.take(k)).len() as int) == (
        if i < k {
            poly_len(polys[i])
        } else {
            0
        }),
    decreases k,
{
    if k == 0 {
        assert(polys.take(0) =~= Seq::<Seq<Coord>>::empty());
    } else {
        lemma_seg_len_sum_explode(polys, i, k - 1);
        let pre = polys.take(k - 1);
        let post = polys.take(k);
        assert(post.drop_last() =~= pre);
        assert(post.last() == polys[k - 1]);
        let a = explode(pre);
        let b = poly_segs(polys[k - 1], k - 1);
        assert(explode(post) == a + b);
        lemma_seg_len_sum_append(a, b, i, b.len() as int);
        if i == k - 1 {
            assert(polys[i].len() >= 2);
            lemma_seg_len_sum_own(polys[i], i, polys[i].len() - 1);
            assert(polys[i].take(polys[i].len() as int) =~= polys[i]);
        } else {
            lemma_seg_len_sum_other(polys[k - 1], k - 1, i, b.len() as int);
        }
    }
}

/// Locate source `i` in a candidate list kept in ascending source order:
/// its index if present, otherwise the position where it belongs.
#[verifier::loop_isolation(false)]
fn find_slot(l: &Vec<MatchCandidate>, i: usize) -> (r: Result<usize, usize>)
    requires
        forall|k1: int, k2: int|
            0 <= k1 < k2 < l@.len() ==> (#[trigger] l@[k1]).source_index < (#[trigger]
            l@[k2]).source_index,
    ensures
        match r {
            Ok(idx) => idx < l@.len() && l@[idx as int].source_index == i,
            Err(pos) => {
                &&& pos <= l@.len()
                &&& forall|k: int| 0 <= k < l@.len() ==> (#[trigger] l@[k]).source_index != i
                &&& forall|k: int| 0 <= k < pos ==> (#[trigger] l@[k]).source_index < i
                &&& forall|k: int| pos <= k < l@.len() ==> (#[trigger] l@[k]).source_index > i
            },
        },
{
    let mut t: usize = 0;
    while t < l.len()
        invariant
            t <= l@.len(),
            forall|k: int| 0 <= k < t ==> (#[trigger] l@[k]).source_index < i,
        decreases l@.len() - t,
    {
        let s: usize = l[t].source_index;
        if s == i {
            return Ok(t);
        }
        if s > i {
            return Err(t);
        }
        t = t + 1;
    }
    Err(t)
}

impl Anime {
    /// Enumerate candidate segment pairs from the two trees, apply the
    /// angle, axis-overlap and distance filters, and accumulate each
    /// surviving pair's shared length under (target polyline, source
    /// polyline), merging duplicates by summing. Each target's candidate
    /// list is kept in ascending source order, so the populated map is fully
    /// determined by the inputs, whatever order the index enumerates pairs
    /// in. Populates the one-shot matches map; a second call fails with
    /// `AlreadyMatched` and changes nothing.
    #[verifier::loop_isolation(false)]
    #[verifier::rlimit(60)]
    pub fn find_matches(&mut self) -> (r: Result<(), AnimeError>)
        requires
            old(self).wf(),
        ensures
            final(self).wf(),
            old(self).is_matched() ==> r == Err::<(), AnimeError>(AnimeError::AlreadyMatched)
                && *final(self) == *old(self),
            !old(self).is_matched() ==> r == Ok::<(), AnimeError>(()) && final(self).is_matched(),
            final(self).distance_tolerance == old(self).distance_tolerance,
            final(self).angle_tolerance == old(self).angle_tolerance,
            final(self).source_segs == old(self).source_segs,
            final(self).target_segs == old(self).target_segs,
            final(self).source_lens == old(self).source_lens,
            final(self).target_lens == old(self).target_lens,
    {
        if self.matches.is_some() {
            return Err(AnimeError::AlreadyMatched);
        }
        let ghost ss = self.source_segs@;
        let ghost ts = self.target_segs@;
        let ghost dt = self.distance_tolerance as int;
        let ghost at = self.angle_tolerance as int;
        let ghost ns = self.source_lens@.len() as int;
        let src_n: usize = self.source_segs.len();
        let tgt_n: usize = self.target_segs.len();
        proof {
            assert(ss.len() == src_n && ts.len() == tgt_n);
        }
        let pairs: Vec<(u64, u64)> = intersection_pairs(&self.source_tree, &self.target_tree);
        let mut m: Vec<Vec<MatchCandidate>> = Vec::new();
        let nt: usize = self.target_lens.len();
        while m.len() < nt
            invariant
                m@.len() <= nt,
                forall|j: int| 0 <= j < m@.len() ==> (#[trigger] m@[j])@.len() == 0,
            decreases nt - m@.len(),
        {
            m.push(Vec::new());
        }
        proof {
            let s0 = seen_pairs(pairs@, 0, ss, ts, dt, at);
            let mv = matches_view(m@);
            assert forall|j: int, i: int| 0 <= j < mv.len() && 0 <= i < ns implies ((
            #[trigger] has_source(mv[j], i)) <==> #[trigger] pair_for(s0, ss, ts, i, j)) by {
                assert(!has_source(mv[j], i));
                if pair_for(s0, ss, ts, i, j) {
                    let pq = choose|pq: (int, int)|
                        #[trigger] s0.contains(pq) && 0 <= pq.0 < ss.len() && 0 <= pq.1 < ts.len()
                            && ss[pq.0].poly == i && ts[pq.1].poly == j;
                    assert(false);
                }
            }
            lemma_lists_sum_all_empty(mv);
        }
        let mut k: usize = 0;
        while k < pairs.len()
            invariant
                k <= pairs@.len(),
                m@.len() == nt,
                entries_model(matches_view(m@), seen_pairs(pairs@, k as int, ss, ts, dt, at), ss, ts, ns),
                lists_sum(matches_view(m@)) <= k * 0x1_0000_0000,
            decreases pairs@.len() - k,
        {
            let ghost s1 = seen_pairs(pairs@, k as int, ss, ts, dt, at);
            let pu: u64 = pairs[k].0;
            let qu: u64 = pairs[k].1;
            proof {
                assert(pairs@[k as int] == (pu, qu));
                assert(tree_rects(self.source_tree).len() == ss.len());
                assert(tree_rects(self.target_tree).len() == ts.len());
                assert(pu < ss.len() && qu < ts.len());
            }
            let p: usize = pu as usize;
            let q: usize = qu as usize;
            let a_seg: SegRec = self.source_segs[p];
            let b_seg: SegRec = self.target_segs[q];
            let mut accepted: bool = false;
            if angle_ok_at(&a_seg, &b_seg, self.angle_tolerance) {
                let ea: EnvRect = tight_rect(&a_seg);
                let eb: EnvRect = tight_rect(&b_seg);
                let x_ov: bool = ea.max_x >= eb.min_x && eb.max_x >= ea.min_x;
                let y_ov: bool = ea.max_y >= eb.min_y && eb.max_y >= ea.min_y;
                if x_ov || y_ov {
                    if segs_within_tol(&a_seg, &b_seg, self.distance_tolerance) {
                        accepted = true;
                    }
                }
            }
            if accepted {
                proof {
                    assert(a_seg == ss[p as int] && b_seg == ts[q as int]);
                    assert(tree_rects(self.source_tree)[p as int] == tight_env(a_seg));
                    assert(tree_rects(self.target_tree)[q as int] == expand_env(
                        tight_env(b_seg),
                        dt,
                    ));
                    assert(pairs@[k as int].0 == pu && pairs@[k as int].1 == qu);
                    assert(crate::geom::rects_intersect(
                        tree_rects(self.source_tree)[pairs@[k as int].0 as int],
                        tree_rects(self.target_tree)[pairs@[k as int].1 as int],
                    ));
                    assert(crate::angle::angle_ok(a_seg, b_seg, at));
                    assert(crate::geom::segs_within(a_seg, b_seg, dt));
                    assert(passes(a_seg, b_seg, dt, at));
                    assert(pair_passes(ss, ts, dt, at, p as int, q as int));
                    if s1.contains((p as int, q as int)) {
                        let t = choose|t: int|
                            0 <= t < k && #[trigger] pairs@[t] == (p as int as u64, q as int as u64)
                                && pair_passes(ss, ts, dt, at, p as int, q as int);
                        assert((p as int) as u64 == pu && (q as int) as u64 == qu);
                        assert(pairs@[t] == (pu, qu));
                        assert(pairs@[t] == pairs@[k as int]);
                        assert(false);
                    }
                }
                let c: u64 = contribution_of(&a_seg, &b_seg);
                let ii: usize = a_seg.poly;
                let jj: usize = b_seg.poly;
                let ghost s2 = s1.insert((p as int, q as int));
                let ghost mv = matches_view(m@);
                proof {
                    assert(cell(s2, ss, ts, ii as int, jj as int, p as int, q as int) == c) by {
                        assert(s2.contains((p as int, q as int)));
                    }
                }
                proof {
                    assert(list_ok(mv[jj as int], s1, ss, ts, ns, jj as int));
                }
                let slot: Result<usize, usize> = find_slot(&m[jj], ii);
                match slot {
                    Ok(idx) => {
                        let cur: u128 = m[jj][idx].shared_len;
                        proof {
                            lemma_list_member_le(mv[jj as int], idx as int);
                            lemma_list_le_lists(mv, jj as int);
                            lemma_shared_insert(s1, ss, ts, ii as int, jj as int, p as int, q as int);
                        }
                        let nv: u128 = cur + c as u128;
                        let cand: MatchCandidate = MatchCandidate {
                            source_index: ii,
                            shared_len: nv,
                        };
                        m[jj][idx] = cand;
                        proof {
                            let mv2 = matches_view(m@);
                            let l2 = mv[jj as int].update(idx as int, cand);
                            assert(mv2 =~= mv.update(jj as int, l2));
                            lemma_list_sum_update(mv[jj as int], idx as int, cand);
                            lemma_lists_sum_update(mv, jj as int, l2);
                            lemma_model_after_update(
                                mv,
                                mv2,
                                s1,
                                s2,
                                ss,
                                ts,
                                ns,
                                p as int,
                                q as int,
                                ii as int,
                                jj as int,
                                idx as int,
                                cand,
                            );
                        }
                    },
                    Err(pos) => {
                        proof {
                            lemma_shared_zero_absent(mv, s1, ss, ts, ns, ii as int, jj as int);
                            lemma_list_le_lists(mv, jj as int);
                            lemma_list_sum_nonneg(mv[jj as int]);
                            lemma_lists_sum_nonneg(mv);
                            lemma_shared_insert(s1, ss, ts, ii as int, jj as int, p as int, q as int);
                        }
                        let cand: MatchCandidate = MatchCandidate {
                            source_index: ii,
                            shared_len: c as u128,
                        };
                        let lst: &mut Vec<MatchCandidate> = &mut m[jj];
                        lst.insert(pos, cand);
                        proof {
                            let mv2 = matches_view(m@);
                            let l2 = mv[jj as int].insert(pos as int, cand);
                            assert(mv2 =~= mv.update(jj as int, l2));
                            lemma_list_sum_insert(mv[jj as int], pos as int, cand);
                            lemma_lists_sum_update(mv, jj as int, l2);
                            lemma_model_after_grow(
                                mv,
                                mv2,
                                s1,
                                s2,
                                ss,
                                ts,
                                ns,
                                p as int,
                                q as int,
                                ii as int,
                                jj as int,
                                pos as int,
                                cand,
                            );
                        }
                    },
                }
                proof {
                    let s3 = seen_pairs(pairs@, k as int + 1, ss, ts, dt, at);
                    assert forall|pq: (int, int)| #[trigger] s3.contains(pq) implies s2.contains(
                        pq,
                    ) by {
                        let t = choose|t: int|
                            0 <= t < k + 1 && #[trigger] pairs@[t] == (pq.0 as u64, pq.1 as u64)
                                && pair_passes(ss, ts, dt, at, pq.0, pq.1);
                        if t < k {
                            assert(s1.contains(pq));
                        } else {
                            assert(pairs@[t] == (pu, qu));
                            assert(pq.0 == p as int && pq.1 == q as int);
                        }
                    }
                    assert forall|pq: (int, int)| #[trigger] s2.contains(pq) implies s3.contains(
                        pq,
                    ) by {
                        if s1.contains(pq) {
                            let t = choose|t: int|
                                0 <= t < k && #[trigger] pairs@[t] == (pq.0 as u64, pq.1 as u64)
                                    && pair_passes(ss, ts, dt, at, pq.0, pq.1);
                            assert(0 <= t < k + 1 && pairs@[t] == (pq.0 as u64, pq.1 as u64));
                        } else {
                            assert(pq == (p as int, q as int));
                            assert(pairs@[k as int] == (pq.0 as u64, pq.1 as u64));
                        }
                    }
                    assert(s3 =~= s2);
                }
            } else {
                proof {
                    assert(!passes(a_seg, b_seg, dt, at));
                    let s3 = seen_pairs(pairs@, k as int + 1, ss, ts, dt, at);
                    assert forall|pq: (int, int)| #[trigger] s3.contains(pq) implies s1.contains(
                        pq,
                    ) by {
                        let t = choose|t: int|
                            0 <= t < k + 1 && #[trigger] pairs@[t] == (pq.0 as u64, pq.1 as u64)
                                && pair_passes(ss, ts, dt, at, pq.0, pq.1);
                        if t == k {
                            assert(pq.0 == p as int && pq.1 == q as int);
                            assert(ss[pq.0] == a_seg && ts[pq.1] == b_seg);
                            assert(false);
                        }
                    }
                    assert forall|pq: (int, int)| #[trigger] s1.contains(pq) implies s3.contains(
                        pq,
                    ) by {
                        let t = choose|t: int|
                            0 <= t < k && #[trigger] pairs@[t] == (pq.0 as u64, pq.1 as u64)
                                && pair_passes(ss, ts, dt, at, pq.0, pq.1);
                        assert(0 <= t < k + 1 && pairs@[t] == (pq.0 as u64, pq.1 as u64));
                    }
                    assert(s3 =~= s1);
                }
            }
            k = k + 1;
        }
        proof {
            let sfin = seen_pairs(pairs@, k as int, ss, ts, dt, at);
            let full = passing_pairs(ss, ts, dt, at);
            assert forall|pq: (int, int)| #[trigger] sfin.contains(pq) implies full.contains(
                pq,
            ) by {}
            assert forall|pq: (int, int)| #[trigger] full.contains(pq) implies sfin.contains(
                pq,
            ) by {
                assert(pair_passes(ss, ts, dt, at, pq.0, pq.1));
                let p = pq.0;
                let q = pq.1;
                assert(passes(ss[p], ts[q], dt, at));
                assert(tree_rects(self.source_tree)[p] == tight_env(ss[p]));
                assert(tree_rects(self.target_tree)[q] == expand_env(tight_env(ts[q]), dt));
                assert(crate::geom::rects_intersect(
                    tree_rects(self.source_tree)[p],
                    tree_rects(self.target_tree)[q],
                ));
                let t = choose|t: int|
                    0 <= t < pairs@.len() && pairs@[t] == (p as u64, q as u64);
                assert(pairs@[t] == (pq.0 as u64, pq.1 as u64) && pair_passes(
                    ss,
                    ts,
                    dt,
                    at,
                    pq.0,
                    pq.1,
                ));
            }
            assert(sfin =~= full);
            assert(lists_sum(matches_view(m@)) <= SHARED_SUM_CAP) by {
                assert(k * 0x1_0000_0000 <= 0xffff_ffff_ffff_ffff * 0x1_0000_0000);
            }
        }
        self.matches = Some(m);
        Ok(())
    }
}

/// The triples of one target's candidate list.
pub open spec fn row_triples(l: Seq<MatchCandidate>, j: int) -> Seq<(usize, usize, u128)> {
    Seq::new(l.len(), |k: int| (j as usize, l[k].source_index, l[k].shared_len))
}

/// Every accumulated match as a (target index, source index, shared length)
/// triple, in ascending target order.
pub open spec fn triples_of(m: Seq<Seq<MatchCandidate>>) -> Seq<(usize, usize, u128)>
    decreases m.len(),
{
    if m.len() == 0 {
        Seq::empty()
    } else {
        triples_of(m.drop_last()) + row_triples(m.last(), m.len() - 1)
    }
}

impl Anime {
    /// The accumulated matches as (target index, source index, shared
    /// length) triples, in ascending target order. Fails with
    /// `MatchesNotFound` before `find_matches` has run.
    #[verifier::loop_isolation(false)]
    pub fn matches_triples(&self) -> (r: Result<Vec<(usize, usize, u128)>, AnimeError>)
        ensures
            r is Ok <==> self.is_matched(),
            !self.is_matched() ==> r == Err::<Vec<(usize, usize, u128)>, AnimeError>(
                AnimeError::MatchesNotFound,
            ),
            r matches Ok(v) ==> self.matches matches Some(mm) && v@ == triples_of(
                matches_view(mm@),
            ),
    {
        let mlists: &Vec<Vec<MatchCandidate>> = match &self.matches {
            Some(mm) => mm,
            None => {
                return Err(AnimeError::MatchesNotFound);
            },
        };
        let ghost mv = matches_view(mlists@);
        let mut out: Vec<(usize, usize, u128)> = Vec::new();
        let mut j: usize = 0;
        while j < mlists.len()
            invariant
                j <= mv.len(),
                out@ == triples_of(mv.take(j as int)),
            decreases mv.len() - j,
        {
            let l: &Vec<MatchCandidate> = &mlists[j];
            let ghost out0 = out@;
            let mut t: usize = 0;
            while t < l.len()
                invariant
                    t <= l@.len(),
                    out@ == out0 + row_triples(l@, j as int).take(t as int),
                decreases l@.len() - t,
            {
                let c: MatchCandidate = l[t];
                proof {
                    assert(row_triples(l@, j as int).take(t as int + 1) =~= row_triples(
                        l@,
                        j as int,
                    ).take(t as int).push((j, c.source_index, c.shared_len)));
                    assert(out@.push((j, c.source_index, c.shared_len)) =~= out0 + row_triples(
                        l@,
                        j as int,
                    ).take(t as int + 1));
                }
                out.push((j, c.source_index, c.shared_len));
                t = t + 1;
            }
            proof {
                assert(row_triples(l@, j as int).take(t as int) =~= row_triples(l@, j as int));
                let pre = mv.take(j as int + 1);
                assert(pre.drop_last() =~= mv.take(j as int));
                assert(pre.last() == l@);
                assert(out@ =~= triples_of(mv.take(j as int + 1)));
            }
            j = j + 1;
        }
        proof {
            assert(mv.take(j as int) =~= mv);
        }
        Ok(out)
    }
}

proof fn lemma_lists_sum_all_empty(m: Seq<Seq<MatchCandidate>>)
    requires
        forall|j: int| 0 <= j < m.len() ==> (#[trigger] m[j]).len() == 0,
    ensures
        lists_sum(m) == 0,
    decreases m.len(),
{
    if m.len() > 0 {
        lemma_lists_sum_all_empty(m.drop_last());
    }
}

/// Without an entry for source `i` under target `j`, the model says no pair
/// joins them, so their total is zero.
proof fn lemma_shared_zero_absent(
    m: Seq<Seq<MatchCandidate>>,
    s: Set<(int, int)>,
    ss: Seq<SegRec>,
    ts: Seq<SegRec>,
    ns: int,
    i: int,
    j: int,
)
    requires
        entries_model(m, s, ss, ts, ns),
        0 <= j < m.len(),
        0 <= i < ns,
        !has_source(m[j], i),
    ensures
        shared_sum(s, ss, ts, i, j) == 0,
{
    assert(!pair_for(s, ss, ts, i, j));
    assert forall|p2: int, q2: int|
        s.contains((p2, q2)) && 0 <= p2 < ss.len() && 0 <= q2 < ts.len() implies !(ss[p2].poly == i
        && ts[q2].poly == j) by {
        if ss[p2].poly == i && ts[q2].poly == j {
            assert(s.contains((p2, q2)));
            assert(pair_for(s, ss, ts, i, j));
        }
    }
    lemma_shared_zero(s, ss, ts, i, j, ss.len() as int);
}

/// Re-establishes the matches model after one accepted pair (p0, q0) with
/// polylines (i0, j0) has been merged into an existing entry: only target
/// `j0`'s list changed, and only its entry for `i0`, which now carries the
/// grown total.
proof fn lemma_model_after_update(
    m1: Seq<Seq<MatchCandidate>>,
    m2: Seq<Seq<MatchCandidate>>,
    s1: Set<(int, int)>,
    s2: Set<(int, int)>,
    ss: Seq<SegRec>,
    ts: Seq<SegRec>,
    ns: int,
    p0: int,
    q0: int,
    i0: int,
    j0: int,
    idx: int,
    cand: MatchCandidate,
)
    requires
        entries_model(m1, s1, ss, ts, ns),
        0 <= p0 < ss.len(),
        0 <= q0 < ts.len(),
        !s1.contains((p0, q0)),
        s2 == s1.insert((p0, q0)),
        ss[p0].poly == i0,
        ts[q0].poly == j0,
        0 <= i0 < ns,
        0 <= j0 < m1.len(),
        0 <= idx < m1[j0].len(),
        m1[j0][idx].source_index == i0,
        cand.source_index == i0,
        cand.shared_len == shared_sum(s2, ss, ts, i0, j0),
        m2 == m1.update(j0, m1[j0].update(idx, cand)),
    ensures
        entries_model(m2, s2, ss, ts, ns),
{
    assert forall|j: int| 0 <= j < m2.len() implies list_ok(#[trigger] m2[j], s2, ss, ts, ns, j) by {
        assert(list_ok(m1[j], s1, ss, ts, ns, j));
        assert forall|t: int| 0 <= t < m2[j].len() implies (#[trigger] m2[j][t]).source_index < ns
            && m2[j][t].shared_len == shared_sum(s2, ss, ts, m2[j][t].source_index as int, j) by {
            let i = m2[j][t].source_index as int;
            lemma_shared_insert(s1, ss, ts, i, j, p0, q0);
            if j == j0 && t == idx {
                assert(m2[j][t] == cand);
            } else {
                assert(m2[j][t] == m1[j][t]);
                if j == j0 {
                    assert(i != i0);
                }
                assert(cell(s2, ss, ts, i, j, p0, q0) == 0);
            }
        }
        assert forall|t1: int, t2: int| 0 <= t1 < t2 < m2[j].len() implies (#[trigger]
        m2[j][t1]).source_index < (#[trigger] m2[j][t2]).source_index by {
            assert(m2[j][t1].source_index == m1[j][t1].source_index);
            assert(m2[j][t2].source_index == m1[j][t2].source_index);
        }
    }
    assert forall|j: int, i: int| 0 <= j < m2.len() && 0 <= i < ns implies ((#[trigger]
    has_source(m2[j], i)) <==> #[trigger] pair_for(s2, ss, ts, i, j)) by {
        if has_source(m2[j], i) {
            let t = choose|t: int| 0 <= t < m2[j].len() && (#[trigger] m2[j][t]).source_index == i;
            assert(m1[j][t].source_index == i);
            assert(has_source(m1[j], i));
            assert(pair_for(s1, ss, ts, i, j));
            let pq = choose|pq: (int, int)|
                #[trigger] s1.contains(pq) && 0 <= pq.0 < ss.len() && 0 <= pq.1 < ts.len()
                    && ss[pq.0].poly == i && ts[pq.1].poly == j;
            assert(s2.contains(pq));
            assert(pair_for(s2, ss, ts, i, j));
        }
        if pair_for(s2, ss, ts, i, j) {
            let pq = choose|pq: (int, int)|
                #[trigger] s2.contains(pq) && 0 <= pq.0 < ss.len() && 0 <= pq.1 < ts.len()
                    && ss[pq.0].poly == i && ts[pq.1].poly == j;
            if pq == (p0, q0) {
                assert(i == i0 && j == j0);
                assert(m2[j0][idx].source_index == i0);
                assert(has_source(m2[j0], i0));
            } else {
                assert(s1.contains(pq));
                assert(pair_for(s1, ss, ts, i, j));
                assert(has_source(m1[j], i));
                let t = choose|t: int|
                    0 <= t < m1[j].len() && (#[trigger] m1[j][t]).source_index == i;
                assert(m2[j][t].source_index == i);
                assert(has_source(m2[j], i));
            }
        }
    }
}

/// Re-establishes the matches model after one accepted pair (p0, q0) with
/// polylines (i0, j0) has opened a new entry: only target `j0`'s list
/// changed, with the entry for `i0` inserted at its sorted position.
proof fn lemma_model_after_grow(
    m1: Seq<Seq<MatchCandidate>>,
    m2: Seq<Seq<MatchCandidate>>,
    s1: Set<(int, int)>,
    s2: Set<(int, int)>,
    ss: Seq<SegRec>,
    ts: Seq<SegRec>,
    ns: int,
    p0: int,
    q0: int,
    i0: int,
    j0: int,
    pos: int,
    cand: MatchCandidate,
)
    requires
        entries_model(m1, s1, ss, ts, ns),
        0 <= p0 < ss.len(),
        0 <= q0 < ts.len(),
        !s1.contains((p0, q0)),
        s2 == s1.insert((p0, q0)),
        ss[p0].poly == i0,
        ts[q0].poly == j0,
        0 <= i0 < ns,
        0 <= j0 < m1.len(),
        0 <= pos <= m1[j0].len(),
        forall|k: int| 0 <= k < pos ==> (#[trigger] m1[j0][k]).source_index < i0,
        forall|k: int| pos <= k < m1[j0].len() ==> (#[trigger] m1[j0][k]).source_index > i0,
        cand.source_index == i0,
        cand.shared_len == shared_sum(s2, ss, ts, i0, j0),
        m2 == m1.update(j0, m1[j0].insert(pos, cand)),
    ensures
        entries_model(m2, s2, ss, ts, ns),
{
    let l1 = m1[j0];
    let l2 = l1.insert(pos, cand);
    l1.insert_ensures(pos, cand);
    assert(!has_source(l1, i0)) by {
        if has_source(l1, i0) {
            let t = choose|t: int| 0 <= t < l1.len() && (#[trigger] l1[t]).source_index == i0;
            assert(false);
        }
    }
    assert forall|j: int| 0 <= j < m2.len() implies list_ok(#[trigger] m2[j], s2, ss, ts, ns, j) by {
        assert(list_ok(m1[j], s1, ss, ts, ns, j));
        assert forall|t: int| 0 <= t < m2[j].len() implies (#[trigger] m2[j][t]).source_index < ns
            && m2[j][t].shared_len == shared_sum(s2, ss, ts, m2[j][t].source_index as int, j) by {
            let i = m2[j][t].source_index as int;
            lemma_shared_insert(s1, ss, ts, i, j, p0, q0);
            if j == j0 {
                if t == pos {
                    assert(m2[j][t] == cand);
                } else {
                    if t < pos {
                        assert(m2[j][t] == l1[t]);
                    } else {
                        assert(m2[j][t] == l1[t - 1]);
                    }
                    assert(i != i0);
                    assert(cell(s2, ss, ts, i, j, p0, q0) == 0);
                }
            } else {
                assert(m2[j] == m1[j]);
                assert(cell(s2, ss, ts, i, j, p0, q0) == 0);
            }
        }
        assert forall|t1: int, t2: int| 0 <= t1 < t2 < m2[j].len() implies (#[trigger]
        m2[j][t1]).source_index < (#[trigger] m2[j][t2]).source_index by {
            if j == j0 {
                if t2 < pos {
                    assert(m2[j][t1] == l1[t1] && m2[j][t2] == l1[t2]);
                } else if t2 == pos {
                    assert(m2[j][t1] == l1[t1]);
                } else if t1 < pos {
                    assert(m2[j][t2] == l1[t2 - 1]);
                    assert(l1[t2 - 1].source_index > i0);
                    if t1 < pos {
                        assert(m2[j][t1] == l1[t1]);
                    }
                } else if t1 == pos {
                    assert(m2[j][t2] == l1[t2 - 1]);
                    assert(l1[t2 - 1].source_index > i0);
                } else {
                    assert(m2[j][t1] == l1[t1 - 1] && m2[j][t2] == l1[t2 - 1]);
                }
            }
        }
    }
    assert forall|j: int, i: int| 0 <= j < m2.len() && 0 <= i < ns implies ((#[trigger]
    has_source(m2[j], i)) <==> #[trigger] pair_for(s2, ss, ts, i, j)) by {
        if has_source(m2[j], i) {
            let t = choose|t: int| 0 <= t < m2[j].len() && (#[trigger] m2[j][t]).source_index == i;
            if j == j0 && t == pos {
                assert(i == i0);
                assert(s2.contains((p0, q0)));
                assert(pair_for(s2, ss, ts, i, j));
            } else {
                let t1 = if j == j0 && t > pos {
                    t - 1
                } else {
                    t
                };
                assert(m1[j][t1].source_index == i);
                assert(has_source(m1[j], i));
                assert(pair_for(s1, ss, ts, i, j));
                let pq = choose|pq: (int, int)|
                    #[trigger] s1.contains(pq) && 0 <= pq.0 < ss.len() && 0 <= pq.1 < ts.len()
                        && ss[pq.0].poly == i && ts[pq.1].poly == j;
                assert(s2.contains(pq));
                assert(pair_for(s2, ss, ts, i, j));
            }
        }
        if pair_for(s2, ss, ts, i, j) {
            let pq = choose|pq: (int, int)|
                #[trigger] s2.contains(pq) && 0 <= pq.0 < ss.len() && 0 <= pq.1 < ts.len()
                    && ss[pq.0].poly == i && ts[pq.1].poly == j;
            if pq == (p0, q0) {
                assert(i == i0 && j == j0);
                assert(m2[j0][pos].source_index == i0);
                assert(has_source(m2[j0], i0));
            } else {
                assert(s1.contains(pq));
                assert(pair_for(s1, ss, ts, i, j));
                assert(has_source(m1[j], i));
                let t = choose|t: int|
                    0 <= t < m1[j].len() && (#[trigger] m1[j][t]).source_index == i;
                if j == j0 && t >= pos {
                    assert(m2[j][t + 1].source_index == i);
                } else {
                    assert(m2[j][t].source_index == i);
                }
                assert(has_source(m2[j], i));
            }
        }
    }
}

} // verus!
