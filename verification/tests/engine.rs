// Scenario and property tests for the matching and interpolation engine.
// Coordinates are fixed-point: these tests use one unit = 0.1, so a segment
// from (0,0) to (10,0) in real units is written (0,0) to (100,0).

use anime::geom::Coord;
use anime::interpolate::Tensive;
use anime::matching::Anime;
use anime::AnimeError;

fn pt(x: i64, y: i64) -> Coord {
    Coord { x, y }
}

fn line(points: &[(i64, i64)]) -> Vec<Coord> {
    points.iter().map(|&(x, y)| pt(x, y)).collect()
}

fn build(
    source: Vec<Vec<Coord>>,
    target: Vec<Vec<Coord>>,
    dtol: i64,
    atol: u32,
) -> Anime {
    Anime::load_geometries(&source, &target, dtol, atol)
}

#[test]
fn coincident_segments_match_fully() {
    // Source and target are the same horizontal segment of length 100.
    let mut a = build(
        vec![line(&[(0, 0), (100, 0)])],
        vec![line(&[(0, 0), (100, 0)])],
        1,
        1,
    );
    a.find_matches().unwrap();
    let m = a.matches.as_ref().unwrap();
    assert_eq!(m.len(), 1);
    assert_eq!(m[0].len(), 1);
    assert_eq!(m[0][0].source_index, 0);
    assert_eq!(m[0][0].shared_len, 100);
    let ext = a.interpolate_extensive(&vec![7]).unwrap();
    assert_eq!(ext, vec![7]);
    let int = a.interpolate_intensive(&vec![7]).unwrap();
    assert_eq!(int, vec![7]);
}

#[test]
fn parallel_offset_within_tolerance_matches() {
    // Target runs parallel at offset 10 (1.0 real units), tolerance 15.
    let mut a = build(
        vec![line(&[(0, 0), (100, 0)])],
        vec![line(&[(0, 10), (100, 10)])],
        15,
        1,
    );
    a.find_matches().unwrap();
    let m = a.matches.as_ref().unwrap();
    assert_eq!(m[0].len(), 1);
    assert_eq!(m[0][0].shared_len, 100);
    assert_eq!(a.interpolate_extensive(&vec![7]).unwrap(), vec![7]);
    assert_eq!(a.interpolate_intensive(&vec![7]).unwrap(), vec![7]);
}

#[test]
fn offset_beyond_distance_tolerance_does_not_match() {
    // Target runs parallel at offset 50, tolerance 10: no match, and the
    // dense outputs are all zeros.
    let mut a = build(
        vec![line(&[(0, 0), (100, 0)])],
        vec![line(&[(0, 50), (100, 50)])],
        10,
        1,
    );
    a.find_matches().unwrap();
    let m = a.matches.as_ref().unwrap();
    assert_eq!(m.len(), 1);
    assert!(m[0].is_empty());
    assert_eq!(a.interpolate_extensive(&vec![7]).unwrap(), vec![0]);
    assert_eq!(a.interpolate_intensive(&vec![7]).unwrap(), vec![0]);
    assert_eq!(a.matches_triples().unwrap(), vec![]);
}

#[test]
fn angle_beyond_tolerance_does_not_match() {
    // The target leaves at 45 degrees; angle tolerance is 10 degrees.
    let mut a = build(
        vec![line(&[(0, 0), (100, 0)])],
        vec![line(&[(0, 0), (100, 100)])],
        1,
        10,
    );
    a.find_matches().unwrap();
    assert!(a.matches.as_ref().unwrap()[0].is_empty());
}

#[test]
fn partial_overlap_shares_the_common_stretch() {
    // Source covers x in [0, 100], target x in [40, 140]: 60 units shared.
    let mut a = build(
        vec![line(&[(0, 0), (100, 0)])],
        vec![line(&[(40, 0), (140, 0)])],
        1,
        1,
    );
    a.find_matches().unwrap();
    let m = a.matches.as_ref().unwrap();
    assert_eq!(m[0].len(), 1);
    assert_eq!(m[0][0].shared_len, 60);
    // Extensive: 10 * 60 / 100 = 6. Intensive: (10 * 60) / 60 = 10.
    assert_eq!(a.interpolate_extensive(&vec![10]).unwrap(), vec![6]);
    assert_eq!(a.interpolate_intensive(&vec![10]).unwrap(), vec![10]);
}

#[test]
fn two_sources_one_target_intensive_mean() {
    // Two half-length sources under one target; Y = [2, 8].
    let mut a = build(
        vec![line(&[(0, 0), (50, 0)]), line(&[(50, 0), (100, 0)])],
        vec![line(&[(0, 0), (100, 0)])],
        1,
        1,
    );
    a.find_matches().unwrap();
    let m = a.matches.as_ref().unwrap();
    assert_eq!(m[0].len(), 2);
    // candidate lists are kept in ascending source order
    assert_eq!(m[0][0].source_index, 0);
    assert_eq!(m[0][1].source_index, 1);
    let total: u128 = m[0].iter().map(|c| c.shared_len).sum();
    assert_eq!(total, 100);
    // Extensive: 2*(50/50) + 8*(50/50) = 10. Intensive: (2*50 + 8*50)/100 = 5.
    assert_eq!(a.interpolate_extensive(&vec![2, 8]).unwrap(), vec![10]);
    assert_eq!(a.interpolate_intensive(&vec![2, 8]).unwrap(), vec![5]);
    assert_eq!(a.interpolate(&vec![2, 8], Tensive::Ex).unwrap(), vec![10]);
    assert_eq!(a.interpolate(&vec![2, 8], Tensive::In).unwrap(), vec![5]);
}

#[test]
fn find_matches_is_one_shot() {
    let mut a = build(
        vec![line(&[(0, 0), (100, 0)])],
        vec![line(&[(0, 0), (100, 0)])],
        1,
        1,
    );
    a.find_matches().unwrap();
    let before = a.matches_triples().unwrap();
    let second = a.find_matches();
    assert_eq!(second, Err(AnimeError::AlreadyMatched));
    assert_eq!(a.matches_triples().unwrap(), before);
}

#[test]
fn wrong_attribute_length_is_rejected() {
    let mut a = build(
        vec![line(&[(0, 0), (100, 0)])],
        vec![line(&[(0, 0), (100, 0)])],
        1,
        1,
    );
    a.find_matches().unwrap();
    assert_eq!(
        a.interpolate_extensive(&vec![7, 9]),
        Err(AnimeError::IncorrectLength)
    );
    assert_eq!(
        a.interpolate_intensive(&vec![]),
        Err(AnimeError::IncorrectLength)
    );
}

#[test]
fn interpolation_before_matching_fails() {
    let a = build(
        vec![line(&[(0, 0), (100, 0)])],
        vec![line(&[(0, 0), (100, 0)])],
        1,
        1,
    );
    assert_eq!(
        a.interpolate_extensive(&vec![7]),
        Err(AnimeError::MatchesNotFound)
    );
    assert_eq!(
        a.interpolate_intensive(&vec![7]),
        Err(AnimeError::MatchesNotFound)
    );
    assert_eq!(a.matches_triples(), Err(AnimeError::MatchesNotFound));
}

#[test]
fn swapping_collections_swaps_the_matched_pairs() {
    // Symmetry of ingestion on the partial-overlap scenario: the matched
    // (target, source) pairs swap roles, with the same membership.
    let s = vec![line(&[(0, 0), (100, 0)])];
    let t = vec![line(&[(40, 0), (140, 0)])];
    let mut fwd = build(s.clone(), t.clone(), 1, 1);
    fwd.find_matches().unwrap();
    let mut rev = build(t, s, 1, 1);
    rev.find_matches().unwrap();
    let fwd_pairs: Vec<(usize, usize)> = fwd
        .matches_triples()
        .unwrap()
        .iter()
        .map(|&(j, i, _)| (j, i))
        .collect();
    let rev_pairs: Vec<(usize, usize)> = rev
        .matches_triples()
        .unwrap()
        .iter()
        .map(|&(j, i, _)| (i, j))
        .collect();
    assert_eq!(fwd_pairs, vec![(0, 0)]);
    assert_eq!(fwd_pairs, rev_pairs);
}

#[test]
fn widening_tolerances_only_adds_matches() {
    // At distance tolerance 10 the offset target is unmatched; at 60 it
    // matches, and the shared total rises from 0 to 100.
    let s = vec![line(&[(0, 0), (100, 0)])];
    let t = vec![line(&[(0, 50), (100, 50)])];
    let mut narrow = build(s.clone(), t.clone(), 10, 1);
    narrow.find_matches().unwrap();
    let mut wide = build(s, t, 60, 1);
    wide.find_matches().unwrap();
    assert!(narrow.matches.as_ref().unwrap()[0].is_empty());
    assert_eq!(wide.matches.as_ref().unwrap()[0][0].shared_len, 100);
}

#[test]
fn vertical_segments_match_vertical_segments() {
    let mut a = build(
        vec![line(&[(0, 0), (0, 100)])],
        vec![line(&[(1, 100), (1, 0)])],
        5,
        1,
    );
    a.find_matches().unwrap();
    let m = a.matches.as_ref().unwrap();
    assert_eq!(m[0].len(), 1);
    assert_eq!(m[0][0].shared_len, 100);
}

#[test]
fn polyline_lengths_use_exact_integer_roots() {
    // A 3-4-5 triangle leg: length 5 per segment.
    let a = build(
        vec![line(&[(0, 0), (3, 4), (6, 8)])],
        vec![line(&[(0, 0), (100, 0)])],
        1,
        1,
    );
    assert_eq!(a.source_lens, vec![10]);
    assert_eq!(a.target_lens, vec![100]);
}

#[test]
fn duplicate_segment_contributions_accumulate_per_pair() {
    // A source polyline with two collinear segments against one long target
    // segment: both contributions merge into a single candidate.
    let mut a = build(
        vec![line(&[(0, 0), (50, 0), (100, 0)])],
        vec![line(&[(0, 0), (100, 0)])],
        1,
        1,
    );
    a.find_matches().unwrap();
    let m = a.matches.as_ref().unwrap();
    assert_eq!(m[0].len(), 1);
    assert_eq!(m[0][0].source_index, 0);
    assert_eq!(m[0][0].shared_len, 100);
}

#[test]
fn intensive_output_stays_between_matched_values() {
    // Unequal shares: source pieces of lengths 80 and 20.
    let mut a = build(
        vec![line(&[(0, 0), (80, 0)]), line(&[(80, 0), (100, 0)])],
        vec![line(&[(0, 0), (100, 0)])],
        1,
        1,
    );
    a.find_matches().unwrap();
    let out = a.interpolate_intensive(&vec![0, 100]).unwrap();
    // (0*80 + 100*20) / 100 = 20: between min 0 and max 100.
    assert_eq!(out, vec![20]);
    assert!(out[0] >= 0 && out[0] <= 100);
}

#[test]
fn error_messages_name_the_failure() {
    assert!(AnimeError::IncorrectLength.message().contains("observation"));
    assert!(AnimeError::MatchesNotFound.message().contains("find_matches"));
    assert!(AnimeError::AlreadyMatched.message().contains("once"));
}

#[test]
fn splitting_a_source_keeps_the_shared_total() {
    // One source polyline against an offset target, then the same polyline
    // split at a vertex into two: per-target shared lengths add up.
    let t = vec![line(&[(0, 2), (100, 2)])];
    let mut whole = build(vec![line(&[(0, 0), (100, 0)])], t.clone(), 5, 1);
    whole.find_matches().unwrap();
    let mut split = build(
        vec![line(&[(0, 0), (30, 0)]), line(&[(30, 0), (100, 0)])],
        t,
        5,
        1,
    );
    split.find_matches().unwrap();
    let whole_total: u128 = whole.matches.as_ref().unwrap()[0]
        .iter()
        .map(|c| c.shared_len)
        .sum();
    let split_total: u128 = split.matches.as_ref().unwrap()[0]
        .iter()
        .map(|c| c.shared_len)
        .sum();
    assert_eq!(whole_total, 100);
    assert_eq!(split_total, whole_total);
}

#[test]
fn candidate_lists_are_sorted_by_source_index() {
    // Three stacked sources all within tolerance of one target: the
    // candidate list comes back in ascending source order with the right
    // totals, however the index enumerated the pairs.
    let mut a = build(
        vec![
            line(&[(0, 2), (100, 2)]),
            line(&[(0, 0), (100, 0)]),
            line(&[(0, 1), (100, 1)]),
        ],
        vec![line(&[(0, 0), (100, 0)])],
        5,
        1,
    );
    a.find_matches().unwrap();
    let m = a.matches.as_ref().unwrap();
    assert_eq!(m[0].len(), 3);
    assert_eq!(m[0][0].source_index, 0);
    assert_eq!(m[0][1].source_index, 1);
    assert_eq!(m[0][2].source_index, 2);
    assert!(m[0].iter().all(|c| c.shared_len == 100));
    assert_eq!(
        a.matches_triples().unwrap(),
        vec![(0, 0, 100), (0, 1, 100), (0, 2, 100)]
    );
}
