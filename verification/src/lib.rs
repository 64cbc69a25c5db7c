//! Approximate network matching and attribute transfer for planar polylines.
//!
//! Two collections of polylines — a *source* and a *target* — are compared
//! under a distance tolerance and an angle tolerance. For every target
//! polyline the engine finds the source polylines that run alongside it,
//! estimates the length over which each pair is co-located, and transfers
//! per-source scalar attributes onto the targets by length weighting.
//!
//! All coordinates, tolerances and attribute values are fixed-point
//! integers: the caller picks a scale (say, millimetres) and converts once
//! at the boundary. Every geometric predicate in this crate is exact over
//! those integers, and lengths use an exact integer square root, so the
//! whole pipeline is deterministic and verified end to end. The spatial
//! index is an R*-tree; only its bulk load and its tree-against-tree
//! candidate enumeration are taken on trust.

use vstd::prelude::*;

pub mod angle;
pub mod geom;
pub mod index;
pub mod interpolate;
pub mod laws;
pub mod matching;
pub mod sums;

verus! {

/// Errors surfaced by matching and interpolation.
#[derive(Clone, Copy, Debug, PartialEq, Eq, Structural)]
pub enum AnimeError {
    /// The attribute vector's length differs from the number of source polylines.
    IncorrectLength,
    /// Interpolation was invoked before `find_matches` succeeded.
    MatchesNotFound,
    /// `find_matches` was invoked more than once on the same instance.
    AlreadyMatched,
}

impl AnimeError {
    /// A human-readable description of the error.
    pub fn message(&self) -> (s: &'static str)
        ensures
            *self == AnimeError::IncorrectLength ==> s@ == "variable to interpolate must have one observation per source polyline"@,
            *self == AnimeError::MatchesNotFound ==> s@ == "matches must be populated with find_matches first"@,
            *self == AnimeError::AlreadyMatched ==> s@ == "find_matches may only run once per instance"@,
    {
        match self {
            AnimeError::IncorrectLength => "variable to interpolate must have one observation per source polyline",
            AnimeError::MatchesNotFound => "matches must be populated with find_matches first",
            AnimeError::AlreadyMatched => "find_matches may only run once per instance",
        }
    }
}

} // verus!
