//! A paged election computation and verification engine.
//!
//! The crate splits a large electorate into fixed-size pages, runs a
//! sequential proportional-representation election over the full electorate,
//! re-partitions the resulting assignments per page, encodes them into a
//! compact index-based solution format, re-derives and validates each page's
//! support totals from the untrusted encoding, and aggregates the per-page
//! results into a single quality score that does not depend on how the
//! electorate was paged.

pub mod arith;
pub mod solver;
pub mod snapshot;
pub mod solution;
pub mod score;
pub mod feasibility;
pub mod round;
pub mod laws;

use vstd::prelude::*;

verus! {

/// Identifier of a voter or a target (candidate).
pub type AccountId = u64;

/// Stake weight of one voter.
pub type VoteWeight = u64;

/// Wide balance type used for accumulated stake.
pub type ExtendedBalance = u128;

/// Index of a page of the electorate.
pub type PageIndex = u32;

/// Index of a voter inside one page of the snapshot.
pub type VoterIndex = u32;

/// Index of a target in the flat target list of the snapshot.
pub type TargetIndex = u16;

/// Fixed-point proportions are expressed in parts of this accuracy
/// (the resolution of one voter's stake distribution).
pub const ACCURACY: u16 = 65535;

/// The maximum number of distinct targets one voter may back.
pub const MAX_VOTES_PER_VOTER: usize = 16;

/// One voter of the electorate: identity, stake, approved targets.
#[derive(Clone, Debug)]
pub struct VoterRecord {
    pub who: AccountId,
    pub stake: VoteWeight,
    pub votes: Vec<AccountId>,
}

/// The quality metric of an election outcome, ordered lexicographically:
/// maximize the minimal backing, maximize the total backing, minimize the
/// sum of squared backings.
#[derive(Clone, Copy, Debug, PartialEq, Eq, Structural)]
pub struct ElectionScore {
    pub minimal_stake: ExtendedBalance,
    pub sum_stake: ExtendedBalance,
    pub sum_stake_squared: ExtendedBalance,
}

/// Errors of the election solver.
#[derive(Clone, Copy, Debug, PartialEq, Eq, Structural)]
pub enum ElectionError {
    /// The solver found nothing to elect: the desired winner count is zero,
    /// the electorate is empty, or no voter approves any known target.
    NoFeasibleElection,
}

/// Errors of the per-page feasibility check of an untrusted solution.
#[derive(Clone, Copy, Debug, PartialEq, Eq, Structural)]
pub enum FeasibilityError {
    /// The snapshot is not fully populated yet.
    SnapshotIncomplete,
    /// The requested page is not part of the snapshot.
    SnapshotMissing,
    /// The solution's page count differs from the snapshot's page count.
    PageCountMismatch,
    /// The solution's round identifier does not match the active round.
    RoundMismatch,
    /// A voter index is outside the bounds of the page's voter list.
    VoterIndexOutOfBounds,
    /// A target index is outside the bounds of the target list.
    TargetIndexOutOfBounds,
    /// A referenced target is not in the referencing voter's approved set.
    ForgedBacking,
    /// A voter's distributed proportions do not sum to its stake within
    /// the declared rounding tolerance.
    ProportionSumMismatch,
    /// A voter record lists more distinct targets than the allowed maximum.
    TooManyTargetsForVoter,
    /// The page references more distinct targets than the desired winner count.
    WinnerCountExceeded,
    /// The claimed score does not match the recomputed one.
    ScoreMismatch,
}

} // verus!
