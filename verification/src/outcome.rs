//! The outcomes a submission can have, and the store errors behind them.

use vstd::prelude::*;

verus! {

/// The decision returned for one flag submission.
#[derive(Clone, Copy, PartialEq, Eq, Structural, Debug)]
pub enum Outcome {
    /// The submission was correct and this caller won the credit;
    /// carries the points that were awarded.
    Correct(u64),
    /// The candidate secret does not match the challenge's secret.
    Incorrect,
    /// The (challenge, team) pair already holds credit.
    AlreadyCredited,
    /// The team name does not resolve to a known team.
    UnknownTeam,
    /// The challenge name does not name a scored challenge.
    UnknownChallenge,
}

/// The error a mutating store operation can report.
#[derive(Clone, Copy, PartialEq, Eq, Structural, Debug)]
pub enum StoreError {
    /// The named row does not exist.
    NotFound,
}

} // verus!
