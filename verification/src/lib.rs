//! A capture-the-flag scoreboard core: a challenge catalog, a solve ledger,
//! a score store, and the verification engine that decides submissions and
//! credits points at most once per (challenge, team) pair.

pub mod catalog;
pub mod engine;
pub mod laws;
pub mod ledger;
pub mod model;
pub mod outcome;
pub mod scores;
