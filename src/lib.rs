//! Scoring of a five-card cribbage-style hand: pairs, fifteens, runs and
//! thirty-ones, gathered into a report with a running total.
pub mod card;
pub mod hand;
pub mod catalog;
pub mod finding;
pub mod detect;
pub mod runs;
pub mod report;
pub mod laws;
