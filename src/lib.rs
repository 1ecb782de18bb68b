//! A liquid-democracy vote engine.
//!
//! `delegation` resolves, per topic and instant, who votes for whom and with
//! what weight; `poll` combines those weights with the ballots of a question
//! and tallies them with `tally` (referendum, quantified answers) or `ranked`
//! (instant runoff), then assembles a poll's result once it has closed.
//! `community` keeps voters and the arena of delegation records.

pub mod model;
pub mod delegation;
pub mod tally;
pub mod ranked;
pub mod poll;
pub mod community;
