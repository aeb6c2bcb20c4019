//! Failure odds for one roll in the dice game "Can't Stop".
//!
//! A turn rolls four six-sided dice. The player splits them into two pairs
//! and advances on the columns named by the two pair sums, subject to the
//! columns that are blocked and to the limit of three columns per turn.
//! This crate enumerates every roll and counts those that leave no legal
//! move.

pub mod dice;
pub mod rules;
pub mod calc;
pub mod mirror;
pub mod args;
pub mod message;
