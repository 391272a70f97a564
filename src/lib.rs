//! A local-search train scheduler: a discrete-time simulation of trains and
//! passenger groups, a priority chain of move comparators, and a tabu search
//! that assembles schedules with low total delay.
pub mod connection;
pub mod model;
pub mod move_;
pub mod passenger;
pub mod rule;
pub mod rules;
pub mod solution;
pub mod state;
pub mod station;
pub mod sums;
pub mod tabu;
pub mod train;
pub mod types;

