//! Scheduling of library signups and book scans under a day budget.
//!
//! There are books with scores, libraries that each hold some of the books,
//! and a number of days. Libraries are signed up one after another; a signup
//! takes days, and once it is done the library scans its books at a fixed
//! number per day until the days are over. A book counts once, whoever scans
//! it. The aim is a schedule that scores much.
//!
//! - [`problem`] holds the input, [`input`] reads it from text.
//! - [`solution`] holds schedules and says when one is valid; [`schedule`]
//!   builds them entry by entry.
//! - [`greedy`] builds a first schedule, with [`candidate`] to tell what a
//!   library would add. [`variants`] has solvers for problems of special shape.
//! - [`optimizer`] improves a schedule by moving books between its entries;
//!   [`moves`] says what a move does.
//! - [`scorer`] derives the score of a schedule from its entries, and [`audit`]
//!   checks a schedule against the problem.
//! - [`laws`] proves what holds of all of them.
//!
//! The functions are verified against the contracts they state. Two private
//! functions hand work to rayon's thread pool; their contracts say what is
//! taken on trust of it.

pub mod problem;
pub mod input;
pub mod ranking;
pub mod tally;
pub mod solution;
pub mod schedule;
pub mod candidate;
pub mod greedy;
pub mod variants;
pub mod moves;
pub mod optimizer;
pub mod scorer;
pub mod audit;
pub mod laws;
