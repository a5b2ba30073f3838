//! Solvers for a collection of small daily text puzzles.
//!
//! Each day stands in a module of its own with the same shape: a `Problem`
//! type whose `parse_input` turns the raw puzzle text (given as bytes) into a
//! typed input, and whose `solve_first` and `solve_second` compute the two
//! answers of that day. The contracts of each solver state the answer as a
//! function of the parsed input; the byte-level helpers they share live in
//! `text`.

pub mod day1;
pub mod day10;
pub mod day11;
pub mod day2;
pub mod day3;
pub mod day4;
pub mod day5;
pub mod day6;
pub mod day7;
pub mod day8;
pub mod day9;
pub mod template;
pub mod text;
