//! Starting point for a new day: a solver whose answers are fixed at zero.

use vstd::prelude::*;

verus! {

pub struct Problem;

impl Problem {
    pub fn get_day(&self) -> (r: i32)
        ensures
            r == 1,
    {
        1
    }

    /// The placeholder input: a single zero entry, whatever the text says.
    pub fn parse_input(&self, r: &[u8]) -> (v: Vec<i64>)
        ensures
            v@ =~= seq![0i64],
    {
        vec![0]
    }

    pub fn solve_first(&self, input: &Vec<i64>) -> (r: i64)
        ensures
            r == 0,
    {
        0
    }

    pub fn solve_second(&self, input: &Vec<i64>) -> (r: i64)
        ensures
            r == 0,
    {
        0
    }
}

} // verus!
