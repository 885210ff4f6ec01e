use vstd::prelude::*;
use crate::def::Input;

verus! {

/// Tuning parameters of the solver.
pub struct Param {
    pub c: i64,
    pub p1: usize,
}

impl Param {
    /// Parameters for the instance: its cost per cell and the default step.
    pub fn new(input: &Input) -> (p: Param)
        ensures
            p.c == input.c,
            p.p1 == 10,
    {
        Param { c: input.c, p1: 10 }
    }
}

} // verus!
