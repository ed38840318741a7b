use crate::operation::Operation;
use vstd::prelude::*;

verus! {

/// One operation applied to two numbers, the larger first.
#[derive(Clone, Copy, PartialEq, Eq, Structural, Debug)]
pub struct Step {
    pub num_1: u32,
    pub num_2: u32,
    pub op_enum: Operation,
}

impl Step {
    /// What the step evaluates to, as a mathematical integer; `None` where
    /// the operation does not apply to the two numbers.
    pub open spec fn value(self) -> Option<int> {
        self.op_enum.apply(self.num_1 as int, self.num_2 as int)
    }

    /// The larger number stands first, and the value, if there is one, is a
    /// `u32`.
    pub open spec fn well_formed(self) -> bool {
        &&& self.num_1 >= self.num_2
        &&& match self.value() {
            Some(v) => v <= u32::MAX,
            None => true,
        }
    }

    pub fn new(num_1: u32, num_2: u32, op_enum: Operation) -> (step: Step)
        ensures
            step == (Step { num_1, num_2, op_enum }),
    {
        Step { num_1, num_2, op_enum }
    }

    /// Evaluates the step. Only a division can fail: by zero, or with a
    /// remainder.
    pub fn output(&self) -> (out: Result<u32, &'static str>)
        requires
            self.well_formed(),
        ensures
            match self.value() {
                Some(v) => out == Ok::<u32, &'static str>(v as u32),
                None => out is Err && out->Err_0@ == "Cannot divide"@,
            },
    {
        let x = self.num_1;
        let y = self.num_2;
        match self.op_enum {
            Operation::Plus => Ok(x + y),
            Operation::Minus => Ok(x - y),
            Operation::Times => Ok(x * y),
            Operation::Divide => {
                if y != 0 && x % y == 0 {
                    Ok(x / y)
                } else {
                    Err("Cannot divide")
                }
            },
        }
    }
}

} // verus!
