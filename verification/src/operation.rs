use vstd::prelude::*;

verus! {

/// The four ways of combining two numbers.
#[derive(Clone, Copy, PartialEq, Eq, Structural, Debug)]
pub enum Operation {
    Plus,
    Minus,
    Times,
    Divide,
}

impl Operation {
    /// The value of the operation on `a` and `b`, or `None` where it does not
    /// apply: a division by zero, or one that leaves a remainder.
    pub open spec fn apply(self, a: int, b: int) -> Option<int> {
        match self {
            Operation::Plus => Some(a + b),
            Operation::Minus => Some(a - b),
            Operation::Times => Some(a * b),
            Operation::Divide => if b != 0 && a % b == 0 {
                Some(a / b)
            } else {
                None
            },
        }
    }

    /// The operation at place `o` of the fixed order in which a search tries
    /// them: plus, minus, times, divide.
    pub open spec fn at(o: int) -> Operation {
        if o == 0 {
            Operation::Plus
        } else if o == 1 {
            Operation::Minus
        } else if o == 2 {
            Operation::Times
        } else {
            Operation::Divide
        }
    }

    /// The character that stands for the operation in a rendered step.
    pub open spec fn glyph(self) -> char {
        match self {
            Operation::Plus => '+',
            Operation::Minus => '-',
            Operation::Times => '*',
            Operation::Divide => '/',
        }
    }

    /// The operation at place `o` of the search order.
    pub fn nth(o: u8) -> (op: Operation)
        requires
            o < 4,
        ensures
            op == Operation::at(o as int),
    {
        if o == 0 {
            Operation::Plus
        } else if o == 1 {
            Operation::Minus
        } else if o == 2 {
            Operation::Times
        } else {
            Operation::Divide
        }
    }

    /// The character that stands for the operation.
    pub fn symbol(&self) -> (c: char)
        ensures
            c == self.glyph(),
    {
        match self {
            Operation::Plus => '+',
            Operation::Minus => '-',
            Operation::Times => '*',
            Operation::Divide => '/',
        }
    }
}

} // verus!
