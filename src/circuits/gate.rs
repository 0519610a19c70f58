//! Gates: an operation on two entries of the layer below, written to one
//! entry of its own layer.
use crate::field::{fadd, fmul, FieldElement};
use vstd::prelude::*;

verus! {

#[allow(non_camel_case_types)]
#[derive(Clone, Copy, Debug, PartialEq, Eq, Structural)]
pub enum Operation {
    ADD,
    MUL,
}

/// The value of `op` on `left` and `right`.
pub open spec fn operation_spec(op: Operation, left: int, right: int) -> int {
    match op {
        Operation::ADD => fadd(left, right),
        Operation::MUL => fmul(left, right),
    }
}

impl Operation {
    pub fn operations(&self, left: &FieldElement, right: &FieldElement) -> (r: FieldElement)
        ensures
            r@ == operation_spec(*self, left@, right@),
    {
        match self {
            Operation::ADD => left.add(right),
            Operation::MUL => left.mul(right),
        }
    }
}

#[derive(Clone, Copy, Debug, PartialEq, Eq, Structural)]
pub struct Gate {
    pub left: usize,
    pub right: usize,
    pub output: usize,
    pub operation: Operation,
}

impl Gate {
    pub fn new(left: usize, right: usize, output: usize, operation: Operation) -> (r: Self)
        ensures
            r == (Gate { left, right, output, operation }),
    {
        Gate { left, right, output, operation }
    }
}

} // verus!
