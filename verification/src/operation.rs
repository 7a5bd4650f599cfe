//! Operations of the virtual machine which the assembler emits.
use vstd::prelude::*;

use crate::felt::Felt;

verus! {

/// A single operation of the virtual machine.
#[derive(Clone, Copy, Debug, PartialEq, Eq, Structural)]
pub enum Operation {
    /// Does nothing.
    Noop,
    /// Replaces the two elements at the top of the stack by their sum.
    Add,
    /// Adds the element at the top of the stack to the free memory pointer.
    FmpUpdate,
    /// Puts the element onto the stack.
    Push(Felt),
}

} // verus!
