//! The machine's failure contract. `Halt` is a legitimate terminal state,
//! not a fault; every other variant reports a fault whose cycle was rolled
//! back (the program counter is restored before the error is returned).

use vstd::prelude::*;

verus! {

/// The outcome of a failed or terminating cycle.
#[derive(Clone, Copy, Debug, PartialEq, Eq, Structural)]
pub enum Error {
    /// An operand above 32775 was resolved, or the program counter left the
    /// addressable range. Carries the offending value.
    InvalidLoad(u16),
    /// A destination operand did not name a register, or a memory write was
    /// aimed outside the addressable range. Carries the offending value.
    InvalidStore(u16),
    /// `pop` on an empty stack.
    PopFromEmptyStack,
    /// An opcode above 21. Carries the opcode.
    UnknownOpcode(u16),
    /// Normal termination: the `halt` opcode, `ret` on an empty stack, or
    /// exhausted input during `in`.
    Halt,
    /// `mod` with a zero divisor.
    DivisionByZero,
}

impl Error {
    /// Whether this outcome is a fault rather than normal termination.
    pub fn is_fault(&self) -> (r: bool)
        ensures
            r == !(self is Halt),
    {
        !matches!(self, Error::Halt)
    }
}

} // verus!
