//! The mathematical model of the machine: its complete state as plain
//! sequences and numbers, and a step function that gives, for every state,
//! the exact next state and outcome of one fetch-decode-execute cycle.
//! The executable machine is verified against this model.

use crate::error::Error;
use vstd::prelude::*;

verus! {

/// Number of addressable memory cells.
pub const MEM_SIZE: usize = 32768;

/// Number of general-purpose registers.
pub const REG_COUNT: usize = 8;

/// Arithmetic results are reduced modulo this (15-bit words).
pub const MODULUS: u32 = 32768;

/// The complete machine state: memory, registers, stack, program counter,
/// and the two byte transports.
#[verifier::ext_equal]
pub struct VmState {
    pub memory: Seq<u16>,
    pub registers: Seq<u16>,
    pub stack: Seq<u16>,
    pub pc: nat,
    /// Bytes queued on the input transport, and the next unread position.
    pub input: Seq<u8>,
    pub in_pos: nat,
    /// Bytes retained by the output transport, its read cursor, and whether
    /// it discards what it is given.
    pub output: Seq<u8>,
    pub out_pos: nat,
    pub out_discard: bool,
}

/// Well-formedness: fixed memory and register file sizes, a program counter
/// that fits in a word pair, and transport cursors in range. Constructors
/// establish this and every step preserves it.
pub open spec fn state_wf(s: VmState) -> bool {
    &&& s.memory.len() == MEM_SIZE
    &&& s.registers.len() == REG_COUNT
    &&& s.pc < 65536
    &&& s.in_pos <= s.input.len()
    &&& s.out_pos <= s.output.len()
    &&& (s.out_discard ==> s.output.len() == 0)
}

/// Operand values in this range name a register.
pub open spec fn is_reg(v: u16) -> bool {
    32768 <= v <= 32775
}

/// The register named by operand `v`.
pub open spec fn reg_index(v: u16) -> int {
    v - 32768
}

/// Operand resolution: values up to 32767 are literals, the next eight name
/// registers, anything above is invalid.
pub open spec fn load_spec(s: VmState, v: u16) -> Result<u16, Error> {
    if v <= 32767 {
        Ok(v)
    } else if v <= 32775 {
        Ok(s.registers[reg_index(v)])
    } else {
        Err(Error::InvalidLoad(v))
    }
}

/// `s` with the register named by `d` holding `val`.
pub open spec fn with_reg(s: VmState, d: u16, val: u16) -> VmState {
    VmState { registers: s.registers.update(reg_index(d), val), ..s }
}

/// Destination write: resolve `src` as an operand, then store the resolved
/// value in the register named by `d`; any `d` outside the register range is
/// invalid. The error of a bad `src` comes before the error of a bad `d`.
pub open spec fn set_spec(s: VmState, d: u16, src: u16) -> (VmState, Option<Error>) {
    match load_spec(s, src) {
        Err(e) => (s, Some(e)),
        Ok(val) => {
            if is_reg(d) {
                (with_reg(s, d, val), None)
            } else {
                (s, Some(Error::InvalidStore(d)))
            }
        }
    }
}

/// How many operand words each opcode consumes. Unknown opcodes consume
/// none.
pub open spec fn arity(op: u16) -> nat {
    if op == 0 || op == 18 || op == 21 {
        0
    } else if op == 2 || op == 3 || op == 6 || op == 17 || op == 19 || op == 20 {
        1
    } else if op == 1 || op == 7 || op == 8 || op == 14 || op == 15 || op == 16 {
        2
    } else if op == 4 || op == 5 || op == 9 || op == 10 || op == 11 || op == 12 || op == 13 {
        3
    } else {
        0
    }
}

/// The position of the first byte at or after `pos` that is not a carriage
/// return, or the end of `data` if only carriage returns remain.
pub open spec fn skip_crs(data: Seq<u8>, pos: nat) -> nat
    decreases data.len() - pos,
{
    if pos >= data.len() {
        data.len()
    } else if data[pos as int] == 13 {
        skip_crs(data, pos + 1)
    } else {
        pos
    }
}

/// The effect of opcode `op` on state `s1`, where `s1` already has the
/// program counter advanced past the opcode and its operand words
/// `a`, `b`, `c` (only the first `arity(op)` of which are meaningful).
/// On an error the returned state keeps whatever partial effects the cycle
/// had before failing; the program counter is restored by `step_spec`.
pub open spec fn step_op(s1: VmState, op: u16, a: u16, b: u16, c: u16) -> (VmState, Option<
    Error,
>) {
    if op == 0 {
        // halt: normal termination
        (s1, Some(Error::Halt))
    } else if op == 1 {
        // set a b
        set_spec(s1, a, b)
    } else if op == 2 {
        // push a
        match load_spec(s1, a) {
            Err(e) => (s1, Some(e)),
            Ok(v) => (VmState { stack: s1.stack.push(v), ..s1 }, None),
        }
    } else if op == 3 {
        // pop a: the value is removed before the destination is checked
        if s1.stack.len() == 0 {
            (s1, Some(Error::PopFromEmptyStack))
        } else {
            let tos = s1.stack.last();
            let s2 = VmState { stack: s1.stack.drop_last(), ..s1 };
            if is_reg(a) {
                (with_reg(s2, a, tos), None)
            } else {
                (s2, Some(Error::InvalidStore(a)))
            }
        }
    } else if op == 4 || op == 5 {
        // eq / gt a b c
        match load_spec(s1, b) {
            Err(e) => (s1, Some(e)),
            Ok(vb) => match load_spec(s1, c) {
                Err(e) => (s1, Some(e)),
                Ok(vc) => {
                    let hit = if op == 4 {
                        vb == vc
                    } else {
                        vb > vc
                    };
                    set_spec(s1, a, if hit { 1u16 } else { 0u16 })
                }
            },
        }
    } else if op == 6 {
        // jmp a
        match load_spec(s1, a) {
            Err(e) => (s1, Some(e)),
            Ok(v) => (VmState { pc: v as nat, ..s1 }, None),
        }
    } else if op == 7 || op == 8 {
        // jt / jf a b: the target operand is resolved only when the jump is
        // taken
        match load_spec(s1, a) {
            Err(e) => (s1, Some(e)),
            Ok(va) => {
                let taken = if op == 7 {
                    va != 0
                } else {
                    va == 0
                };
                if taken {
                    match load_spec(s1, b) {
                        Err(e) => (s1, Some(e)),
                        Ok(v) => (VmState { pc: v as nat, ..s1 }, None),
                    }
                } else {
                    (s1, None)
                }
            }
        }
    } else if op == 9 || op == 10 || op == 12 || op == 13 {
        // add / mult / and / or a b c, reduced modulo 32768 after the
        // full-width operation
        match load_spec(s1, b) {
            Err(e) => (s1, Some(e)),
            Ok(vb) => match load_spec(s1, c) {
                Err(e) => (s1, Some(e)),
                Ok(vc) => {
                    let full: int = if op == 9 {
                        vb + vc
                    } else if op == 10 {
                        vb * vc
                    } else if op == 12 {
                        (vb & vc) as int
                    } else {
                        (vb | vc) as int
                    };
                    set_spec(s1, a, (full % (MODULUS as int)) as u16)
                }
            },
        }
    } else if op == 11 {
        // mod a b c: unsigned remainder; a zero divisor is a fault
        match load_spec(s1, b) {
            Err(e) => (s1, Some(e)),
            Ok(vb) => match load_spec(s1, c) {
                Err(e) => (s1, Some(e)),
                Ok(vc) => {
                    if vc == 0 {
                        (s1, Some(Error::DivisionByZero))
                    } else {
                        set_spec(s1, a, ((vb as int % vc as int) % (MODULUS as int)) as u16)
                    }
                }
            },
        }
    } else if op == 14 {
        // not a b: 15-bit bitwise inverse
        match load_spec(s1, b) {
            Err(e) => (s1, Some(e)),
            Ok(vb) => set_spec(s1, a, !vb & 0x7fff),
        }
    } else if op == 15 {
        // rmem a b: read memory at the resolved address into register a
        match load_spec(s1, b) {
            Err(e) => (s1, Some(e)),
            Ok(addr) => {
                if addr >= 32768 {
                    (s1, Some(Error::InvalidLoad(addr)))
                } else {
                    let val = s1.memory[addr as int];
                    if is_reg(a) {
                        (with_reg(s1, a, val), None)
                    } else {
                        (s1, Some(Error::InvalidStore(a)))
                    }
                }
            }
        }
    } else if op == 16 {
        // wmem a b: write the resolved value of b to memory at the resolved
        // address of a
        match load_spec(s1, a) {
            Err(e) => (s1, Some(e)),
            Ok(addr) => match load_spec(s1, b) {
                Err(e) => (s1, Some(e)),
                Ok(vb) => {
                    if addr >= 32768 {
                        (s1, Some(Error::InvalidStore(addr)))
                    } else {
                        (VmState { memory: s1.memory.update(addr as int, vb), ..s1 }, None)
                    }
                }
            },
        }
    } else if op == 17 {
        // call a: the return address is pushed before the target is
        // resolved, so a bad target leaves it on the stack
        let s2 = VmState { stack: s1.stack.push(s1.pc as u16), ..s1 };
        match load_spec(s2, a) {
            Err(e) => (s2, Some(e)),
            Ok(v) => (VmState { pc: v as nat, ..s2 }, None),
        }
    } else if op == 18 {
        // ret: pop the return address and jump to it; an empty stack is
        // normal termination
        if s1.stack.len() == 0 {
            (s1, Some(Error::Halt))
        } else {
            let tos = s1.stack.last();
            (VmState { stack: s1.stack.drop_last(), pc: tos as nat, ..s1 }, None)
        }
    } else if op == 19 {
        // out a: the low byte of the resolved value goes to the output
        // transport
        match load_spec(s1, a) {
            Err(e) => (s1, Some(e)),
            Ok(v) => {
                let byte = (v & 0xff) as u8;
                if s1.out_discard {
                    (s1, None)
                } else {
                    (VmState { output: s1.output.push(byte), ..s1 }, None)
                }
            }
        }
    } else if op == 20 {
        // in a: consume carriage returns, then one byte; exhausted input is
        // normal termination, with the carriage returns consumed
        let p = skip_crs(s1.input, s1.in_pos);
        if p >= s1.input.len() {
            (VmState { in_pos: s1.input.len(), ..s1 }, Some(Error::Halt))
        } else {
            let byte = s1.input[p as int];
            set_spec(VmState { in_pos: p + 1, ..s1 }, a, byte as u16)
        }
    } else if op == 21 {
        // noop
        (s1, None)
    } else {
        (s1, Some(Error::UnknownOpcode(op)))
    }
}

/// One raw cycle from state `s`: fetch the opcode and its operands (each
/// fetch checks that the program counter is an addressable cell), then apply
/// the opcode's effect. Error results may carry partial effects and an
/// arbitrary program counter; `step_spec` restores the latter.
pub open spec fn step_raw(s: VmState) -> (VmState, Option<Error>) {
    if s.pc >= MEM_SIZE {
        (s, Some(Error::InvalidLoad(s.pc as u16)))
    } else {
        let op = s.memory[s.pc as int];
        if op > 21 {
            (VmState { pc: s.pc + 1, ..s }, Some(Error::UnknownOpcode(op)))
        } else if s.pc + 1 + arity(op) > MEM_SIZE {
            (s, Some(Error::InvalidLoad(MEM_SIZE as u16)))
        } else {
            let a = if arity(op) >= 1 {
                s.memory[s.pc as int + 1]
            } else {
                0u16
            };
            let b = if arity(op) >= 2 {
                s.memory[s.pc as int + 2]
            } else {
                0u16
            };
            let c = if arity(op) >= 3 {
                s.memory[s.pc as int + 3]
            } else {
                0u16
            };
            let s1 = VmState { pc: s.pc + 1 + arity(op), ..s };
            step_op(s1, op, a, b, c)
        }
    }
}

/// One complete cycle: on success the raw result stands; on any error the
/// program counter is restored to its pre-cycle value, so the failing
/// instruction has not been consumed.
pub open spec fn step_spec(s: VmState) -> (VmState, Option<Error>) {
    let (t, e) = step_raw(s);
    if e is Some {
        (VmState { pc: s.pc, ..t }, e)
    } else {
        (t, e)
    }
}

/// Equality of every state component except the program counter.
pub open spec fn eq_except_pc(x: VmState, y: VmState) -> bool {
    &&& x.memory == y.memory
    &&& x.registers == y.registers
    &&& x.stack == y.stack
    &&& x.input == y.input
    &&& x.in_pos == y.in_pos
    &&& x.output == y.output
    &&& x.out_pos == y.out_pos
    &&& x.out_discard == y.out_discard
}

/// A failed cycle never moves the program counter: the failing instruction
/// can be inspected and retried. (`Halt` also leaves it on the halting
/// instruction.)
pub proof fn lemma_step_rollback(s: VmState)
    ensures
        step_spec(s).1 is Some ==> step_spec(s).0.pc == s.pc,
{
}

/// A cycle is a function of the state alone: equal states step to equal
/// states with equal outcomes, which is what makes a restored snapshot
/// resume exactly.
pub proof fn lemma_step_deterministic(s1: VmState, s2: VmState)
    requires
        s1 == s2,
    ensures
        step_spec(s1) == step_spec(s2),
{
}

/// A cycle never rewinds the output history or touches its read cursor,
/// and never changes which kind of output endpoint is attached: output only
/// accumulates, so a driver's cursor into it stays meaningful.
pub proof fn lemma_step_output_stable(s: VmState)
    ensures
        step_spec(s).0.out_pos == s.out_pos,
        step_spec(s).0.out_discard == s.out_discard,
        step_spec(s).0.output.len() >= s.output.len(),
        step_spec(s).0.output.subrange(0, s.output.len() as int) == s.output,
{
    let t = step_spec(s).0;
    assert(t.output.subrange(0, s.output.len() as int) =~= s.output);
}

/// Stepping preserves well-formedness.
pub proof fn lemma_step_wf(s: VmState)
    requires
        state_wf(s),
    ensures
        state_wf(step_spec(s).0),
{
}

} // verus!
