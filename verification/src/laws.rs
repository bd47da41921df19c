//! Laws of the instruction set that relate several cycles, stated over the
//! mathematical step function and proved once for every machine state.

use crate::error::Error;
use crate::state::{
    is_reg, load_spec, reg_index, set_spec, state_wf, step_spec, VmState, MEM_SIZE,
};
use vstd::prelude::*;

verus! {

/// Resolving a literal operand is the identity: every value up to 32767
/// resolves to itself, in any machine state.
pub proof fn lemma_load_literal(s: VmState, v: u16)
    requires
        v <= 32767,
    ensures
        load_spec(s, v) == Ok::<u16, Error>(v),
{
}

/// An operand in the register range resolves to the register it names;
/// anything above the range fails with `InvalidLoad`.
pub proof fn lemma_load_register(s: VmState, v: u16)
    requires
        state_wf(s),
        v >= 32768,
    ensures
        v <= 32775 ==> load_spec(s, v) == Ok::<u16, Error>(s.registers[v - 32768]),
        v > 32775 ==> load_spec(s, v) == Err::<u16, Error>(Error::InvalidLoad(v)),
{
}

/// A destination write fails with `InvalidStore`, changing nothing, for
/// any destination outside the register range; otherwise the register it
/// names holds the resolved source afterwards and the rest of the state is
/// untouched.
pub proof fn lemma_set_destination(s: VmState, d: u16, src: u16)
    requires
        state_wf(s),
        src <= 32775,
    ensures
        !is_reg(d) ==> set_spec(s, d, src) == (s, Some(Error::InvalidStore(d))),
        is_reg(d) ==> {
            &&& set_spec(s, d, src).1 is None
            &&& set_spec(s, d, src).0.registers[reg_index(d)] == load_spec(s, src)->Ok_0
            &&& set_spec(s, d, src).0 == (VmState {
                registers: set_spec(s, d, src).0.registers,
                ..s
            })
        },
{
}

/// Addition wraps modulo 32768: executing `add a b c` leaves in the
/// register `a` names the sum of the resolved operands reduced modulo
/// 32768, so 32767 + 1 comes out 0.
pub proof fn lemma_add_wraps(s: VmState, a: u16, b: u16, c: u16)
    requires
        state_wf(s),
        s.pc + 4 <= MEM_SIZE,
        s.memory[s.pc as int] == 9,
        s.memory[s.pc as int + 1] == a,
        s.memory[s.pc as int + 2] == b,
        s.memory[s.pc as int + 3] == c,
        is_reg(a),
        b <= 32775,
        c <= 32775,
    ensures
        step_spec(s).1 is None,
        step_spec(s).0.registers[reg_index(a)] == ((load_spec(s, b)->Ok_0 + load_spec(
            s,
            c,
        )->Ok_0) % 32768) as u16,
{
}

/// Multiplication is reduced only after the full-width product: executing
/// `mult a b c` stores the mathematical product of the resolved operands
/// modulo 32768, with no intermediate truncation.
pub proof fn lemma_mult_full_width(s: VmState, a: u16, b: u16, c: u16)
    requires
        state_wf(s),
        s.pc + 4 <= MEM_SIZE,
        s.memory[s.pc as int] == 10,
        s.memory[s.pc as int + 1] == a,
        s.memory[s.pc as int + 2] == b,
        s.memory[s.pc as int + 3] == c,
        is_reg(a),
        b <= 32775,
        c <= 32775,
    ensures
        step_spec(s).1 is None,
        step_spec(s).0.registers[reg_index(a)] == ((load_spec(s, b)->Ok_0 * load_spec(
            s,
            c,
        )->Ok_0) % 32768) as u16,
{
}

/// `not` inverts the low 15 bits: executing `not a b` stores exactly
/// `(!v) & 0x7fff` for the resolved operand `v`.
pub proof fn lemma_not_is_15_bit_inverse(s: VmState, a: u16, b: u16)
    requires
        state_wf(s),
        s.pc + 3 <= MEM_SIZE,
        s.memory[s.pc as int] == 14,
        s.memory[s.pc as int + 1] == a,
        s.memory[s.pc as int + 2] == b,
        is_reg(a),
        b <= 32775,
    ensures
        step_spec(s).1 is None,
        step_spec(s).0.registers[reg_index(a)] == !load_spec(s, b)->Ok_0 & 0x7fff,
{
    let vb = load_spec(s, b)->Ok_0;
    assert(!vb & 0x7fff <= 0x7fff) by (bit_vector);
}

/// Push then pop hands back the pushed value unchanged: executing `push a`
/// and then `pop d` leaves the stack as it was and stores exactly the value
/// `a` resolved to in the register `d` names. Memory and every other
/// register are untouched.
pub proof fn lemma_push_then_pop(s: VmState, a: u16, d: u16)
    requires
        state_wf(s),
        s.pc + 4 <= MEM_SIZE,
        s.memory[s.pc as int] == 2,
        s.memory[s.pc as int + 1] == a,
        a <= 32775,
        s.memory[s.pc as int + 2] == 3,
        s.memory[s.pc as int + 3] == d,
        is_reg(d),
    ensures
        step_spec(s).1 is None,
        step_spec(step_spec(s).0).1 is None,
        ({
            let s2 = step_spec(step_spec(s).0).0;
            &&& s2.stack == s.stack
            &&& s2.registers == s.registers.update(
                reg_index(d),
                load_spec(s, a)->Ok_0,
            )
            &&& s2.memory == s.memory
            &&& s2.pc == s.pc + 4
        }),
{
    let s1 = step_spec(s).0;
    assert(s1.stack =~= s.stack.push(load_spec(s, a)->Ok_0));
    let s2 = step_spec(s1).0;
    assert(s2.stack =~= s.stack);
}

/// Pop on an empty stack fails with `PopFromEmptyStack` and changes
/// nothing: the stack stays empty and the whole state, program counter
/// included, is exactly as before the attempt.
pub proof fn lemma_pop_empty(s: VmState)
    requires
        state_wf(s),
        s.pc + 2 <= MEM_SIZE,
        s.memory[s.pc as int] == 3,
        s.stack.len() == 0,
    ensures
        step_spec(s).1 == Some(Error::PopFromEmptyStack),
        step_spec(s).0 == s,
{
    assert(step_spec(s).0 =~= s);
}

/// `call` at address `P` (a one-operand instruction) pushes the return
/// address `P + 2` and jumps to its operand's resolved value; a `ret`
/// sitting there pops that address and resumes execution at `P + 2` with
/// the stack as it was before the call.
pub proof fn lemma_call_then_ret(s: VmState, a: u16)
    requires
        state_wf(s),
        s.pc + 2 <= MEM_SIZE,
        s.memory[s.pc as int] == 17,
        s.memory[s.pc as int + 1] == a,
        a <= 32775,
        load_spec(s, a)->Ok_0 < MEM_SIZE,
        s.memory[load_spec(s, a)->Ok_0 as int] == 18,
    ensures
        step_spec(s).1 is None,
        step_spec(s).0.stack == s.stack.push((s.pc + 2) as u16),
        step_spec(s).0.pc == load_spec(s, a)->Ok_0,
        step_spec(step_spec(s).0).1 is None,
        ({
            let s2 = step_spec(step_spec(s).0).0;
            &&& s2.pc == s.pc + 2
            &&& s2.stack == s.stack
            &&& s2.registers == s.registers
            &&& s2.memory == s.memory
        }),
{
    let s1 = step_spec(s).0;
    assert(s1.stack =~= s.stack.push((s.pc + 2) as u16));
    let s2 = step_spec(s1).0;
    assert(s2.stack =~= s.stack);
    assert(s2.pc == s.pc + 2) by {
        assert(s1.stack.last() == (s.pc + 2) as u16);
        assert((s.pc + 2) as u16 as nat == s.pc + 2);
    }
}

/// `ret` on an empty stack is normal termination, not a fault: the outcome
/// is `Halt` and the state, program counter included, is unchanged.
pub proof fn lemma_ret_empty_halts(s: VmState)
    requires
        state_wf(s),
        s.pc + 1 <= MEM_SIZE,
        s.memory[s.pc as int] == 18,
        s.stack.len() == 0,
    ensures
        step_spec(s).1 == Some(Error::Halt),
        step_spec(s).0 == s,
{
    assert(step_spec(s).0 =~= s);
}

} // verus!
