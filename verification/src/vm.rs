//! The executable machine. Every operation is verified against the
//! mathematical step function in `state`: one call to `cycle` performs
//! exactly one fetch-decode-execute transition of `step_spec`, including the
//! rollback of the program counter when the cycle fails.

use crate::error::Error;
use crate::state::{
    eq_except_pc, is_reg, load_spec, set_spec, state_wf, step_raw, step_spec, with_reg,
    VmState, MEM_SIZE, MODULUS, REG_COUNT,
};
use crate::transport::{InputBuffer, OutputSink};
use vstd::prelude::*;

verus! {

/// A word read from a program image: two consecutive bytes, little-endian;
/// cells past the end of the image hold zero.
pub open spec fn program_word(p: Seq<u8>, i: int) -> u16 {
    if 2 * i + 1 < p.len() {
        (p[2 * i] + 256 * p[2 * i + 1]) as u16
    } else {
        0
    }
}

/// The virtual machine: 32768 words of memory, 8 registers, a stack of
/// words, a program counter, and the two byte transports it owns.
#[derive(Clone)]
pub struct VM {
    pub memory: Vec<u16>,
    pub registers: Vec<u16>,
    pub stack: Vec<u16>,
    pub pc: usize,
    pub input: InputBuffer,
    pub output: OutputSink,
}

impl View for VM {
    type V = VmState;

    open spec fn view(&self) -> VmState {
        VmState {
            memory: self.memory@,
            registers: self.registers@,
            stack: self.stack@,
            pc: self.pc as nat,
            input: self.input@.data,
            in_pos: self.input@.pos,
            output: self.output@.data,
            out_pos: self.output@.pos,
            out_discard: self.output@.discard,
        }
    }
}

impl VM {
    /// The machine's invariant; see `state_wf`.
    pub open spec fn wf(&self) -> bool {
        state_wf(self@)
    }

    /// A fresh machine: memory populated from `program` as little-endian
    /// 16-bit words starting at address 0 (a trailing odd byte and bytes
    /// beyond the address space are ignored), registers and stack zeroed,
    /// the program counter at 0, and the given transports attached.
    pub fn load_program(input: InputBuffer, output: OutputSink, program: &[u8]) -> (vm: VM)
        requires
            input.wf(),
            output.wf(),
        ensures
            vm.wf(),
            vm@.memory.len() == MEM_SIZE,
            forall|i: int| 0 <= i < MEM_SIZE ==> vm@.memory[i] == program_word(program@, i),
            vm@.registers == Seq::new(REG_COUNT as nat, |i: int| 0u16),
            vm@.stack == Seq::<u16>::empty(),
            vm@.pc == 0,
            vm@.input == input@.data,
            vm@.in_pos == input@.pos,
            vm@.output == output@.data,
            vm@.out_pos == output@.pos,
            vm@.out_discard == output@.discard,
    {
        let mut memory: Vec<u16> = vec![0u16; MEM_SIZE];
        let mut i: usize = 0;
        while i < MEM_SIZE && 2 * i + 1 < program.len()
            invariant
                0 <= i <= MEM_SIZE,
                memory@.len() == MEM_SIZE,
                forall|j: int| 0 <= j < i ==> memory@[j] == program_word(program@, j),
                forall|j: int| i <= j < MEM_SIZE ==> memory@[j] == 0,
            decreases MEM_SIZE - i,
        {
            let lo = program[2 * i];
            let hi = program[2 * i + 1];
            let w: u16 = lo as u16 + 256 * (hi as u16);
            memory[i] = w;
            i = i + 1;
        }
        assert(forall|j: int| 0 <= j < MEM_SIZE ==> memory@[j] == program_word(program@, j));
        let registers: Vec<u16> = vec![0u16; REG_COUNT];
        let vm = VM { memory, registers, stack: Vec::new(), pc: 0, input, output };
        assert(vm@.registers =~= Seq::new(REG_COUNT as nat, |i: int| 0u16));
        assert(vm@.stack =~= Seq::<u16>::empty());
        vm
    }

    /// Resolve an operand: a value up to 32767 is itself, 32768 through
    /// 32775 read the named register, anything above fails with
    /// `InvalidLoad`.
    pub fn load(&self, operand: u16) -> (r: Result<u16, Error>)
        requires
            self.wf(),
        ensures
            r == load_spec(self@, operand),
    {
        if operand <= 32767 {
            Ok(operand)
        } else if operand <= 32775 {
            Ok(self.registers[(operand - 32768) as usize])
        } else {
            Err(Error::InvalidLoad(operand))
        }
    }

    /// Resolve `src` as an operand and store the result in the register
    /// named by `dest`; any `dest` outside the register range fails with
    /// `InvalidStore` (after `src` itself resolved).
    pub fn set(&mut self, dest: u16, src: u16) -> (r: Result<(), Error>)
        requires
            old(self).wf(),
        ensures
            final(self).wf(),
            final(self)@ == set_spec(old(self)@, dest, src).0,
            (match r {
                Ok(()) => set_spec(old(self)@, dest, src).1 is None,
                Err(e) => set_spec(old(self)@, dest, src).1 == Some(e),
            }),
    {
        let val = match self.load(src) {
            Ok(v) => v,
            Err(e) => {
                return Err(e);
            }
        };
        self.write_reg(dest, val)
    }

    /// Store a plain value in the register named by `dest`.
    fn write_reg(&mut self, dest: u16, val: u16) -> (r: Result<(), Error>)
        requires
            old(self).wf(),
        ensures
            final(self).wf(),
            (match r {
                Ok(()) => is_reg(dest) && final(self)@ == with_reg(old(self)@, dest, val),
                Err(e) => {
                    &&& !is_reg(dest)
                    &&& e == Error::InvalidStore(dest)
                    &&& final(self)@ == old(self)@
                }
            }),
    {
        if 32768 <= dest && dest <= 32775 {
            self.registers[(dest - 32768) as usize] = val;
            assert(final(self)@ =~= with_reg(old(self)@, dest, val));
            Ok(())
        } else {
            Err(Error::InvalidStore(dest))
        }
    }

    /// Read the word at the program counter and advance past it; a counter
    /// outside the addressable range fails with `InvalidLoad`.
    fn fetch(&mut self) -> (r: Result<u16, Error>)
        requires
            old(self).wf(),
        ensures
            final(self).wf(),
            (match r {
                Ok(w) => {
                    &&& old(self)@.pc < MEM_SIZE
                    &&& w == old(self)@.memory[old(self)@.pc as int]
                    &&& final(self)@ == VmState { pc: old(self)@.pc + 1, ..old(self)@ }
                },
                Err(e) => {
                    &&& old(self)@.pc >= MEM_SIZE
                    &&& e == Error::InvalidLoad(old(self)@.pc as u16)
                    &&& final(self)@ == old(self)@
                }
            }),
    {
        if self.pc < MEM_SIZE {
            let w = self.memory[self.pc];
            self.pc = self.pc + 1;
            assert(final(self)@ =~= VmState { pc: old(self)@.pc + 1, ..old(self)@ });
            Ok(w)
        } else {
            Err(Error::InvalidLoad(self.pc as u16))
        }
    }

    /// One raw cycle; used by `cycle`, which adds the rollback. On an error
    /// the program counter is left wherever the failure found it, but every
    /// other component matches the model's post-state exactly.
    #[verifier::rlimit(100)]
    fn do_cycle(&mut self) -> (r: Result<(), Error>)
        requires
            old(self).wf(),
        ensures
            final(self).wf(),
            (match r {
                Ok(()) => {
                    &&& step_raw(old(self)@).1 is None
                    &&& final(self)@ == step_raw(old(self)@).0
                },
                Err(e) => {
                    &&& step_raw(old(self)@).1 == Some(e)
                    &&& eq_except_pc(final(self)@, step_raw(old(self)@).0)
                }
            }),
    {
        let opcode = self.fetch()?;

        match opcode {
            // halt: stop execution
            0 => Err(Error::Halt),
            // set a b
            1 => {
                let a = self.fetch()?;
                let b = self.fetch()?;
                self.set(a, b)?;
                Ok(())
            }
            // push a
            2 => {
                let a = self.fetch()?;
                let v = self.load(a)?;
                self.stack.push(v);
                Ok(())
            }
            // pop a: empty stack is a fault
            3 => {
                let a = self.fetch()?;
                match self.stack.pop() {
                    Some(tos) => {
                        self.write_reg(a, tos)?;
                        assert(final(self)@ =~= step_raw(old(self)@).0);
                        Ok(())
                    }
                    None => Err(Error::PopFromEmptyStack),
                }
            }
            // eq a b c
            4 => {
                let a = self.fetch()?;
                let b = self.fetch()?;
                let c = self.fetch()?;
                let vb = self.load(b)?;
                let vc = self.load(c)?;
                self.set(a, if vb == vc { 1 } else { 0 })?;
                Ok(())
            }
            // gt a b c
            5 => {
                let a = self.fetch()?;
                let b = self.fetch()?;
                let c = self.fetch()?;
                let vb = self.load(b)?;
                let vc = self.load(c)?;
                self.set(a, if vb > vc { 1 } else { 0 })?;
                Ok(())
            }
            // jmp a
            6 => {
                let a = self.fetch()?;
                let v = self.load(a)?;
                self.pc = v as usize;
                Ok(())
            }
            // jt a b: jump if nonzero
            7 => {
                let a = self.fetch()?;
                let b = self.fetch()?;
                if self.load(a)? != 0 {
                    let v = self.load(b)?;
                    self.pc = v as usize;
                }
                Ok(())
            }
            // jf a b: jump if zero
            8 => {
                let a = self.fetch()?;
                let b = self.fetch()?;
                if self.load(a)? == 0 {
                    let v = self.load(b)?;
                    self.pc = v as usize;
                }
                Ok(())
            }
            // add a b c, modulo 32768
            9 => {
                let a = self.fetch()?;
                let b = self.fetch()?;
                let c = self.fetch()?;
                let vb = self.load(b)?;
                let vc = self.load(c)?;
                let sum = ((vb as u32 + vc as u32) % MODULUS) as u16;
                self.set(a, sum)?;
                Ok(())
            }
            // mult a b c: full-width product, then modulo 32768
            10 => {
                let a = self.fetch()?;
                let b = self.fetch()?;
                let c = self.fetch()?;
                let vb = self.load(b)?;
                let vc = self.load(c)?;
                let vb64 = vb as u64;
                let vc64 = vc as u64;
                assert(vb64 * vc64 <= 0xffff_ffff) by (nonlinear_arith)
                    requires
                        vb64 <= 0xffff,
                        vc64 <= 0xffff,
                ;
                let prod = ((vb64 * vc64) % (MODULUS as u64)) as u16;
                self.set(a, prod)?;
                Ok(())
            }
            // mod a b c: unsigned remainder
            11 => {
                let a = self.fetch()?;
                let b = self.fetch()?;
                let c = self.fetch()?;
                let vb = self.load(b)?;
                let vc = self.load(c)?;
                if vc == 0 {
                    return Err(Error::DivisionByZero);
                }
                let rem = (vb % vc) % (MODULUS as u16);
                self.set(a, rem)?;
                Ok(())
            }
            // and a b c
            12 => {
                let a = self.fetch()?;
                let b = self.fetch()?;
                let c = self.fetch()?;
                let vb = self.load(b)?;
                let vc = self.load(c)?;
                let v = (vb & vc) % (MODULUS as u16);
                assert(v == ((vb & vc) as int % (MODULUS as int)) as u16);
                self.set(a, v)?;
                Ok(())
            }
            // or a b c
            13 => {
                let a = self.fetch()?;
                let b = self.fetch()?;
                let c = self.fetch()?;
                let vb = self.load(b)?;
                let vc = self.load(c)?;
                let v = (vb | vc) % (MODULUS as u16);
                assert(v == ((vb | vc) as int % (MODULUS as int)) as u16);
                self.set(a, v)?;
                Ok(())
            }
            // not a b: 15-bit inverse
            14 => {
                let a = self.fetch()?;
                let b = self.fetch()?;
                let vb = self.load(b)?;
                self.set(a, !vb & 0x7fff)?;
                Ok(())
            }
            // rmem a b: register a := memory at the resolved address of b
            15 => {
                let a = self.fetch()?;
                let b = self.fetch()?;
                let addr = self.load(b)?;
                if addr >= 32768 {
                    return Err(Error::InvalidLoad(addr));
                }
                let val = self.memory[addr as usize];
                self.write_reg(a, val)?;
                assert(final(self)@ =~= step_raw(old(self)@).0);
                Ok(())
            }
            // wmem a b: memory at the resolved address of a := resolved b
            16 => {
                let a = self.fetch()?;
                let b = self.fetch()?;
                let addr = self.load(a)?;
                let vb = self.load(b)?;
                if addr >= 32768 {
                    return Err(Error::InvalidStore(addr));
                }
                self.memory[addr as usize] = vb;
                assert(final(self)@ =~= step_raw(old(self)@).0);
                Ok(())
            }
            // call a: push the address of the next instruction, then jump
            17 => {
                let a = self.fetch()?;
                let ret_addr = self.pc as u16;
                self.stack.push(ret_addr);
                let v = self.load(a)?;
                self.pc = v as usize;
                Ok(())
            }
            // ret: pop an address and jump to it; empty stack halts
            18 => {
                match self.stack.pop() {
                    Some(tos) => {
                        self.pc = tos as usize;
                        Ok(())
                    }
                    None => Err(Error::Halt),
                }
            }
            // out a: low byte of the resolved value to the output transport
            19 => {
                let a = self.fetch()?;
                let v = self.load(a)?;
                assert(v & 0xff <= 0xff) by (bit_vector);
                self.output.write_byte((v & 0xff) as u8);
                assert(final(self)@ =~= step_raw(old(self)@).0);
                Ok(())
            }
            // in a: one input byte (carriage returns skipped) into a;
            // exhausted input halts
            20 => {
                let a = self.fetch()?;
                match self.input.read_skipping_crs() {
                    Some(ch) => {
                        self.set(a, ch as u16)?;
                        Ok(())
                    }
                    None => Err(Error::Halt),
                }
            }
            // noop
            21 => Ok(()),
            unknown => Err(Error::UnknownOpcode(unknown)),
        }
    }

    /// One fetch-decode-execute cycle, exactly `step_spec` on the machine's
    /// state. `Ok` means the instruction completed; `Err(Halt)` means normal
    /// termination; any other error is a fault. On every error the program
    /// counter is rolled back to its pre-cycle value, so the failing
    /// instruction has not been consumed.
    pub fn cycle(&mut self) -> (r: Result<(), Error>)
        requires
            old(self).wf(),
        ensures
            final(self).wf(),
            final(self)@ == step_spec(old(self)@).0,
            (match r {
                Ok(()) => step_spec(old(self)@).1 is None,
                Err(e) => step_spec(old(self)@).1 == Some(e),
            }),
            r is Err ==> final(self)@.pc == old(self)@.pc,
    {
        let prev_pc = self.pc;
        let r = self.do_cycle();
        if r.is_err() {
            self.pc = prev_pc;
            assert(final(self)@ =~= step_spec(old(self)@).0);
        }
        r
    }

    /// Hand back the accumulated output written since the last read,
    /// moving the output's read cursor to the end of the history. A discard
    /// sink has nothing to hand back.
    pub fn read_output(&mut self) -> (r: Vec<u8>)
        requires
            old(self).wf(),
        ensures
            final(self).wf(),
            r@ == old(self)@.output.subrange(
                old(self)@.out_pos as int,
                old(self)@.output.len() as int,
            ),
            final(self)@ == (VmState { out_pos: old(self)@.output.len(), ..old(self)@ }),
    {
        let r = (match &mut self.output {
            OutputSink::Buffered(buf) => buf.read_to_end(),
            OutputSink::Discard => Vec::new(),
        });
        proof {
            assert(final(self)@ =~= (VmState { out_pos: old(self)@.output.len(), ..old(
                self,
            )@ }));
        }
        r
    }

    /// Queue bytes on the input transport without disturbing its read
    /// cursor, so input can be scripted ahead of the machine.
    pub fn append_input(&mut self, bytes: &[u8])
        requires
            old(self).wf(),
        ensures
            final(self).wf(),
            final(self)@ == (VmState { input: old(self)@.input + bytes@, ..old(self)@ }),
    {
        self.input.append(bytes);
        assert(final(self)@ =~= VmState { input: old(self)@.input + bytes@, ..old(self)@ });
    }
}

} // verus!
