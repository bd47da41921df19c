//! Driving the machine over many cycles: run until it halts or faults, or
//! run until the guest prints its command prompt and read the room record
//! it described. Loops carry an explicit step budget so that every caller
//! decides how much work a possibly non-terminating guest program may do.

use crate::error::Error;
use crate::room::{
    parse_bytes_spec, prompt_spec, room_matches, room_text_valid, seq_ends_with, ParseError,
    Room,
};
use crate::state::{lemma_step_output_stable, step_spec, VmState};
use crate::transport::OutputSink;
use crate::vm::VM;
use vstd::prelude::*;
use vstd::utf8::{decode_utf8, valid_utf8};

verus! {

/// Why a multi-cycle drive stopped.
#[derive(Clone, Copy, Debug, PartialEq, Eq, Structural)]
pub enum RunError {
    /// The machine faulted (never `Halt`).
    Vm(Error),
    /// The room reader rejected the output.
    Parse(ParseError),
    /// The step budget ran out first.
    StepLimit,
}

/// The state after at most `n` cycles from `s`: cycles are applied until
/// one reports an outcome (termination or fault) or the budget runs out.
pub open spec fn steps_spec(s: VmState, n: nat) -> (VmState, Option<Error>)
    decreases n,
{
    if n == 0 {
        (s, None)
    } else {
        let (t, e) = step_spec(s);
        if e is Some {
            (t, e)
        } else {
            steps_spec(t, (n - 1) as nat)
        }
    }
}

/// Whether the output history from `start` on ends with the guest's
/// command prompt.
pub open spec fn prompt_suffix_at(out: Seq<u8>, start: nat) -> bool {
    seq_ends_with(out.subrange(start as int, out.len() as int), prompt_spec())
}

/// How a drive toward the next prompt ended.
pub enum PromptEnd {
    /// The output now ends with the prompt.
    Prompt,
    /// The machine reached normal termination first.
    Halted,
    /// The machine faulted first.
    Fault(Error),
    /// The step budget ran out first.
    OutOfFuel,
}

/// The state after cycling from `s` until the output from `start` on ends
/// with the prompt, the machine halts or faults, or `fuel` cycles have
/// passed.
pub open spec fn run_to_prompt_spec(s: VmState, start: nat, fuel: nat) -> (VmState, PromptEnd)
    decreases fuel,
{
    if prompt_suffix_at(s.output, start) {
        (s, PromptEnd::Prompt)
    } else if fuel == 0 {
        (s, PromptEnd::OutOfFuel)
    } else {
        let (t, e) = step_spec(s);
        match e {
            None => run_to_prompt_spec(t, start, (fuel - 1) as nat),
            Some(er) => {
                if er is Halt {
                    (t, PromptEnd::Halted)
                } else {
                    (t, PromptEnd::Fault(er))
                }
            }
        }
    }
}

impl VM {
    /// Run up to `max_steps` cycles, stopping at the first cycle that
    /// reports an outcome. `Some(Halt)` is normal termination, any other
    /// `Some` a fault with the program counter still on the failing
    /// instruction; `None` means the budget ran out with the machine still
    /// going.
    #[verifier::loop_isolation(false)]
    pub fn run(&mut self, max_steps: usize) -> (r: Option<Error>)
        requires
            old(self).wf(),
        ensures
            final(self).wf(),
            final(self)@ == steps_spec(old(self)@, max_steps as nat).0,
            r == steps_spec(old(self)@, max_steps as nat).1,
    {
        let mut i: usize = 0;
        while i < max_steps
            invariant
                self.wf(),
                i <= max_steps,
                steps_spec(old(self)@, max_steps as nat) == steps_spec(
                    self@,
                    (max_steps - i) as nat,
                ),
            decreases max_steps - i,
        {
            match self.cycle() {
                Ok(()) => {
                    i = i + 1;
                }
                Err(e) => {
                    return Some(e);
                }
            }
        }
        None
    }

    /// Run until the guest has printed its next command prompt (or halted,
    /// or faulted, or used up `max_steps` cycles), then read the room
    /// record it produced: the output's read cursor is put back where it
    /// stood when the drive began and one `Room::parse` consumes from
    /// there. Requires a retaining output endpoint, since the room is read
    /// back out of the history.
    #[verifier::loop_isolation(false)]
    pub fn cycle_until_next_room(&mut self, max_steps: usize) -> (r: Result<
        (String, Option<Room>),
        RunError,
    >)
        requires
            old(self).wf(),
            !old(self)@.out_discard,
        ensures
            final(self).wf(),
            ({
                let start = old(self)@.out_pos;
                let (t, end) = run_to_prompt_spec(old(self)@, start, max_steps as nat);
                match end {
                    PromptEnd::Fault(er) => {
                        &&& r == Err::<(String, Option<Room>), RunError>(RunError::Vm(er))
                        &&& final(self)@ == t
                    },
                    PromptEnd::OutOfFuel => {
                        &&& r == Err::<(String, Option<Room>), RunError>(RunError::StepLimit)
                        &&& final(self)@ == t
                    },
                    _ => {
                        let (np, br) = parse_bytes_spec(t.output, start);
                        &&& final(self)@ == (VmState { out_pos: np, ..t })
                        &&& (match br {
                            Err(pe) => r == Err::<(String, Option<Room>), RunError>(
                                RunError::Parse(pe),
                            ),
                            Ok((pre, orb)) => (match (r, orb) {
                                (Ok((s, None)), None) => valid_utf8(pre) && s@ == decode_utf8(
                                    pre,
                                ),
                                (Err(e), None) => e == RunError::Parse(ParseError::NotUtf8)
                                    && !valid_utf8(pre),
                                (Ok((s, Some(room))), Some(rb)) => {
                                    &&& room_text_valid(pre, rb)
                                    &&& s@ == decode_utf8(pre)
                                    &&& room_matches(&room, rb)
                                },
                                (Err(e), Some(rb)) => e == RunError::Parse(ParseError::NotUtf8)
                                    && !room_text_valid(pre, rb),
                                _ => false,
                            }),
                        })
                    },
                }
            }),
    {
        let start = self.output.position();
        let prompt = crate::room::prompt_bytes();
        let ghost s0 = self@;
        let ghost fuel = max_steps as nat;
        let mut i: usize = 0;
        let mut done = false;
        while !done
            invariant
                self.wf(),
                i <= max_steps,
                self@.out_pos == start,
                !self@.out_discard,
                start <= self@.output.len(),
                prompt@ == prompt_spec(),
                !done ==> run_to_prompt_spec(s0, start as nat, fuel) == run_to_prompt_spec(
                    self@,
                    start as nat,
                    (max_steps - i) as nat,
                ),
                done ==> {
                    &&& self@ == run_to_prompt_spec(s0, start as nat, fuel).0
                    &&& (run_to_prompt_spec(s0, start as nat, fuel).1 is Prompt
                        || run_to_prompt_spec(s0, start as nat, fuel).1 is Halted)
                },
            decreases (max_steps - i) + (if done { 0int } else { 1 }),
        {
            let at_prompt = (match &self.output {
                OutputSink::Buffered(buf) => {
                    let a = buf.ends_with_from(start, prompt.as_slice());
                    proof {
                        let out = self@.output;
                        let sub = out.subrange(start as int, out.len() as int);
                        if out.len() - start >= prompt_spec().len() {
                            assert(sub.subrange(
                                sub.len() - prompt_spec().len(),
                                sub.len() as int,
                            ) =~= out.subrange(
                                out.len() - prompt_spec().len(),
                                out.len() as int,
                            ));
                        }
                        assert(a == prompt_suffix_at(out, start as nat));
                    }
                    a
                }
                OutputSink::Discard => {
                    proof {
                        assert(false);
                    }
                    true
                }
            });
            if at_prompt {
                done = true;
            } else if i >= max_steps {
                return Err(RunError::StepLimit);
            } else {
                proof {
                    lemma_step_output_stable(self@);
                }
                match self.cycle() {
                    Ok(()) => {
                        i = i + 1;
                    }
                    Err(e) => {
                        if e.is_fault() {
                            return Err(RunError::Vm(e));
                        }
                        done = true;
                    }
                }
            }
        }
        let ghost t = run_to_prompt_spec(s0, start as nat, fuel).0;
        let parsed = (match &mut self.output {
            OutputSink::Buffered(buf) => {
                buf.set_position(start);
                Room::parse(buf)
            }
            OutputSink::Discard => {
                proof {
                    assert(false);
                }
                Err(ParseError::NotUtf8)
            }
        });
        proof {
            let np = parse_bytes_spec(t.output, start as nat).0;
            assert(self@ =~= (VmState { out_pos: np, ..t }));
        }
        match parsed {
            Ok(v) => Ok(v),
            Err(pe) => Err(RunError::Parse(pe)),
        }
    }
}

} // verus!
