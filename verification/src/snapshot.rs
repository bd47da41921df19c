//! The binary snapshot codec: the complete machine state as a byte stream,
//! in fixed order — the full memory array, the register file, the program
//! counter, then the stack as a trailing run whose length is implicit. Every
//! word is two bytes, little-endian, so snapshots do not depend on the
//! host's byte order; this layout is the library's own, and a byte stream
//! written in any other layout will not restore to the machine that wrote
//! it. Restoring a snapshot reproduces the machine exactly, which
//! `lemma_snapshot_roundtrip` proves.

use crate::state::{state_wf, VmState, MEM_SIZE, REG_COUNT};
use crate::transport::{InputBuffer, OutputSink};
use crate::vm::VM;
use vstd::prelude::*;

verus! {

broadcast use vstd::slice::group_slice_axioms;

/// Words in a snapshot ahead of the stack run: memory, registers, and the
/// program counter.
pub const SNAP_HEAD_WORDS: usize = 32777;

/// The two little-endian bytes of a word.
pub open spec fn le_bytes(w: u16) -> Seq<u8> {
    seq![(w % 256) as u8, (w / 256) as u8]
}

/// A sequence of words flattened to little-endian bytes.
pub open spec fn words_bytes(ws: Seq<u16>) -> Seq<u8> {
    Seq::new(
        2 * ws.len(),
        |i: int|
            if i % 2 == 0 {
                (ws[i / 2] % 256) as u8
            } else {
                (ws[i / 2] / 256) as u8
            },
    )
}

/// The exact byte image of a machine state: memory, registers, program
/// counter, stack, each word little-endian.
pub open spec fn snapshot_bytes(s: VmState) -> Seq<u8> {
    words_bytes(s.memory + s.registers + seq![s.pc as u16] + s.stack)
}

/// Whether a byte stream has the shape of a snapshot: enough bytes for
/// memory, registers and the program counter. A trailing half word is
/// tolerated and ignored, as a stream cut mid-word would leave one.
pub open spec fn snapshot_shaped(bytes: Seq<u8>) -> bool {
    bytes.len() >= 2 * SNAP_HEAD_WORDS
}

/// The `i`-th word of a byte stream, little-endian.
pub open spec fn word_at(bytes: Seq<u8>, i: int) -> u16 {
    (bytes[2 * i] + 256 * bytes[2 * i + 1]) as u16
}

/// The memory array a snapshot holds.
pub open spec fn snap_memory(bytes: Seq<u8>) -> Seq<u16> {
    Seq::new(MEM_SIZE as nat, |i: int| word_at(bytes, i))
}

/// The register file a snapshot holds.
pub open spec fn snap_registers(bytes: Seq<u8>) -> Seq<u16> {
    Seq::new(REG_COUNT as nat, |i: int| word_at(bytes, MEM_SIZE + i))
}

/// The program counter a snapshot holds.
pub open spec fn snap_pc(bytes: Seq<u8>) -> u16 {
    word_at(bytes, MEM_SIZE + REG_COUNT)
}

/// The stack a snapshot holds: every word after the head, bottom first.
pub open spec fn snap_stack(bytes: Seq<u8>) -> Seq<u16> {
    Seq::new(
        (((bytes.len() - 2 * SNAP_HEAD_WORDS) / 2) as nat),
        |i: int| word_at(bytes, SNAP_HEAD_WORDS + i),
    )
}

/// Flattening words to bytes and reading them back word by word is the
/// identity: each word's low and high byte reassemble to the word.
pub proof fn lemma_words_bytes_word_at(ws: Seq<u16>, i: int)
    requires
        0 <= i < ws.len(),
    ensures
        word_at(words_bytes(ws), i) == ws[i],
{
    assert(words_bytes(ws)[2 * i] == (ws[i] % 256) as u8);
    assert(words_bytes(ws)[2 * i + 1] == (ws[i] / 256) as u8);
}

/// Saving a machine and decoding the bytes reproduces every component of
/// its state exactly: the snapshot loses nothing.
pub proof fn lemma_snapshot_roundtrip(s: VmState)
    requires
        state_wf(s),
    ensures
        snapshot_shaped(snapshot_bytes(s)),
        snap_memory(snapshot_bytes(s)) == s.memory,
        snap_registers(snapshot_bytes(s)) == s.registers,
        snap_pc(snapshot_bytes(s)) == s.pc,
        snap_stack(snapshot_bytes(s)) == s.stack,
{
    let ws = s.memory + s.registers + seq![s.pc as u16] + s.stack;
    let bytes = snapshot_bytes(s);
    assert(bytes.len() == 2 * ws.len());
    assert forall|i: int| 0 <= i < ws.len() implies word_at(bytes, i) == ws[i] by {
        lemma_words_bytes_word_at(ws, i);
    }
    assert(snap_memory(bytes) =~= s.memory);
    assert(snap_registers(bytes) =~= s.registers);
    assert(snap_pc(bytes) == ws[MEM_SIZE + REG_COUNT]);
    assert(snap_stack(bytes) =~= s.stack);
}

/// A machine rebuilt from a snapshot, with its transports in the same
/// state as the saved machine's, is the saved machine: from there every
/// cycle, and so all further output, is identical
/// (`crate::state::lemma_step_deterministic`).
pub proof fn lemma_restored_machine_resumes(s: VmState, t: VmState)
    requires
        state_wf(s),
        t.memory == snap_memory(snapshot_bytes(s)),
        t.registers == snap_registers(snapshot_bytes(s)),
        t.pc == snap_pc(snapshot_bytes(s)),
        t.stack == snap_stack(snapshot_bytes(s)),
        t.input == s.input,
        t.in_pos == s.in_pos,
        t.output == s.output,
        t.out_pos == s.out_pos,
        t.out_discard == s.out_discard,
    ensures
        t == s,
        crate::state::step_spec(t) == crate::state::step_spec(s),
{
    lemma_snapshot_roundtrip(s);
    assert(t =~= s);
}

/// Append the two little-endian bytes of `w`.
fn push_word(out: &mut Vec<u8>, w: u16)
    ensures
        final(out)@ == old(out)@ + le_bytes(w),
{
    out.push((w % 256) as u8);
    out.push((w / 256) as u8);
    assert(final(out)@ =~= old(out)@ + le_bytes(w));
}

/// Append the little-endian bytes of every word of `ws`.
fn push_words(out: &mut Vec<u8>, ws: &Vec<u16>)
    ensures
        final(out)@ == old(out)@ + words_bytes(ws@),
{
    let n = ws.len();
    let mut i: usize = 0;
    while i < n
        invariant
            0 <= i <= n,
            n == ws@.len(),
            out@ == old(out)@ + words_bytes(ws@.take(i as int)),
        decreases n - i,
    {
        push_word(out, ws[i]);
        assert(old(out)@ + words_bytes(ws@.take(i as int)) + le_bytes(ws@[i as int]) =~= old(
            out,
        )@ + words_bytes(ws@.take(i + 1)));
        i = i + 1;
    }
    assert(ws@.take(n as int) =~= ws@);
}

impl VM {
    /// Serialize the complete machine state — memory, registers, program
    /// counter, stack — as little-endian words. The transports are not part
    /// of a snapshot.
    pub fn save_snapshot(&self) -> (r: Vec<u8>)
        requires
            self.wf(),
        ensures
            r@ == snapshot_bytes(self@),
    {
        let mut out: Vec<u8> = Vec::new();
        push_words(&mut out, &self.memory);
        push_words(&mut out, &self.registers);
        push_word(&mut out, self.pc as u16);
        push_words(&mut out, &self.stack);
        proof {
            let s = self@;
            assert(words_bytes(s.memory) + words_bytes(s.registers) + le_bytes(s.pc as u16)
                + words_bytes(s.stack) =~= words_bytes(
                s.memory + s.registers + seq![s.pc as u16] + s.stack,
            ));
        }
        out
    }

    /// Reconstruct a machine from a snapshot, attaching fresh transports.
    /// Returns `None` exactly when the bytes are too short to hold memory,
    /// registers and the program counter; the stack is every whole word
    /// after those, and a trailing half word is silently ignored. A
    /// restored machine resumes exactly where the saved one stopped
    /// (`lemma_snapshot_roundtrip`, `lemma_step_deterministic`).
    pub fn load_snapshot(input: InputBuffer, output: OutputSink, bytes: &[u8]) -> (r: Option<
        VM,
    >)
        requires
            input.wf(),
            output.wf(),
        ensures
            (match r {
                Some(vm) => {
                    &&& snapshot_shaped(bytes@)
                    &&& vm.wf()
                    &&& vm@.memory == snap_memory(bytes@)
                    &&& vm@.registers == snap_registers(bytes@)
                    &&& vm@.pc == snap_pc(bytes@)
                    &&& vm@.stack == snap_stack(bytes@)
                    &&& vm@.input == input@.data
                    &&& vm@.in_pos == input@.pos
                    &&& vm@.output == output@.data
                    &&& vm@.out_pos == output@.pos
                    &&& vm@.out_discard == output@.discard
                },
                None => !snapshot_shaped(bytes@),
            }),
    {
        let n = bytes.len();
        if n < 2 * SNAP_HEAD_WORDS {
            return None;
        }
        let mut memory: Vec<u16> = Vec::new();
        let mut i: usize = 0;
        while i < MEM_SIZE
            invariant
                0 <= i <= MEM_SIZE,
                n == bytes@.len(),
                n >= 2 * SNAP_HEAD_WORDS,
                memory@.len() == i,
                forall|j: int| 0 <= j < i ==> memory@[j] == word_at(bytes@, j),
            decreases MEM_SIZE - i,
        {
            memory.push(read_word(bytes, i));
            i = i + 1;
        }
        let mut registers: Vec<u16> = Vec::new();
        let mut i: usize = 0;
        while i < REG_COUNT
            invariant
                0 <= i <= REG_COUNT,
                n == bytes@.len(),
                n >= 2 * SNAP_HEAD_WORDS,
                registers@.len() == i,
                forall|j: int| 0 <= j < i ==> registers@[j] == word_at(bytes@, MEM_SIZE + j),
            decreases REG_COUNT - i,
        {
            registers.push(read_word(bytes, MEM_SIZE + i));
            i = i + 1;
        }
        let pc = read_word(bytes, MEM_SIZE + REG_COUNT) as usize;
        let stack_words = (n - 2 * SNAP_HEAD_WORDS) / 2;
        let mut stack: Vec<u16> = Vec::new();
        let mut i: usize = 0;
        while i < stack_words
            invariant
                0 <= i <= stack_words,
                n == bytes@.len(),
                n >= 2 * SNAP_HEAD_WORDS,
                stack_words == (n - 2 * SNAP_HEAD_WORDS) / 2,
                stack@.len() == i,
                forall|j: int| 0 <= j < i ==> stack@[j] == word_at(bytes@, SNAP_HEAD_WORDS + j),
            decreases stack_words - i,
        {
            stack.push(read_word(bytes, SNAP_HEAD_WORDS + i));
            i = i + 1;
        }
        let vm = VM { memory, registers, stack, pc, input, output };
        proof {
            assert(vm@.memory =~= snap_memory(bytes@));
            assert(vm@.registers =~= snap_registers(bytes@));
            assert(vm@.stack =~= snap_stack(bytes@));
        }
        Some(vm)
    }
}

/// Read the `i`-th little-endian word of `bytes`.
fn read_word(bytes: &[u8], i: usize) -> (r: u16)
    requires
        2 * i + 1 < bytes@.len(),
    ensures
        r == word_at(bytes@, i as int),
{
    let n = bytes.len();
    assert(2 * i + 1 < n);
    let lo = bytes[2 * i];
    let hi = bytes[2 * i + 1];
    lo as u16 + 256 * (hi as u16)
}

} // verus!
