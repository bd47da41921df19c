use synacor_vm::error::Error;
use synacor_vm::snapshot::SNAP_HEAD_WORDS;
use synacor_vm::transport::{InputBuffer, OutputSink};
use synacor_vm::vm::VM;

fn image(words: &[u16]) -> Vec<u8> {
    let mut out = Vec::new();
    for w in words {
        out.push((w % 256) as u8);
        out.push((w / 256) as u8);
    }
    out
}

fn fresh(words: &[u16]) -> VM {
    VM::load_program(InputBuffer::new(), OutputSink::buffered(), &image(words))
}

fn output_of(vm: &VM) -> Vec<u8> {
    match &vm.output {
        OutputSink::Buffered(buf) => buf.data.clone(),
        OutputSink::Discard => Vec::new(),
    }
}

#[test]
fn load_literal_is_identity() {
    let vm = fresh(&[]);
    assert_eq!(vm.load(0), Ok(0));
    assert_eq!(vm.load(5), Ok(5));
    assert_eq!(vm.load(32767), Ok(32767));
}

#[test]
fn load_register_reads_register_file() {
    let mut vm = fresh(&[]);
    vm.registers[0] = 7;
    vm.registers[3] = 1234;
    vm.registers[7] = 32767;
    assert_eq!(vm.load(32768), Ok(7));
    assert_eq!(vm.load(32771), Ok(1234));
    assert_eq!(vm.load(32775), Ok(32767));
}

#[test]
fn load_above_register_range_fails() {
    let vm = fresh(&[]);
    assert_eq!(vm.load(32776), Err(Error::InvalidLoad(32776)));
    assert_eq!(vm.load(65535), Err(Error::InvalidLoad(65535)));
}

#[test]
fn set_writes_resolved_value_into_register() {
    let mut vm = fresh(&[]);
    assert_eq!(vm.set(32770, 123), Ok(()));
    assert_eq!(vm.registers[2], 123);
    vm.registers[5] = 999;
    assert_eq!(vm.set(32768, 32773), Ok(()));
    assert_eq!(vm.registers[0], 999);
}

#[test]
fn set_outside_register_range_fails() {
    let mut vm = fresh(&[]);
    assert_eq!(vm.set(5, 1), Err(Error::InvalidStore(5)));
    assert_eq!(vm.set(32776, 1), Err(Error::InvalidStore(32776)));
    assert_eq!(vm.set(0, 0), Err(Error::InvalidStore(0)));
    // a bad source operand is reported before the bad destination
    assert_eq!(vm.set(5, 32776), Err(Error::InvalidLoad(32776)));
}

#[test]
fn add_wraps_modulo_32768() {
    let mut vm = fresh(&[9, 32768, 32767, 1, 0]);
    assert_eq!(vm.cycle(), Ok(()));
    assert_eq!(vm.registers[0], 0);
}

#[test]
fn mult_reduces_after_full_width_product() {
    let mut vm = fresh(&[10, 32768, 20000, 20000, 0]);
    assert_eq!(vm.cycle(), Ok(()));
    assert_eq!(vm.registers[0], ((20000u64 * 20000u64) % 32768) as u16);
    assert_eq!(vm.registers[0], 1024);
}

#[test]
fn mod_is_unsigned_remainder() {
    let mut vm = fresh(&[11, 32768, 29, 12, 0]);
    assert_eq!(vm.cycle(), Ok(()));
    assert_eq!(vm.registers[0], 5);
}

#[test]
fn mod_by_zero_is_a_fault() {
    let mut vm = fresh(&[11, 32768, 29, 0, 0]);
    assert_eq!(vm.cycle(), Err(Error::DivisionByZero));
    assert_eq!(vm.pc, 0);
}

#[test]
fn not_is_15_bit_inverse() {
    for b in [0u16, 1, 21845, 32767] {
        let mut vm = fresh(&[14, 32768, b, 0]);
        assert_eq!(vm.cycle(), Ok(()));
        assert_eq!(vm.registers[0], (!b) & 0x7fff);
    }
}

#[test]
fn eq_and_gt_write_flags() {
    let mut vm = fresh(&[4, 32768, 3, 3, 5, 32769, 3, 4, 0]);
    assert_eq!(vm.cycle(), Ok(()));
    assert_eq!(vm.cycle(), Ok(()));
    assert_eq!(vm.registers[0], 1);
    assert_eq!(vm.registers[1], 0);
}

#[test]
fn push_then_pop_returns_value_unchanged() {
    let mut vm = fresh(&[2, 42, 3, 32768, 0]);
    assert_eq!(vm.cycle(), Ok(()));
    assert_eq!(vm.stack, vec![42]);
    assert_eq!(vm.cycle(), Ok(()));
    assert_eq!(vm.registers[0], 42);
    assert!(vm.stack.is_empty());
}

#[test]
fn pop_from_empty_stack_fails_and_leaves_it_empty() {
    let mut vm = fresh(&[3, 32768, 0]);
    assert_eq!(vm.cycle(), Err(Error::PopFromEmptyStack));
    assert!(vm.stack.is_empty());
    assert_eq!(vm.pc, 0);
}

#[test]
fn jumps_move_the_program_counter() {
    let mut vm = fresh(&[6, 10, 0]);
    assert_eq!(vm.cycle(), Ok(()));
    assert_eq!(vm.pc, 10);
    let mut vm = fresh(&[7, 1, 20, 0]);
    assert_eq!(vm.cycle(), Ok(()));
    assert_eq!(vm.pc, 20);
    let mut vm = fresh(&[7, 0, 20, 0]);
    assert_eq!(vm.cycle(), Ok(()));
    assert_eq!(vm.pc, 3);
    let mut vm = fresh(&[8, 0, 30, 0]);
    assert_eq!(vm.cycle(), Ok(()));
    assert_eq!(vm.pc, 30);
}

#[test]
fn call_pushes_return_address_and_ret_resumes() {
    let mut vm = fresh(&[17, 5, 0, 0, 0, 18]);
    assert_eq!(vm.cycle(), Ok(()));
    assert_eq!(vm.pc, 5);
    assert_eq!(vm.stack, vec![2]);
    assert_eq!(vm.cycle(), Ok(()));
    assert_eq!(vm.pc, 2);
    assert!(vm.stack.is_empty());
}

#[test]
fn ret_on_empty_stack_halts() {
    let mut vm = fresh(&[18]);
    assert_eq!(vm.cycle(), Err(Error::Halt));
}

#[test]
fn rmem_and_wmem_move_words() {
    let mut vm = fresh(&[16, 100, 77, 15, 32768, 100, 0]);
    assert_eq!(vm.cycle(), Ok(()));
    assert_eq!(vm.memory[100], 77);
    assert_eq!(vm.cycle(), Ok(()));
    assert_eq!(vm.registers[0], 77);
}

#[test]
fn unknown_opcode_is_a_fault_with_rollback() {
    let mut vm = fresh(&[22, 0]);
    assert_eq!(vm.cycle(), Err(Error::UnknownOpcode(22)));
    assert_eq!(vm.pc, 0);
}

#[test]
fn rollback_restores_pc_on_every_fault() {
    // set with an invalid destination, three words consumed before failing
    let mut vm = fresh(&[1, 5, 1, 0]);
    assert_eq!(vm.cycle(), Err(Error::InvalidStore(5)));
    assert_eq!(vm.pc, 0);
    // invalid load inside an add
    let mut vm = fresh(&[9, 32768, 32776, 1, 0]);
    assert_eq!(vm.cycle(), Err(Error::InvalidLoad(32776)));
    assert_eq!(vm.pc, 0);
}

#[test]
fn end_to_end_output_program() {
    let mut vm = fresh(&[19, 65, 19, 66, 0]);
    assert_eq!(vm.cycle(), Ok(()));
    assert_eq!(vm.cycle(), Ok(()));
    assert_eq!(vm.cycle(), Err(Error::Halt));
    assert_eq!(output_of(&vm), b"AB".to_vec());
}

#[test]
fn end_to_end_input_skips_carriage_returns() {
    let mut vm = fresh(&[20, 32768, 20, 32769, 0]);
    vm.append_input(b"\r7\r\n");
    assert_eq!(vm.cycle(), Ok(()));
    assert_eq!(vm.cycle(), Ok(()));
    assert_eq!(vm.registers[0], b'7' as u16);
    assert_eq!(vm.registers[1], b'\n' as u16);
}

#[test]
fn exhausted_input_halts_in_instruction() {
    let mut vm = fresh(&[20, 32768, 0]);
    assert_eq!(vm.cycle(), Err(Error::Halt));
    assert_eq!(vm.pc, 0);
    // only carriage returns left counts as exhausted too
    let mut vm = fresh(&[20, 32768, 0]);
    vm.append_input(b"\r\r");
    assert_eq!(vm.cycle(), Err(Error::Halt));
}

#[test]
fn run_stops_at_halt() {
    let mut vm = fresh(&[19, 65, 19, 66, 0]);
    assert_eq!(vm.run(1000), Some(Error::Halt));
    assert_eq!(output_of(&vm), b"AB".to_vec());
}

#[test]
fn run_returns_none_when_budget_runs_out() {
    // a two-word loop jumping to itself
    let mut vm = fresh(&[6, 0]);
    assert_eq!(vm.run(10), None);
}

#[test]
fn discard_sink_drops_output() {
    let mut vm = VM::load_program(
        InputBuffer::new(),
        OutputSink::discard(),
        &image(&[19, 65, 0]),
    );
    assert_eq!(vm.run(10), Some(Error::Halt));
    assert_eq!(output_of(&vm), Vec::<u8>::new());
}

#[test]
fn append_input_preserves_read_cursor() {
    let mut input = InputBuffer::from_bytes(b"ab".to_vec());
    assert_eq!(input.read_byte(), Some(b'a'));
    input.append(b"cd");
    assert_eq!(input.read_byte(), Some(b'b'));
    assert_eq!(input.read_byte(), Some(b'c'));
    assert_eq!(input.read_byte(), Some(b'd'));
    assert_eq!(input.read_byte(), None);
}

#[test]
fn snapshot_roundtrip_resumes_identically() {
    let mut vm = fresh(&[19, 65, 19, 66, 19, 67, 0]);
    assert_eq!(vm.cycle(), Ok(()));
    let snap = vm.save_snapshot();
    let mut vm2 = VM::load_snapshot(InputBuffer::new(), OutputSink::buffered(), &snap)
        .expect("snapshot decodes");
    assert_eq!(vm2.pc, vm.pc);
    assert_eq!(vm2.registers, vm.registers);
    assert_eq!(vm2.stack, vm.stack);
    assert_eq!(vm2.memory, vm.memory);
    assert_eq!(vm.run(100), Some(Error::Halt));
    assert_eq!(vm2.run(100), Some(Error::Halt));
    // the restored machine emits exactly what the saved one still had to emit
    assert_eq!(output_of(&vm)[1..].to_vec(), output_of(&vm2));
}

#[test]
fn snapshot_preserves_registers_stack_and_pc() {
    let mut vm = fresh(&[2, 7, 2, 9, 0]);
    vm.registers[4] = 321;
    assert_eq!(vm.cycle(), Ok(()));
    assert_eq!(vm.cycle(), Ok(()));
    let snap = vm.save_snapshot();
    assert_eq!(snap.len(), 2 * SNAP_HEAD_WORDS + 4);
    let vm2 = VM::load_snapshot(InputBuffer::new(), OutputSink::buffered(), &snap).unwrap();
    assert_eq!(vm2.registers[4], 321);
    assert_eq!(vm2.stack, vec![7, 9]);
    assert_eq!(vm2.pc, 4);
}

#[test]
fn short_snapshots_are_rejected() {
    let vm = fresh(&[]);
    let snap = vm.save_snapshot();
    assert!(VM::load_snapshot(InputBuffer::new(), OutputSink::buffered(), &snap[..100]).is_none());
    assert!(VM::load_snapshot(InputBuffer::new(), OutputSink::buffered(), &snap).is_some());
}

#[test]
fn a_trailing_half_word_is_ignored() {
    let mut vm = fresh(&[2, 7, 0]);
    assert_eq!(vm.cycle(), Ok(()));
    let snap = vm.save_snapshot();
    // one full extra stack word decodes, a trailing half word does not
    let mut cut = snap.clone();
    cut.extend_from_slice(&[9, 0, 5]);
    let vm2 = VM::load_snapshot(InputBuffer::new(), OutputSink::buffered(), &cut).unwrap();
    assert_eq!(vm2.stack, vec![7, 9]);
    assert_eq!(vm2.pc, vm.pc);
}

#[test]
fn program_image_words_are_little_endian() {
    let vm = VM::load_program(
        InputBuffer::new(),
        OutputSink::buffered(),
        &[0x01, 0x02, 0xff, 0x7f, 0x33],
    );
    assert_eq!(vm.memory[0], 0x0201);
    assert_eq!(vm.memory[1], 0x7fff);
    // the trailing odd byte is ignored, the rest of memory is zero
    assert_eq!(vm.memory[2], 0);
    assert_eq!(vm.pc, 0);
    assert!(vm.stack.is_empty());
    assert!(vm.registers.iter().all(|&r| r == 0));
}

#[test]
fn error_is_fault_distinguishes_halt() {
    assert!(!Error::Halt.is_fault());
    assert!(Error::InvalidLoad(40000).is_fault());
    assert!(Error::PopFromEmptyStack.is_fault());
}

#[test]
fn read_output_hands_back_new_bytes_once() {
    let mut vm = fresh(&[19, 72, 19, 105, 0]);
    assert_eq!(vm.run(100), Some(Error::Halt));
    assert_eq!(vm.read_output(), b"Hi".to_vec());
    // the cursor moved: a second read sees nothing new
    assert_eq!(vm.read_output(), Vec::<u8>::new());
}
