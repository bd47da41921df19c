use synacor_vm::driver::RunError;
use synacor_vm::room::{ParseError, Room};
use synacor_vm::transport::{InputBuffer, OutputBuffer, OutputSink};
use synacor_vm::vm::VM;

const ROOM_TEXT: &str = "\n== Den ==\nA cozy den.\n\nThings of interest here:\n- lamp\n\nThere are 2 exits:\n- north\n- south\n\nWhat do you do?";

fn buffer_of(text: &[u8]) -> OutputBuffer {
    OutputBuffer { data: text.to_vec(), pos: 0 }
}

#[test]
fn parse_reads_a_full_room_record() {
    let mut b = buffer_of(ROOM_TEXT.as_bytes());
    let (prelude, room) = Room::parse(&mut b).expect("parses");
    let room = room.expect("a room is present");
    assert_eq!(prelude, "\n");
    assert_eq!(room.title, "Den");
    assert_eq!(room.description, "A cozy den.");
    assert_eq!(room.items, vec!["lamp".to_string()]);
    assert_eq!(room.exits, vec!["north".to_string(), "south".to_string()]);
    // the whole record was consumed
    assert_eq!(b.pos, b.data.len());
}

#[test]
fn parse_without_item_list() {
    let text = b"== Hall ==\nBare walls.\n\nThere are 1 exits:\n- west\n\nWhat do you do?";
    let mut b = buffer_of(text);
    let (prelude, room) = Room::parse(&mut b).expect("parses");
    let room = room.unwrap();
    assert_eq!(prelude, "");
    assert_eq!(room.title, "Hall");
    assert_eq!(room.description, "Bare walls.");
    assert!(room.items.is_empty());
    assert_eq!(room.exits, vec!["west".to_string()]);
}

#[test]
fn parse_at_end_of_history_yields_no_room() {
    let mut b = buffer_of(b"You have been eaten by a grue.");
    let (prelude, room) = Room::parse(&mut b).expect("parses");
    assert_eq!(prelude, "You have been eaten by a grue.");
    assert!(room.is_none());
}

#[test]
fn parse_rejects_a_malformed_title_line() {
    let mut b = buffer_of(b"=Bad title\nmore\n");
    assert!(matches!(Room::parse(&mut b), Err(ParseError::MalformedTitle)));
}

#[test]
fn parse_rejects_an_unknown_list_header() {
    let text = b"== Den ==\nWords.\n\nStrange things here:\n- thing\n\nWhat do you do?";
    let mut b = buffer_of(text);
    assert!(matches!(Room::parse(&mut b), Err(ParseError::UnknownHeader)));
}

#[test]
fn parse_rejects_a_short_list_entry() {
    let text = b"== Den ==\nWords.\n\nThings of interest here:\nx\n\nWhat do you do?";
    let mut b = buffer_of(text);
    assert!(matches!(Room::parse(&mut b), Err(ParseError::MalformedItem)));
}

#[test]
fn parse_rejects_text_that_does_not_decode() {
    let mut text = b"== D".to_vec();
    text.push(0xff);
    text.extend_from_slice(b"n ==\nWords.\n\nWhat do you do?");
    let mut b = buffer_of(&text);
    assert!(matches!(Room::parse(&mut b), Err(ParseError::NotUtf8)));
}

#[test]
fn parse_starts_at_the_read_cursor() {
    let mut all = b"old text ignored entirely ".to_vec();
    let start = all.len();
    all.extend_from_slice(b"== Spot ==\nHere.\n\nWhat do you do?");
    let mut b = OutputBuffer { data: all, pos: start };
    let (prelude, room) = Room::parse(&mut b).expect("parses");
    assert_eq!(prelude, "");
    assert_eq!(room.unwrap().title, "Spot");
}

fn out_program(text: &[u8]) -> Vec<u8> {
    let mut words: Vec<u16> = Vec::new();
    for &byte in text {
        words.push(19);
        words.push(byte as u16);
    }
    words.push(0);
    let mut image = Vec::new();
    for w in words {
        image.push((w % 256) as u8);
        image.push((w / 256) as u8);
    }
    image
}

#[test]
fn cycle_until_next_room_reads_the_emitted_room() {
    let mut vm = VM::load_program(
        InputBuffer::new(),
        OutputSink::buffered(),
        &out_program(ROOM_TEXT.as_bytes()),
    );
    let (prelude, room) = vm.cycle_until_next_room(100_000).expect("reaches the prompt");
    let room = room.expect("a room is present");
    assert_eq!(prelude, "\n");
    assert_eq!(room.title, "Den");
    assert_eq!(room.exits, vec!["north".to_string(), "south".to_string()]);
}

#[test]
fn cycle_until_next_room_stops_at_halt_without_a_prompt() {
    let mut vm = VM::load_program(
        InputBuffer::new(),
        OutputSink::buffered(),
        &out_program(b"all done\n"),
    );
    let (prelude, room) = vm.cycle_until_next_room(100_000).expect("halts cleanly");
    assert_eq!(prelude, "all done\n");
    assert!(room.is_none());
}

#[test]
fn cycle_until_next_room_reports_faults() {
    // an unknown opcode faults before any prompt appears
    let mut vm = VM::load_program(InputBuffer::new(), OutputSink::buffered(), &[22, 0]);
    match vm.cycle_until_next_room(100) {
        Err(RunError::Vm(e)) => assert!(e.is_fault()),
        other => panic!("expected a fault, got {:?}", other),
    }
}

#[test]
fn cycle_until_next_room_respects_the_step_budget() {
    // a tight loop never prints the prompt
    let mut vm = VM::load_program(InputBuffer::new(), OutputSink::buffered(), &[6, 0]);
    assert!(matches!(vm.cycle_until_next_room(50), Err(RunError::StepLimit)));
}

#[test]
fn cycle_until_next_room_reports_unreadable_rooms() {
    // the prompt arrives, but the room header in front of it is malformed
    let mut vm = VM::load_program(
        InputBuffer::new(),
        OutputSink::buffered(),
        &out_program(b"==\nWhat do you do?"),
    );
    assert!(matches!(
        vm.cycle_until_next_room(100_000),
        Err(RunError::Parse(ParseError::MalformedTitle))
    ));
}
