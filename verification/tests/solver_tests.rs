use synacor_vm::permutation::find_permutation;
use synacor_vm::teleporter::{powmod, Ackermann};
use synacor_vm::vault::{parse_cell, pathfind, Cell};

#[test]
fn powmod_matches_small_powers() {
    assert_eq!(powmod(3, 4, 32768), 81);
    assert_eq!(powmod(2, 15, 32768), 0);
    assert_eq!(powmod(2, 14, 32768), 16384);
    assert_eq!(powmod(5, 0, 32768), 1);
    assert_eq!(powmod(7, 3, 100), 43);
}

#[test]
fn powmod_matches_naive_iteration() {
    let (x, m) = (123u64, 32768u64);
    let mut expected = 1u64;
    for y in 0..20u32 {
        assert_eq!(powmod(123, y, 32768) as u64, expected);
        expected = expected * x % m;
    }
}

/// The guest's function written exactly as it recurses, for cross-checking
/// the collapsed levels.
fn naive_ack(r7: u32, m: u32, n: u32) -> u32 {
    if m == 0 {
        (n + 1) % 32768
    } else if n == 0 {
        naive_ack(r7, m - 1, r7)
    } else {
        naive_ack(r7, m - 1, naive_ack(r7, m, n - 1))
    }
}

#[test]
fn ack_matches_direct_recursion_on_small_arguments() {
    for r7 in [0u16, 1, 2, 5] {
        let a = Ackermann::new(r7);
        for m in 0..3u16 {
            for n in 0..5u16 {
                assert_eq!(
                    a.ack(m, n) as u32,
                    naive_ack(r7 as u32, m as u32, n as u32),
                    "r7={} m={} n={}",
                    r7,
                    m,
                    n
                );
            }
        }
    }
    // the third level grows fast; cross-check it on small registers only
    for r7 in [0u16, 1, 2] {
        let a = Ackermann::new(r7);
        for n in 0..3u16 {
            assert_eq!(a.ack(3, n) as u32, naive_ack(r7 as u32, 3, n as u32));
        }
    }
}

#[test]
fn ack_level_four_agrees_with_recursion_for_tiny_register() {
    // A(4, 0) = A(3, r7); with r7 = 0 the values stay small
    let a = Ackermann::new(0);
    assert_eq!(a.ack(4, 0) as u32, naive_ack(0, 4, 0));
}

#[test]
fn find_permutation_finds_the_coin_order() {
    // _ + _ * _^2 + _^3 - _ = 399
    let mut coins: Vec<usize> = vec![2, 3, 5, 7, 9];
    let found = find_permutation(&mut coins, |a: &Vec<usize>| {
        (a[0] + a[1] * a[2] * a[2] + a[3] * a[3] * a[3]) as i64 - a[4] as i64 == 399
    });
    assert!(found);
    assert_eq!(coins, vec![9, 2, 5, 7, 3]);
    assert_eq!(
        (coins[0] + coins[1] * coins[2] * coins[2] + coins[3] * coins[3] * coins[3]) as i64
            - coins[4] as i64,
        399
    );
}

#[test]
fn find_permutation_keeps_the_elements_when_nothing_matches() {
    let mut v: Vec<usize> = vec![1, 2, 3, 4, 5];
    let found = find_permutation(&mut v, |_a: &Vec<usize>| false);
    assert!(!found);
    let mut sorted = v.clone();
    sorted.sort();
    assert_eq!(sorted, vec![1, 2, 3, 4, 5]);
}

#[test]
fn find_permutation_keeps_an_accepted_arrangement_in_place() {
    let mut v: Vec<usize> = vec![4, 1, 2, 3, 0];
    let found = find_permutation(&mut v, |a: &Vec<usize>| a[0] == 4);
    assert!(found);
    assert_eq!(v, vec![4, 1, 2, 3, 0]);
}

#[test]
fn parse_cell_reads_operators_and_numbers() {
    assert_eq!(parse_cell(b"a '+' symbol is scrawled here"), Some(Cell::Add));
    assert_eq!(parse_cell(b"a '*' symbol is scrawled here"), Some(Cell::Mul));
    assert_eq!(parse_cell(b"a '-' symbol is scrawled here"), Some(Cell::Sub));
    assert_eq!(parse_cell(b"the number '11' is carved here"), Some(Cell::Num(11)));
    assert_eq!(parse_cell(b"the number '0' is carved here"), Some(Cell::Num(0)));
}

#[test]
fn parse_cell_rejects_text_naming_no_cell() {
    assert_eq!(parse_cell(b"nothing of note"), None);
    assert_eq!(parse_cell(b"an empty quote '' sits here"), None);
    assert_eq!(parse_cell(b"an unterminated 'quote"), None);
    assert_eq!(parse_cell(b"letters 'abc' in quotes"), None);
    // a value too wide for its word
    assert_eq!(parse_cell(b"the number '99999999999' is carved here"), None);
}

#[test]
fn parse_cell_any_glyph_beats_the_quoted_number() {
    assert_eq!(parse_cell(b"a '+' next to '4'"), Some(Cell::Add));
}

/// The vault grid as the guest lays it out, row-major from the antechamber.
fn vault_grid() -> Vec<Cell> {
    vec![
        Cell::Num(22), Cell::Sub, Cell::Num(9), Cell::Mul,
        Cell::Add, Cell::Num(4), Cell::Sub, Cell::Num(18),
        Cell::Num(4), Cell::Mul, Cell::Num(11), Cell::Mul,
        Cell::Mul, Cell::Num(8), Cell::Sub, Cell::Num(1),
    ]
}

#[test]
fn pathfind_opens_the_vault() {
    let grid = vault_grid();
    let path = pathfind(&grid).expect("a walk exists");
    // the fewest-cells walk through this grid takes twelve steps
    assert_eq!(path.len(), 13);
    // replay the walk by the room rules and confirm what the contract says
    assert_eq!(path[0], (0, 0));
    assert_eq!(*path.last().unwrap(), (3, 3));
    let mut w: i64 = 22;
    for pair in path.windows(2) {
        let (ax, ay) = pair[0];
        let (bx, by) = pair[1];
        assert_eq!((ax as i64 - bx as i64).abs() + (ay as i64 - by as i64).abs(), 1);
        assert_ne!((bx, by), (0, 0));
        let from = grid[4 * ay + ax];
        let to = grid[4 * by + bx];
        w = match (from, to) {
            (Cell::Num(_), _) => w,
            (Cell::Add, Cell::Num(n)) => w + n as i64,
            (Cell::Mul, Cell::Num(n)) => w * n as i64,
            (Cell::Sub, Cell::Num(n)) => w - n as i64,
            _ => panic!("walk steps between two operator cells"),
        };
        assert!((0..32768).contains(&w));
    }
    assert_eq!(w, 30);
}

#[test]
fn pathfind_reports_an_impossible_grid() {
    // all operators: no cell is walkable at all
    let grid = vec![Cell::Num(22); 16];
    // every step keeps the weight 22, so the door never sees 30
    assert!(pathfind(&grid).is_none());
}
