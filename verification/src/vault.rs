//! The vault grid. Each room of the vault carries an operator or a number,
//! spelled out in the room's description: an operator shows itself as its
//! glyph somewhere in the text, a number stands between the first pair of
//! single quotes; `parse_cell` reads a description, exactly as
//! `parse_cell_spec` says. `pathfind` then searches the grid for a walk of
//! the orb that opens the door: what it returns is a fewest-cells walk
//! satisfying `path_ok`, and when it returns nothing, no walk satisfies
//! `path_ok` at all.

use vstd::prelude::*;

verus! {

/// One cell of the vault grid.
#[derive(Clone, Copy, Debug, PartialEq, Eq, Structural)]
pub enum Cell {
    Num(i32),
    Add,
    Mul,
    Sub,
}

/// Whether `b` occurs in `s`.
pub open spec fn contains_byte(s: Seq<u8>, b: u8) -> bool {
    exists|i: int| 0 <= i < s.len() && s[i] == b
}

/// The position of the first `b` at or after `pos`, or the end of `s`.
pub open spec fn find_at(s: Seq<u8>, pos: nat, b: u8) -> nat
    decreases s.len() - pos,
{
    if pos >= s.len() {
        s.len()
    } else if s[pos as int] == b {
        pos
    } else {
        find_at(s, pos + 1, b)
    }
}

/// A decimal digit.
pub open spec fn is_digit(b: u8) -> bool {
    48 <= b <= 57
}

/// The value of a run of decimal digits, most significant first.
pub open spec fn digits_val(s: Seq<u8>) -> int
    decreases s.len(),
{
    if s.len() == 0 {
        0
    } else {
        digits_val(s.drop_last()) * 10 + (s.last() - 48)
    }
}

/// Digit runs have non-negative values.
proof fn lemma_digits_val_nonneg(s: Seq<u8>)
    requires
        forall|i: int| 0 <= i < s.len() ==> is_digit(#[trigger] s[i]),
    ensures
        digits_val(s) >= 0,
    decreases s.len(),
{
    if s.len() > 0 {
        lemma_digits_val_nonneg(s.drop_last());
    }
}

/// A prefix of a digit run is worth no more than the whole run.
proof fn lemma_digits_val_prefix(s: Seq<u8>, i: int)
    requires
        forall|j: int| 0 <= j < s.len() ==> is_digit(#[trigger] s[j]),
        0 <= i <= s.len(),
    ensures
        digits_val(s.take(i)) <= digits_val(s),
    decreases s.len() - i,
{
    if i < s.len() {
        lemma_digits_val_prefix(s, i + 1);
        assert(s.take(i + 1).drop_last() =~= s.take(i));
        assert(s.take(i + 1).last() == s[i]);
        lemma_digits_val_nonneg(s.take(i));
    } else {
        assert(s.take(i) =~= s);
    }
}

/// How a description names its cell: an operator glyph anywhere in the
/// text wins (checked in the order `+`, `-`, `*`), otherwise the text
/// between the first pair of single quotes must be a run of decimal digits
/// whose value fits a 32-bit number.
pub open spec fn parse_cell_spec(s: Seq<u8>) -> Option<Cell> {
    if contains_byte(s, 43) {
        Some(Cell::Add)
    } else if contains_byte(s, 45) {
        Some(Cell::Sub)
    } else if contains_byte(s, 42) {
        Some(Cell::Mul)
    } else {
        let q1 = find_at(s, 0, 39);
        if q1 >= s.len() {
            None
        } else {
            let q2 = find_at(s, q1 + 1, 39);
            if q2 >= s.len() {
                None
            } else {
                let digits = s.subrange(q1 + 1 as int, q2 as int);
                if digits.len() > 0 && (forall|i: int|
                    0 <= i < digits.len() ==> is_digit(#[trigger] digits[i])) && digits_val(
                    digits,
                ) <= i32::MAX {
                    Some(Cell::Num(digits_val(digits) as i32))
                } else {
                    None
                }
            }
        }
    }
}

/// Whether `b` occurs in `s`.
fn contains(s: &[u8], b: u8) -> (r: bool)
    ensures
        r == contains_byte(s@, b),
{
    let n = s.len();
    let mut i: usize = 0;
    while i < n
        invariant
            0 <= i <= n,
            n == s@.len(),
            forall|j: int| 0 <= j < i ==> s@[j] != b,
        decreases n - i,
    {
        if s[i] == b {
            return true;
        }
        i = i + 1;
    }
    false
}

/// The position of the first `b` at or after `pos`, or the length of `s`.
fn find_from(s: &[u8], pos: usize, b: u8) -> (r: usize)
    requires
        pos <= s@.len(),
    ensures
        r == find_at(s@, pos as nat, b),
        pos <= r <= s@.len(),
        r < s@.len() ==> s@[r as int] == b,
{
    let n = s.len();
    let mut i: usize = pos;
    while i < n
        invariant
            pos <= i <= n,
            n == s@.len(),
            find_at(s@, pos as nat, b) == find_at(s@, i as nat, b),
        decreases n - i,
    {
        if s[i] == b {
            return i;
        }
        i = i + 1;
    }
    n
}

/// Read a vault cell out of a room's description, exactly as
/// `parse_cell_spec` says; `None` when the text names no cell.
#[verifier::loop_isolation(false)]
pub fn parse_cell(desc: &[u8]) -> (r: Option<Cell>)
    ensures
        r == parse_cell_spec(desc@),
{
    if contains(desc, 43) {
        return Some(Cell::Add);
    }
    if contains(desc, 45) {
        return Some(Cell::Sub);
    }
    if contains(desc, 42) {
        return Some(Cell::Mul);
    }
    let q1 = find_from(desc, 0, 39);
    if q1 >= desc.len() {
        return None;
    }
    let q2 = find_from(desc, q1 + 1, 39);
    if q2 >= desc.len() {
        return None;
    }
    let ghost digits = desc@.subrange(q1 + 1 as int, q2 as int);
    if q2 == q1 + 1 {
        return None;
    }
    let mut acc: u64 = 0;
    let mut i: usize = q1 + 1;
    while i < q2
        invariant
            q1 + 1 <= i <= q2,
            acc == digits_val(desc@.subrange(q1 + 1 as int, i as int)),
            acc <= i32::MAX as u64,
            forall|j: int| q1 + 1 <= j < i ==> is_digit(#[trigger] desc@[j]),
        decreases q2 - i,
    {
        let b = desc[i];
        if !(48 <= b && b <= 57) {
            assert(!is_digit(digits[i - (q1 + 1)]));
            return None;
        }
        let new_acc = acc * 10 + (b - 48) as u64;
        proof {
            assert(desc@.subrange(q1 + 1 as int, i + 1 as int).drop_last() =~= desc@.subrange(
                q1 + 1 as int,
                i as int,
            ));
            assert(desc@.subrange(q1 + 1 as int, i + 1 as int).last() == desc@[i as int]);
        }
        if new_acc > i32::MAX as u64 {
            proof {
                if forall|j: int| 0 <= j < digits.len() ==> is_digit(#[trigger] digits[j]) {
                    assert(forall|j: int|
                        q1 + 1 <= j < q2 ==> is_digit(#[trigger] desc@[j])) by {
                        assert(forall|j: int|
                            q1 + 1 <= j < q2 ==> desc@[j] == digits[j - (q1 + 1)]);
                    }
                    lemma_digits_val_prefix(digits, i + 1 - (q1 + 1));
                    assert(digits.take(i + 1 - (q1 + 1)) =~= desc@.subrange(
                        q1 + 1 as int,
                        i + 1 as int,
                    ));
                }
            }
            return None;
        }
        acc = new_acc;
        i = i + 1;
    }
    proof {
        assert(digits =~= desc@.subrange(q1 + 1 as int, q2 as int));
        assert(forall|j: int| 0 <= j < digits.len() ==> is_digit(#[trigger] digits[j])) by {
            assert(forall|j: int| 0 <= j < digits.len() ==> digits[j] == desc@[j + (q1 + 1)]);
        }
    }
    Some(Cell::Num(acc as i32))
}

/// The key space of the orb walk: a grid position and a running weight,
/// packed as `x + 4*y + 16*w`.
pub const KEY_SPACE: usize = 16 * 32768;

/// The orb's weight when it is picked up in the antechamber.
pub const ORB_START_WEIGHT: usize = 22;

/// The weight the door demands.
pub const ORB_TARGET_WEIGHT: usize = 30;

/// The grid column of a packed key. Kept opaque so that reasoning about
/// chains of keys stays symbolic; `lemma_key_decode` and `lemma_key_parts`
/// are its interface.
#[verifier::opaque]
pub open spec fn kx(k: int) -> int {
    k % 4
}

/// The grid row of a packed key.
#[verifier::opaque]
pub open spec fn ky(k: int) -> int {
    (k / 4) % 4
}

/// The running weight of a packed key.
#[verifier::opaque]
pub open spec fn kw(k: int) -> int {
    k / 16
}

/// A position and weight packed into one key.
pub open spec fn key_of(x: int, y: int, w: int) -> int {
    x + 4 * y + 16 * w
}

/// Packing and unpacking a key round-trips.
proof fn lemma_key_parts(x: int, y: int, w: int)
    requires
        0 <= x < 4,
        0 <= y < 4,
        0 <= w,
    ensures
        kx(key_of(x, y, w)) == x,
        ky(key_of(x, y, w)) == y,
        kw(key_of(x, y, w)) == w,
{
    reveal(kx);
    reveal(ky);
    reveal(kw);
    assert((x + 4 * y + 16 * w) % 4 == x) by (nonlinear_arith)
        requires
            0 <= x < 4,
            0 <= y < 4,
            0 <= w,
    ;
    assert(((x + 4 * y + 16 * w) / 4) % 4 == y) by (nonlinear_arith)
        requires
            0 <= x < 4,
            0 <= y < 4,
            0 <= w,
    ;
    assert((x + 4 * y + 16 * w) / 16 == w) by (nonlinear_arith)
        requires
            0 <= x < 4,
            0 <= y < 4,
            0 <= w,
    ;
}

/// How a key unpacks: the remainder and division chain of the packing.
proof fn lemma_key_decode(k: int)
    requires
        0 <= k,
    ensures
        kx(k) == k % 4,
        ky(k) == (k / 4) % 4,
        kw(k) == k / 16,
{
    reveal(kx);
    reveal(ky);
    reveal(kw);
}

/// Every key in the key space unpacks to an in-range position and weight.
proof fn lemma_key_bounds(k: int)
    requires
        0 <= k < KEY_SPACE,
    ensures
        0 <= kx(k) < 4,
        0 <= ky(k) < 4,
        0 <= kw(k) < 32768,
{
    reveal(kx);
    reveal(ky);
    reveal(kw);
}

/// A key decomposes back into the packing of its own parts.
proof fn lemma_key_recompose(k: int)
    requires
        0 <= k,
    ensures
        key_of(kx(k), ky(k), kw(k)) == k,
{
    reveal(kx);
    reveal(ky);
    reveal(kw);
    assert(k % 4 + 4 * ((k / 4) % 4) + 16 * (k / 16) == k) by (nonlinear_arith)
        requires
            0 <= k,
    ;
}

/// Whether a key stands on the door cell, where the orb disappears.
pub open spec fn door_key(k: int) -> bool {
    kx(k) == 3 && ky(k) == 3
}

/// How many states a seen-marker array has marked.
pub open spec fn count_true(s: Seq<bool>) -> int
    decreases s.len(),
{
    if s.len() == 0 {
        0
    } else {
        count_true(s.drop_last()) + (if s.last() {
            1int
        } else {
            0
        })
    }
}

/// The marked count stays within the array.
proof fn lemma_count_true_le_len(s: Seq<bool>)
    ensures
        0 <= count_true(s) <= s.len(),
    decreases s.len(),
{
    if s.len() > 0 {
        lemma_count_true_le_len(s.drop_last());
    }
}

/// An all-clear array marks nothing.
proof fn lemma_count_true_none(s: Seq<bool>)
    requires
        forall|i: int| 0 <= i < s.len() ==> !s[i],
    ensures
        count_true(s) == 0,
    decreases s.len(),
{
    if s.len() > 0 {
        lemma_count_true_none(s.drop_last());
    }
}

/// Marking one clear entry raises the count by one.
proof fn lemma_count_true_set(s: Seq<bool>, i: int)
    requires
        0 <= i < s.len(),
        !s[i],
    ensures
        count_true(s.update(i, true)) == count_true(s) + 1,
    decreases s.len(),
{
    if i == s.len() - 1 {
        assert(s.update(i, true).drop_last() =~= s.drop_last());
    } else {
        assert(s.update(i, true).drop_last() =~= s.drop_last().update(i, true));
        lemma_count_true_set(s.drop_last(), i);
    }
}

/// One orthogonal unit step on the grid.
pub open spec fn unit_step(ax: int, ay: int, bx: int, by: int) -> bool {
    ||| (bx == ax + 1 && by == ay)
    ||| (bx == ax - 1 && by == ay)
    ||| (by == ay + 1 && bx == ax)
    ||| (by == ay - 1 && bx == ax)
}

/// How the orb's weight changes stepping from one cell onto the next:
/// leaving a number cell changes nothing, leaving an operator cell applies
/// the operator to the number stepped onto; stepping between two operator
/// cells is no walkable step.
pub open spec fn step_weight(from: Cell, to: Cell, w: int) -> Option<int> {
    match (from, to) {
        (Cell::Num(_), _) => Some(w),
        (Cell::Add, Cell::Num(n)) => Some(w + n),
        (Cell::Mul, Cell::Num(n)) => Some(w * n),
        (Cell::Sub, Cell::Num(n)) => Some(w - n),
        _ => None,
    }
}

/// The cell at grid position `(x, y)`, row-major.
pub open spec fn cell_at(grid: Seq<Cell>, x: int, y: int) -> Cell {
    grid[4 * y + x]
}

/// The orb's weight at position `i` of walk `p`: 22 in the antechamber,
/// then one `step_weight` per step.
pub open spec fn walk_weight(grid: Seq<Cell>, p: Seq<(usize, usize)>, i: int) -> Option<int>
    decreases i,
{
    if i <= 0 {
        Some(ORB_START_WEIGHT as int)
    } else {
        match walk_weight(grid, p, i - 1) {
            None => None,
            Some(w) => step_weight(
                cell_at(grid, p[i - 1].0 as int, p[i - 1].1 as int),
                cell_at(grid, p[i].0 as int, p[i].1 as int),
                w,
            ),
        }
    }
}

/// The orb's weight at position `i` exists and fits a 15-bit word.
pub open spec fn weight_ok(grid: Seq<Cell>, p: Seq<(usize, usize)>, i: int) -> bool {
    walk_weight(grid, p, i) matches Some(w) && 0 <= w < 32768
}

/// A walk that opens the vault: it starts in the antechamber at (0, 0),
/// ends at the door at (3, 3), moves one orthogonal cell at a time, never
/// returns to the antechamber, reaches the door only as its final cell
/// (the orb disappears there), keeps the orb's weight a 15-bit word
/// throughout, and arrives with weight 30.
pub open spec fn path_ok(grid: Seq<Cell>, p: Seq<(usize, usize)>) -> bool {
    &&& p.len() >= 1
    &&& p[0] == ((0usize, 0usize))
    &&& p[p.len() - 1] == ((3usize, 3usize))
    &&& (forall|i: int| 0 <= i < p.len() ==> (#[trigger] p[i]).0 < 4 && p[i].1 < 4)
    &&& (forall|i: int|
        1 <= i < p.len() ==> unit_step(
            p[i - 1].0 as int,
            p[i - 1].1 as int,
            (#[trigger] p[i]).0 as int,
            p[i].1 as int,
        ))
    &&& (forall|i: int| 1 <= i < p.len() ==> (#[trigger] p[i]) != ((0usize, 0usize)))
    &&& (forall|i: int| 0 <= i < p.len() - 1 ==> (#[trigger] p[i]) != ((3usize, 3usize)))
    &&& (forall|i: int| 0 <= i < p.len() ==> #[trigger] weight_ok(grid, p, i))
    &&& walk_weight(grid, p, p.len() - 1) == Some(ORB_TARGET_WEIGHT as int)
}

/// One walkable step between two packed keys: adjacent cells, not back
/// into the antechamber, the weights related by the cells stepped over.
/// Kept opaque so the search's bookkeeping can treat steps as atoms.
#[verifier::opaque]
pub open spec fn edge_ok(grid: Seq<Cell>, k1: int, k2: int) -> bool {
    &&& 0 <= k1 < KEY_SPACE
    &&& 0 <= k2 < KEY_SPACE
    &&& unit_step(kx(k1), ky(k1), kx(k2), ky(k2))
    &&& !(kx(k2) == 0 && ky(k2) == 0)
    &&& step_weight(cell_at(grid, kx(k1), ky(k1)), cell_at(grid, kx(k2), ky(k2)), kw(k1))
        == Some(kw(k2))
}

/// The search's bookkeeping stays sound: every seen key other than the
/// start records a seen predecessor one walkable step before it, that
/// predecessor is not the door (the orb disappears there, so the search
/// never walks on from it), its label is strictly smaller (so predecessor
/// chains end), and labels stay below the count of seen states.
pub open spec fn search_inv(
    grid: Seq<Cell>,
    visited: Seq<bool>,
    prev: Seq<u32>,
    dist: Seq<u32>,
) -> bool {
    &&& visited.len() == KEY_SPACE
    &&& prev.len() == KEY_SPACE
    &&& dist.len() == KEY_SPACE
    &&& visited[key_of(0, 0, ORB_START_WEIGHT as int)]
    &&& dist[key_of(0, 0, ORB_START_WEIGHT as int)] == 0
    &&& (forall|k: int|
        0 <= k < KEY_SPACE && #[trigger] visited[k] ==> dist[k] < count_true(visited))
    &&& (forall|k: int|
        0 <= k < KEY_SPACE && #[trigger] visited[k] && k != key_of(
            0,
            0,
            ORB_START_WEIGHT as int,
        ) ==> {
            &&& 0 <= prev[k] < KEY_SPACE
            &&& visited[prev[k] as int]
            &&& edge_ok(grid, prev[k] as int, k)
            &&& !door_key(prev[k] as int)
            &&& dist[prev[k] as int] + 1 == dist[k]
        })
}

/// Every walkable step away from `k` lands on a state already seen, and
/// seen within one label of `k`'s own: the search hands labels out in
/// first-in, first-out order. Kept opaque so the search's bookkeeping can
/// treat it as an atom.
#[verifier::opaque]
pub open spec fn settled(grid: Seq<Cell>, visited: Seq<bool>, dist: Seq<u32>, k: int) -> bool {
    forall|k2: int|
        0 <= k2 < KEY_SPACE && #[trigger] edge_ok(grid, k, k2) ==> visited[k2] && dist[k2]
            <= dist[k] + 1
}

/// A chain of keys that starts in the antechamber and advances by walkable
/// steps carries exactly the packed weights along its coordinates.
proof fn lemma_chain_walk(grid: Seq<Cell>, keys: Seq<int>, p: Seq<(usize, usize)>, i: int)
    requires
        keys.len() == p.len(),
        0 <= i < keys.len(),
        keys[0] == key_of(0, 0, ORB_START_WEIGHT as int),
        forall|j: int| 0 <= j < keys.len() ==> 0 <= #[trigger] keys[j] < KEY_SPACE,
        forall|j: int| 1 <= j < keys.len() ==> edge_ok(grid, keys[j - 1], #[trigger] keys[j]),
        forall|j: int|
            0 <= j < keys.len() ==> #[trigger] p[j] == ((
                kx(keys[j]) as usize,
                ky(keys[j]) as usize,
            )),
    ensures
        walk_weight(grid, p, i) == Some(kw(keys[i])),
    decreases i,
{
    reveal(edge_ok);
    if i == 0 {
        lemma_key_parts(0, 0, ORB_START_WEIGHT as int);
    } else {
        lemma_chain_walk(grid, keys, p, i - 1);
        lemma_key_bounds(keys[i - 1]);
        lemma_key_bounds(keys[i]);
        assert(edge_ok(grid, keys[i - 1], keys[i]));
    }
}

/// A forward chain of walkable steps from the antechamber key to the door
/// key, the door only at its end, with its coordinates written out, is a
/// walk that opens the vault.
#[verifier::spinoff_prover]
#[verifier::rlimit(100)]
proof fn lemma_path_from_keys(grid: Seq<Cell>, keys: Seq<int>, p: Seq<(usize, usize)>)
    requires
        keys.len() == p.len(),
        keys.len() >= 1,
        keys[0] == key_of(0, 0, ORB_START_WEIGHT as int),
        keys[keys.len() - 1] == key_of(3, 3, ORB_TARGET_WEIGHT as int),
        forall|j: int| 0 <= j < keys.len() ==> 0 <= #[trigger] keys[j] < KEY_SPACE,
        forall|j: int| 0 <= j < keys.len() - 1 ==> !door_key(#[trigger] keys[j]),
        forall|j: int| 1 <= j < keys.len() ==> edge_ok(grid, keys[j - 1], #[trigger] keys[j]),
        forall|j: int|
            0 <= j < keys.len() ==> #[trigger] p[j] == ((
                kx(keys[j]) as usize,
                ky(keys[j]) as usize,
            )),
    ensures
        path_ok(grid, p),
{
    reveal(edge_ok);
    let n = keys.len() as int;
    lemma_key_parts(0, 0, ORB_START_WEIGHT as int);
    lemma_key_parts(3, 3, ORB_TARGET_WEIGHT as int);
    assert forall|i: int| 0 <= i < n implies #[trigger] weight_ok(grid, p, i) && walk_weight(
        grid,
        p,
        i,
    ) == Some(kw(keys[i])) by {
        lemma_chain_walk(grid, keys, p, i);
        lemma_key_bounds(keys[i]);
    }
    assert(weight_ok(grid, p, n - 1));
    assert(walk_weight(grid, p, n - 1) == Some(ORB_TARGET_WEIGHT as int));
    assert(p[0] == ((0usize, 0usize)));
    assert(p[n - 1] == ((3usize, 3usize)));
    assert forall|i: int| 1 <= i < n implies (#[trigger] p[i]) != ((0usize, 0usize)) by {
        assert(edge_ok(grid, keys[i - 1], keys[i]));
        lemma_key_bounds(keys[i]);
    }
    assert forall|i: int| 0 <= i < n - 1 implies (#[trigger] p[i]) != ((3usize, 3usize)) by {
        assert(!door_key(keys[i]));
        lemma_key_bounds(keys[i]);
    }
    assert forall|i: int|
        1 <= i < n implies unit_step(
        p[i - 1].0 as int,
        p[i - 1].1 as int,
        (#[trigger] p[i]).0 as int,
        p[i].1 as int,
    ) by {
        assert(edge_ok(grid, keys[i - 1], keys[i]));
        lemma_key_bounds(keys[i - 1]);
        lemma_key_bounds(keys[i]);
    }
    assert forall|i: int| 0 <= i < n implies (#[trigger] p[i]).0 < 4 && p[i].1 < 4 by {
        lemma_key_bounds(keys[i]);
    }
}

/// Any walk that opens the vault runs inside the seen set, each state
/// seen within as many labels as the walk has taken steps: states are
/// reached one walkable step at a time from the start, every seen non-door
/// state has been walked on from within one label, and the door never is.
proof fn lemma_walk_visited(
    grid: Seq<Cell>,
    visited: Seq<bool>,
    dist: Seq<u32>,
    p: Seq<(usize, usize)>,
    i: int,
)
    requires
        visited.len() == KEY_SPACE,
        dist.len() == KEY_SPACE,
        path_ok(grid, p),
        visited[key_of(0, 0, ORB_START_WEIGHT as int)],
        dist[key_of(0, 0, ORB_START_WEIGHT as int)] == 0,
        forall|k: int|
            0 <= k < KEY_SPACE && #[trigger] visited[k] ==> door_key(k) || settled(
                grid,
                visited,
                dist,
                k,
            ),
        0 <= i < p.len(),
    ensures
        walk_weight(grid, p, i) matches Some(w) && visited[key_of(
            p[i].0 as int,
            p[i].1 as int,
            w,
        )] && dist[key_of(p[i].0 as int, p[i].1 as int, w)] <= i,
    decreases i,
{
    reveal(edge_ok);
    reveal(settled);
    assert(weight_ok(grid, p, i));
    let w = walk_weight(grid, p, i)->Some_0;
    let ki = key_of(p[i].0 as int, p[i].1 as int, w);
    lemma_key_parts(p[i].0 as int, p[i].1 as int, w);
    if i == 0 {
    } else {
        lemma_walk_visited(grid, visited, dist, p, i - 1);
        assert(weight_ok(grid, p, i - 1));
        let wp = walk_weight(grid, p, i - 1)->Some_0;
        let kp = key_of(p[i - 1].0 as int, p[i - 1].1 as int, wp);
        lemma_key_parts(p[i - 1].0 as int, p[i - 1].1 as int, wp);
        assert(!door_key(kp)) by {
            assert(p[i - 1] != ((3usize, 3usize)));
        }
        assert(edge_ok(grid, kp, ki));
        assert(settled(grid, visited, dist, kp));
    }
}

/// When the search has seen the start, walked on from every seen non-door
/// state, and still never seen the door key, no walk opens the vault.
proof fn lemma_no_walk(grid: Seq<Cell>, visited: Seq<bool>, dist: Seq<u32>)
    requires
        visited.len() == KEY_SPACE,
        dist.len() == KEY_SPACE,
        visited[key_of(0, 0, ORB_START_WEIGHT as int)],
        dist[key_of(0, 0, ORB_START_WEIGHT as int)] == 0,
        forall|k: int|
            0 <= k < KEY_SPACE && #[trigger] visited[k] ==> door_key(k) || settled(
                grid,
                visited,
                dist,
                k,
            ),
        !visited[key_of(3, 3, ORB_TARGET_WEIGHT as int)],
    ensures
        forall|p: Seq<(usize, usize)>| !path_ok(grid, p),
{
    assert forall|p: Seq<(usize, usize)>| !path_ok(grid, p) by {
        if path_ok(grid, p) {
            let last = p.len() - 1;
            lemma_walk_visited(grid, visited, dist, p, last);
            assert(walk_weight(grid, p, last) == Some(ORB_TARGET_WEIGHT as int));
            assert(p[last] == ((3usize, 3usize)));
            assert(visited[key_of(3, 3, ORB_TARGET_WEIGHT as int)]);
        }
    }
}

/// When the search has seen the start and walked on from every seen
/// non-door state whose label is under the door key's, every walk that
/// opens the vault takes at least as many steps as the door key's label:
/// labels count steps, first in, first out.
proof fn lemma_min_walks(grid: Seq<Cell>, visited: Seq<bool>, dist: Seq<u32>)
    requires
        visited.len() == KEY_SPACE,
        dist.len() == KEY_SPACE,
        visited[key_of(0, 0, ORB_START_WEIGHT as int)],
        dist[key_of(0, 0, ORB_START_WEIGHT as int)] == 0,
        visited[key_of(3, 3, ORB_TARGET_WEIGHT as int)],
        forall|k: int|
            0 <= k < KEY_SPACE && #[trigger] visited[k] && !door_key(k) && dist[k] < dist[
                key_of(3, 3, ORB_TARGET_WEIGHT as int)
            ] ==> settled(grid, visited, dist, k),
    ensures
        forall|q: Seq<(usize, usize)>|
            path_ok(grid, q) ==> q.len() > dist[key_of(3, 3, ORB_TARGET_WEIGHT as int)],
{
    let d = dist[key_of(3, 3, ORB_TARGET_WEIGHT as int)] as int;
    assert forall|q: Seq<(usize, usize)>|
        path_ok(grid, q) implies q.len() > d by {
        if path_ok(grid, q) && q.len() <= d {
            lemma_walk_bounded(grid, visited, dist, q, q.len() - 1);
            assert(walk_weight(grid, q, q.len() - 1) == Some(ORB_TARGET_WEIGHT as int));
            assert(q[q.len() - 1] == ((3usize, 3usize)));
            assert(dist[key_of(3, 3, ORB_TARGET_WEIGHT as int)] <= q.len() - 1);
        }
    }
}

/// The label-counting induction behind `lemma_min_walks`: along any walk
/// whose steps stay under the door key's label, each state is seen with a
/// label at most its position.
proof fn lemma_walk_bounded(
    grid: Seq<Cell>,
    visited: Seq<bool>,
    dist: Seq<u32>,
    p: Seq<(usize, usize)>,
    i: int,
)
    requires
        visited.len() == KEY_SPACE,
        dist.len() == KEY_SPACE,
        path_ok(grid, p),
        visited[key_of(0, 0, ORB_START_WEIGHT as int)],
        dist[key_of(0, 0, ORB_START_WEIGHT as int)] == 0,
        forall|k: int|
            0 <= k < KEY_SPACE && #[trigger] visited[k] && !door_key(k) && dist[k] < dist[
                key_of(3, 3, ORB_TARGET_WEIGHT as int)
            ] ==> settled(grid, visited, dist, k),
        0 <= i < p.len(),
        i < dist[key_of(3, 3, ORB_TARGET_WEIGHT as int)],
    ensures
        walk_weight(grid, p, i) matches Some(w) && visited[key_of(
            p[i].0 as int,
            p[i].1 as int,
            w,
        )] && dist[key_of(p[i].0 as int, p[i].1 as int, w)] <= i,
    decreases i,
{
    reveal(edge_ok);
    reveal(settled);
    assert(weight_ok(grid, p, i));
    let w = walk_weight(grid, p, i)->Some_0;
    let ki = key_of(p[i].0 as int, p[i].1 as int, w);
    lemma_key_parts(p[i].0 as int, p[i].1 as int, w);
    if i == 0 {
    } else {
        lemma_walk_bounded(grid, visited, dist, p, i - 1);
        assert(weight_ok(grid, p, i - 1));
        let wp = walk_weight(grid, p, i - 1)->Some_0;
        let kp = key_of(p[i - 1].0 as int, p[i - 1].1 as int, wp);
        lemma_key_parts(p[i - 1].0 as int, p[i - 1].1 as int, wp);
        assert(!door_key(kp)) by {
            assert(p[i - 1] != ((3usize, 3usize)));
        }
        assert(edge_ok(grid, kp, ki));
        assert(settled(grid, visited, dist, kp));
    }
}

/// Follow the recorded predecessors from the door key back to the start
/// and hand the walk out front to back. The search invariant makes every
/// followed step walkable and its labels strictly decreasing, which is why
/// the chase terminates at the start.
#[verifier::loop_isolation(false)]
#[verifier::rlimit(50)]
fn reconstruct(grid: &Vec<Cell>, visited: &Vec<bool>, prev: &Vec<u32>, dist: &Vec<u32>) -> (r:
    Vec<(usize, usize)>)
    requires
        grid@.len() == 16,
        search_inv(grid@, visited@, prev@, dist@),
        visited@[key_of(3, 3, ORB_TARGET_WEIGHT as int)],
    ensures
        path_ok(grid@, r@),
        r@.len() == dist@[key_of(3, 3, ORB_TARGET_WEIGHT as int)] + 1,
{
    let start: usize = 16 * ORB_START_WEIGHT;
    let target: usize = 3 + 4 * 3 + 16 * ORB_TARGET_WEIGHT;
    let mut rev: Vec<(usize, usize)> = Vec::new();
    rev.push((3, 3));
    // the chain of keys in walking order; reading back from the door
    // prepends, so no reversal is ever reasoned about
    let ghost mut chain: Seq<int> = seq![target as int];
    let mut cur: usize = target;
    proof {
        lemma_key_parts(3, 3, ORB_TARGET_WEIGHT as int);
    }
    while cur != start
        invariant
            cur < KEY_SPACE,
            visited@[cur as int],
            chain.len() == rev@.len(),
            chain.len() >= 1,
            chain[0] == cur as int,
            chain[chain.len() - 1] == target as int,
            chain.len() + dist@[cur as int] == dist@[key_of(
                3,
                3,
                ORB_TARGET_WEIGHT as int,
            ) as int] + 1,
            forall|j: int| 0 <= j < chain.len() ==> 0 <= #[trigger] chain[j] < KEY_SPACE,
            forall|j: int| 0 <= j < chain.len() - 1 ==> !door_key(#[trigger] chain[j]),
            forall|j: int|
                1 <= j < chain.len() ==> edge_ok(grid@, chain[j - 1], #[trigger] chain[j]),
            forall|j: int|
                0 <= j < chain.len() ==> #[trigger] rev@[j] == ((
                    kx(chain[chain.len() - 1 - j]) as usize,
                    ky(chain[chain.len() - 1 - j]) as usize,
                )),
        decreases dist@[cur as int],
    {
        let nxt = prev[cur] as usize;
        rev.push((nxt % 4, (nxt / 4) % 4));
        proof {
            let old_chain = chain;
            chain = seq![nxt as int] + chain;
            assert(chain.len() == old_chain.len() + 1);
            assert(forall|j: int|
                1 <= j < chain.len() ==> #[trigger] chain[j] == old_chain[j - 1]);
            assert(edge_ok(grid@, nxt as int, cur as int));
            assert(!door_key(nxt as int));
            lemma_key_decode(nxt as int);
        }
        cur = nxt;
    }
    let n = rev.len();
    let mut path: Vec<(usize, usize)> = Vec::new();
    let mut i: usize = n;
    while i > 0
        invariant
            i <= n,
            n == rev@.len(),
            path@.len() == n - i,
            forall|j: int| 0 <= j < path@.len() ==> #[trigger] path@[j] == rev@[n - 1 - j],
        decreases i,
    {
        i = i - 1;
        path.push(rev[i]);
    }
    proof {
        assert(forall|j: int|
            0 <= j < chain.len() ==> #[trigger] path@[j] == ((
                kx(chain[j]) as usize,
                ky(chain[j]) as usize,
            )));
        lemma_path_from_keys(grid@, chain, path@);
    }
    path
}

/// Try one step of the orb from the state packed in `k` onto the cell
/// `(nx, ny)`: when it is walkable and lands on a state not seen before,
/// record it and queue it. Afterwards every walkable step from `k` onto
/// `(nx, ny)` is covered: its landing state has been seen.
#[verifier::loop_isolation(false)]
#[verifier::rlimit(50)]
fn try_step(
    grid: &Vec<Cell>,
    visited: &mut Vec<bool>,
    prev: &mut Vec<u32>,
    dist: &mut Vec<u32>,
    queue: &mut Vec<u32>,
    k: usize,
    nx: usize,
    ny: usize,
)
    requires
        grid@.len() == 16,
        search_inv(grid@, old(visited)@, old(prev)@, old(dist)@),
        forall|i: int|
            0 <= i < old(queue)@.len() ==> (#[trigger] old(queue)@[i]) < KEY_SPACE as u32
                && old(visited)@[old(queue)@[i] as int],
        old(queue)@.len() <= count_true(old(visited)@),
        k < KEY_SPACE,
        old(visited)@[k as int],
        !door_key(k as int),
        forall|j: int|
            0 <= j < KEY_SPACE ==> old(visited)@[j] ==> #[trigger] old(dist)@[j] <= old(dist)@[k as int] + 1,
        nx < 4,
        ny < 4,
        unit_step(kx(k as int), ky(k as int), nx as int, ny as int),
    ensures
        final(visited)@.len() == KEY_SPACE,
        final(prev)@.len() == KEY_SPACE,
        final(dist)@.len() == KEY_SPACE,
        search_inv(grid@, final(visited)@, final(prev)@, final(dist)@),
        forall|i: int|
            0 <= i < final(queue)@.len() ==> (#[trigger] final(queue)@[i]) < KEY_SPACE as u32
                && final(visited)@[final(queue)@[i] as int],
        final(queue)@.len() <= count_true(final(visited)@),
        forall|i: int| 0 <= i < KEY_SPACE ==> old(visited)@[i] ==> #[trigger] final(visited)@[i],
        forall|i: int| 0 <= i < old(queue)@.len() ==> final(queue)@[i] == old(queue)@[i],
        final(queue)@.len() >= old(queue)@.len(),
        final(dist)@[k as int] == old(dist)@[k as int],
        forall|j: int|
            0 <= j < KEY_SPACE ==> old(visited)@[j] ==> #[trigger] final(dist)@[j] == old(dist)@[j],
        forall|j: int|
            0 <= j < KEY_SPACE ==> final(visited)@[j] ==> #[trigger] final(dist)@[j] <= final(dist)@[k as int] + 1,
        forall|k2: int|
            0 <= k2 < KEY_SPACE && #[trigger] final(visited)@[k2] && !old(visited)@[k2]
                ==> exists|i: int|
                old(queue)@.len() <= i < final(queue)@.len() && final(queue)@[i] == k2 as u32,
        forall|i: int|
            old(queue)@.len() <= i < final(queue)@.len() ==> #[trigger] final(dist)@[final(queue)@[i] as int] == final(dist)@[k as int] + 1,
        forall|k2: int|
            0 <= k2 < KEY_SPACE && #[trigger] edge_ok(grid@, k as int, k2) && kx(k2) == nx
                && ky(k2) == ny ==> final(visited)@[k2] && final(dist)@[k2] <= final(dist)@[
                k as int
            ] + 1,
{
    proof {
        reveal(edge_ok);
        lemma_key_decode(k as int);
    }
    if nx == 0 && ny == 0 {
        proof {
            assert forall|k2: int|
                0 <= k2 < KEY_SPACE && #[trigger] edge_ok(grid@, k as int, k2) && kx(k2) == nx
                    && ky(k2) == ny implies visited@[k2] by {
                assert(!(kx(k2) == 0 && ky(k2) == 0));
            }
        }
        return ;
    }
    let x = k % 4;
    let y = (k / 4) % 4;
    let w = k / 16;
    let from_cell = grid[4 * y + x];
    let to_cell = grid[4 * ny + nx];
    proof {
        assert(from_cell == cell_at(grid@, kx(k as int), ky(k as int)));
        assert forall|k2: int|
            0 <= k2 < KEY_SPACE && #[trigger] edge_ok(grid@, k as int, k2) && kx(k2) == nx
                && ky(k2) == ny implies step_weight(from_cell, to_cell, w as int) == Some(
            kw(k2),
        ) by {
            lemma_key_bounds(k2);
        }
    }
    let wi: i64 = (match (from_cell, to_cell) {
        (Cell::Num(_), _) => w as i64,
        (Cell::Add, Cell::Num(nm)) => w as i64 + nm as i64,
        (Cell::Mul, Cell::Num(nm)) => {
            proof {
                assert((w as int) * (nm as int) <= 32767 * 0x7fff_ffff
                    && (w as int) * (nm as int) >= 32767 * (-0x8000_0000)) by (nonlinear_arith)
                    requires
                        0 <= w <= 32767,
                        -0x8000_0000 <= nm <= 0x7fff_ffff,
                ;
            }
            w as i64 * nm as i64
        },
        (Cell::Sub, Cell::Num(nm)) => w as i64 - nm as i64,
        _ => {
            // stepping between two operator cells is never walkable
            return ;
        }
    });
    if wi < 0 || wi >= 32768 {
        proof {
            assert forall|k2: int|
                0 <= k2 < KEY_SPACE && #[trigger] edge_ok(grid@, k as int, k2) && kx(k2) == nx
                    && ky(k2) == ny implies visited@[k2] by {
                lemma_key_bounds(k2);
            }
        }
        return ;
    }
    let nw = wi as usize;
    let nk = nx + 4 * ny + 16 * nw;
    proof {
        lemma_key_parts(nx as int, ny as int, nw as int);
        assert forall|k2: int|
            0 <= k2 < KEY_SPACE && #[trigger] edge_ok(grid@, k as int, k2) && kx(k2) == nx
                && ky(k2) == ny implies k2 == nk as int by {
            lemma_key_recompose(k2);
        }
    }
    if !visited[nk] {
        let ghost old_v = visited@;
        visited[nk] = true;
        prev[nk] = k as u32;
        let d = dist[k];
        proof {
            lemma_count_true_le_len(old_v);
        }
        dist[nk] = d + 1;
        queue.push(nk as u32);
        proof {
            lemma_count_true_set(old_v, nk as int);
            assert(edge_ok(grid@, k as int, nk as int));
            assert(search_inv(grid@, visited@, prev@, dist@));
            assert(queue@[queue@.len() - 1] == nk as u32);
        }
    }
}

/// One round of the search keeps the queue's books: after a state is
/// taken off and walked on from (growing the seen set, appending the newly
/// seen to the queue with the next label), every seen state is still the
/// door, walked-on-from, or waiting on the queue; the door key, if seen,
/// still waits; every seen state still has a queue slot; and the queue's
/// labels stay sorted with the waiting window within one label.
#[verifier::spinoff_prover]
#[verifier::rlimit(100)]
proof fn lemma_queue_bookkeeping(
    grid: Seq<Cell>,
    v0: Seq<bool>,
    vf: Seq<bool>,
    d0: Seq<u32>,
    df: Seq<u32>,
    q0: Seq<u32>,
    qf: Seq<u32>,
    head: int,
    k: int,
    target: int,
)
    requires
        v0.len() == KEY_SPACE,
        vf.len() == KEY_SPACE,
        d0.len() == KEY_SPACE,
        df.len() == KEY_SPACE,
        1 <= head <= q0.len(),
        0 <= k < KEY_SPACE,
        0 <= target < KEY_SPACE,
        q0[head - 1] == k as u32,
        k != target,
        settled(grid, vf, df, k),
        q0.len() <= qf.len(),
        forall|i: int| 0 <= i < q0.len() ==> #[trigger] qf[i] == q0[i],
        forall|j: int| 0 <= j < KEY_SPACE ==> v0[j] ==> #[trigger] vf[j],
        forall|j: int| 0 <= j < KEY_SPACE ==> v0[j] ==> #[trigger] df[j] == d0[j],
        forall|i: int|
            0 <= i < q0.len() ==> (#[trigger] q0[i]) < KEY_SPACE as u32 && v0[q0[i] as int],
        forall|k2: int|
            0 <= k2 < KEY_SPACE && #[trigger] vf[k2] && !v0[k2] ==> exists|i: int|
                q0.len() <= i < qf.len() && qf[i] == k2 as u32,
        forall|i: int|
            q0.len() <= i < qf.len() ==> #[trigger] df[qf[i] as int] == df[k as int] + 1,
        forall|k2: int|
            0 <= k2 < KEY_SPACE && #[trigger] v0[k2] ==> door_key(k2) || settled(
                grid,
                v0,
                d0,
                k2,
            ) || (exists|i: int| head - 1 <= i < q0.len() && q0[i] == k2 as u32),
        v0[target] ==> exists|i: int| head - 1 <= i < q0.len() && q0[i] == target as u32,
        forall|k2: int|
            0 <= k2 < KEY_SPACE && #[trigger] v0[k2] ==> exists|i: int|
                0 <= i < q0.len() && q0[i] == k2 as u32,
        forall|i: int, j: int|
            0 <= i <= j < q0.len() ==> d0[#[trigger] q0[i] as int] <= d0[#[trigger] q0[
                j
            ] as int],
        forall|i: int|
            head - 1 <= i < q0.len() ==> d0[#[trigger] q0[i] as int] <= d0[q0[head
                - 1] as int] + 1,
    ensures
        forall|k2: int|
            0 <= k2 < KEY_SPACE && #[trigger] vf[k2] ==> door_key(k2) || settled(
                grid,
                vf,
                df,
                k2,
            ) || (exists|i: int| head <= i < qf.len() && qf[i] == k2 as u32),
        vf[target] ==> exists|i: int| head <= i < qf.len() && qf[i] == target as u32,
        forall|k2: int|
            0 <= k2 < KEY_SPACE && #[trigger] vf[k2] ==> exists|i: int|
                0 <= i < qf.len() && qf[i] == k2 as u32,
        forall|i: int, j: int|
            0 <= i <= j < qf.len() ==> df[#[trigger] qf[i] as int] <= df[#[trigger] qf[
                j
            ] as int],
        forall|i: int|
            head <= i < qf.len() ==> head < qf.len() ==> df[#[trigger] qf[i] as int] <= df[
                qf[head] as int
            ] + 1,
{
    let dk = d0[k as int] as int;
    assert(df[k as int] == d0[k as int]);
    // old entries keep their labels
    assert(forall|i: int| 0 <= i < q0.len() ==> #[trigger] df[q0[i] as int] == d0[q0[
        i
    ] as int]);
    // settled states stay settled: the seen set only grows and labels of
    // the seen are frozen
    assert forall|k2: int|
        0 <= k2 < KEY_SPACE && #[trigger] v0[k2] && settled(grid, v0, d0, k2) implies settled(
        grid,
        vf,
        df,
        k2,
    ) by {
        reveal(settled);
    }
    assert forall|k2: int|
        0 <= k2 < KEY_SPACE && #[trigger] vf[k2] implies door_key(k2) || settled(
        grid,
        vf,
        df,
        k2,
    ) || (exists|i: int| head <= i < qf.len() && qf[i] == k2 as u32) by {
        if v0[k2] {
            if !door_key(k2) && !settled(grid, vf, df, k2) {
                let i = choose|i: int| head - 1 <= i < q0.len() && q0[i] == k2 as u32;
                assert(i != head - 1);
                assert(qf[i] == k2 as u32);
            }
        } else {
            let i = choose|i: int| q0.len() <= i < qf.len() && qf[i] == k2 as u32;
            assert(qf[i] == k2 as u32);
        }
    }
    if vf[target] {
        if v0[target] {
            let i = choose|i: int| head - 1 <= i < q0.len() && q0[i] == target as u32;
            assert(i != head - 1);
            assert(qf[i] == target as u32);
        } else {
            let i = choose|i: int| q0.len() <= i < qf.len() && qf[i] == target as u32;
            assert(qf[i] == target as u32);
        }
    }
    assert forall|k2: int|
        0 <= k2 < KEY_SPACE && #[trigger] vf[k2] implies exists|i: int|
        0 <= i < qf.len() && qf[i] == k2 as u32 by {
        if v0[k2] {
            let i = choose|i: int| 0 <= i < q0.len() && q0[i] == k2 as u32;
            assert(qf[i] == k2 as u32);
        } else {
            let i = choose|i: int| q0.len() <= i < qf.len() && qf[i] == k2 as u32;
            assert(qf[i] == k2 as u32);
        }
    }
    // sortedness: old entries keep their order, new entries carry the
    // round's label, one above the taken state's, which tops every older
    // label in the waiting window
    assert forall|i: int, j: int|
        0 <= i <= j < qf.len() implies df[#[trigger] qf[i] as int] <= df[#[trigger] qf[
        j
    ] as int] by {
        if j < q0.len() {
        } else if i < q0.len() {
            assert(df[qf[j] as int] == dk + 1);
            assert(d0[q0[i] as int] <= d0[q0[q0.len() - 1] as int]);
            assert(d0[q0[q0.len() - 1] as int] <= dk + 1);
        } else {
            assert(df[qf[i] as int] == dk + 1);
            assert(df[qf[j] as int] == dk + 1);
        }
    }
    assert forall|i: int|
        head <= i < qf.len() && head < qf.len() implies df[#[trigger] qf[i] as int] <= df[
        qf[head] as int
    ] + 1 by {
        assert(d0[q0[head - 1] as int] <= df[qf[head] as int]) by {
            if head < q0.len() {
            } else {
                assert(df[qf[head] as int] == dk + 1);
            }
        }
        if i < q0.len() {
            assert(d0[q0[i] as int] <= dk + 1);
        } else {
            assert(df[qf[i] as int] == dk + 1);
        }
    }
}

/// Walk on from the state packed in `k` in all four directions, recording
/// and queuing every newly reachable state. Afterwards `k` is fully walked
/// on from, and everything newly seen waits in the appended queue region.
#[verifier::loop_isolation(false)]
#[verifier::spinoff_prover]
#[verifier::rlimit(100)]
fn expand_state(
    grid: &Vec<Cell>,
    visited: &mut Vec<bool>,
    prev: &mut Vec<u32>,
    dist: &mut Vec<u32>,
    queue: &mut Vec<u32>,
    k: usize,
)
    requires
        grid@.len() == 16,
        search_inv(grid@, old(visited)@, old(prev)@, old(dist)@),
        forall|i: int|
            0 <= i < old(queue)@.len() ==> (#[trigger] old(queue)@[i]) < KEY_SPACE as u32
                && old(visited)@[old(queue)@[i] as int],
        old(queue)@.len() <= count_true(old(visited)@),
        k < KEY_SPACE,
        old(visited)@[k as int],
        !door_key(k as int),
        forall|j: int|
            0 <= j < KEY_SPACE ==> old(visited)@[j] ==> #[trigger] old(dist)@[j] <= old(dist)@[k as int] + 1,
    ensures
        final(visited)@.len() == KEY_SPACE,
        final(prev)@.len() == KEY_SPACE,
        final(dist)@.len() == KEY_SPACE,
        search_inv(grid@, final(visited)@, final(prev)@, final(dist)@),
        forall|i: int|
            0 <= i < final(queue)@.len() ==> (#[trigger] final(queue)@[i]) < KEY_SPACE as u32
                && final(visited)@[final(queue)@[i] as int],
        final(queue)@.len() <= count_true(final(visited)@),
        forall|i: int| 0 <= i < KEY_SPACE ==> old(visited)@[i] ==> #[trigger] final(visited)@[i],
        forall|i: int| 0 <= i < old(queue)@.len() ==> final(queue)@[i] == old(queue)@[i],
        final(queue)@.len() >= old(queue)@.len(),
        forall|j: int|
            0 <= j < KEY_SPACE ==> old(visited)@[j] ==> #[trigger] final(dist)@[j] == old(dist)@[j],
        settled(grid@, final(visited)@, final(dist)@, k as int),
        forall|k2: int|
            0 <= k2 < KEY_SPACE && #[trigger] final(visited)@[k2] && !old(visited)@[k2]
                ==> exists|i: int|
                old(queue)@.len() <= i < final(queue)@.len() && final(queue)@[i] == k2 as u32,
        forall|i: int|
            old(queue)@.len() <= i < final(queue)@.len() ==> #[trigger] final(dist)@[final(queue)@[i] as int] == final(dist)@[k as int] + 1,
{
    let x = k % 4;
    let y = (k / 4) % 4;
    proof {
        lemma_key_decode(k as int);
    }
    let ghost q0 = queue@;
    if x < 3 {
        try_step(grid, visited, prev, dist, queue, k, x + 1, y);
    }
    let ghost v1 = visited@;
    let ghost q1 = queue@;
    if x > 0 {
        try_step(grid, visited, prev, dist, queue, k, x - 1, y);
    }
    let ghost v2 = visited@;
    let ghost q2 = queue@;
    if y < 3 {
        try_step(grid, visited, prev, dist, queue, k, x, y + 1);
    }
    let ghost v3 = visited@;
    let ghost q3 = queue@;
    if y > 0 {
        try_step(grid, visited, prev, dist, queue, k, x, y - 1);
    }
    proof {
        assert(settled(grid@, visited@, dist@, k as int)) by {
            reveal(settled);
            assert forall|k2: int|
                0 <= k2 < KEY_SPACE && #[trigger] edge_ok(grid@, k as int, k2) implies visited@[k2]
                && dist@[k2] <= dist@[k as int] + 1 by {
                reveal(edge_ok);
                lemma_key_bounds(k2);
            }
        }
        assert forall|k2: int|
            0 <= k2 < KEY_SPACE && #[trigger] visited@[k2] && !old(visited)@[k2] implies exists|
            i: int,
        |
            q0.len() <= i < queue@.len() && queue@[i] == k2 as u32 by {
            if v1[k2] {
                let i = choose|i: int| q0.len() <= i < q1.len() && q1[i] == k2 as u32;
                assert(queue@[i] == k2 as u32);
            } else if v2[k2] {
                let i = choose|i: int| q1.len() <= i < q2.len() && q2[i] == k2 as u32;
                assert(queue@[i] == k2 as u32);
            } else if v3[k2] {
                let i = choose|i: int| q2.len() <= i < q3.len() && q3[i] == k2 as u32;
                assert(queue@[i] == k2 as u32);
            } else {
                let i = choose|i: int|
                    q3.len() <= i < queue@.len() && queue@[i] == k2 as u32;
                assert(queue@[i] == k2 as u32);
            }
        }
        assert forall|i: int|
            q0.len() <= i < queue@.len() implies #[trigger] dist@[queue@[i] as int] == dist@[
            k as int
        ] + 1 by {
            if i < q1.len() {
            } else if i < q2.len() {
            } else if i < q3.len() {
            }
        }
    }
}

/// Search the vault grid (4 by 4, row-major: the cell at `(x, y)` is
/// `grid[4*y + x]`, the antechamber at index 0, the door at index 15) for
/// a fewest-cells walk of the orb that opens the door. `Some(p)` is a walk
/// satisfying `path_ok` — from the antechamber to the door, one cell at a
/// time, never back through the antechamber nor over the door, the weight
/// always a 15-bit word and 30 on arrival — and no walk satisfying
/// `path_ok` has fewer cells. `None` means no such walk exists at all: the
/// search has walked on from every reachable (position, weight) state
/// without meeting the door.
#[verifier::loop_isolation(false)]
#[verifier::spinoff_prover]
#[verifier::rlimit(100)]
pub fn pathfind(grid: &Vec<Cell>) -> (r: Option<Vec<(usize, usize)>>)
    requires
        grid@.len() == 16,
    ensures
        (match r {
            Some(p) => path_ok(grid@, p@) && (forall|q: Seq<(usize, usize)>|
                path_ok(grid@, q) ==> q.len() >= p@.len()),
            None => forall|p: Seq<(usize, usize)>| !path_ok(grid@, p),
        }),
{
    let start: usize = 16 * ORB_START_WEIGHT;
    let target: usize = 3 + 4 * 3 + 16 * ORB_TARGET_WEIGHT;
    let mut visited: Vec<bool> = vec![false; KEY_SPACE];
    let mut prev: Vec<u32> = vec![0u32; KEY_SPACE];
    let mut dist: Vec<u32> = vec![0u32; KEY_SPACE];
    let mut queue: Vec<u32> = Vec::new();
    proof {
        lemma_count_true_none(visited@);
        lemma_count_true_set(visited@, start as int);
    }
    visited[start] = true;
    queue.push(start as u32);
    let mut head: usize = 0;
    proof {
        lemma_key_parts(0, 0, ORB_START_WEIGHT as int);
        lemma_key_parts(3, 3, ORB_TARGET_WEIGHT as int);
        assert(queue@[0] == start as u32);
    }
    while head < queue.len()
        invariant
            head <= queue@.len(),
            queue@.len() <= KEY_SPACE,
            search_inv(grid@, visited@, prev@, dist@),
            queue@.len() <= count_true(visited@),
            forall|i: int|
                0 <= i < queue@.len() ==> (#[trigger] queue@[i]) < KEY_SPACE as u32
                    && visited@[queue@[i] as int],
            // the door key has not been taken off the queue: taking it off
            // returns
            visited@[target as int] ==> exists|i: int|
                head <= i < queue@.len() && queue@[i] == target as u32,
            // every seen state is the door, has been walked on from within
            // one label, or is still waiting on the queue
            forall|k: int|
                0 <= k < KEY_SPACE && #[trigger] visited@[k] ==> door_key(k) || settled(
                    grid@,
                    visited@,
                    dist@,
                    k,
                ) || (exists|i: int| head <= i < queue@.len() && queue@[i] == k as u32),
            // every seen state has a queue slot, the queue's labels are
            // sorted, and the waiting window spans at most one label
            forall|k: int|
                0 <= k < KEY_SPACE && #[trigger] visited@[k] ==> exists|i: int|
                    0 <= i < queue@.len() && queue@[i] == k as u32,
            forall|i: int, j: int|
                0 <= i <= j < queue@.len() ==> dist@[#[trigger] queue@[i] as int] <= dist@[
                    #[trigger] queue@[j] as int
                ],
            forall|i: int|
                head <= i < queue@.len() ==> head < queue@.len() ==> dist@[#[trigger] queue@[
                    i
                ] as int] <= dist@[queue@[head as int] as int] + 1,
        decreases KEY_SPACE + 1 - head,
    {
        let ghost v0 = visited@;
        let ghost q0 = queue@;
        let ghost d0 = dist@;
        let k = queue[head] as usize;
        head = head + 1;
        if k == target {
            proof {
                // everything labeled under the door key has been walked on
                // from: anything still waiting sits at or above its label
                assert forall|ka: int|
                    0 <= ka < KEY_SPACE && #[trigger] visited@[ka] && !door_key(ka) && dist@[
                    ka
                ] < dist@[target as int] implies settled(grid@, visited@, dist@, ka) by {
                    if !settled(grid@, visited@, dist@, ka) {
                        let i = choose|i: int|
                            head - 1 <= i < queue@.len() && queue@[i] == ka as u32;
                        assert(dist@[queue@[head - 1] as int] <= dist@[queue@[i] as int]);
                    }
                }
                lemma_min_walks(grid@, visited@, dist@);
            }
            let p = reconstruct(grid, &visited, &prev, &dist);
            return Some(p);
        }
        let x = k % 4;
        let y = (k / 4) % 4;
        proof {
            lemma_key_decode(k as int);
        }
        if x == 3 && y == 3 {
            // the orb disappears at the door with the wrong weight
            continue;
        }
        proof {
            // every label handed out so far is within one of the taken
            // state's: the seen all have queue slots, and the queue's
            // labels top out one above the waiting window's start
            assert forall|j: int|
                0 <= j < KEY_SPACE && #[trigger] visited@[j] implies dist@[j] <= dist@[
                k as int
            ] + 1 by {
                let i = choose|i: int| 0 <= i < queue@.len() && queue@[i] == j as u32;
                assert(dist@[queue@[i] as int] <= dist@[queue@[queue@.len() - 1] as int]);
                assert(dist@[queue@[queue@.len() - 1] as int] <= dist@[queue@[head
                    - 1] as int] + 1);
            }
        }
        expand_state(grid, &mut visited, &mut prev, &mut dist, &mut queue, k);
        proof {
            lemma_count_true_le_len(visited@);
            lemma_queue_bookkeeping(
                grid@,
                v0,
                visited@,
                d0,
                dist@,
                q0,
                queue@,
                head as int,
                k as int,
                target as int,
            );
        }
    }
    proof {
        assert(!visited@[target as int]);
        lemma_no_walk(grid@, visited@, dist@);
    }
    None
}

} // verus!
