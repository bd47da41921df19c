//! The room scraper: a line-oriented reader that extracts a structured room
//! record from the machine's accumulated output by recognizing fixed
//! textual markers — a `== Title ==` header line, a description block ended
//! by a blank line, optional `Things of interest here:` and
//! `There are N exits:` lists, and the literal prompt `What do you do?`.
//! The whole byte-level discipline is specified by `parse_bytes_spec`, and
//! `Room::parse` is verified to follow it exactly.

use crate::transport::OutputBuffer;
use vstd::prelude::*;
use vstd::utf8::{decode_utf8, valid_utf8};

verus! {

/// Why the reader rejected the text in front of it.
#[derive(Clone, Copy, Debug, PartialEq, Eq, Structural)]
pub enum ParseError {
    /// A recognized piece of text was not valid UTF-8.
    NotUtf8,
    /// The line after the room delimiter is not shaped `= Title ==`.
    MalformedTitle,
    /// A list header is neither an item list nor an exit list nor the
    /// prompt.
    UnknownHeader,
    /// A list entry too short to hold its `- ` marker and line break.
    MalformedItem,
}

/// A structured room record: its title, the descriptive text, the items
/// lying there, and the exits leading out.
#[derive(Debug)]
pub struct Room {
    pub title: String,
    pub description: String,
    pub items: Vec<String>,
    pub exits: Vec<String>,
}

/// The byte-level counterpart of a `Room`, before text decoding.
pub struct RoomBytes {
    pub title: Seq<u8>,
    pub description: Seq<u8>,
    pub items: Seq<Seq<u8>>,
    pub exits: Seq<Seq<u8>>,
}

/// The prompt line the guest prints when it waits for a command.
pub open spec fn prompt_spec() -> Seq<u8> {
    seq![87u8, 104u8, 97u8, 116u8, 32u8, 100u8, 111u8, 32u8, 121u8, 111u8, 117u8, 32u8, 100u8, 111u8, 63u8]
}

/// `"= "`, the prefix of a title line.
pub open spec fn title_prefix_spec() -> Seq<u8> {
    seq![61u8, 32u8]
}

/// `" ==\n"`, the suffix of a title line.
pub open spec fn title_suffix_spec() -> Seq<u8> {
    seq![32u8, 61u8, 61u8, 10u8]
}

/// `"There"`, the start of an exit-list header.
pub open spec fn there_spec() -> Seq<u8> {
    seq![84u8, 104u8, 101u8, 114u8, 101u8]
}

/// `"Things"`, the start of an item-list header.
pub open spec fn things_spec() -> Seq<u8> {
    seq![84u8, 104u8, 105u8, 110u8, 103u8, 115u8]
}

/// Whether `s` begins with `p`.
pub open spec fn seq_starts_with(s: Seq<u8>, p: Seq<u8>) -> bool {
    s.len() >= p.len() && s.subrange(0, p.len() as int) == p
}

/// Whether `s` ends with `p`.
pub open spec fn seq_ends_with(s: Seq<u8>, p: Seq<u8>) -> bool {
    s.len() >= p.len() && s.subrange(s.len() - p.len(), s.len() as int) == p
}

/// The position just after the first `d` at or after `pos`, or the end of
/// the data when no `d` follows (reading at the end consumes nothing).
pub open spec fn delim_end(data: Seq<u8>, pos: nat, d: u8) -> nat
    decreases data.len() - pos,
{
    if pos >= data.len() {
        pos
    } else if data[pos as int] == d {
        pos + 1
    } else {
        delim_end(data, pos + 1, d)
    }
}

/// `delim_end` moves forward while there is data, never past the end, and
/// stops right after the delimiter it found.
pub broadcast proof fn lemma_delim_end(data: Seq<u8>, pos: nat, d: u8)
    requires
        pos <= data.len(),
    ensures
        pos <= #[trigger] delim_end(data, pos, d) <= data.len(),
        pos < data.len() ==> pos < delim_end(data, pos, d),
        forall|j: int|
            pos <= j < delim_end(data, pos, d) ==> (data[j] == d ==> j == delim_end(
                data,
                pos,
                d,
            ) - 1),
        delim_end(data, pos, d) == data.len() || data[delim_end(data, pos, d) - 1] == d,
    decreases data.len() - pos,
{
    if pos < data.len() && data[pos as int] != d {
        lemma_delim_end(data, pos + 1, d);
    }
}

/// The position just after the line that starts at `pos` (its `\n`
/// included; the last line of the data may lack one).
pub open spec fn line_end(data: Seq<u8>, pos: nat) -> nat {
    delim_end(data, pos, 10)
}

/// The line starting at `pos`, trailing `\n` included.
pub open spec fn line_at(data: Seq<u8>, pos: nat) -> Seq<u8> {
    data.subrange(pos as int, line_end(data, pos) as int)
}

/// Whether a line ends the description block: the prompt, a list header
/// (ending `:\n`), or nothing at all (the data ran out).
pub open spec fn is_desc_terminator(line: Seq<u8>) -> bool {
    ||| line.len() == 0
    ||| line == prompt_spec()
    ||| seq_ends_with(line, seq![58u8, 10u8])
}

/// Scan the description block: the concatenation of whole lines up to the
/// first terminator line, that line, and the position just after it.
pub open spec fn desc_scan(data: Seq<u8>, pos: nat) -> (Seq<u8>, Seq<u8>, nat)
    decreases data.len() - pos,
    via desc_scan_dec
{
    if pos >= data.len() {
        (Seq::empty(), Seq::empty(), pos)
    } else {
        let le = line_end(data, pos);
        let line = line_at(data, pos);
        if is_desc_terminator(line) {
            (Seq::empty(), line, le)
        } else {
            let r = desc_scan(data, le);
            (line + r.0, r.1, r.2)
        }
    }
}

#[via_fn]
proof fn desc_scan_dec(data: Seq<u8>, pos: nat) {
    if pos < data.len() {
        lemma_delim_end(data, pos, 10);
    }
}

/// A description ends just before the blank line that closed it; the
/// trailing pair of line breaks is dropped.
pub open spec fn strip_double_nl(d: Seq<u8>) -> Seq<u8> {
    if d.len() >= 2 && d[d.len() - 1] == 10 && d[d.len() - 2] == 10 {
        d.take(d.len() - 2)
    } else {
        d
    }
}

/// Scan one list: entries (their `- ` marker and line break stripped) up to
/// a blank line, which is consumed. An entry too short for its markers is
/// malformed; running out of data ends the list.
pub open spec fn items_scan(data: Seq<u8>, pos: nat) -> (nat, Result<Seq<Seq<u8>>, ParseError>)
    decreases data.len() - pos,
    via items_scan_dec
{
    if pos >= data.len() {
        (pos, Ok(Seq::empty()))
    } else {
        let le = line_end(data, pos);
        let line = line_at(data, pos);
        if line == seq![10u8] {
            (le, Ok(Seq::empty()))
        } else if line.len() < 3 {
            (le, Err(ParseError::MalformedItem))
        } else {
            let item = line.subrange(2, line.len() - 1);
            let r = items_scan(data, le);
            match r.1 {
                Err(e) => (r.0, Err(e)),
                Ok(rest) => (r.0, Ok(seq![item] + rest)),
            }
        }
    }
}

#[via_fn]
proof fn items_scan_dec(data: Seq<u8>, pos: nat) {
    if pos < data.len() {
        lemma_delim_end(data, pos, 10);
    }
}

/// `items_scan` never moves backwards nor past the end.
pub broadcast proof fn lemma_items_scan_pos(data: Seq<u8>, pos: nat)
    requires
        pos <= data.len(),
    ensures
        pos <= (#[trigger] items_scan(data, pos)).0 <= data.len(),
    decreases data.len() - pos,
{
    broadcast use lemma_delim_end;

    if pos < data.len() {
        let le = line_end(data, pos);
        let line = line_at(data, pos);
        if !(line == seq![10u8]) && line.len() >= 3 {
            lemma_items_scan_pos(data, le);
        }
    }
}

/// Scan the item and exit lists. `header` is the list header line already
/// read; lists follow one another until the prompt line (or the end of the
/// data). Entries under a `There…` header are exits, under a `Things…`
/// header items; any other header is unknown.
pub open spec fn lists_scan(data: Seq<u8>, pos: nat, header: Seq<u8>) -> (
    nat,
    Result<(Seq<Seq<u8>>, Seq<Seq<u8>>), ParseError>,
)
    decreases data.len() - pos, header.len(),
    via lists_scan_dec
{
    if header == prompt_spec() || header.len() == 0 {
        (pos, Ok((Seq::empty(), Seq::empty())))
    } else if pos > data.len() {
        (pos, Ok((Seq::empty(), Seq::empty())))
    } else if seq_starts_with(header, there_spec()) || seq_starts_with(header, things_spec()) {
        let r = items_scan(data, pos);
        match r.1 {
            Err(e) => (r.0, Err(e)),
            Ok(list) => {
                let p1 = r.0;
                let he = line_end(data, p1);
                let h2 = line_at(data, p1);
                let rest = lists_scan(data, he, h2);
                match rest.1 {
                    Err(e) => (rest.0, Err(e)),
                    Ok((its, exs)) => {
                        if seq_starts_with(header, there_spec()) {
                            (rest.0, Ok((its, list + exs)))
                        } else {
                            (rest.0, Ok((list + its, exs)))
                        }
                    }
                }
            }
        }
    } else {
        (pos, Err(ParseError::UnknownHeader))
    }
}

#[via_fn]
proof fn lists_scan_dec(data: Seq<u8>, pos: nat, header: Seq<u8>) {
    if pos <= data.len() {
        lemma_items_scan_pos(data, pos);
        lemma_delim_end(data, items_scan(data, pos).0, 10);
    }
}

/// The whole byte-level discipline of the reader: the prelude up to the
/// first `=`, the title line, the description block, then the lists. The
/// result is the final cursor position and either the prelude with an
/// optional byte-level room (no room when the data ended at the title) or
/// the error that stopped the reader.
pub open spec fn parse_bytes_spec(data: Seq<u8>, pos: nat) -> (
    nat,
    Result<(Seq<u8>, Option<RoomBytes>), ParseError>,
) {
    let pe = delim_end(data, pos, 61);
    let prelude_raw = data.subrange(pos as int, pe as int);
    let prelude = if prelude_raw.len() > 0 && prelude_raw.last() == 61 {
        prelude_raw.drop_last()
    } else {
        prelude_raw
    };
    if pe >= data.len() {
        (pe, Ok((prelude, None)))
    } else {
        let le1 = line_end(data, pe);
        let title_line = line_at(data, pe);
        if !(title_line.len() >= 6 && seq_starts_with(title_line, title_prefix_spec())
            && seq_ends_with(title_line, title_suffix_spec())) {
            (le1, Err(ParseError::MalformedTitle))
        } else {
            let title = title_line.subrange(2, title_line.len() - 4);
            let d = desc_scan(data, le1);
            let l = lists_scan(data, d.2, d.1);
            match l.1 {
                Err(e) => (l.0, Err(e)),
                Ok((its, exs)) => (
                    l.0,
                    Ok(
                        (
                            prelude,
                            Some(
                                RoomBytes {
                                    title,
                                    description: strip_double_nl(d.0),
                                    items: its,
                                    exits: exs,
                                },
                            ),
                        ),
                    ),
                ),
            }
        }
    }
}

/// All the text a byte-level room holds, prelude included, is valid UTF-8.
pub open spec fn room_text_valid(pre: Seq<u8>, rb: RoomBytes) -> bool {
    &&& valid_utf8(pre)
    &&& valid_utf8(rb.title)
    &&& valid_utf8(rb.description)
    &&& (forall|i: int| 0 <= i < rb.items.len() ==> valid_utf8(#[trigger] rb.items[i]))
    &&& (forall|i: int| 0 <= i < rb.exits.len() ==> valid_utf8(#[trigger] rb.exits[i]))
}

/// A decoded `Room` carries exactly the text of a byte-level room.
pub open spec fn room_matches(r: &Room, rb: RoomBytes) -> bool {
    &&& r.title@ == decode_utf8(rb.title)
    &&& r.description@ == decode_utf8(rb.description)
    &&& r.items@.len() == rb.items.len()
    &&& (forall|i: int| 0 <= i < rb.items.len() ==> (#[trigger] r.items@[i])@ == decode_utf8(
        rb.items[i],
    ))
    &&& r.exits@.len() == rb.exits.len()
    &&& (forall|i: int| 0 <= i < rb.exits.len() ==> (#[trigger] r.exits@[i])@ == decode_utf8(
        rb.exits[i],
    ))
}

impl OutputBuffer {
    /// Consume bytes through the first `d` (or to the end when none
    /// follows) and return them, delimiter included.
    pub fn read_until(&mut self, d: u8) -> (r: Vec<u8>)
        requires
            old(self).wf(),
        ensures
            final(self).wf(),
            final(self)@.data == old(self)@.data,
            final(self)@.pos == delim_end(old(self)@.data, old(self)@.pos, d),
            r@ == old(self)@.data.subrange(
                old(self)@.pos as int,
                final(self)@.pos as int,
            ),
    {
        let mut acc: Vec<u8> = Vec::new();
        loop
            invariant
                self.wf(),
                self@.data == old(self)@.data,
                old(self)@.pos <= self@.pos,
                delim_end(self@.data, self@.pos, d) == delim_end(
                    old(self)@.data,
                    old(self)@.pos,
                    d,
                ),
                acc@ == self@.data.subrange(old(self)@.pos as int, self@.pos as int),
            decreases self@.data.len() - self@.pos,
        {
            if self.pos >= self.data.len() {
                return acc;
            }
            let ch = self.data[self.pos];
            self.pos = self.pos + 1;
            acc.push(ch);
            proof {
                assert(acc@ =~= self@.data.subrange(old(self)@.pos as int, self@.pos as int));
            }
            if ch == d {
                return acc;
            }
        }
    }

    /// Consume one line: bytes through the first line break, or to the end
    /// when the last line lacks one.
    pub fn read_line(&mut self) -> (r: Vec<u8>)
        requires
            old(self).wf(),
        ensures
            final(self).wf(),
            final(self)@.data == old(self)@.data,
            final(self)@.pos == line_end(old(self)@.data, old(self)@.pos),
            r@ == line_at(old(self)@.data, old(self)@.pos),
    {
        self.read_until(10)
    }
}

/// Whether `v` begins with `p`.
fn vec_starts_with(v: &Vec<u8>, p: &[u8]) -> (r: bool)
    ensures
        r == seq_starts_with(v@, p@),
{
    let pn = p.len();
    if v.len() < pn {
        return false;
    }
    let mut i: usize = 0;
    while i < pn
        invariant
            0 <= i <= pn,
            pn == p@.len(),
            pn <= v@.len(),
            forall|j: int| 0 <= j < i ==> v@[j] == p@[j],
        decreases pn - i,
    {
        if v[i] != p[i] {
            assert(v@.subrange(0, pn as int) != p@) by {
                assert(v@.subrange(0, pn as int)[i as int] != p@[i as int]);
            }
            return false;
        }
        i = i + 1;
    }
    assert(v@.subrange(0, pn as int) =~= p@);
    true
}

/// Whether `v` ends with `p`.
fn vec_ends_with(v: &Vec<u8>, p: &[u8]) -> (r: bool)
    ensures
        r == seq_ends_with(v@, p@),
{
    let pn = p.len();
    let vn = v.len();
    if vn < pn {
        return false;
    }
    let base = vn - pn;
    let mut i: usize = 0;
    while i < pn
        invariant
            0 <= i <= pn,
            pn == p@.len(),
            vn == v@.len(),
            pn <= vn,
            base == vn - pn,
            forall|j: int| 0 <= j < i ==> v@[base + j] == p@[j],
        decreases pn - i,
    {
        if v[base + i] != p[i] {
            assert(v@.subrange(base as int, vn as int) != p@) by {
                assert(v@.subrange(base as int, vn as int)[i as int] != p@[i as int]);
            }
            return false;
        }
        i = i + 1;
    }
    assert(v@.subrange(base as int, vn as int) =~= p@);
    true
}

/// Whether `v` holds exactly the bytes of `p`.
fn vec_eq(v: &Vec<u8>, p: &[u8]) -> (r: bool)
    ensures
        r == (v@ == p@),
{
    if v.len() != p.len() {
        return false;
    }
    let r = vec_starts_with(v, p);
    proof {
        if seq_starts_with(v@, p@) {
            assert(v@ =~= p@);
        } else {
            assert(v@.subrange(0, p@.len() as int) =~= v@);
        }
    }
    r
}

/// A copy of `v[a..b]`.
fn subvec(v: &Vec<u8>, a: usize, b: usize) -> (r: Vec<u8>)
    requires
        a <= b <= v@.len(),
    ensures
        r@ == v@.subrange(a as int, b as int),
{
    let mut acc: Vec<u8> = Vec::new();
    let mut i: usize = a;
    while i < b
        invariant
            a <= i <= b <= v@.len(),
            acc@ == v@.subrange(a as int, i as int),
        decreases b - i,
    {
        acc.push(v[i]);
        proof {
            assert(acc@ =~= v@.subrange(a as int, i + 1));
        }
        i = i + 1;
    }
    acc
}

/// The prompt line as bytes.
pub fn prompt_bytes() -> (r: Vec<u8>)
    ensures
        r@ == prompt_spec(),
{
    let v = vec![
        87u8, 104u8, 97u8, 116u8, 32u8, 100u8, 111u8, 32u8, 121u8, 111u8, 117u8, 32u8, 100u8,
        111u8, 63u8,
    ];
    proof {
        assert(v@ =~= prompt_spec());
    }
    v
}

/// Relies on `String::from_utf8`: it succeeds exactly on valid UTF-8 and
/// decodes it; the byte argument is only cloned and handed through.
#[verifier::external_body]
fn string_from_utf8(bytes: &Vec<u8>) -> (r: Option<String>)
    ensures
        r is Some <==> valid_utf8(bytes@),
        (match r {
            Some(s) => s@ == decode_utf8(bytes@),
            None => !valid_utf8(bytes@),
        }),
{
    String::from_utf8(bytes.clone()).ok()
}

/// Consume one list of entries, as `items_scan` describes.
#[verifier::loop_isolation(false)]
fn read_items(b: &mut OutputBuffer) -> (r: Result<Vec<Vec<u8>>, ParseError>)
    requires
        old(b).wf(),
    ensures
        final(b).wf(),
        final(b)@.data == old(b)@.data,
        final(b)@.pos == items_scan(old(b)@.data, old(b)@.pos).0,
        (match r {
            Ok(list) => items_scan(old(b)@.data, old(b)@.pos).1 == Ok::<Seq<Seq<u8>>, ParseError>(
                list.deep_view(),
            ),
            Err(e) => items_scan(old(b)@.data, old(b)@.pos).1 == Err::<Seq<Seq<u8>>, ParseError>(
                e,
            ),
        }),
{
    let ghost data = old(b)@.data;
    let ghost p0 = old(b)@.pos;
    let mut acc: Vec<Vec<u8>> = Vec::new();
    loop
        invariant
            b.wf(),
            b@.data == data,
            p0 <= b@.pos <= data.len(),
            items_scan(data, p0).0 == items_scan(data, b@.pos).0,
            (match (items_scan(data, p0).1, items_scan(data, b@.pos).1) {
                (Ok(full), Ok(rest)) => full == acc.deep_view() + rest,
                (Err(a), Err(bb)) => a == bb,
                _ => false,
            }),
        decreases data.len() - b@.pos,
    {
        let ghost cur = b@.pos;
        let line = b.read_line();
        proof {
            lemma_delim_end(data, cur, 10);
        }
        if line.len() == 0 {
            proof {
                assert(acc.deep_view() + Seq::<Seq<u8>>::empty() =~~= acc.deep_view());
            }
            return Ok(acc);
        }
        if line.len() == 1 && line[0] == 10 {
            proof {
                assert(line@ =~= seq![10u8]);
                assert(acc.deep_view() + Seq::<Seq<u8>>::empty() =~~= acc.deep_view());
            }
            return Ok(acc);
        }
        proof {
            assert(line@ != seq![10u8]) by {
                if line@.len() == 1 {
                    assert(line@[0] != 10);
                }
            }
        }
        if line.len() < 3 {
            return Err(ParseError::MalformedItem);
        }
        let item = subvec(&line, 2, line.len() - 1);
        let ghost old_acc = acc.deep_view();
        acc.push(item);
        proof {
            assert(acc.deep_view() =~~= old_acc + seq![item@]);
            let full = items_scan(data, p0).1;
            match (full, items_scan(data, b@.pos).1) {
                (Ok(f), Ok(rest)) => {
                    assert(f =~~= acc.deep_view() + rest) by {
                        assert(f == old_acc + (seq![item@] + rest));
                        assert(old_acc + (seq![item@] + rest) =~= (old_acc + seq![item@])
                            + rest);
                    }
                }
                _ => {}
            }
        }
    }
}

/// Decode every entry of a byte list; `None` when any entry is not valid
/// UTF-8.
#[verifier::loop_isolation(false)]
fn strings_of(list: &Vec<Vec<u8>>) -> (r: Option<Vec<String>>)
    ensures
        (match r {
            Some(ss) => {
                &&& forall|i: int|
                    0 <= i < list@.len() ==> valid_utf8(#[trigger] list.deep_view()[i])
                &&& ss@.len() == list@.len()
                &&& forall|i: int|
                    0 <= i < list@.len() ==> (#[trigger] ss@[i])@ == decode_utf8(
                        list.deep_view()[i],
                    )
            },
            None => exists|i: int|
                0 <= i < list@.len() && !valid_utf8(#[trigger] list.deep_view()[i]),
        }),
{
    let n = list.len();
    let mut out: Vec<String> = Vec::new();
    let mut i: usize = 0;
    while i < n
        invariant
            0 <= i <= n,
            n == list@.len(),
            out@.len() == i,
            forall|j: int| 0 <= j < i ==> valid_utf8(#[trigger] list.deep_view()[j]),
            forall|j: int|
                0 <= j < i ==> (#[trigger] out@[j])@ == decode_utf8(list.deep_view()[j]),
        decreases n - i,
    {
        proof {
            assert(list.deep_view()[i as int] =~~= list@[i as int]@);
        }
        match string_from_utf8(&list[i]) {
            Some(s) => {
                out.push(s);
            }
            None => {
                return None;
            }
        }
        i = i + 1;
    }
    Some(out)
}

impl Room {
    /// Read one room record from the output history, starting at its read
    /// cursor. Returns the prelude text preceding the room header together
    /// with the room, or no room when the history ended before a header;
    /// fails exactly as `parse_bytes_spec` says (malformed title line,
    /// unknown list header, short list entry), or with `NotUtf8` when a
    /// recognized piece of text does not decode.
    #[verifier::loop_isolation(false)]
    pub fn parse(b: &mut OutputBuffer) -> (r: Result<(String, Option<Room>), ParseError>)
        requires
            old(b).wf(),
        ensures
            final(b).wf(),
            final(b)@.data == old(b)@.data,
            final(b)@.pos == parse_bytes_spec(old(b)@.data, old(b)@.pos).0,
            (match parse_bytes_spec(old(b)@.data, old(b)@.pos).1 {
                Err(pe) => r == Err::<(String, Option<Room>), ParseError>(pe),
                Ok((pre, orb)) => (match (r, orb) {
                    (Ok((s, None)), None) => valid_utf8(pre) && s@ == decode_utf8(pre),
                    (Err(e), None) => e == ParseError::NotUtf8 && !valid_utf8(pre),
                    (Ok((s, Some(room))), Some(rb)) => {
                        &&& room_text_valid(pre, rb)
                        &&& s@ == decode_utf8(pre)
                        &&& room_matches(&room, rb)
                    },
                    (Err(e), Some(rb)) => e == ParseError::NotUtf8 && !room_text_valid(pre, rb),
                    _ => false,
                }),
            }),
    {
        let ghost data = old(b)@.data;
        let ghost p0 = old(b)@.pos;

        // prelude: everything up to the room delimiter
        let mut prelude_b = b.read_until(61);
        if prelude_b.len() > 0 {
            let last = prelude_b[prelude_b.len() - 1];
            if last == 61 {
                let _ = prelude_b.pop();
            }
        }

        // no more data: no room to read
        if b.position() >= b.len() {
            return (match string_from_utf8(&prelude_b) {
                Some(s) => Ok((s, None)),
                None => Err(ParseError::NotUtf8),
            });
        }

        // the title line, shaped `= Title ==`
        let ghost pe = b@.pos;
        let title_line = b.read_line();
        let shape_ok = title_line.len() >= 6 && vec_starts_with(&title_line, &[61u8, 32u8])
            && vec_ends_with(&title_line, &[32u8, 61u8, 61u8, 10u8]);
        proof {
            assert(seq![61u8, 32u8] =~= title_prefix_spec());
            assert(seq![32u8, 61u8, 61u8, 10u8] =~= title_suffix_spec());
        }
        if !shape_ok {
            return Err(ParseError::MalformedTitle);
        }
        let title_b = subvec(&title_line, 2, title_line.len() - 4);

        // the description block, up to the prompt or a list header
        let ghost le1 = b@.pos;
        let mut desc_b: Vec<u8> = Vec::new();
        let mut header: Vec<u8> = Vec::new();
        let prompt = prompt_bytes();
        let mut desc_done = false;
        while !desc_done
            invariant
                b.wf(),
                b@.data == data,
                le1 <= b@.pos <= data.len(),
                !desc_done ==> {
                    &&& desc_scan(data, le1).0 == desc_b@ + desc_scan(data, b@.pos).0
                    &&& desc_scan(data, le1).1 == desc_scan(data, b@.pos).1
                    &&& desc_scan(data, le1).2 == desc_scan(data, b@.pos).2
                },
                desc_done ==> {
                    &&& desc_b@ == desc_scan(data, le1).0
                    &&& header@ == desc_scan(data, le1).1
                    &&& b@.pos == desc_scan(data, le1).2
                },
            decreases (data.len() - b@.pos) + (if desc_done { 0int } else { 1 }),
        {
            let ghost cur = b@.pos;
            let line = b.read_line();
            proof {
                lemma_delim_end(data, cur, 10);
            }
            let terminal = line.len() == 0 || vec_eq(&line, prompt.as_slice())
                || vec_ends_with(&line, &[58u8, 10u8]);
            proof {
                if line.len() == 0 {
                    assert(cur >= data.len());
                }
            }
            if terminal {
                header = line;
                desc_done = true;
                proof {
                    assert(desc_b@ + Seq::<u8>::empty() =~= desc_b@);
                }
            } else {
                let ghost old_desc = desc_b@;
                desc_b.extend_from_slice(line.as_slice());
                proof {
                    let rest = desc_scan(data, b@.pos).0;
                    assert(desc_scan(data, le1).0 =~= desc_b@ + rest) by {
                        assert(desc_scan(data, cur).0 == line@ + rest);
                        assert(old_desc + (line@ + rest) =~= (old_desc + line@) + rest);
                    }
                }
            }
        }
        if desc_b.len() >= 2 && desc_b[desc_b.len() - 1] == 10 && desc_b[desc_b.len() - 2]
            == 10 {
            let nl = desc_b.len() - 2;
            desc_b.truncate(nl);
        }
        proof {
            assert(desc_b@ == strip_double_nl(desc_scan(data, le1).0));
        }

        // the item and exit lists
        let ghost pl = b@.pos;
        let ghost hl = header@;
        let mut items_b: Vec<Vec<u8>> = Vec::new();
        let mut exits_b: Vec<Vec<u8>> = Vec::new();
        let mut lists_done = false;
        while !lists_done
            invariant
                b.wf(),
                b@.data == data,
                b@.pos <= data.len(),
                !lists_done ==> {
                    &&& lists_scan(data, pl, hl).0 == lists_scan(data, b@.pos, header@).0
                    &&& (match (lists_scan(data, pl, hl).1, lists_scan(
                        data,
                        b@.pos,
                        header@,
                    ).1) {
                        (Ok((fi, fe)), Ok((ci, ce))) => fi == items_b.deep_view() + ci && fe
                            == exits_b.deep_view() + ce,
                        (Err(a), Err(bb)) => a == bb,
                        _ => false,
                    })
                },
                lists_done ==> {
                    &&& lists_scan(data, pl, hl).0 == b@.pos
                    &&& lists_scan(data, pl, hl).1 == Ok::<
                        (Seq<Seq<u8>>, Seq<Seq<u8>>),
                        ParseError,
                    >((items_b.deep_view(), exits_b.deep_view()))
                },
            decreases (data.len() - b@.pos) * 4 + (
            if lists_done {
                0int
            } else if header@.len() == 0 {
                1
            } else {
                2
            }),
        {
            if header.len() == 0 || vec_eq(&header, prompt.as_slice()) {
                proof {
                    assert(items_b.deep_view() + Seq::<Seq<u8>>::empty()
                        =~~= items_b.deep_view());
                    assert(exits_b.deep_view() + Seq::<Seq<u8>>::empty()
                        =~~= exits_b.deep_view());
                }
                lists_done = true;
                continue;
            }
            let is_there = vec_starts_with(&header, &[84u8, 104u8, 101u8, 114u8, 101u8]);
            let is_things = vec_starts_with(
                &header,
                &[84u8, 104u8, 105u8, 110u8, 103u8, 115u8],
            );
            proof {
                assert(seq![84u8, 104u8, 101u8, 114u8, 101u8] =~= there_spec());
                assert(seq![84u8, 104u8, 105u8, 110u8, 103u8, 115u8] =~= things_spec());
            }
            if !is_there && !is_things {
                return Err(ParseError::UnknownHeader);
            }
            let ghost cur = b@.pos;
            let list = (match read_items(b) {
                Ok(list) => list,
                Err(e) => {
                    return Err(e);
                }
            });
            let ghost old_items = items_b.deep_view();
            let ghost old_exits = exits_b.deep_view();
            let ghost got = list.deep_view();
            if is_there {
                let mut list = list;
                exits_b.append(&mut list);
            } else {
                let mut list = list;
                items_b.append(&mut list);
            }
            proof {
                assert(exits_b.deep_view() =~~= if is_there {
                    old_exits + got
                } else {
                    old_exits
                });
                assert(items_b.deep_view() =~~= if is_there {
                    old_items
                } else {
                    old_items + got
                });
            }
            let ghost p_items = b@.pos;
            header = b.read_line();
            proof {
                lemma_items_scan_pos(data, cur);
                lemma_delim_end(data, p_items, 10);
                let full = lists_scan(data, pl, hl).1;
                match (full, lists_scan(data, b@.pos, header@).1) {
                    (Ok((fi, fe)), Ok((ci, ce))) => {
                        if is_there {
                            assert(fe =~~= exits_b.deep_view() + ce) by {
                                assert(fe == old_exits + (got + ce));
                                                assert(old_exits + (got + ce) =~~= (old_exits + got) + ce);
                            }
                        } else {
                            assert(fi =~~= items_b.deep_view() + ci) by {
                                assert(fi == old_items + (got + ci));
                                                assert(old_items + (got + ci) =~~= (old_items + got) + ci);
                            }
                        }
                    }
                    _ => {}
                }
            }
        }
        proof {
            assert(items_b.deep_view() + Seq::<Seq<u8>>::empty() =~~= items_b.deep_view());
            assert(exits_b.deep_view() + Seq::<Seq<u8>>::empty() =~~= exits_b.deep_view());
        }

        // decode the recognized text
        let prelude = (match string_from_utf8(&prelude_b) {
            Some(s) => s,
            None => {
                return Err(ParseError::NotUtf8);
            }
        });
        let title = (match string_from_utf8(&title_b) {
            Some(s) => s,
            None => {
                return Err(ParseError::NotUtf8);
            }
        });
        let description = (match string_from_utf8(&desc_b) {
            Some(s) => s,
            None => {
                return Err(ParseError::NotUtf8);
            }
        });
        let items = (match strings_of(&items_b) {
            Some(ss) => ss,
            None => {
                proof {
                    match parse_bytes_spec(data, p0).1 {
                        Ok((pre, Some(rb))) => {
                            assert(rb.items == items_b.deep_view());
                            let i = choose|i: int|
                                0 <= i < items_b@.len() && !valid_utf8(
                                    #[trigger] items_b.deep_view()[i],
                                );
                            assert(!valid_utf8(rb.items[i]));
                        }
                        _ => {}
                    }
                }
                return Err(ParseError::NotUtf8);
            }
        });
        let exits = (match strings_of(&exits_b) {
            Some(ss) => ss,
            None => {
                proof {
                    match parse_bytes_spec(data, p0).1 {
                        Ok((pre, Some(rb))) => {
                            assert(rb.exits == exits_b.deep_view());
                            let i = choose|i: int|
                                0 <= i < exits_b@.len() && !valid_utf8(
                                    #[trigger] exits_b.deep_view()[i],
                                );
                            assert(!valid_utf8(rb.exits[i]));
                        }
                        _ => {}
                    }
                }
                return Err(ParseError::NotUtf8);
            }
        });
        Ok((prelude, Some(Room { title, description, items, exits })))
    }
}

} // verus!
