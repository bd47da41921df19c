//! Byte transports: the endpoints the machine reads input from and writes
//! output to. An input is always an in-memory buffer with a read cursor that
//! supports out-of-band appends (a driver queues future keystrokes while the
//! machine keeps its place). An output is either a growable buffer that
//! retains the whole history behind an independent read cursor, or a sink
//! that drops every byte.

use vstd::prelude::*;

verus! {

/// The mathematical state of an input endpoint: every byte queued so far,
/// and the position of the next unread byte.
#[verifier::ext_equal]
pub struct SourceView {
    pub data: Seq<u8>,
    pub pos: nat,
}

/// The mathematical state of an output endpoint: the bytes it retained, the
/// position of its read cursor, and whether it drops what it is given.
#[verifier::ext_equal]
pub struct SinkView {
    pub data: Seq<u8>,
    pub pos: nat,
    pub discard: bool,
}

/// An in-memory input endpoint. Bytes are appended at the end and consumed
/// from a cursor, so queued input survives appends.
#[derive(Clone)]
pub struct InputBuffer {
    pub data: Vec<u8>,
    pub pos: usize,
}

impl View for InputBuffer {
    type V = SourceView;

    open spec fn view(&self) -> SourceView {
        SourceView { data: self.data@, pos: self.pos as nat }
    }
}

impl InputBuffer {
    /// The cursor never runs past the end of the queued bytes.
    pub open spec fn wf(&self) -> bool {
        self@.pos <= self@.data.len()
    }

    /// An empty input with the cursor at the start.
    pub fn new() -> (r: InputBuffer)
        ensures
            r.wf(),
            r@.data == Seq::<u8>::empty(),
            r@.pos == 0,
    {
        InputBuffer { data: Vec::new(), pos: 0 }
    }

    /// An input pre-loaded with `data`, with the cursor at the start.
    pub fn from_bytes(data: Vec<u8>) -> (r: InputBuffer)
        ensures
            r.wf(),
            r@.data == data@,
            r@.pos == 0,
    {
        InputBuffer { data, pos: 0 }
    }

    /// Consume and return the next byte, or `None` when every queued byte
    /// has been read.
    pub fn read_byte(&mut self) -> (r: Option<u8>)
        requires
            old(self).wf(),
        ensures
            final(self).wf(),
            final(self)@.data == old(self)@.data,
            old(self)@.pos < old(self)@.data.len() ==> {
                &&& r == Some(old(self)@.data[old(self)@.pos as int])
                &&& final(self)@.pos == old(self)@.pos + 1
            },
            old(self)@.pos >= old(self)@.data.len() ==> {
                &&& r is None
                &&& final(self)@.pos == old(self)@.pos
            },
    {
        if self.pos < self.data.len() {
            let b = self.data[self.pos];
            self.pos = self.pos + 1;
            Some(b)
        } else {
            None
        }
    }

    /// Consume bytes until one that is not a carriage return is found and
    /// return it; carriage returns are consumed and dropped. Returns `None`
    /// when the queue runs out first, with every byte consumed.
    pub fn read_skipping_crs(&mut self) -> (r: Option<u8>)
        requires
            old(self).wf(),
        ensures
            final(self).wf(),
            final(self)@.data == old(self)@.data,
            ({
                let p = crate::state::skip_crs(old(self)@.data, old(self)@.pos);
                if p < old(self)@.data.len() {
                    &&& r == Some(old(self)@.data[p as int])
                    &&& final(self)@.pos == p + 1
                } else {
                    &&& r is None
                    &&& final(self)@.pos == old(self)@.data.len()
                }
            }),
    {
        loop
            invariant
                self.wf(),
                self@.data == old(self)@.data,
                old(self)@.pos <= self@.pos,
                crate::state::skip_crs(self@.data, self@.pos) == crate::state::skip_crs(
                    old(self)@.data,
                    old(self)@.pos,
                ),
            decreases self@.data.len() - self@.pos,
        {
            match self.read_byte() {
                None => {
                    return None;
                }
                Some(ch) => {
                    if ch != 13 {
                        return Some(ch);
                    }
                }
            }
        }
    }

    /// Queue more bytes without disturbing the read cursor.
    pub fn append(&mut self, bytes: &[u8])
        requires
            old(self).wf(),
        ensures
            final(self).wf(),
            final(self)@.data == old(self)@.data + bytes@,
            final(self)@.pos == old(self)@.pos,
    {
        self.data.extend_from_slice(bytes);
    }

    /// The position of the next unread byte.
    pub fn position(&self) -> (r: usize)
        ensures
            r == self@.pos,
    {
        self.pos
    }
}

/// An in-memory output endpoint. Written bytes accumulate forever; a read
/// cursor lets a driver revisit or resume inspection of prior output.
#[derive(Clone)]
pub struct OutputBuffer {
    pub data: Vec<u8>,
    pub pos: usize,
}

impl View for OutputBuffer {
    type V = SourceView;

    open spec fn view(&self) -> SourceView {
        SourceView { data: self.data@, pos: self.pos as nat }
    }
}

impl OutputBuffer {
    /// The read cursor never runs past the end of the written bytes.
    pub open spec fn wf(&self) -> bool {
        self@.pos <= self@.data.len()
    }

    /// An empty output history with the cursor at the start.
    pub fn new() -> (r: OutputBuffer)
        ensures
            r.wf(),
            r@.data == Seq::<u8>::empty(),
            r@.pos == 0,
    {
        OutputBuffer { data: Vec::new(), pos: 0 }
    }

    /// Append one byte to the history.
    pub fn write_byte(&mut self, b: u8)
        requires
            old(self).wf(),
        ensures
            final(self).wf(),
            final(self)@.data == old(self)@.data.push(b),
            final(self)@.pos == old(self)@.pos,
    {
        self.data.push(b);
    }

    /// The position of the read cursor.
    pub fn position(&self) -> (r: usize)
        ensures
            r == self@.pos,
    {
        self.pos
    }

    /// Move the read cursor; a position past the end is clamped to the end.
    pub fn set_position(&mut self, pos: usize)
        ensures
            final(self).wf(),
            final(self)@.data == old(self)@.data,
            final(self)@.pos == if pos <= old(self)@.data.len() {
                pos as nat
            } else {
                old(self)@.data.len()
            },
    {
        if pos <= self.data.len() {
            self.pos = pos;
        } else {
            self.pos = self.data.len();
        }
    }

    /// The number of bytes written so far.
    pub fn len(&self) -> (r: usize)
        ensures
            r == self@.data.len(),
    {
        self.data.len()
    }

    /// Consume and return everything from the read cursor to the end of
    /// the history, leaving the cursor at the end.
    pub fn read_to_end(&mut self) -> (r: Vec<u8>)
        requires
            old(self).wf(),
        ensures
            final(self).wf(),
            final(self)@.data == old(self)@.data,
            final(self)@.pos == old(self)@.data.len(),
            r@ == old(self)@.data.subrange(
                old(self)@.pos as int,
                old(self)@.data.len() as int,
            ),
    {
        let mut out: Vec<u8> = Vec::new();
        while self.pos < self.data.len()
            invariant
                self.wf(),
                self@.data == old(self)@.data,
                old(self)@.pos <= self@.pos,
                out@ == self@.data.subrange(old(self)@.pos as int, self@.pos as int),
            decreases self@.data.len() - self@.pos,
        {
            out.push(self.data[self.pos]);
            self.pos = self.pos + 1;
            proof {
                assert(out@ =~= self@.data.subrange(old(self)@.pos as int, self@.pos as int));
            }
        }
        out
    }

    /// Whether the history from position `start` on ends with `suffix`.
    pub fn ends_with_from(&self, start: usize, suffix: &[u8]) -> (r: bool)
        requires
            start <= self@.data.len(),
        ensures
            r == {
                &&& self@.data.len() - start >= suffix@.len()
                &&& self@.data.subrange(
                    self@.data.len() - suffix@.len(),
                    self@.data.len() as int,
                ) == suffix@
            },
    {
        let n = self.data.len();
        let m = suffix.len();
        if n - start < m {
            return false;
        }
        let base = n - m;
        let mut i: usize = 0;
        while i < m
            invariant
                0 <= i <= m,
                m <= n - start,
                base == n - m,
                n == self@.data.len(),
                m == suffix@.len(),
                start <= n,
                forall|j: int| 0 <= j < i ==> self@.data[base + j] == suffix@[j],
            decreases m - i,
        {
            if self.data[base + i] != suffix[i] {
                assert(self@.data[base + i] != suffix@[i as int]);
                assert(self@.data.subrange(n - m, n as int) != suffix@) by {
                    assert(self@.data.subrange(n - m, n as int)[i as int] != suffix@[i as int]);
                }
                return false;
            }
            i = i + 1;
        }
        assert(self@.data.subrange(n - m, n as int) =~= suffix@);
        true
    }
}

/// The output endpoint the machine writes to: a retaining buffer, or a sink
/// that discards everything.
#[derive(Clone)]
pub enum OutputSink {
    Buffered(OutputBuffer),
    Discard,
}

impl View for OutputSink {
    type V = SinkView;

    open spec fn view(&self) -> SinkView {
        match self {
            OutputSink::Buffered(b) => SinkView { data: b@.data, pos: b@.pos, discard: false },
            OutputSink::Discard => SinkView { data: Seq::empty(), pos: 0, discard: true },
        }
    }
}

impl OutputSink {
    /// A discarding sink retains nothing; a buffer keeps its cursor in range.
    pub open spec fn wf(&self) -> bool {
        &&& self@.pos <= self@.data.len()
        &&& self@.discard ==> self@.data.len() == 0
    }

    /// A fresh retaining sink.
    pub fn buffered() -> (r: OutputSink)
        ensures
            r.wf(),
            r@.data == Seq::<u8>::empty(),
            r@.pos == 0,
            !r@.discard,
    {
        OutputSink::Buffered(OutputBuffer::new())
    }

    /// A sink that drops all output.
    pub fn discard() -> (r: OutputSink)
        ensures
            r.wf(),
            r@.data == Seq::<u8>::empty(),
            r@.pos == 0,
            r@.discard,
    {
        OutputSink::Discard
    }

    /// The position of the read cursor (always 0 for a discard sink).
    pub fn position(&self) -> (r: usize)
        ensures
            r == self@.pos,
    {
        match self {
            OutputSink::Buffered(buf) => buf.position(),
            OutputSink::Discard => 0,
        }
    }

    /// Hand one byte to the sink: retained by a buffer, dropped by a discard
    /// sink.
    pub fn write_byte(&mut self, b: u8)
        requires
            old(self).wf(),
        ensures
            final(self).wf(),
            final(self)@.discard == old(self)@.discard,
            final(self)@.pos == old(self)@.pos,
            final(self)@.data == if old(self)@.discard {
                old(self)@.data
            } else {
                old(self)@.data.push(b)
            },
    {
        match self {
            OutputSink::Buffered(buf) => buf.write_byte(b),
            OutputSink::Discard => {}
        }
    }
}

} // verus!
