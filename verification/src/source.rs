//! The source buffer: the bytes of one input, owned once per parse.

use vstd::prelude::*;

verus! {

/// The immutable text of one input. Tokens borrow it and hold byte offsets
/// into it.
#[derive(Debug)]
pub struct SourceBuffer {
    pub bytes: Vec<u8>,
}

impl View for SourceBuffer {
    type V = Seq<u8>;

    open spec fn view(&self) -> Seq<u8> {
        self.bytes@
    }
}

/// How many line feeds stand before `offset`: the number of its line,
/// counted from 0.
pub open spec fn line_of(s: Seq<u8>, offset: int) -> nat
    decreases offset,
{
    if offset <= 0 || offset > s.len() {
        0
    } else {
        line_of(s, offset - 1) + (if s[offset - 1] == 10 {
            1nat
        } else {
            0nat
        })
    }
}

/// Where the line that holds `offset` starts: behind the last line feed
/// before `offset`, or at 0.
pub open spec fn line_start_of(s: Seq<u8>, offset: int) -> int
    decreases offset,
{
    if offset <= 0 || offset > s.len() {
        0
    } else if s[offset - 1] == 10 {
        offset
    } else {
        line_start_of(s, offset - 1)
    }
}

impl SourceBuffer {
    /// Takes ownership of the bytes of an input.
    pub fn new(bytes: Vec<u8>) -> (buffer: SourceBuffer)
        ensures
            buffer@ == bytes@,
    {
        SourceBuffer { bytes }
    }

    /// The number of bytes in the buffer.
    pub fn len(&self) -> (n: usize)
        ensures
            n == self@.len(),
    {
        self.bytes.len()
    }

    /// The whole text.
    pub fn text(&self) -> (all: &[u8])
        ensures
            all@ == self@,
    {
        self.bytes.as_slice()
    }

    /// The byte at offset `i`.
    pub fn byte_at(&self, i: usize) -> (b: u8)
        requires
            i < self@.len(),
        ensures
            b == self@[i as int],
    {
        self.bytes[i]
    }

    /// The line and the column of the byte at `offset`, both counted from
    /// 0; the column is counted in bytes.
    pub fn line_column(&self, offset: usize) -> (place: (usize, usize))
        requires
            offset <= self@.len(),
        ensures
            place.0 == line_of(self@, offset as int),
            place.1 == offset - line_start_of(self@, offset as int),
    {
        let mut line: usize = 0;
        let mut start: usize = 0;
        let mut i: usize = 0;
        while i < offset
            invariant
                i <= offset <= self@.len(),
                line == line_of(self@, i as int),
                start == line_start_of(self@, i as int),
                line <= i,
                start <= i,
            decreases offset - i,
        {
            if self.bytes[i] == 10 {
                line = line + 1;
                start = i + 1;
            }
            i = i + 1;
        }
        (line, offset - start)
    }

    /// The bytes from offset `start` up to, not including, offset `end`.
    pub fn slice(&self, start: usize, end: usize) -> (part: &[u8])
        requires
            start <= end <= self@.len(),
        ensures
            part@ == self@.subrange(start as int, end as int),
    {
        vstd::slice::slice_subrange(self.bytes.as_slice(), start, end)
    }
}

} // verus!
