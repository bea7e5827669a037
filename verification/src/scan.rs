//! Scanning primitives: byte classes, runs of a class, quoted text, and the
//! search for the next line that holds content.

use vstd::prelude::*;
use crate::source::SourceBuffer;

verus! {

/// The bytes that have a meaning of their own.
pub const NEWLINE: u8 = 10u8;
pub const QUOTE: u8 = 34u8;
pub const HASH: u8 = 35u8;
pub const COLON: u8 = 58u8;
pub const GREATER: u8 = 62u8;
pub const BACKSLASH: u8 = 92u8;

/// The classes of bytes that the lexer scans runs of.
#[derive(Copy, Clone, PartialEq, Eq, Structural, Debug)]
pub enum ByteClass {
    /// Space and tab: what a line's indentation is made of.
    Indentation,
    /// Space, tab and carriage return: whitespace inside a line.
    Blank,
    /// Anything but a line feed.
    LineBody,
    /// What a word is made of: no whitespace, no control byte, no colon, no
    /// quote.
    WordBody,
}

/// Space, tab or carriage return.
pub open spec fn is_blank(b: u8) -> bool {
    b == 32 || b == 9 || b == 13
}

/// A byte that a word can hold: above the space, and neither the delete
/// byte, a colon nor a quote.
pub open spec fn is_word_byte(b: u8) -> bool {
    b > 32 && b != 127 && b != COLON && b != QUOTE
}

/// The byte `b` belongs to the class `k`.
pub open spec fn in_class(k: ByteClass, b: u8) -> bool {
    match k {
        ByteClass::Indentation => b == 32 || b == 9,
        ByteClass::Blank => is_blank(b),
        ByteClass::LineBody => b != NEWLINE,
        ByteClass::WordBody => is_word_byte(b),
    }
}

/// Whether the byte `b` belongs to the class `k`.
pub fn class_has(k: ByteClass, b: u8) -> (r: bool)
    ensures
        r == in_class(k, b),
{
    match k {
        ByteClass::Indentation => b == 32 || b == 9,
        ByteClass::Blank => b == 32 || b == 9 || b == 13,
        ByteClass::LineBody => b != NEWLINE,
        ByteClass::WordBody => b > 32 && b != 127 && b != COLON && b != QUOTE,
    }
}

/// The end of the longest run of bytes of class `k` that starts at `i`.
pub open spec fn run_end(s: Seq<u8>, i: int, k: ByteClass) -> int
    decreases s.len() - i,
{
    if 0 <= i < s.len() && in_class(k, s[i]) {
        run_end(s, i + 1, k)
    } else {
        i
    }
}

/// A run ends inside the buffer, at or after its start, on a byte that is
/// not of the class; every byte before that is of the class.
pub proof fn lemma_run_end(s: Seq<u8>, i: int, k: ByteClass)
    requires
        0 <= i <= s.len(),
    ensures
        i <= run_end(s, i, k) <= s.len(),
        run_end(s, i, k) < s.len() ==> !in_class(k, s[run_end(s, i, k)]),
        forall|j: int| i <= j < run_end(s, i, k) ==> in_class(k, #[trigger] s[j]),
    decreases s.len() - i,
{
    if i < s.len() && in_class(k, s[i]) {
        lemma_run_end(s, i + 1, k);
    }
}

/// Scans the run of bytes of class `k` that starts at `i`.
pub fn scan_run(src: &SourceBuffer, i: usize, k: ByteClass) -> (end: usize)
    requires
        i <= src@.len(),
    ensures
        end == run_end(src@, i as int, k),
        i <= end <= src@.len(),
{
    let n: usize = src.len();
    let mut j: usize = i;
    while j < n && class_has(k, src.byte_at(j))
        invariant
            n == src@.len(),
            i <= j <= n,
            run_end(src@, i as int, k) == run_end(src@, j as int, k),
        decreases n - j,
    {
        j = j + 1;
    }
    j
}

/// Where the text between `lo` and `hi` ends once trailing blanks are cut.
pub open spec fn trimmed_end(s: Seq<u8>, lo: int, hi: int) -> int
    decreases hi - lo,
{
    if lo < hi <= s.len() && is_blank(s[hi - 1]) {
        trimmed_end(s, lo, hi - 1)
    } else {
        hi
    }
}

/// Cutting trailing blanks stays between the two offsets, and leaves a
/// text that starts with a byte that is not blank at least that byte.
pub proof fn lemma_trimmed_end(s: Seq<u8>, lo: int, hi: int)
    requires
        0 <= lo <= hi <= s.len(),
    ensures
        lo <= trimmed_end(s, lo, hi) <= hi,
        lo < hi && !is_blank(s[lo]) ==> lo < trimmed_end(s, lo, hi),
    decreases hi - lo,
{
    if lo < hi && is_blank(s[hi - 1]) {
        lemma_trimmed_end(s, lo, hi - 1);
    }
}

/// Cuts trailing blanks off the text between `lo` and `hi`.
pub fn trim_end(src: &SourceBuffer, lo: usize, hi: usize) -> (end: usize)
    requires
        lo <= hi <= src@.len(),
    ensures
        end == trimmed_end(src@, lo as int, hi as int),
        lo <= end <= hi,
{
    let mut e: usize = hi;
    while e > lo && class_has(ByteClass::Blank, src.byte_at(e - 1))
        invariant
            lo <= e <= hi <= src@.len(),
            trimmed_end(src@, lo as int, hi as int) == trimmed_end(src@, lo as int, e as int),
        decreases e - lo,
    {
        e = e - 1;
    }
    e
}

/// What scanning a quoted text finds: where it ends, whether a closing quote
/// was met, and the text with its escapes decoded.
pub struct QuoteScan {
    pub end: int,
    pub closed: bool,
    pub value: Seq<u8>,
}

/// The byte that an escape stands for: `\n`, `\t` and `\r` are line feed,
/// tab and carriage return; any other escaped byte is itself.
pub open spec fn unescape(b: u8) -> u8 {
    if b == 110 {
        10
    } else if b == 116 {
        9
    } else if b == 114 {
        13
    } else {
        b
    }
}

/// The byte that the escape of `b` stands for.
pub fn unescape_byte(b: u8) -> (r: u8)
    ensures
        r == unescape(b),
{
    if b == 110 {
        10
    } else if b == 116 {
        9
    } else if b == 114 {
        13
    } else {
        b
    }
}

/// Scans the inside of a quoted text from `i`, the offset after the opening
/// quote. The text is closed by the first quote that no backslash escapes;
/// a line feed or the end of the buffer leaves it open, and the scan stops
/// in front of it.
pub open spec fn quoted_scan(s: Seq<u8>, i: int) -> QuoteScan
    decreases s.len() - i,
{
    if i < 0 || i >= s.len() || s[i] == NEWLINE {
        QuoteScan { end: i, closed: false, value: Seq::empty() }
    } else if s[i] == QUOTE {
        QuoteScan { end: i + 1, closed: true, value: Seq::empty() }
    } else if s[i] == BACKSLASH && i + 1 < s.len() && s[i + 1] != NEWLINE {
        let r = quoted_scan(s, i + 2);
        QuoteScan { end: r.end, closed: r.closed, value: seq![unescape(s[i + 1])] + r.value }
    } else {
        let r = quoted_scan(s, i + 1);
        QuoteScan { end: r.end, closed: r.closed, value: seq![s[i]] + r.value }
    }
}

/// A quoted text ends in the buffer, at or after the offset it is scanned
/// from.
pub proof fn lemma_quoted_scan(s: Seq<u8>, i: int)
    requires
        0 <= i <= s.len(),
    ensures
        i <= quoted_scan(s, i).end <= s.len(),
    decreases s.len() - i,
{
    if i >= s.len() || s[i] == NEWLINE {
    } else if s[i] == QUOTE {
    } else if s[i] == BACKSLASH && i + 1 < s.len() && s[i + 1] != NEWLINE {
        lemma_quoted_scan(s, i + 2);
    } else {
        lemma_quoted_scan(s, i + 1);
    }
}

/// The outcome of [`scan_quoted`].
pub struct QuoteResult {
    pub end: usize,
    pub closed: bool,
    pub value: Vec<u8>,
}

/// Scans the inside of a quoted text from `i` and decodes its escapes.
pub fn scan_quoted(src: &SourceBuffer, i: usize) -> (r: QuoteResult)
    requires
        i <= src@.len(),
    ensures
        r.end == quoted_scan(src@, i as int).end,
        r.closed == quoted_scan(src@, i as int).closed,
        r.value@ == quoted_scan(src@, i as int).value,
        i <= r.end <= src@.len(),
{
    let n: usize = src.len();
    let mut j: usize = i;
    let mut acc: Vec<u8> = Vec::new();
    let mut closed = false;
    let mut done = false;
    let ghost whole = quoted_scan(src@, i as int);
    assert(whole.value =~= acc@ + whole.value);
    while !done
        invariant
            n == src@.len(),
            i <= j <= n,
            whole == quoted_scan(src@, i as int),
            !done ==> whole.end == quoted_scan(src@, j as int).end,
            !done ==> whole.closed == quoted_scan(src@, j as int).closed,
            !done ==> whole.value == acc@ + quoted_scan(src@, j as int).value,
            done ==> whole.end == j && whole.closed == closed && whole.value == acc@,
            !done ==> !closed,
        decreases n - j + (if done { 0int } else { 1int }),
    {
        let ghost rest = quoted_scan(src@, j as int);
        if j >= n || src.byte_at(j) == NEWLINE {
            assert(acc@ + rest.value =~= acc@);
            done = true;
        } else {
            let b = src.byte_at(j);
            if b == QUOTE {
                assert(acc@ + rest.value =~= acc@);
                j = j + 1;
                closed = true;
                done = true;
            } else if b == BACKSLASH && j + 1 < n && src.byte_at(j + 1) != NEWLINE {
                let c = unescape_byte(src.byte_at(j + 1));
                assert(acc@.push(c) + quoted_scan(src@, j + 2).value =~= acc@ + rest.value);
                acc.push(c);
                j = j + 2;
            } else {
                assert(acc@.push(b) + quoted_scan(src@, j + 1).value =~= acc@ + rest.value);
                acc.push(b);
                j = j + 1;
            }
        }
    }
    QuoteResult { end: j, closed, value: acc }
}

/// Where the next line that holds content begins, and how wide its
/// indentation is.
pub struct LineHead {
    /// The offset of the line's first significant byte, or the buffer's
    /// length where no line with content is left.
    pub start: int,
    /// The number of spaces and tabs at the start of that line.
    pub width: int,
}

/// Looks from the line start `p` for the next line with content. Lines that
/// hold only whitespace, and lines whose first significant byte is `#`, are
/// passed over.
pub open spec fn next_content(s: Seq<u8>, p: int) -> LineHead
    decreases s.len() - p,
{
    if p < 0 || p >= s.len() {
        LineHead { start: s.len() as int, width: 0 }
    } else {
        let i = run_end(s, p, ByteClass::Indentation);
        let j = run_end(s, i, ByteClass::Blank);
        let k = run_end(s, j, ByteClass::LineBody);
        if j >= s.len() {
            LineHead { start: s.len() as int, width: 0 }
        } else if s[j] == NEWLINE {
            proof {
                lemma_run_end(s, p, ByteClass::Indentation);
                lemma_run_end(s, i, ByteClass::Blank);
            }
            next_content(s, j + 1)
        } else if s[j] == HASH {
            if k >= s.len() {
                LineHead { start: s.len() as int, width: 0 }
            } else {
                proof {
                    lemma_run_end(s, p, ByteClass::Indentation);
                    lemma_run_end(s, i, ByteClass::Blank);
                    lemma_run_end(s, j, ByteClass::LineBody);
                }
                next_content(s, k + 1)
            }
        } else {
            LineHead { start: j, width: i - p }
        }
    }
}

/// The next content lies at or after the line start, its width fits before
/// it, and its first byte is neither whitespace nor a line feed.
pub proof fn lemma_next_content(s: Seq<u8>, p: int)
    requires
        0 <= p <= s.len(),
    ensures
        p <= next_content(s, p).start <= s.len(),
        0 <= next_content(s, p).width <= next_content(s, p).start - p,
        next_content(s, p).start < s.len() ==> !is_blank(s[next_content(s, p).start]) && s[next_content(
            s,
            p,
        ).start] != NEWLINE,
    decreases s.len() - p,
{
    if p < s.len() {
        let i = run_end(s, p, ByteClass::Indentation);
        let j = run_end(s, i, ByteClass::Blank);
        let k = run_end(s, j, ByteClass::LineBody);
        lemma_run_end(s, p, ByteClass::Indentation);
        lemma_run_end(s, i, ByteClass::Blank);
        lemma_run_end(s, j, ByteClass::LineBody);
        if j >= s.len() {
        } else if s[j] == NEWLINE {
            lemma_next_content(s, j + 1);
        } else if s[j] == HASH {
            if k < s.len() {
                lemma_next_content(s, k + 1);
            }
        } else {
        }
    }
}

/// Finds the next line with content from the line start `p`: the offset of
/// its first significant byte and the width of its indentation.
pub fn find_content(src: &SourceBuffer, p: usize) -> (head: (usize, usize))
    requires
        p <= src@.len(),
    ensures
        head.0 == next_content(src@, p as int).start,
        head.1 == next_content(src@, p as int).width,
        p <= head.0 <= src@.len(),
        head.1 <= head.0 - p,
{
    let n: usize = src.len();
    let mut q: usize = p;
    proof {
        lemma_next_content(src@, p as int);
    }
    loop
        invariant
            n == src@.len(),
            p <= q <= n,
            next_content(src@, p as int) == next_content(src@, q as int),
        decreases n - q,
    {
        if q >= n {
            return (n, 0);
        }
        let i: usize = scan_run(src, q, ByteClass::Indentation);
        let j: usize = scan_run(src, i, ByteClass::Blank);
        if j >= n {
            return (n, 0);
        }
        let b = src.byte_at(j);
        if b == NEWLINE {
            q = j + 1;
        } else if b == HASH {
            let k: usize = scan_run(src, j, ByteClass::LineBody);
            if k >= n {
                return (n, 0);
            }
            q = k + 1;
        } else {
            return (j, i - q);
        }
    }
}

/// Where a verbatim block that starts at the line start `p` ends: at the
/// first line whose indentation is not wider than `owner`, or at the end of
/// the buffer.
pub open spec fn block_end(s: Seq<u8>, p: int, owner: int) -> int
    decreases s.len() - p,
{
    if p < 0 || p >= s.len() {
        p
    } else {
        let i = run_end(s, p, ByteClass::Indentation);
        let k = run_end(s, i, ByteClass::LineBody);
        if i - p > owner {
            if k >= s.len() {
                s.len() as int
            } else {
                proof {
                    lemma_run_end(s, p, ByteClass::Indentation);
                    lemma_run_end(s, i, ByteClass::LineBody);
                }
                block_end(s, k + 1, owner)
            }
        } else {
            p
        }
    }
}

/// A verbatim block ends in the buffer, at or after its start.
pub proof fn lemma_block_end(s: Seq<u8>, p: int, owner: int)
    requires
        0 <= p <= s.len(),
    ensures
        p <= block_end(s, p, owner) <= s.len(),
    decreases s.len() - p,
{
    if p < s.len() {
        let i = run_end(s, p, ByteClass::Indentation);
        let k = run_end(s, i, ByteClass::LineBody);
        lemma_run_end(s, p, ByteClass::Indentation);
        lemma_run_end(s, i, ByteClass::LineBody);
        if i - p > owner && k < s.len() {
            lemma_block_end(s, k + 1, owner);
        }
    }
}

/// Finds the end of the verbatim block that starts at the line start `p`.
pub fn find_block_end(src: &SourceBuffer, p: usize, owner: usize) -> (end: usize)
    requires
        p <= src@.len(),
    ensures
        end == block_end(src@, p as int, owner as int),
        p <= end <= src@.len(),
{
    let n: usize = src.len();
    let mut q: usize = p;
    loop
        invariant
            n == src@.len(),
            p <= q <= n,
            block_end(src@, p as int, owner as int) == block_end(src@, q as int, owner as int),
        decreases n - q,
    {
        if q >= n {
            return q;
        }
        let i: usize = scan_run(src, q, ByteClass::Indentation);
        if i - q > owner {
            let k: usize = scan_run(src, i, ByteClass::LineBody);
            if k >= n {
                return n;
            }
            q = k + 1;
        } else {
            return q;
        }
    }
}

} // verus!
