//! The lexer: a state machine that hands out one token per step, its
//! mathematical description, and the laws of the stream it produces.
//!
//! Grammar decisions made here. A line whose first significant byte is `#`
//! is a comment; it and blank lines are trivia of the next token. A colon
//! turns the rest of its line into one `LineText`, unless that rest starts
//! with a quote. A `>` that stands alone after a colon asks for verbatim
//! capture: the lines below that are indented more than the enclosing level
//! become one `BlockText`.

use vstd::prelude::*;
use crate::source::SourceBuffer;
use crate::tokens::{
    Token, TokenType, TokenView, rebuild, count_of, contiguous, joins, level_change, levels_from,
    nests_at, well_nested, lemma_levels_shift, ends_once,
};
use crate::scan::{
    ByteClass, NEWLINE, QUOTE, COLON, GREATER, is_word_byte, run_end, lemma_run_end, scan_run,
    trimmed_end, lemma_trimmed_end, trim_end, quoted_scan, lemma_quoted_scan, scan_quoted,
    next_content, lemma_next_content, find_content, block_end, lemma_block_end, find_block_end,
};

verus! {

/// What the lexer looks for next.
#[derive(Copy, Clone, PartialEq, Eq, Structural, Debug)]
pub enum Mode {
    /// Nothing was produced yet.
    Start,
    /// At the start of a line: indentation is measured next.
    LineStart,
    /// The line's indentation fell between two open levels; the error for it
    /// is due.
    Mismatch,
    /// In front of the first item of a line.
    LineHead,
    /// Behind the first item of a line.
    LineRest,
    /// Behind a colon: the rest of the line is one text.
    AfterColon,
    /// Behind a leading `>`: the rest of the line is one text.
    AfterQuoteMark,
    /// Behind a verbatim marker: the line's end is due, then the block.
    BlockPending,
    /// At the start of the line under a verbatim marker.
    Block,
    /// `EndOfInput` was produced.
    Done,
}

/// The lexer's state as a mathematical value.
pub struct LexView {
    /// The offset up to which the buffer is covered by tokens.
    pub pos: int,
    /// The widths of the open indentation levels, the bottom one first.
    pub stack: Seq<usize>,
    pub mode: Mode,
}

impl LexView {
    /// The width of the innermost open level.
    pub open spec fn top(self) -> int {
        self.stack.last() as int
    }

    /// The position lies in the buffer, the stack's bottom is 0, and the
    /// mode's own promise holds.
    pub open spec fn wf(self, s: Seq<u8>) -> bool {
        &&& 0 <= self.pos <= s.len()
        &&& self.stack.len() >= 1
        &&& self.stack[0] == 0
        &&& self.mode == Mode::Done ==> self.pos == s.len() && self.stack.len() == 1
        &&& self.mode == Mode::Mismatch ==> next_content(s, self.pos).start < s.len() && self.top()
            < next_content(s, self.pos).width
    }
}

/// One step of the lexer: the state it leaves and the token it hands out.
pub struct Step {
    pub next: LexView,
    pub token: TokenView,
}

/// A token without a decoded value, whose text is `text_start..text_end` and
/// whose trivia starts where the state stands.
pub open spec fn emit(st: LexView, t: TokenType, text_start: int, text_end: int, mode: Mode) -> Step {
    Step {
        next: LexView { pos: text_end, stack: st.stack, mode },
        token: TokenView {
            token_type: t,
            trivia_start: st.pos,
            text_start,
            text_end,
            value: None,
        },
    }
}

/// At the end of the buffer: one `Outdent` for each level still open, then
/// `EndOfInput`, whose trivia is what was left.
pub open spec fn eof_step(s: Seq<u8>, st: LexView) -> Step {
    if st.stack.len() > 1 {
        Step {
            next: LexView { pos: st.pos, stack: st.stack.drop_last(), mode: Mode::LineStart },
            token: emit(st, TokenType::Outdent, st.pos, st.pos, Mode::LineStart).token,
        }
    } else {
        emit(st, TokenType::EndOfInput, s.len() as int, s.len() as int, Mode::Done)
    }
}

/// A quote at `q`: a `QuotedText` up to its closing quote, with the decoded
/// value, or an `Error` from the quote to the end of the line.
pub open spec fn quoted_step(s: Seq<u8>, st: LexView, q: int) -> Step {
    let r = quoted_scan(s, q + 1);
    if r.closed {
        Step {
            next: LexView { pos: r.end, stack: st.stack, mode: Mode::LineRest },
            token: TokenView {
                token_type: TokenType::QuotedText,
                trivia_start: st.pos,
                text_start: q,
                text_end: r.end,
                value: Some(r.value),
            },
        }
    } else {
        emit(st, TokenType::Error, q, r.end, Mode::LineRest)
    }
}

/// An item at `q` on a line: quoted text, a leading `>`, a colon, a word, or
/// an `Error` of one byte for a byte that can start none of them.
pub open spec fn content_step(s: Seq<u8>, st: LexView, q: int, first: bool) -> Step {
    let c = s[q];
    if c == QUOTE {
        quoted_step(s, st, q)
    } else if c == GREATER && first {
        emit(st, TokenType::GreaterThan, q, q + 1, Mode::AfterQuoteMark)
    } else if c == COLON {
        emit(st, TokenType::Colon, q, q + 1, Mode::AfterColon)
    } else if is_word_byte(c) {
        emit(st, TokenType::Word, q, run_end(s, q, ByteClass::WordBody), Mode::LineRest)
    } else {
        emit(st, TokenType::Error, q, q + 1, Mode::LineRest)
    }
}

/// Where the text that starts at `q` and runs to the end of its line ends,
/// trailing blanks cut.
pub open spec fn line_text_end(s: Seq<u8>, q: int) -> int {
    trimmed_end(s, q, run_end(s, q, ByteClass::LineBody))
}

/// The value behind a colon, at `q`: quoted text, the verbatim marker, or
/// the rest of the line.
pub open spec fn value_step(s: Seq<u8>, st: LexView, q: int) -> Step {
    if s[q] == QUOTE {
        quoted_step(s, st, q)
    } else if s[q] == GREATER && line_text_end(s, q) == q + 1 {
        emit(st, TokenType::GreaterThan, q, q + 1, Mode::BlockPending)
    } else {
        emit(st, TokenType::LineText, q, line_text_end(s, q), Mode::LineRest)
    }
}

/// A step inside a line: blanks are trivia, a line feed is `EndOfLine`.
pub open spec fn inline_step(s: Seq<u8>, st: LexView) -> Step {
    let q = run_end(s, st.pos, ByteClass::Blank);
    if q >= s.len() {
        eof_step(s, st)
    } else if s[q] == NEWLINE {
        emit(
            st,
            TokenType::EndOfLine,
            q,
            q + 1,
            if st.mode == Mode::BlockPending {
                Mode::Block
            } else {
                Mode::LineStart
            },
        )
    } else if st.mode == Mode::AfterColon {
        value_step(s, st, q)
    } else if st.mode == Mode::AfterQuoteMark {
        emit(st, TokenType::LineText, q, line_text_end(s, q), Mode::LineRest)
    } else {
        content_step(s, st, q, st.mode == Mode::LineHead)
    }
}

/// A step at the start of a line. The next line with content is compared
/// with the innermost open level: wider opens a level (`Indent`), narrower
/// closes one (`Outdent`), equal goes on to the line's first item.
pub open spec fn line_step(s: Seq<u8>, st: LexView) -> Step {
    let h = next_content(s, st.pos);
    if h.start >= s.len() {
        eof_step(s, st)
    } else if h.width > st.top() {
        Step {
            next: LexView {
                pos: h.start,
                stack: st.stack.push(h.width as usize),
                mode: Mode::LineHead,
            },
            token: emit(st, TokenType::Indent, h.start, h.start, Mode::LineHead).token,
        }
    } else if h.width < st.top() {
        let rest = st.stack.drop_last();
        Step {
            next: LexView {
                pos: st.pos,
                stack: rest,
                mode: if rest.last() < h.width {
                    Mode::Mismatch
                } else {
                    Mode::LineStart
                },
            },
            token: emit(st, TokenType::Outdent, st.pos, st.pos, Mode::LineStart).token,
        }
    } else {
        content_step(s, st, h.start, true)
    }
}

/// One step of the lexer from the state `st` over the buffer `s`.
pub open spec fn step(s: Seq<u8>, st: LexView) -> Step {
    match st.mode {
        Mode::Start => emit(st, TokenType::StartOfInput, st.pos, st.pos, Mode::LineStart),
        Mode::LineStart => line_step(s, st),
        Mode::Block => {
            let e = block_end(s, st.pos, st.top());
            if e > st.pos {
                emit(st, TokenType::BlockText, st.pos, e, Mode::LineStart)
            } else {
                line_step(s, st)
            }
        },
        Mode::Mismatch => {
            let h = next_content(s, st.pos);
            emit(st, TokenType::Error, h.start, h.start, Mode::LineHead)
        },
        Mode::Done => emit(st, TokenType::EndOfInput, st.pos, st.pos, Mode::Done),
        _ => inline_step(s, st),
    }
}

/// Orders the modes in which a step may leave position and stack as they
/// are: from `Start` down to `Done`.
pub open spec fn rank(m: Mode) -> int {
    match m {
        Mode::Start => 2,
        Mode::Done => 0,
        _ => 1,
    }
}

/// The state `b` is nearer to the end than `a`: further in the buffer, or
/// at the same place with fewer open levels, or with the same and a mode of
/// lower rank.
pub open spec fn progresses(a: LexView, b: LexView) -> bool {
    ||| b.pos > a.pos
    ||| b.pos == a.pos && b.stack.len() < a.stack.len()
    ||| b.pos == a.pos && b.stack.len() == a.stack.len() && rank(b.mode) < rank(a.mode)
}

/// What a step does, whatever the buffer holds: the state stays well formed
/// and gets nearer to the end; the token starts where the state stood and
/// ends where the new state stands; the stack grows by one on `Indent`,
/// shrinks by one on `Outdent` and keeps its length otherwise; and the
/// lexer is done exactly when it hands out `EndOfInput`.
pub proof fn lemma_step(s: Seq<u8>, st: LexView)
    requires
        st.wf(s),
        st.mode != Mode::Done,
    ensures
        step(s, st).next.wf(s),
        progresses(st, step(s, st).next),
        step(s, st).token.trivia_start == st.pos,
        step(s, st).token.text_end == step(s, st).next.pos,
        step(s, st).token.in_bounds(s.len() as int),
        step(s, st).next.stack.len() == st.stack.len() + (if step(s, st).token.token_type
            == TokenType::Indent {
            1int
        } else if step(s, st).token.token_type == TokenType::Outdent {
            -1int
        } else {
            0int
        }),
        step(s, st).next.mode == Mode::Done <==> step(s, st).token.token_type
            == TokenType::EndOfInput,
        st.mode == Mode::Start <==> step(s, st).token.token_type == TokenType::StartOfInput,
{
    let q = run_end(s, st.pos, ByteClass::Blank);
    let h = next_content(s, st.pos);
    lemma_run_end(s, st.pos, ByteClass::Blank);
    lemma_next_content(s, st.pos);
    lemma_block_end(s, st.pos, st.top());
    if q < s.len() {
        lemma_quoted_scan(s, q + 1);
        lemma_run_end(s, q, ByteClass::WordBody);
        lemma_run_end(s, q, ByteClass::LineBody);
        lemma_trimmed_end(s, q, run_end(s, q, ByteClass::LineBody));
    }
    if h.start < s.len() {
        lemma_quoted_scan(s, h.start + 1);
        lemma_run_end(s, h.start, ByteClass::WordBody);
    }
}

/// A run of the lexer: the tokens handed out and the state it stopped in.
pub struct LexRun {
    pub tokens: Seq<TokenView>,
    pub last: LexView,
}

/// The lexer run from the state `st` until it is done. The two tests on the
/// state hold of every step from a well-formed state (see [`lemma_step`]).
pub open spec fn run_from(s: Seq<u8>, st: LexView) -> LexRun
    decreases s.len() - st.pos, st.stack.len(), rank(st.mode),
{
    if st.mode == Mode::Done || !st.wf(s) {
        LexRun { tokens: Seq::empty(), last: st }
    } else {
        let r = step(s, st);
        if r.next.wf(s) && progresses(st, r.next) {
            let rest = run_from(s, r.next);
            LexRun { tokens: seq![r.token] + rest.tokens, last: rest.last }
        } else {
            LexRun { tokens: seq![r.token], last: r.next }
        }
    }
}

/// The state in which lexing starts.
pub open spec fn initial() -> LexView {
    LexView { pos: 0, stack: seq![0usize], mode: Mode::Start }
}

/// The token stream of the buffer `s`.
pub open spec fn lex_spec(s: Seq<u8>) -> Seq<TokenView> {
    run_from(s, initial()).tokens
}

/// What holds of the run from any well-formed state that is not done: it
/// ends done with the stack back at its bottom; its last token is
/// `EndOfInput`; its tokens lie in the buffer and stand for the bytes from
/// the state's position to the end; and the levels opened and closed in it
/// close those that were open.
pub proof fn lemma_run(s: Seq<u8>, st: LexView)
    requires
        st.wf(s),
        st.mode != Mode::Done,
    ensures
        run_from(s, st).last.mode == Mode::Done,
        run_from(s, st).last.stack == seq![0usize],
        run_from(s, st).tokens.len() >= 1,
        run_from(s, st).tokens[0] == step(s, st).token,
        run_from(s, st).tokens.last().token_type == TokenType::EndOfInput,
        forall|i: int|
            0 <= i < run_from(s, st).tokens.len() ==> (#[trigger] run_from(s, st).tokens[i]).in_bounds(
                s.len() as int,
            ),
        contiguous(run_from(s, st).tokens),
        rebuild(run_from(s, st).tokens, s) == s.subrange(st.pos, s.len() as int),
        count_of(run_from(s, st).tokens, TokenType::Indent) + st.stack.len() == count_of(
            run_from(s, st).tokens,
            TokenType::Outdent,
        ) + 1,
    decreases s.len() - st.pos, st.stack.len(), rank(st.mode),
{
    lemma_step(s, st);
    let r = step(s, st);
    let rest = run_from(s, r.next);
    let all = run_from(s, st).tokens;
    assert(all == seq![r.token] + rest.tokens);
    assert(all.drop_first() =~= rest.tokens);
    let own = r.token.trivia(s) + r.token.text(s);
    assert(own =~= s.subrange(st.pos, r.next.pos));
    if r.next.mode == Mode::Done {
        assert(rest.tokens =~= Seq::empty());
        assert(r.next.stack =~= seq![0usize]);
        assert(rebuild(rest.tokens, s) =~= s.subrange(r.next.pos, s.len() as int));
        assert(count_of(rest.tokens, TokenType::Indent) == 0);
        assert(count_of(rest.tokens, TokenType::Outdent) == 0);
    } else {
        lemma_run(s, r.next);
        lemma_step(s, r.next);
    }
    assert forall|i: int| 0 <= i < all.len() - 1 implies #[trigger] joins(all, i) by {
        assert(all[i + 1] == rest.tokens[i]);
        if i > 0 {
            assert(all[i] == rest.tokens[i - 1]);
            assert(joins(rest.tokens, i - 1));
        }
    }
    assert(rebuild(all, s) == own + rebuild(rest.tokens, s));
    assert(own + s.subrange(r.next.pos, s.len() as int) =~= s.subrange(st.pos, s.len() as int));
}

/// The run from a well-formed state is well nested over the levels that
/// the state has open.
pub proof fn lemma_run_nested(s: Seq<u8>, st: LexView)
    requires
        st.wf(s),
        st.mode != Mode::Done,
    ensures
        well_nested(run_from(s, st).tokens, st.stack.len() as int),
    decreases s.len() - st.pos, st.stack.len(), rank(st.mode),
{
    lemma_step(s, st);
    let r = step(s, st);
    let rest = run_from(s, r.next).tokens;
    let all = run_from(s, st).tokens;
    let base = st.stack.len() as int;
    let after = r.next.stack.len() as int;
    assert(all == seq![r.token] + rest);
    assert(after == base + level_change(r.token.token_type));
    if r.next.mode == Mode::Done {
        assert(rest =~= Seq::empty());
    } else {
        lemma_run_nested(s, r.next);
    }
    assert(levels_from(all, base, 0) == base);
    assert forall|k: int| 0 <= k < all.len() implies #[trigger] nests_at(all, base, k) by {
        if k > 0 {
            lemma_levels_shift(r.token, rest, base, k);
            assert(all[k] == rest[k - 1]);
            assert(nests_at(rest, after, k - 1));
        }
    }
    lemma_levels_shift(r.token, rest, base, all.len() as int);
}

/// A stream closes a level only where one is open above the bottom, and
/// ends where only the bottom is open.
pub proof fn law_well_nested(s: Seq<u8>)
    ensures
        well_nested(lex_spec(s), 1),
{
    lemma_run_nested(s, initial());
}

/// In the run from a well-formed state `EndOfInput` is the last token and
/// no other.
pub proof fn lemma_run_ends_once(s: Seq<u8>, st: LexView)
    requires
        st.wf(s),
        st.mode != Mode::Done,
    ensures
        ends_once(run_from(s, st).tokens),
    decreases s.len() - st.pos, st.stack.len(), rank(st.mode),
{
    lemma_step(s, st);
    let r = step(s, st);
    let rest = run_from(s, r.next).tokens;
    let all = run_from(s, st).tokens;
    assert(all == seq![r.token] + rest);
    if r.next.mode == Mode::Done {
        assert(rest =~= Seq::empty());
    } else {
        lemma_run_ends_once(s, r.next);
        lemma_run(s, r.next);
    }
    assert forall|k: int|
        0 <= k < all.len() && (#[trigger] all[k]).token_type == TokenType::EndOfInput implies k
        == all.len() - 1 by {
        if k > 0 {
            assert(all[k] == rest[k - 1]);
        }
    }
}

/// Lexing loses nothing: the trivia and text of the tokens, joined in the
/// order of the stream, are the buffer, byte for byte.
pub proof fn law_lossless(s: Seq<u8>)
    ensures
        rebuild(lex_spec(s), s) == s,
{
    lemma_run(s, initial());
    assert(s.subrange(0, s.len() as int) =~= s);
}

/// A stream opens as many levels as it closes, and the indentation stack
/// is back at its bottom, the width 0, when the lexer is done.
pub proof fn law_indent_balance(s: Seq<u8>)
    ensures
        count_of(lex_spec(s), TokenType::Indent) == count_of(lex_spec(s), TokenType::Outdent),
        run_from(s, initial()).last.mode == Mode::Done,
        run_from(s, initial()).last.stack == seq![0usize],
{
    lemma_run(s, initial());
}

/// A stream starts with `StartOfInput` at offset 0 and ends with
/// `EndOfInput` at the buffer's end, which stands nowhere else; each token
/// starts where the one before it ends, and the offsets of each are ordered
/// and lie in the buffer.
pub proof fn law_sentinels(s: Seq<u8>)
    ensures
        ends_once(lex_spec(s)),
        lex_spec(s).len() >= 2,
        lex_spec(s)[0].token_type == TokenType::StartOfInput,
        lex_spec(s)[0].trivia_start == 0,
        lex_spec(s).last().token_type == TokenType::EndOfInput,
        contiguous(lex_spec(s)),
        forall|i: int| 0 <= i < lex_spec(s).len() ==> (#[trigger] lex_spec(s)[i]).in_bounds(s.len() as int),
{
    lemma_run(s, initial());
    lemma_step(s, initial());
    lemma_run_ends_once(s, initial());
}

/// The views of a sequence of tokens.
pub open spec fn views(tokens: Seq<Token>) -> Seq<TokenView> {
    tokens.map_values(|t: Token| t@)
}

/// The lexer over one buffer.
#[derive(Debug)]
pub struct Lexer<'a> {
    pub content: &'a SourceBuffer,
    pub pos: usize,
    pub stack: Vec<usize>,
    pub mode: Mode,
}

impl<'a> View for Lexer<'a> {
    type V = LexView;

    open spec fn view(&self) -> LexView {
        LexView { pos: self.pos as int, stack: self.stack@, mode: self.mode }
    }
}

impl<'a> Lexer<'a> {
    /// The lexer's state is well formed over its buffer.
    pub open spec fn wf(&self) -> bool {
        self@.wf(self.content@)
    }

    /// A lexer at the start of `content`.
    pub fn new(content: &'a SourceBuffer) -> (lexer: Lexer<'a>)
        ensures
            lexer@ == initial(),
            lexer.content == content,
            lexer.wf(),
    {
        let mut stack: Vec<usize> = Vec::new();
        stack.push(0);
        let lexer = Lexer { content, pos: 0, stack, mode: Mode::Start };
        assert(lexer@.stack =~= initial().stack);
        lexer
    }

    /// Whether `EndOfInput` was handed out.
    pub fn is_done(&self) -> (done: bool)
        ensures
            done == (self.mode == Mode::Done),
    {
        match self.mode {
            Mode::Done => true,
            _ => false,
        }
    }

    fn emit(
        &mut self,
        t: TokenType,
        text_start: usize,
        text_end: usize,
        mode: Mode,
    ) -> (tok: Token<'a>)
        requires
            old(self).pos <= text_start <= text_end <= old(self).content@.len(),
        ensures
            final(self)@ == emit(old(self)@, t, text_start as int, text_end as int, mode).next,
            tok@ == emit(old(self)@, t, text_start as int, text_end as int, mode).token,
            tok.content == old(self).content,
            final(self).content == old(self).content,
    {
        let tok = Token {
            token_type: t,
            content: self.content,
            trivia_start: self.pos,
            text_start,
            text_end,
            value: None,
        };
        self.pos = text_end;
        self.mode = mode;
        tok
    }

    fn eof_token(&mut self) -> (tok: Token<'a>)
        requires
            old(self).wf(),
        ensures
            final(self)@ == eof_step(old(self).content@, old(self)@).next,
            tok@ == eof_step(old(self).content@, old(self)@).token,
            tok.content == old(self).content,
            final(self).content == old(self).content,
    {
        if self.stack.len() > 1 {
            let at: usize = self.pos;
            let tok = self.emit(TokenType::Outdent, at, at, Mode::LineStart);
            self.stack.pop();
            tok
        } else {
            let n: usize = self.content.len();
            self.emit(TokenType::EndOfInput, n, n, Mode::Done)
        }
    }

    fn quoted_token(&mut self, q: usize) -> (tok: Token<'a>)
        requires
            old(self).wf(),
            old(self).pos <= q < old(self).content@.len(),
        ensures
            final(self)@ == quoted_step(old(self).content@, old(self)@, q as int).next,
            tok@ == quoted_step(old(self).content@, old(self)@, q as int).token,
            tok.content == old(self).content,
            final(self).content == old(self).content,
    {
        let n: usize = self.content.len();
        assert(q < n);
        let r = scan_quoted(self.content, q + 1);
        if r.closed {
            let tok = Token {
                token_type: TokenType::QuotedText,
                content: self.content,
                trivia_start: self.pos,
                text_start: q,
                text_end: r.end,
                value: Some(r.value),
            };
            self.pos = r.end;
            self.mode = Mode::LineRest;
            tok
        } else {
            self.emit(TokenType::Error, q, r.end, Mode::LineRest)
        }
    }

    fn content_token(&mut self, q: usize, first: bool) -> (tok: Token<'a>)
        requires
            old(self).wf(),
            old(self).pos <= q < old(self).content@.len(),
        ensures
            final(self)@ == content_step(old(self).content@, old(self)@, q as int, first).next,
            tok@ == content_step(old(self).content@, old(self)@, q as int, first).token,
            tok.content == old(self).content,
            final(self).content == old(self).content,
    {
        let n: usize = self.content.len();
        assert(q < n);
        let c = self.content.byte_at(q);
        if c == QUOTE {
            self.quoted_token(q)
        } else if c == GREATER && first {
            self.emit(TokenType::GreaterThan, q, q + 1, Mode::AfterQuoteMark)
        } else if c == COLON {
            self.emit(TokenType::Colon, q, q + 1, Mode::AfterColon)
        } else if crate::scan::class_has(ByteClass::WordBody, c) {
            let e: usize = scan_run(self.content, q, ByteClass::WordBody);
            self.emit(TokenType::Word, q, e, Mode::LineRest)
        } else {
            self.emit(TokenType::Error, q, q + 1, Mode::LineRest)
        }
    }

    fn text_end(&self, q: usize) -> (e: usize)
        requires
            q <= self.content@.len(),
        ensures
            e == line_text_end(self.content@, q as int),
            q <= e <= self.content@.len(),
    {
        let eol: usize = scan_run(self.content, q, ByteClass::LineBody);
        trim_end(self.content, q, eol)
    }

    fn value_token(&mut self, q: usize) -> (tok: Token<'a>)
        requires
            old(self).wf(),
            old(self).pos <= q < old(self).content@.len(),
        ensures
            final(self)@ == value_step(old(self).content@, old(self)@, q as int).next,
            tok@ == value_step(old(self).content@, old(self)@, q as int).token,
            tok.content == old(self).content,
            final(self).content == old(self).content,
    {
        let n: usize = self.content.len();
        assert(q < n);
        let c = self.content.byte_at(q);
        if c == QUOTE {
            self.quoted_token(q)
        } else {
            let e: usize = self.text_end(q);
            if c == GREATER && e == q + 1 {
                self.emit(TokenType::GreaterThan, q, q + 1, Mode::BlockPending)
            } else {
                self.emit(TokenType::LineText, q, e, Mode::LineRest)
            }
        }
    }

    fn inline_token(&mut self) -> (tok: Token<'a>)
        requires
            old(self).wf(),
        ensures
            final(self)@ == inline_step(old(self).content@, old(self)@).next,
            tok@ == inline_step(old(self).content@, old(self)@).token,
            tok.content == old(self).content,
            final(self).content == old(self).content,
    {
        let q: usize = scan_run(self.content, self.pos, ByteClass::Blank);
        if q >= self.content.len() {
            self.eof_token()
        } else if self.content.byte_at(q) == NEWLINE {
            let after = match self.mode {
                Mode::BlockPending => Mode::Block,
                _ => Mode::LineStart,
            };
            self.emit(TokenType::EndOfLine, q, q + 1, after)
        } else {
            match self.mode {
                Mode::AfterColon => self.value_token(q),
                Mode::AfterQuoteMark => {
                    let e: usize = self.text_end(q);
                    self.emit(TokenType::LineText, q, e, Mode::LineRest)
                },
                Mode::LineHead => self.content_token(q, true),
                _ => self.content_token(q, false),
            }
        }
    }

    fn line_token(&mut self) -> (tok: Token<'a>)
        requires
            old(self).wf(),
        ensures
            final(self)@ == line_step(old(self).content@, old(self)@).next,
            tok@ == line_step(old(self).content@, old(self)@).token,
            tok.content == old(self).content,
            final(self).content == old(self).content,
    {
        let head = find_content(self.content, self.pos);
        let start: usize = head.0;
        let width: usize = head.1;
        let top: usize = self.stack[self.stack.len() - 1];
        if start >= self.content.len() {
            self.eof_token()
        } else if width > top {
            let tok = self.emit(TokenType::Indent, start, start, Mode::LineHead);
            self.stack.push(width);
            tok
        } else if width < top {
            let at: usize = self.pos;
            let tok = self.emit(TokenType::Outdent, at, at, Mode::LineStart);
            self.stack.pop();
            if self.stack[self.stack.len() - 1] < width {
                self.mode = Mode::Mismatch;
            }
            tok
        } else {
            self.content_token(start, true)
        }
    }

    /// Hands out the next token. Once the lexer is done it stays done and
    /// hands out `EndOfInput` again.
    pub fn next_token(&mut self) -> (tok: Token<'a>)
        requires
            old(self).wf(),
        ensures
            final(self)@ == step(old(self).content@, old(self)@).next,
            tok@ == step(old(self).content@, old(self)@).token,
            tok.content == old(self).content,
            final(self).content == old(self).content,
            final(self).wf(),
            tok.wf(),
    {
        proof {
            if self.mode != Mode::Done {
                lemma_step(self.content@, self@);
            }
            lemma_next_content(self.content@, self@.pos);
        }
        match self.mode {
            Mode::Start => {
                let at: usize = self.pos;
                self.emit(TokenType::StartOfInput, at, at, Mode::LineStart)
            },
            Mode::LineStart => self.line_token(),
            Mode::Block => {
                let top: usize = self.stack[self.stack.len() - 1];
                let e: usize = find_block_end(self.content, self.pos, top);
                if e > self.pos {
                    let at: usize = self.pos;
                    self.emit(TokenType::BlockText, at, e, Mode::LineStart)
                } else {
                    self.line_token()
                }
            },
            Mode::Mismatch => {
                let head = find_content(self.content, self.pos);
                self.emit(TokenType::Error, head.0, head.0, Mode::LineHead)
            },
            Mode::Done => {
                let at: usize = self.pos;
                self.emit(TokenType::EndOfInput, at, at, Mode::Done)
            },
            _ => self.inline_token(),
        }
    }
}

/// Lexes a whole buffer: the stream that [`lex_spec`] describes, each token
/// borrowing `content`. The stream stands for the buffer byte for byte,
/// opens as many levels as it closes, and starts and ends with its
/// sentinels.
pub fn lex<'a>(content: &'a SourceBuffer) -> (tokens: Vec<Token<'a>>)
    ensures
        views(tokens@) == lex_spec(content@),
        forall|i: int| 0 <= i < tokens@.len() ==> (#[trigger] tokens@[i]).content == content,
        forall|i: int| 0 <= i < tokens@.len() ==> (#[trigger] tokens@[i]).wf(),
        rebuild(views(tokens@), content@) == content@,
        count_of(views(tokens@), TokenType::Indent) == count_of(views(tokens@), TokenType::Outdent),
        tokens@.len() >= 2,
        tokens@[0].token_type == TokenType::StartOfInput,
        tokens@.last().token_type == TokenType::EndOfInput,
{
    proof {
        law_lossless(content@);
        law_indent_balance(content@);
        law_sentinels(content@);
    }
    let mut lexer = Lexer::new(content);
    let mut tokens: Vec<Token<'a>> = Vec::new();
    assert(views(tokens@) + run_from(content@, lexer@).tokens =~= lex_spec(content@));
    while !lexer.is_done()
        invariant
            lexer.wf(),
            lexer.content == content,
            views(tokens@) + run_from(content@, lexer@).tokens == lex_spec(content@),
            forall|i: int| 0 <= i < tokens@.len() ==> (#[trigger] tokens@[i]).content == content,
            forall|i: int| 0 <= i < tokens@.len() ==> (#[trigger] tokens@[i]).wf(),
        decreases content@.len() - lexer@.pos, lexer@.stack.len(), rank(lexer@.mode),
    {
        let ghost before = lexer@;
        let ghost seen = tokens@;
        proof {
            lemma_step(content@, before);
        }
        let tok = lexer.next_token();
        tokens.push(tok);
        proof {
            let rest = run_from(content@, lexer@).tokens;
            assert(run_from(content@, before).tokens == seq![tok@] + rest);
            assert(views(tokens@) =~= views(seen).push(tok@));
            assert(views(seen).push(tok@) + rest =~= views(seen) + (seq![tok@] + rest));
        }
    }
    assert(views(tokens@) + run_from(content@, lexer@).tokens =~= views(tokens@));
    tokens
}

} // verus!
