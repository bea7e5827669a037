//! The token model: what the lexer produces and the parser consumes.

use vstd::prelude::*;
use crate::source::SourceBuffer;

verus! {

/// The tag of a token.
#[derive(Copy, Clone, PartialEq, Eq, Structural, Debug)]
pub enum TokenType {
    Error,
    // whitespace/control
    StartOfInput,
    EndOfInput,
    EndOfLine,
    Indent,
    Outdent,
    // text
    Word,
    LineText,
    QuotedText,
    BlockText,
    // symbols
    Colon,
    GreaterThan,
}

/// A token as a mathematical value: its tag, its three offsets and its
/// decoded value, without the borrowed buffer.
pub struct TokenView {
    pub token_type: TokenType,
    pub trivia_start: int,
    pub text_start: int,
    pub text_end: int,
    pub value: Option<Seq<u8>>,
}

impl TokenView {
    /// The offsets are ordered and lie inside a buffer of `len` bytes.
    pub open spec fn in_bounds(self, len: int) -> bool {
        0 <= self.trivia_start <= self.text_start <= self.text_end <= len
    }

    /// The token's trivia, cut from `source`.
    pub open spec fn trivia(self, source: Seq<u8>) -> Seq<u8> {
        source.subrange(self.trivia_start, self.text_start)
    }

    /// The token's text, cut from `source`.
    pub open spec fn text(self, source: Seq<u8>) -> Seq<u8> {
        source.subrange(self.text_start, self.text_end)
    }
}

/// One token: `trivia_start..text_start` is the whitespace and comment
/// material before it, `text_start..text_end` its significant text. `value`
/// is the decoded form of text that holds escapes.
#[derive(Debug)]
pub struct Token<'a> {
    pub token_type: TokenType,
    pub content: &'a SourceBuffer,
    pub trivia_start: usize,
    pub text_start: usize,
    pub text_end: usize,
    pub value: Option<Vec<u8>>,
}

impl<'a> View for Token<'a> {
    type V = TokenView;

    open spec fn view(&self) -> TokenView {
        TokenView {
            token_type: self.token_type,
            trivia_start: self.trivia_start as int,
            text_start: self.text_start as int,
            text_end: self.text_end as int,
            value: match self.value {
                Some(v) => Some(v@),
                None => None,
            },
        }
    }
}

impl<'a> Token<'a> {
    /// The token's offsets are ordered and lie inside its buffer.
    pub open spec fn wf(&self) -> bool {
        self@.in_bounds(self.content@.len() as int)
    }

    /// The whitespace and comment material before the token's text.
    pub fn trivia(&self) -> (part: &'a [u8])
        requires
            self.wf(),
        ensures
            part@ == self@.trivia(self.content@),
    {
        self.content.slice(self.trivia_start, self.text_start)
    }

    /// The token's text, as it stands in the buffer.
    pub fn text(&self) -> (part: &'a [u8])
        requires
            self.wf(),
        ensures
            part@ == self@.text(self.content@),
    {
        self.content.slice(self.text_start, self.text_end)
    }

    /// The decoded value where the token has one, else its text.
    pub fn value_or_text(&self) -> (part: &[u8])
        requires
            self.value is None ==> self.wf(),
        ensures
            part@ == match self@.value {
                Some(v) => v,
                None => self@.text(self.content@),
            },
    {
        match &self.value {
            Some(value) => value.as_slice(),
            None => self.text(),
        }
    }
}

/// The bytes that a token stream stands for: each token's trivia followed
/// by its text, in the order of the stream.
pub open spec fn rebuild(tokens: Seq<TokenView>, source: Seq<u8>) -> Seq<u8>
    decreases tokens.len(),
{
    if tokens.len() == 0 {
        Seq::empty()
    } else {
        tokens[0].trivia(source) + tokens[0].text(source) + rebuild(tokens.drop_first(), source)
    }
}

/// How many tokens of the stream have the tag `t`.
pub open spec fn count_of(tokens: Seq<TokenView>, t: TokenType) -> nat
    decreases tokens.len(),
{
    if tokens.len() == 0 {
        0
    } else {
        (if tokens[0].token_type == t {
            1nat
        } else {
            0nat
        }) + count_of(tokens.drop_first(), t)
    }
}

/// The token at `i` ends where the next one starts.
pub open spec fn joins(tokens: Seq<TokenView>, i: int) -> bool {
    tokens[i].text_end == tokens[i + 1].trivia_start
}

/// Each token starts where the one before it ends.
pub open spec fn contiguous(tokens: Seq<TokenView>) -> bool {
    forall|i: int| 0 <= i < tokens.len() - 1 ==> #[trigger] joins(tokens, i)
}

/// What a token does to the number of open levels.
pub open spec fn level_change(t: TokenType) -> int {
    match t {
        TokenType::Indent => 1,
        TokenType::Outdent => -1,
        _ => 0,
    }
}

/// The number of levels open in front of the token at `k`, where `base`
/// were open in front of the stream.
pub open spec fn levels_from(tokens: Seq<TokenView>, base: int, k: int) -> int
    decreases k,
{
    if k <= 0 || k > tokens.len() {
        base
    } else {
        levels_from(tokens, base, k - 1) + level_change(tokens[k - 1].token_type)
    }
}

/// The token at `k` fits the levels open in front of it: an `Outdent`
/// closes a level above the bottom one, and `EndOfInput` finds only the
/// bottom one open.
pub open spec fn nests_at(tokens: Seq<TokenView>, base: int, k: int) -> bool {
    &&& tokens[k].token_type == TokenType::Outdent ==> levels_from(tokens, base, k) > 1
    &&& tokens[k].token_type == TokenType::EndOfInput ==> levels_from(tokens, base, k) == 1
}

/// Every token of the stream fits the levels open in front of it, and the
/// stream leaves only the bottom level open.
pub open spec fn well_nested(tokens: Seq<TokenView>, base: int) -> bool {
    &&& forall|k: int| 0 <= k < tokens.len() ==> #[trigger] nests_at(tokens, base, k)
    &&& levels_from(tokens, base, tokens.len() as int) == 1
}

/// The levels in front of a token do not depend on the tokens behind it.
pub proof fn lemma_levels_shift(first: TokenView, rest: Seq<TokenView>, base: int, k: int)
    requires
        1 <= k <= rest.len() + 1,
    ensures
        levels_from(seq![first] + rest, base, k) == levels_from(
            rest,
            base + level_change(first.token_type),
            k - 1,
        ),
    decreases k,
{
    let all = seq![first] + rest;
    if k > 1 {
        lemma_levels_shift(first, rest, base, k - 1);
        assert(all[k - 1] == rest[k - 2]);
    } else {
        assert(all[0] == first);
        assert(levels_from(all, base, 0) == base);
    }
}

/// How many of the first `k` tokens are `Error` tokens.
pub open spec fn errors_before(tokens: Seq<TokenView>, k: int) -> nat
    decreases k,
{
    if k <= 0 || k > tokens.len() {
        0
    } else {
        errors_before(tokens, k - 1) + (if tokens[k - 1].token_type == TokenType::Error {
            1nat
        } else {
            0nat
        })
    }
}

/// `EndOfInput` stands nowhere but at the end of the stream.
pub open spec fn ends_once(tokens: Seq<TokenView>) -> bool {
    forall|k: int|
        0 <= k < tokens.len() && (#[trigger] tokens[k]).token_type == TokenType::EndOfInput ==> k
            == tokens.len() - 1
}

} // verus!
