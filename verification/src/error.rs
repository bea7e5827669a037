//! The error model: what can be wrong with an input, and where.

use vstd::prelude::*;

verus! {

/// The kinds of error. The first three are lexical: they stand in the token
/// stream as `Error` tokens. The others are structural: the parser finds
/// them.
#[derive(Copy, Clone, PartialEq, Eq, Structural, Debug)]
pub enum ErrorKind {
    InvalidCharacter,
    UnterminatedQuotedText,
    InconsistentIndentation,
    UnexpectedToken,
    UnmatchedOutdent,
    UnmatchedIndentAtEnd,
    MalformedKeyValue,
}

/// One diagnostic: its kind and the byte offset it points at.
#[derive(Copy, Clone, PartialEq, Eq, Structural, Debug)]
pub struct ParsingError {
    pub kind: ErrorKind,
    pub location: usize,
}

/// The kind is one of the three that the lexer reports.
pub open spec fn is_lexical_kind(kind: ErrorKind) -> bool {
    kind == ErrorKind::InvalidCharacter || kind == ErrorKind::UnterminatedQuotedText || kind
        == ErrorKind::InconsistentIndentation
}

/// The words that describe a kind of error.
pub open spec fn detail_of(kind: ErrorKind) -> Seq<char> {
    match kind {
        ErrorKind::InvalidCharacter => "invalid character"@,
        ErrorKind::UnterminatedQuotedText => "quoted text is not closed before the end of the line"@,
        ErrorKind::InconsistentIndentation => "unindent does not match any enclosing level"@,
        ErrorKind::UnexpectedToken => "unexpected token"@,
        ErrorKind::UnmatchedOutdent => "outdent without an open scope"@,
        ErrorKind::UnmatchedIndentAtEnd => "input ends inside an open scope"@,
        ErrorKind::MalformedKeyValue => "key/value line lacks its key or its value"@,
    }
}

impl ParsingError {
    /// Whether the error came from the lexer.
    pub fn is_lexical(&self) -> (r: bool)
        ensures
            r == is_lexical_kind(self.kind),
    {
        match self.kind {
            ErrorKind::InvalidCharacter => true,
            ErrorKind::UnterminatedQuotedText => true,
            ErrorKind::InconsistentIndentation => true,
            _ => false,
        }
    }

    /// A description of the error for a human reader.
    pub fn detail(&self) -> (text: &'static str)
        ensures
            text@ == detail_of(self.kind),
    {
        match self.kind {
            ErrorKind::InvalidCharacter => "invalid character",
            ErrorKind::UnterminatedQuotedText => "quoted text is not closed before the end of the line",
            ErrorKind::InconsistentIndentation => "unindent does not match any enclosing level",
            ErrorKind::UnexpectedToken => "unexpected token",
            ErrorKind::UnmatchedOutdent => "outdent without an open scope",
            ErrorKind::UnmatchedIndentAtEnd => "input ends inside an open scope",
            ErrorKind::MalformedKeyValue => "key/value line lacks its key or its value",
        }
    }
}

/// How many of the errors are lexical.
pub open spec fn lexical_count(errors: Seq<ParsingError>) -> nat
    decreases errors.len(),
{
    if errors.len() == 0 {
        0
    } else {
        lexical_count(errors.drop_last()) + (if is_lexical_kind(errors.last().kind) {
            1nat
        } else {
            0nat
        })
    }
}

/// One more error is one more lexical error exactly where it is lexical.
pub proof fn lemma_lexical_push(errors: Seq<ParsingError>, e: ParsingError)
    ensures
        lexical_count(errors.push(e)) == lexical_count(errors) + (if is_lexical_kind(e.kind) {
            1nat
        } else {
            0nat
        }),
{
    assert(errors.push(e).drop_last() =~= errors);
}

} // verus!
