//! The parser: a state machine over the token stream that builds the tree
//! and collects the diagnostics, its mathematical description, and what
//! holds of every parse.
//!
//! Each step consumes at least one token and looks at most two tokens
//! ahead. Nothing makes the parser stop before the stream ends: what does
//! not fit becomes a diagnostic, and the tokens up to the end of the line
//! are passed over.

use vstd::prelude::*;
use crate::source::SourceBuffer;
use crate::tokens::{
    Token, TokenType, TokenView, levels_from, nests_at, well_nested, errors_before, ends_once,
};
use crate::scan::QUOTE;
use crate::error::{ErrorKind, ParsingError, lexical_count, lemma_lexical_push};
use crate::nodes::{Entry, Item, NodeKind, SyntaxTree, is_node_handle, tree_wf, depth_of};
use crate::lexer::{lex, lex_spec, views, law_well_nested, law_sentinels};

verus! {

/// Where in a line the parser stands.
#[derive(Copy, Clone, PartialEq, Eq, Structural, Debug)]
pub enum Phase {
    /// In front of a line.
    LineStart,
    /// Inside the header line of a section: its items become children.
    InLine,
    /// Behind a complete line: anything more on it is unexpected.
    AfterLine,
    /// Behind a diagnostic: the rest of the line is passed over.
    Skipping,
}

/// The parser's state as a mathematical value.
pub struct ParseView {
    /// The index of the next token.
    pub pos: int,
    /// The tree built so far.
    pub entries: Seq<Entry>,
    /// The diagnostics so far, in the order of the input.
    pub errors: Seq<ParsingError>,
    /// The handles of the nodes whose scopes are open, the root first.
    pub scopes: Seq<usize>,
    /// The node of the last line in the innermost scope: an `Indent` opens
    /// its scope, and a verbatim block becomes its child.
    pub header: Option<usize>,
    pub phase: Phase,
}

impl ParseView {
    /// The node of the innermost open scope.
    pub open spec fn top(self) -> usize {
        self.scopes.last()
    }

    /// The handle that the next entry gets.
    pub open spec fn handle(self) -> usize {
        self.entries.len() as usize
    }

    /// The node that takes what belongs to the last line: the header, or
    /// the innermost scope where there is none.
    pub open spec fn owner(self) -> usize {
        match self.header {
            Some(h) => h,
            None => self.top(),
        }
    }

    /// The state with one more node, under `parent`.
    pub open spec fn with_node(self, kind: NodeKind, parent: usize) -> ParseView {
        ParseView { entries: self.entries.push(Entry { item: Item::Node(kind), parent }), ..self }
    }

    /// The state with the token at `index` as one more leaf, under `parent`.
    pub open spec fn with_token(self, index: int, parent: usize) -> ParseView {
        ParseView {
            entries: self.entries.push(Entry { item: Item::Token(index as usize), parent }),
            ..self
        }
    }

    /// The state with one more diagnostic.
    pub open spec fn with_error(self, kind: ErrorKind, location: int) -> ParseView {
        ParseView {
            errors: self.errors.push(ParsingError { kind, location: location as usize }),
            ..self
        }
    }

    /// An `Error` token becomes a node of kind `Error` that holds the token,
    /// and a diagnostic of the token's lexical kind at the token's text.
    pub open spec fn with_error_node(
        self,
        s: Seq<u8>,
        tokens: Seq<TokenView>,
        index: int,
        parent: usize,
    ) -> ParseView {
        self.with_node(NodeKind::Error, parent).with_token(index, self.handle()).with_error(
            lexical_kind(s, tokens[index]),
            tokens[index].text_start,
        )
    }

    /// The state with other scopes open.
    pub open spec fn with_scopes(self, scopes: Seq<usize>) -> ParseView {
        ParseView { scopes, ..self }
    }

    /// The state moved to `pos`, with another header and phase.
    pub open spec fn at(self, pos: int, header: Option<usize>, phase: Phase) -> ParseView {
        ParseView { pos, header, phase, ..self }
    }

    /// The open scopes are nested one in the other: the node of each lies
    /// as many steps under the root as scopes were opened before it, and a
    /// header lies one step under the innermost.
    pub open spec fn nested(self) -> bool {
        &&& forall|j: int|
            0 <= j < self.scopes.len() ==> depth_of(self.entries, (#[trigger] self.scopes[j]) as int)
                == j
        &&& match self.header {
            Some(h) => depth_of(self.entries, h as int) == self.scopes.len(),
            None => true,
        }
    }

    /// The position lies in the stream, the entries form a tree, and the
    /// open scopes and the header are nodes of it.
    pub open spec fn wf(self, n: int) -> bool {
        &&& 0 <= self.pos <= n
        &&& tree_wf(self.entries)
        &&& self.entries.len() <= usize::MAX
        &&& self.scopes.len() >= 1
        &&& forall|j: int|
            0 <= j < self.scopes.len() ==> is_node_handle(self.entries, #[trigger] self.scopes[j])
        &&& match self.header {
            Some(h) => is_node_handle(self.entries, h),
            None => true,
        }
    }
}

/// Which lexical error an `Error` token stands for: one without text, an
/// indentation that matches no open level; one that starts with a quote, a
/// quoted text that is not closed; any other, a byte that no token can
/// start with.
pub open spec fn lexical_kind(s: Seq<u8>, t: TokenView) -> ErrorKind {
    if t.text_start >= t.text_end {
        ErrorKind::InconsistentIndentation
    } else if 0 <= t.text_start < s.len() && s[t.text_start] == QUOTE {
        ErrorKind::UnterminatedQuotedText
    } else {
        ErrorKind::InvalidCharacter
    }
}

/// The tag of the token at `i`, where the stream has one.
pub open spec fn type_at(tokens: Seq<TokenView>, i: int) -> Option<TokenType> {
    if 0 <= i < tokens.len() {
        Some(tokens[i].token_type)
    } else {
        None
    }
}

/// A word in front of a colon, at the start of a line: a key/value line, a
/// key that owns a verbatim block, or a key whose value is missing.
pub open spec fn key_step(s: Seq<u8>, tokens: Seq<TokenView>, st: ParseView) -> ParseView {
    let k = st.handle();
    let value = type_at(tokens, st.pos + 2);
    if value == Some(TokenType::LineText) || value == Some(TokenType::QuotedText) {
        st.with_node(NodeKind::KeyValue, st.top()).with_token(st.pos, k).with_token(st.pos + 2, k).at(
            st.pos + 3,
            Some(k),
            Phase::AfterLine,
        )
    } else if value == Some(TokenType::Error) {
        st.with_node(NodeKind::KeyValue, st.top()).with_token(st.pos, k).with_error_node(
            s,
            tokens,
            st.pos + 2,
            k,
        ).at(st.pos + 3, Some(k), Phase::AfterLine)
    } else if value == Some(TokenType::GreaterThan) {
        st.with_node(NodeKind::VerbatimBlock, st.top()).with_token(st.pos, k).at(
            st.pos + 3,
            Some(k),
            Phase::AfterLine,
        )
    } else {
        st.with_error(ErrorKind::MalformedKeyValue, tokens[st.pos + 1].text_start).with_node(
            NodeKind::KeyValue,
            st.top(),
        ).with_token(st.pos, k).at(st.pos + 2, Some(k), Phase::Skipping)
    }
}

/// The first item of a line.
pub open spec fn head_step(s: Seq<u8>, tokens: Seq<TokenView>, st: ParseView) -> ParseView {
    let t = tokens[st.pos];
    let k = st.handle();
    let next = type_at(tokens, st.pos + 1);
    match t.token_type {
        TokenType::Error => st.with_error_node(s, tokens, st.pos, st.top()).at(
            st.pos + 1,
            st.header,
            Phase::LineStart,
        ),
        TokenType::LineText => st.with_error(ErrorKind::UnexpectedToken, t.text_start).at(
            st.pos + 1,
            None,
            Phase::Skipping,
        ),
        TokenType::GreaterThan => {
            let node = st.with_node(NodeKind::QuoteBlock, st.top());
            if next == Some(TokenType::LineText) {
                node.with_token(st.pos + 1, k).at(st.pos + 2, Some(k), Phase::AfterLine)
            } else {
                node.at(st.pos + 1, Some(k), Phase::AfterLine)
            }
        },
        TokenType::Colon => {
            let node = st.with_error(ErrorKind::MalformedKeyValue, t.text_start).with_node(
                NodeKind::KeyValue,
                st.top(),
            );
            if next == Some(TokenType::LineText) || next == Some(TokenType::QuotedText) {
                node.with_token(st.pos + 1, k).at(st.pos + 2, Some(k), Phase::Skipping)
            } else {
                node.at(st.pos + 1, Some(k), Phase::Skipping)
            }
        },
        _ => {
            if t.token_type == TokenType::Word && next == Some(TokenType::Colon) {
                key_step(s, tokens, st)
            } else {
                st.with_node(NodeKind::Section, st.top()).with_token(st.pos, k).at(
                    st.pos + 1,
                    Some(k),
                    Phase::InLine,
                )
            }
        },
    }
}

/// An item of a line, by the phase the parser is in. An `Error` token
/// becomes a node and a diagnostic in every phase.
pub open spec fn item_step(s: Seq<u8>, tokens: Seq<TokenView>, st: ParseView) -> ParseView {
    let t = tokens[st.pos];
    if st.phase == Phase::LineStart {
        head_step(s, tokens, st)
    } else if t.token_type == TokenType::Error {
        st.with_error_node(s, tokens, st.pos, st.owner()).at(st.pos + 1, st.header, st.phase)
    } else {
        match st.phase {
            Phase::Skipping => st.at(st.pos + 1, st.header, Phase::Skipping),
            Phase::AfterLine => st.with_error(ErrorKind::UnexpectedToken, t.text_start).at(
                st.pos + 1,
                st.header,
                Phase::Skipping,
            ),
            _ => st.with_token(st.pos, st.owner()).at(st.pos + 1, st.header, Phase::InLine),
        }
    }
}

/// One step of the parser, on the token at the state's position.
pub open spec fn parse_step(s: Seq<u8>, tokens: Seq<TokenView>, st: ParseView) -> ParseView {
    let t = tokens[st.pos];
    match t.token_type {
        TokenType::EndOfLine => st.at(st.pos + 1, st.header, Phase::LineStart),
        TokenType::EndOfInput => close_scopes(st, t.text_start).at(
            tokens.len() as int,
            None,
            Phase::LineStart,
        ),
        TokenType::Indent => match st.header {
            Some(h) => st.with_scopes(st.scopes.push(h)).at(st.pos + 1, None, Phase::LineStart),
            None => {
                let opened = st.with_error(ErrorKind::UnexpectedToken, t.text_start).with_node(
                    NodeKind::Section,
                    st.top(),
                );
                opened.with_scopes(st.scopes.push(st.handle())).at(
                    st.pos + 1,
                    None,
                    Phase::LineStart,
                )
            },
        },
        TokenType::Outdent => if st.scopes.len() > 1 {
            st.with_scopes(st.scopes.drop_last()).at(st.pos + 1, None, Phase::LineStart)
        } else {
            st.with_error(ErrorKind::UnmatchedOutdent, t.text_start).at(
                st.pos + 1,
                None,
                Phase::LineStart,
            )
        },
        TokenType::BlockText => st.with_token(st.pos, st.owner()).at(
            st.pos + 1,
            st.header,
            Phase::LineStart,
        ),
        TokenType::StartOfInput => if st.pos == 0 {
            st.at(st.pos + 1, st.header, st.phase)
        } else {
            st.with_error(ErrorKind::UnexpectedToken, t.text_start).at(
                st.pos + 1,
                st.header,
                st.phase,
            )
        },
        _ => item_step(s, tokens, st),
    }
}

/// The end of the input closes the scopes that are still open; where there
/// is one, that is a diagnostic.
pub open spec fn close_scopes(st: ParseView, location: int) -> ParseView {
    if st.scopes.len() > 1 {
        st.with_error(ErrorKind::UnmatchedIndentAtEnd, location).with_scopes(
            st.scopes.subrange(0, 1),
        )
    } else {
        st
    }
}

/// The state in which parsing starts: the root alone, its scope open.
pub open spec fn start() -> ParseView {
    ParseView {
        pos: 0,
        entries: seq![Entry { item: Item::Node(NodeKind::Root), parent: 0 }],
        errors: Seq::empty(),
        scopes: seq![0usize],
        header: None,
        phase: Phase::LineStart,
    }
}

/// The parser run from the state `st` to the end of the stream.
pub open spec fn parse_from(s: Seq<u8>, tokens: Seq<TokenView>, st: ParseView) -> ParseView
    decreases tokens.len() - st.pos,
{
    if st.pos < 0 || st.pos >= tokens.len() {
        st
    } else {
        let next = parse_step(s, tokens, st);
        if next.pos > st.pos {
            parse_from(s, tokens, next)
        } else {
            next
        }
    }
}

/// Where a stream that lacks its `EndOfInput` ends.
pub open spec fn end_location(tokens: Seq<TokenView>) -> int {
    if tokens.len() > 0 {
        tokens.last().text_end
    } else {
        0
    }
}

/// The state in which the parse of a whole stream ends.
pub open spec fn parse_spec(s: Seq<u8>, tokens: Seq<TokenView>) -> ParseView {
    close_scopes(parse_from(s, tokens, start()), end_location(tokens))
}

/// What a step does, whatever the stream holds: it moves on by one to
/// three tokens, keeps the state well formed, and only adds to the tree and
/// to the diagnostics.
pub proof fn lemma_parse_step(s: Seq<u8>, tokens: Seq<TokenView>, st: ParseView)
    requires
        st.wf(tokens.len() as int),
        st.pos < tokens.len(),
        parse_step(s, tokens, st).entries.len() <= usize::MAX,
    ensures
        st.pos < parse_step(s, tokens, st).pos <= tokens.len(),
        parse_step(s, tokens, st).wf(tokens.len() as int),
        st.entries.is_prefix_of(parse_step(s, tokens, st).entries),
        st.errors.is_prefix_of(parse_step(s, tokens, st).errors),
{
}

fn type_of(tokens: &Vec<Token>, i: usize) -> (t: Option<TokenType>)
    ensures
        t == type_at(views(tokens@), i as int),
{
    if i < tokens.len() {
        Some(tokens[i].token_type)
    } else {
        None
    }
}

fn lexical(content: &SourceBuffer, t: &Token) -> (kind: ErrorKind)
    ensures
        kind == lexical_kind(content@, t@),
{
    if t.text_start >= t.text_end {
        ErrorKind::InconsistentIndentation
    } else if t.text_start < content.len() && content.byte_at(t.text_start) == QUOTE {
        ErrorKind::UnterminatedQuotedText
    } else {
        ErrorKind::InvalidCharacter
    }
}

/// The parser over one token stream.
#[derive(Debug)]
pub struct Parser {
    pub pos: usize,
    pub entries: Vec<Entry>,
    pub errors: Vec<ParsingError>,
    pub scopes: Vec<usize>,
    pub header: Option<usize>,
    pub phase: Phase,
}

impl View for Parser {
    type V = ParseView;

    open spec fn view(&self) -> ParseView {
        ParseView {
            pos: self.pos as int,
            entries: self.entries@,
            errors: self.errors@,
            scopes: self.scopes@,
            header: self.header,
            phase: self.phase,
        }
    }
}

impl Parser {
    /// A parser in front of a stream.
    pub fn new() -> (parser: Parser)
        ensures
            parser@ == start(),
    {
        let mut entries: Vec<Entry> = Vec::new();
        entries.push(Entry { item: Item::Node(NodeKind::Root), parent: 0 });
        let mut scopes: Vec<usize> = Vec::new();
        scopes.push(0);
        let parser = Parser {
            pos: 0,
            entries,
            errors: Vec::new(),
            scopes,
            header: None,
            phase: Phase::LineStart,
        };
        assert(parser@.entries =~= start().entries);
        assert(parser@.scopes =~= start().scopes);
        assert(parser@.errors =~= start().errors);
        parser
    }

    fn add_node(&mut self, kind: NodeKind, parent: usize) -> (k: usize)
        ensures
            final(self)@ == old(self)@.with_node(kind, parent),
            k == old(self)@.handle(),
    {
        let k: usize = self.entries.len();
        self.entries.push(Entry { item: Item::Node(kind), parent });
        k
    }

    fn add_token(&mut self, index: usize, parent: usize)
        ensures
            final(self)@ == old(self)@.with_token(index as int, parent),
    {
        self.entries.push(Entry { item: Item::Token(index), parent });
    }

    fn add_error(&mut self, kind: ErrorKind, location: usize)
        ensures
            final(self)@ == old(self)@.with_error(kind, location as int),
    {
        self.errors.push(ParsingError { kind, location });
    }

    fn add_error_node(&mut self, content: &SourceBuffer, tokens: &Vec<Token>, index: usize, parent: usize)
        requires
            index < tokens.len(),
        ensures
            final(self)@ == old(self)@.with_error_node(
                content@,
                views(tokens@),
                index as int,
                parent,
            ),
    {
        let k: usize = self.add_node(NodeKind::Error, parent);
        self.add_token(index, k);
        let kind = lexical(content, &tokens[index]);
        self.add_error(kind, tokens[index].text_start);
    }

    fn go(&mut self, pos: usize, header: Option<usize>, phase: Phase)
        ensures
            final(self)@ == old(self)@.at(pos as int, header, phase),
    {
        self.pos = pos;
        self.header = header;
        self.phase = phase;
    }

    fn top(&self) -> (h: usize)
        requires
            self.scopes@.len() >= 1,
        ensures
            h == self@.top(),
    {
        self.scopes[self.scopes.len() - 1]
    }

    fn owner(&self) -> (h: usize)
        requires
            self.scopes@.len() >= 1,
        ensures
            h == self@.owner(),
    {
        match self.header {
            Some(h) => h,
            None => self.top(),
        }
    }

    fn close(&mut self, location: usize)
        ensures
            final(self)@ == close_scopes(old(self)@, location as int),
    {
        if self.scopes.len() > 1 {
            self.add_error(ErrorKind::UnmatchedIndentAtEnd, location);
            self.scopes.truncate(1);
        }
    }

    fn key_line(&mut self, content: &SourceBuffer, tokens: &Vec<Token>)
        requires
            old(self).scopes@.len() >= 1,
            old(self).pos + 1 < tokens.len(),
        ensures
            final(self)@ == key_step(content@, views(tokens@), old(self)@),
    {
        let at: usize = self.pos;
        let top: usize = self.top();
        let value = type_of(tokens, at + 2);
        match value {
            Some(TokenType::LineText) | Some(TokenType::QuotedText) => {
                let k: usize = self.add_node(NodeKind::KeyValue, top);
                self.add_token(at, k);
                self.add_token(at + 2, k);
                self.go(at + 3, Some(k), Phase::AfterLine);
            },
            Some(TokenType::Error) => {
                let k: usize = self.add_node(NodeKind::KeyValue, top);
                self.add_token(at, k);
                self.add_error_node(content, tokens, at + 2, k);
                self.go(at + 3, Some(k), Phase::AfterLine);
            },
            Some(TokenType::GreaterThan) => {
                let k: usize = self.add_node(NodeKind::VerbatimBlock, top);
                self.add_token(at, k);
                self.go(at + 3, Some(k), Phase::AfterLine);
            },
            _ => {
                self.add_error(ErrorKind::MalformedKeyValue, tokens[at + 1].text_start);
                let k: usize = self.add_node(NodeKind::KeyValue, top);
                self.add_token(at, k);
                self.go(at + 2, Some(k), Phase::Skipping);
            },
        }
    }

    fn head(&mut self, content: &SourceBuffer, tokens: &Vec<Token>)
        requires
            old(self).scopes@.len() >= 1,
            old(self).pos < tokens.len(),
        ensures
            final(self)@ == head_step(content@, views(tokens@), old(self)@),
    {
        let at: usize = self.pos;
        let top: usize = self.top();
        let header = self.header;
        let next = type_of(tokens, at + 1);
        match tokens[at].token_type {
            TokenType::Error => {
                self.add_error_node(content, tokens, at, top);
                self.go(at + 1, header, Phase::LineStart);
            },
            TokenType::LineText => {
                self.add_error(ErrorKind::UnexpectedToken, tokens[at].text_start);
                self.go(at + 1, None, Phase::Skipping);
            },
            TokenType::GreaterThan => {
                let k: usize = self.add_node(NodeKind::QuoteBlock, top);
                match next {
                    Some(TokenType::LineText) => {
                        self.add_token(at + 1, k);
                        self.go(at + 2, Some(k), Phase::AfterLine);
                    },
                    _ => {
                        self.go(at + 1, Some(k), Phase::AfterLine);
                    },
                }
            },
            TokenType::Colon => {
                self.add_error(ErrorKind::MalformedKeyValue, tokens[at].text_start);
                let k: usize = self.add_node(NodeKind::KeyValue, top);
                match next {
                    Some(TokenType::LineText) | Some(TokenType::QuotedText) => {
                        self.add_token(at + 1, k);
                        self.go(at + 2, Some(k), Phase::Skipping);
                    },
                    _ => {
                        self.go(at + 1, Some(k), Phase::Skipping);
                    },
                }
            },
            TokenType::Word => {
                match next {
                    Some(TokenType::Colon) => {
                        self.key_line(content, tokens);
                    },
                    _ => {
                        let k: usize = self.add_node(NodeKind::Section, top);
                        self.add_token(at, k);
                        self.go(at + 1, Some(k), Phase::InLine);
                    },
                }
            },
            _ => {
                let k: usize = self.add_node(NodeKind::Section, top);
                self.add_token(at, k);
                self.go(at + 1, Some(k), Phase::InLine);
            },
        }
    }

    fn item(&mut self, content: &SourceBuffer, tokens: &Vec<Token>)
        requires
            old(self).scopes@.len() >= 1,
            old(self).pos < tokens.len(),
        ensures
            final(self)@ == item_step(content@, views(tokens@), old(self)@),
    {
        let at: usize = self.pos;
        let header = self.header;
        let phase = self.phase;
        match (phase, tokens[at].token_type) {
            (Phase::LineStart, _) => {
                self.head(content, tokens);
            },
            (_, TokenType::Error) => {
                let owner: usize = self.owner();
                self.add_error_node(content, tokens, at, owner);
                self.go(at + 1, header, phase);
            },
            (Phase::Skipping, _) => {
                self.go(at + 1, header, Phase::Skipping);
            },
            (Phase::AfterLine, _) => {
                self.add_error(ErrorKind::UnexpectedToken, tokens[at].text_start);
                self.go(at + 1, header, Phase::Skipping);
            },
            _ => {
                let owner: usize = self.owner();
                self.add_token(at, owner);
                self.go(at + 1, header, Phase::InLine);
            },
        }
    }

    /// Takes one step, on the token at the parser's position.
    pub fn step(&mut self, content: &SourceBuffer, tokens: &Vec<Token>)
        requires
            old(self)@.wf(tokens@.len() as int),
            old(self).pos < tokens.len(),
        ensures
            final(self)@ == parse_step(content@, views(tokens@), old(self)@),
            final(self)@.wf(tokens@.len() as int),
            old(self).pos < final(self).pos <= tokens@.len(),
    {
        let at: usize = self.pos;
        let header = self.header;
        let phase = self.phase;
        let location: usize = tokens[at].text_start;
        match tokens[at].token_type {
            TokenType::EndOfLine => {
                self.go(at + 1, header, Phase::LineStart);
            },
            TokenType::EndOfInput => {
                self.close(location);
                self.go(tokens.len(), None, Phase::LineStart);
            },
            TokenType::Indent => {
                match header {
                    Some(h) => {
                        self.scopes.push(h);
                    },
                    None => {
                        let top: usize = self.top();
                        self.add_error(ErrorKind::UnexpectedToken, location);
                        let k: usize = self.add_node(NodeKind::Section, top);
                        self.scopes.push(k);
                    },
                }
                self.go(at + 1, None, Phase::LineStart);
            },
            TokenType::Outdent => {
                if self.scopes.len() > 1 {
                    self.scopes.pop();
                } else {
                    self.add_error(ErrorKind::UnmatchedOutdent, location);
                }
                self.go(at + 1, None, Phase::LineStart);
            },
            TokenType::BlockText => {
                let owner: usize = self.owner();
                self.add_token(at, owner);
                self.go(at + 1, header, Phase::LineStart);
            },
            TokenType::StartOfInput => {
                if at != 0 {
                    self.add_error(ErrorKind::UnexpectedToken, location);
                }
                self.go(at + 1, header, phase);
            },
            _ => {
                self.item(content, tokens);
            },
        }
        proof {
            assert(self.entries.len() <= usize::MAX);
            lemma_parse_step(content@, views(tokens@), old(self)@);
        }
    }
}

/// What a parse gives: the tree, and the diagnostics in the order of the
/// input.
#[derive(Debug)]
pub struct Parsed {
    pub tree: SyntaxTree,
    pub errors: Vec<ParsingError>,
}

/// Parses a token stream over `content`: the tree and the diagnostics that
/// [`parse_spec`] describes. Any stream is taken; the tree is well formed
/// whatever it holds.
pub fn parse_tokens(content: &SourceBuffer, tokens: &Vec<Token>) -> (out: Parsed)
    ensures
        out.tree.entries@ == parse_spec(content@, views(tokens@)).entries,
        out.errors@ == parse_spec(content@, views(tokens@)).errors,
        out.tree.wf(),
{
    let mut parser = Parser::new();
    let n: usize = tokens.len();
    while parser.pos < n
        invariant
            n == tokens@.len(),
            parser@.wf(n as int),
            parse_from(content@, views(tokens@), start()) == parse_from(
                content@,
                views(tokens@),
                parser@,
            ),
        decreases n - parser.pos,
    {
        parser.step(content, tokens);
    }
    let location: usize = if n > 0 {
        tokens[n - 1].text_end
    } else {
        0
    };
    parser.close(location);
    Parsed { tree: SyntaxTree { entries: parser.entries }, errors: parser.errors }
}

/// Lexes and parses a buffer: the token stream, and the tree and the
/// diagnostics of that stream. No diagnostic is about unmatched scopes: the
/// lexer closes what it opens.
pub fn parse<'a>(content: &'a SourceBuffer) -> (out: (Vec<Token<'a>>, Parsed))
    ensures
        views(out.0@) == lex_spec(content@),
        forall|i: int| 0 <= i < out.0@.len() ==> (#[trigger] out.0@[i]).content == content,
        forall|i: int| 0 <= i < out.0@.len() ==> (#[trigger] out.0@[i]).wf(),
        out.1.tree.entries@ == parse_spec(content@, lex_spec(content@)).entries,
        out.1.errors@ == parse_spec(content@, lex_spec(content@)).errors,
        out.1.tree.wf(),
        scopes_matched(out.1.errors@),
{
    proof {
        law_buffer_scopes_match(content@);
    }
    let tokens = lex(content);
    let parsed = parse_tokens(content, &tokens);
    (tokens, parsed)
}

/// Adding entries to a tree leaves the depth of those it had.
pub proof fn lemma_depth_stable(a: Seq<Entry>, b: Seq<Entry>, h: int)
    requires
        tree_wf(a),
        a.is_prefix_of(b),
        0 <= h < a.len(),
    ensures
        depth_of(b, h) == depth_of(a, h),
    decreases h,
{
    assert(b[h] == a[h]);
    if h > 0 {
        lemma_depth_stable(a, b, a[h].parent as int);
    }
}

/// Depth follows indentation. Parsing starts with the scopes nested, and
/// every step keeps them so: a scope that an `Indent` opens lies one step
/// deeper than the one around it. So what a step adds to the innermost
/// scope lies as many steps under the root as there are open scopes.
pub proof fn law_depth_follows_nesting(s: Seq<u8>, tokens: Seq<TokenView>, st: ParseView)
    requires
        st.wf(tokens.len() as int),
        st.nested(),
        st.pos < tokens.len(),
        parse_step(s, tokens, st).entries.len() <= usize::MAX,
    ensures
        start().nested(),
        parse_step(s, tokens, st).nested(),
        forall|i: int|
            st.entries.len() <= i < parse_step(s, tokens, st).entries.len() && (
            #[trigger] parse_step(s, tokens, st).entries[i]).parent == st.top() ==> depth_of(
                parse_step(s, tokens, st).entries,
                i,
            ) == st.scopes.len(),
{
    let next = parse_step(s, tokens, st);
    lemma_parse_step(s, tokens, st);
    assert(is_node_handle(st.entries, st.top()));
    assert(depth_of(st.entries, st.top() as int) == st.scopes.len() - 1);
    lemma_depth_stable(st.entries, next.entries, st.top() as int);
    assert forall|j: int| 0 <= j < st.scopes.len() implies depth_of(
        next.entries,
        (#[trigger] st.scopes[j]) as int,
    ) == j by {
        assert(is_node_handle(st.entries, st.scopes[j]));
        lemma_depth_stable(st.entries, next.entries, st.scopes[j] as int);
    }
    match st.header {
        Some(h) => {
            lemma_depth_stable(st.entries, next.entries, h as int);
        },
        None => {},
    }
    let k = st.handle();
    if k < next.entries.len() && next.entries[k as int].parent == st.top() {
        assert(depth_of(next.entries, k as int) == st.scopes.len());
    }
    assert(depth_of(start().entries, 0) == 0);
}

/// A run keeps at least the root's scope open, from any state that has it
/// open.
pub proof fn lemma_scopes_stay(s: Seq<u8>, tokens: Seq<TokenView>, st: ParseView)
    requires
        st.scopes.len() >= 1,
    ensures
        parse_from(s, tokens, st).scopes.len() >= 1,
    decreases tokens.len() - st.pos,
{
    if 0 <= st.pos < tokens.len() {
        let next = parse_step(s, tokens, st);
        if next.pos > st.pos {
            lemma_scopes_stay(s, tokens, next);
        }
    }
}

/// Whatever the stream holds, the parse ends with every scope closed but
/// the root's.
pub proof fn law_scopes_unwound(s: Seq<u8>, tokens: Seq<TokenView>)
    ensures
        parse_spec(s, tokens).scopes.len() == 1,
{
    lemma_scopes_stay(s, tokens, start());
}

/// None of the diagnostics says that scopes and `Outdent`s do not match.
pub open spec fn scopes_matched(errors: Seq<ParsingError>) -> bool {
    forall|i: int|
        0 <= i < errors.len() ==> (#[trigger] errors[i]).kind != ErrorKind::UnmatchedOutdent
            && errors[i].kind != ErrorKind::UnmatchedIndentAtEnd
}

/// The parser has as many scopes open as the stream has levels open in
/// front of the parser's position, and has found them matched so far.
pub open spec fn follows_levels(tokens: Seq<TokenView>, st: ParseView) -> bool {
    &&& 0 <= st.pos <= tokens.len()
    &&& st.scopes.len() == levels_from(tokens, 1, st.pos)
    &&& scopes_matched(st.errors)
}

/// On a well-nested stream a step keeps the scopes in line with the levels.
pub proof fn lemma_step_follows_levels(s: Seq<u8>, tokens: Seq<TokenView>, st: ParseView)
    requires
        well_nested(tokens, 1),
        follows_levels(tokens, st),
        st.pos < tokens.len(),
    ensures
        follows_levels(tokens, parse_step(s, tokens, st)),
        parse_step(s, tokens, st).pos > st.pos,
{
    let next = parse_step(s, tokens, st);
    let p = st.pos;
    assert(nests_at(tokens, 1, p));
    assert(levels_from(tokens, 1, p + 1) == levels_from(tokens, 1, p) + crate::tokens::level_change(
        tokens[p].token_type,
    ));
    if p + 2 <= tokens.len() {
        assert(levels_from(tokens, 1, p + 2) == levels_from(tokens, 1, p + 1)
            + crate::tokens::level_change(tokens[p + 1].token_type));
    }
    if p + 3 <= tokens.len() {
        assert(levels_from(tokens, 1, p + 3) == levels_from(tokens, 1, p + 2)
            + crate::tokens::level_change(tokens[p + 2].token_type));
    }
}

/// On a well-nested stream a run keeps the scopes in line with the levels.
pub proof fn lemma_run_follows_levels(s: Seq<u8>, tokens: Seq<TokenView>, st: ParseView)
    requires
        well_nested(tokens, 1),
        follows_levels(tokens, st),
    ensures
        follows_levels(tokens, parse_from(s, tokens, st)),
        parse_from(s, tokens, st).pos == tokens.len(),
    decreases tokens.len() - st.pos,
{
    if st.pos < tokens.len() {
        lemma_step_follows_levels(s, tokens, st);
        lemma_run_follows_levels(s, tokens, parse_step(s, tokens, st));
    }
}

/// Scopes and levels match: on a well-nested stream the parser finds no
/// `Outdent` without a scope and no scope left open at the end.
pub proof fn law_scopes_match_levels(s: Seq<u8>, tokens: Seq<TokenView>)
    requires
        well_nested(tokens, 1),
    ensures
        scopes_matched(parse_spec(s, tokens).errors),
{
    assert(levels_from(tokens, 1, 0) == 1);
    lemma_run_follows_levels(s, tokens, start());
}

/// The stream of any buffer is well nested, so parsing a buffer never
/// finds its scopes unmatched.
pub proof fn law_buffer_scopes_match(s: Seq<u8>)
    ensures
        scopes_matched(parse_spec(s, lex_spec(s)).errors),
{
    law_well_nested(s);
    law_scopes_match_levels(s, lex_spec(s));
}

/// The parser has reported one lexical error for each `Error` token that
/// it has passed.
pub open spec fn errors_reported(tokens: Seq<TokenView>, st: ParseView) -> bool {
    &&& 0 <= st.pos <= tokens.len()
    &&& lexical_count(st.errors) == errors_before(tokens, st.pos)
}

/// A step reports the `Error` tokens that it passes, each once.
pub proof fn lemma_step_reports(s: Seq<u8>, tokens: Seq<TokenView>, st: ParseView)
    requires
        ends_once(tokens),
        errors_reported(tokens, st),
        st.pos < tokens.len(),
    ensures
        errors_reported(tokens, parse_step(s, tokens, st)),
        parse_step(s, tokens, st).pos > st.pos,
{
    let next = parse_step(s, tokens, st);
    let p = st.pos;
    assert(errors_before(tokens, p + 1) == errors_before(tokens, p) + (if tokens[p].token_type
        == TokenType::Error {
        1nat
    } else {
        0nat
    }));
    if p + 2 <= tokens.len() {
        assert(errors_before(tokens, p + 2) == errors_before(tokens, p + 1) + (if tokens[p
            + 1].token_type == TokenType::Error {
            1nat
        } else {
            0nat
        }));
    }
    if p + 3 <= tokens.len() {
        assert(errors_before(tokens, p + 3) == errors_before(tokens, p + 2) + (if tokens[p
            + 2].token_type == TokenType::Error {
            1nat
        } else {
            0nat
        }));
    }
    if next.errors.len() > st.errors.len() {
        let e = next.errors.last();
        assert(next.errors =~= st.errors.push(e));
        lemma_lexical_push(st.errors, e);
    } else {
        assert(next.errors =~= st.errors);
    }
}

/// A run reports the `Error` tokens that it passes, each once.
pub proof fn lemma_run_reports(s: Seq<u8>, tokens: Seq<TokenView>, st: ParseView)
    requires
        ends_once(tokens),
        errors_reported(tokens, st),
    ensures
        errors_reported(tokens, parse_from(s, tokens, st)),
        parse_from(s, tokens, st).pos == tokens.len(),
    decreases tokens.len() - st.pos,
{
    if st.pos < tokens.len() {
        lemma_step_reports(s, tokens, st);
        lemma_run_reports(s, tokens, parse_step(s, tokens, st));
    }
}

/// Every lexical error is reported, once: on a stream in which
/// `EndOfInput` stands only at the end, and so on the stream of any buffer,
/// the parse holds as many lexical errors as the stream holds `Error`
/// tokens.
pub proof fn law_error_tokens_reported(s: Seq<u8>, tokens: Seq<TokenView>)
    requires
        ends_once(tokens),
    ensures
        lexical_count(parse_spec(s, tokens).errors) == errors_before(tokens, tokens.len() as int),
        lexical_count(parse_spec(s, lex_spec(s)).errors) == errors_before(
            lex_spec(s),
            lex_spec(s).len() as int,
        ),
{
    lemma_run_reports(s, tokens, start());
    let last = parse_from(s, tokens, start());
    if last.scopes.len() > 1 {
        lemma_lexical_push(
            last.errors,
            ParsingError {
                kind: ErrorKind::UnmatchedIndentAtEnd,
                location: end_location(tokens) as usize,
            },
        );
    }
    law_sentinels(s);
    let stream = lex_spec(s);
    lemma_run_reports(s, stream, start());
    let end = parse_from(s, stream, start());
    if end.scopes.len() > 1 {
        lemma_lexical_push(
            end.errors,
            ParsingError {
                kind: ErrorKind::UnmatchedIndentAtEnd,
                location: end_location(stream) as usize,
            },
        );
    }
}

/// Lexing and parsing are functions of the buffer alone: two runs on the
/// same bytes give the same tokens, the same tree and the same diagnostics.
pub proof fn law_deterministic(
    s: Seq<u8>,
    first_tokens: Seq<Token>,
    first: Parsed,
    second_tokens: Seq<Token>,
    second: Parsed,
)
    requires
        views(first_tokens) == lex_spec(s),
        first.tree.entries@ == parse_spec(s, lex_spec(s)).entries,
        first.errors@ == parse_spec(s, lex_spec(s)).errors,
        views(second_tokens) == lex_spec(s),
        second.tree.entries@ == parse_spec(s, lex_spec(s)).entries,
        second.errors@ == parse_spec(s, lex_spec(s)).errors,
    ensures
        views(first_tokens) == views(second_tokens),
        first.tree.entries@ == second.tree.entries@,
        first.errors@ == second.errors@,
{
}

} // verus!
