use outline_syntax::error::{ErrorKind, ParsingError};
use outline_syntax::lexer::lex;
use outline_syntax::nodes::{Entry, Item, Node, NodeKind, SyntaxElement, SyntaxTree};
use outline_syntax::parser::{parse, parse_tokens, Parsed};
use outline_syntax::source::SourceBuffer;
use outline_syntax::{Token, TokenType};

fn kinds(errors: &Vec<ParsingError>) -> Vec<ErrorKind> {
    errors.iter().map(|e| e.kind).collect()
}

fn child_nodes(tree: &SyntaxTree, h: usize) -> Vec<(usize, NodeKind)> {
    let mut out = Vec::new();
    for c in tree.children(h) {
        if let Item::Node(kind) = tree.entry(c).item {
            out.push((c, kind));
        }
    }
    out
}

fn child_texts(tree: &SyntaxTree, tokens: &Vec<Token>, h: usize) -> Vec<String> {
    let mut out = Vec::new();
    for c in tree.children(h) {
        if let Item::Token(i) = tree.entry(c).item {
            out.push(String::from_utf8(tokens[i].value_or_text().to_vec()).unwrap());
        }
    }
    out
}

fn find_key(tree: &SyntaxTree, tokens: &Vec<Token>, key: &str) -> usize {
    for h in 0..tree.len() {
        if tree.kind(h) == Some(NodeKind::KeyValue) {
            let texts = child_texts(tree, tokens, h);
            if !texts.is_empty() && texts[0] == key {
                return h;
            }
        }
    }
    panic!("no key/value node for {}", key);
}

fn token(content: &SourceBuffer, ty: TokenType, at: usize) -> Token<'_> {
    Token { token_type: ty, content, trivia_start: at, text_start: at, text_end: at, value: None }
}

#[test]
fn key_value_line_parses_to_two_children() {
    let src = SourceBuffer::new(b"name: Alice".to_vec());
    let (tokens, parsed) = parse(&src);
    assert!(parsed.errors.is_empty());
    assert_eq!(tree_root_kind(&parsed), Some(NodeKind::Root));
    let top = child_nodes(&parsed.tree, 0);
    assert_eq!(top.len(), 1);
    assert_eq!(top[0].1, NodeKind::KeyValue);
    assert_eq!(parsed.tree.children(top[0].0).len(), 2);
    assert_eq!(child_texts(&parsed.tree, &tokens, top[0].0), vec!["name", "Alice"]);
    assert_eq!(parsed.tree.depth(top[0].0), 1);
}

fn tree_root_kind(parsed: &Parsed) -> Option<NodeKind> {
    parsed.tree.kind(0)
}

#[test]
fn empty_input_parses_to_a_bare_root() {
    let src = SourceBuffer::new(Vec::new());
    let (_tokens, parsed) = parse(&src);
    assert!(parsed.errors.is_empty());
    assert_eq!(
        parsed.tree.entries,
        vec![Entry { item: Item::Node(NodeKind::Root), parent: 0 }]
    );
}

#[test]
fn inconsistent_dedent_is_reported_once_and_parsing_goes_on() {
    let src = SourceBuffer::new(b"title: Demo\n    ok: 1\n  bad: 2\n".to_vec());
    let (tokens, parsed) = parse(&src);
    assert_eq!(kinds(&parsed.errors), vec![ErrorKind::InconsistentIndentation]);
    // the error points at the `bad:` line, behind its indentation
    assert_eq!(parsed.errors[0].location, 24);
    assert_eq!(&src.text()[24..27], b"bad");
    let title = find_key(&parsed.tree, &tokens, "title");
    let ok = find_key(&parsed.tree, &tokens, "ok");
    let bad = find_key(&parsed.tree, &tokens, "bad");
    assert_eq!(parsed.tree.entry(title).parent, 0);
    assert_eq!(parsed.tree.entry(ok).parent, title);
    assert_eq!(parsed.tree.entry(bad).parent, 0);
    assert_eq!(child_texts(&parsed.tree, &tokens, ok), vec!["ok", "1"]);
    assert_eq!(tokens[tokens.len() - 1].token_type, TokenType::EndOfInput);
    // the lexical error stands in the tree as a node of its own
    let errors: Vec<usize> =
        (0..parsed.tree.len()).filter(|h| parsed.tree.kind(*h) == Some(NodeKind::Error)).collect();
    assert_eq!(errors.len(), 1);
    assert_eq!(parsed.tree.entry(errors[0]).parent, 0);
}

#[test]
fn unterminated_quote_is_one_error() {
    let src = SourceBuffer::new(b"note: \"hello".to_vec());
    let (tokens, parsed) = parse(&src);
    let error_tokens: Vec<&Token> =
        tokens.iter().filter(|t| t.token_type == TokenType::Error).collect();
    assert_eq!(error_tokens.len(), 1);
    assert_eq!(error_tokens[0].text(), b"\"hello");
    assert_eq!(
        parsed.errors,
        vec![ParsingError { kind: ErrorKind::UnterminatedQuotedText, location: 6 }]
    );
    let note = find_key(&parsed.tree, &tokens, "note");
    let nodes = child_nodes(&parsed.tree, note);
    assert_eq!(nodes.len(), 1);
    assert_eq!(nodes[0].1, NodeKind::Error);
    assert_eq!(child_texts(&parsed.tree, &tokens, nodes[0].0), vec!["\"hello"]);
}

#[test]
fn nesting_depth_follows_indentation() {
    let src = SourceBuffer::new(b"a: 0\n  b: 1\n    c: 2\n      d: 3\ne: 4\n".to_vec());
    let (tokens, parsed) = parse(&src);
    assert!(parsed.errors.is_empty());
    let a = find_key(&parsed.tree, &tokens, "a");
    let b = find_key(&parsed.tree, &tokens, "b");
    let c = find_key(&parsed.tree, &tokens, "c");
    let d = find_key(&parsed.tree, &tokens, "d");
    let e = find_key(&parsed.tree, &tokens, "e");
    assert_eq!(parsed.tree.depth(0), 0);
    assert_eq!(parsed.tree.depth(a), 1);
    assert_eq!(parsed.tree.depth(b), 2);
    assert_eq!(parsed.tree.depth(c), 3);
    assert_eq!(parsed.tree.depth(d), 4);
    assert_eq!(parsed.tree.depth(e), 1);
    // three increases of indentation below `a`: `d` lies three levels under it
    assert_eq!(parsed.tree.depth(d) - parsed.tree.depth(a), 3);
}

#[test]
fn parsing_twice_gives_the_same_tree_and_errors() {
    let text = b"a: 1\n    b\n  c: \"x\n> q\n: v\n".to_vec();
    let src = SourceBuffer::new(text.clone());
    let again = SourceBuffer::new(text);
    let (_, first) = parse(&src);
    let (_, second) = parse(&again);
    assert_eq!(first.tree.entries, second.tree.entries);
    assert_eq!(first.errors, second.errors);
    assert!(!first.errors.is_empty());
}

#[test]
fn section_line_holds_its_items() {
    let src = SourceBuffer::new(b"servers \"main site\" eu\n  host: example\n".to_vec());
    let (tokens, parsed) = parse(&src);
    assert!(parsed.errors.is_empty());
    let top = child_nodes(&parsed.tree, 0);
    assert_eq!(top.len(), 1);
    assert_eq!(top[0].1, NodeKind::Section);
    assert_eq!(child_texts(&parsed.tree, &tokens, top[0].0), vec!["servers", "main site", "eu"]);
    let host = find_key(&parsed.tree, &tokens, "host");
    assert_eq!(parsed.tree.entry(host).parent, top[0].0);
}

#[test]
fn quote_line_wraps_its_text() {
    let src = SourceBuffer::new(b"> to be: or not\n".to_vec());
    let (tokens, parsed) = parse(&src);
    assert!(parsed.errors.is_empty());
    let top = child_nodes(&parsed.tree, 0);
    assert_eq!(top.len(), 1);
    assert_eq!(top[0].1, NodeKind::QuoteBlock);
    assert_eq!(child_texts(&parsed.tree, &tokens, top[0].0), vec!["to be: or not"]);
}

#[test]
fn verbatim_block_is_a_leaf_of_its_key() {
    let src = SourceBuffer::new(b"body: >\n    one\n      two\nnext: 1\n".to_vec());
    let (tokens, parsed) = parse(&src);
    assert!(parsed.errors.is_empty());
    let top = child_nodes(&parsed.tree, 0);
    assert_eq!(top.len(), 2);
    assert_eq!(top[0].1, NodeKind::VerbatimBlock);
    assert_eq!(top[1].1, NodeKind::KeyValue);
    assert_eq!(
        child_texts(&parsed.tree, &tokens, top[0].0),
        vec!["body", "    one\n      two\n"]
    );
    assert!(child_nodes(&parsed.tree, top[0].0).is_empty());
}

#[test]
fn quoted_value_is_decoded() {
    let src = SourceBuffer::new(b"say: \"a\\\"b\"\n".to_vec());
    let (tokens, parsed) = parse(&src);
    assert!(parsed.errors.is_empty());
    let say = find_key(&parsed.tree, &tokens, "say");
    assert_eq!(child_texts(&parsed.tree, &tokens, say), vec!["say", "a\"b"]);
}

#[test]
fn invalid_character_is_reported() {
    let src = SourceBuffer::new(b"a \x02 b\n".to_vec());
    let (_tokens, parsed) = parse(&src);
    assert_eq!(parsed.errors, vec![ParsingError { kind: ErrorKind::InvalidCharacter, location: 2 }]);
    assert!(parsed.errors[0].is_lexical());
}

#[test]
fn token_after_a_complete_line_is_unexpected() {
    let src = SourceBuffer::new(b"k: \"v\" more words\nnext: 1\n".to_vec());
    let (tokens, parsed) = parse(&src);
    assert_eq!(parsed.errors, vec![ParsingError { kind: ErrorKind::UnexpectedToken, location: 7 }]);
    assert!(!parsed.errors[0].is_lexical());
    let k = find_key(&parsed.tree, &tokens, "k");
    assert_eq!(child_texts(&parsed.tree, &tokens, k), vec!["k", "v"]);
    let next = find_key(&parsed.tree, &tokens, "next");
    assert_eq!(child_texts(&parsed.tree, &tokens, next), vec!["next", "1"]);
}

#[test]
fn colon_without_key_or_value_is_malformed() {
    let src = SourceBuffer::new(b": lonely\nkey:\n".to_vec());
    let (_tokens, parsed) = parse(&src);
    assert_eq!(
        parsed.errors,
        vec![
            ParsingError { kind: ErrorKind::MalformedKeyValue, location: 0 },
            ParsingError { kind: ErrorKind::MalformedKeyValue, location: 12 },
        ]
    );
    let top = child_nodes(&parsed.tree, 0);
    assert_eq!(top.len(), 2);
    assert_eq!(top[0].1, NodeKind::KeyValue);
    assert_eq!(top[1].1, NodeKind::KeyValue);
}

#[test]
fn outdent_without_scope_is_unmatched() {
    let src = SourceBuffer::new(b"a".to_vec());
    let tokens = vec![
        token(&src, TokenType::StartOfInput, 0),
        token(&src, TokenType::Outdent, 0),
        Token {
            token_type: TokenType::Word,
            content: &src,
            trivia_start: 0,
            text_start: 0,
            text_end: 1,
            value: None,
        },
        token(&src, TokenType::EndOfInput, 1),
    ];
    let parsed = parse_tokens(&src, &tokens);
    assert_eq!(parsed.errors, vec![ParsingError { kind: ErrorKind::UnmatchedOutdent, location: 0 }]);
    let top = child_nodes(&parsed.tree, 0);
    assert_eq!(top.len(), 1);
    assert_eq!(top[0].1, NodeKind::Section);
}

#[test]
fn scope_left_open_at_the_end_is_reported() {
    let src = SourceBuffer::new(b"a\n b".to_vec());
    let tokens = vec![
        token(&src, TokenType::StartOfInput, 0),
        Token {
            token_type: TokenType::Word,
            content: &src,
            trivia_start: 0,
            text_start: 0,
            text_end: 1,
            value: None,
        },
        Token {
            token_type: TokenType::EndOfLine,
            content: &src,
            trivia_start: 1,
            text_start: 1,
            text_end: 2,
            value: None,
        },
        token(&src, TokenType::Indent, 3),
        Token {
            token_type: TokenType::Word,
            content: &src,
            trivia_start: 3,
            text_start: 3,
            text_end: 4,
            value: None,
        },
        token(&src, TokenType::EndOfInput, 4),
    ];
    let parsed = parse_tokens(&src, &tokens);
    assert_eq!(
        parsed.errors,
        vec![ParsingError { kind: ErrorKind::UnmatchedIndentAtEnd, location: 4 }]
    );
    let without_end = &tokens[..5].iter().map(|t| Token {
        token_type: t.token_type,
        content: t.content,
        trivia_start: t.trivia_start,
        text_start: t.text_start,
        text_end: t.text_end,
        value: None,
    }).collect::<Vec<Token>>();
    let cut = parse_tokens(&src, without_end);
    assert_eq!(kinds(&cut.errors), vec![ErrorKind::UnmatchedIndentAtEnd]);
    assert_eq!(cut.tree.entries, parsed.tree.entries);
}

#[test]
fn indent_without_header_opens_a_section() {
    let src = SourceBuffer::new(b"  a: 1\n".to_vec());
    let (tokens, parsed) = parse(&src);
    assert_eq!(parsed.errors, vec![ParsingError { kind: ErrorKind::UnexpectedToken, location: 2 }]);
    let top = child_nodes(&parsed.tree, 0);
    assert_eq!(top.len(), 1);
    assert_eq!(top[0].1, NodeKind::Section);
    let a = find_key(&parsed.tree, &tokens, "a");
    assert_eq!(parsed.tree.entry(a).parent, top[0].0);
}

#[test]
fn parse_tokens_agrees_with_parse() {
    let src = SourceBuffer::new(b"a: 1\n  b: 2\nc\n".to_vec());
    let tokens = lex(&src);
    let direct = parse_tokens(&src, &tokens);
    let (_, whole) = parse(&src);
    assert_eq!(direct.tree.entries, whole.tree.entries);
    assert_eq!(direct.errors, whole.errors);
}

#[test]
fn elements_are_tokens_or_nodes() {
    let src = SourceBuffer::new(b"name: Alice".to_vec());
    let (tokens, parsed) = parse(&src);
    let pair = parsed.tree.children(0)[0];
    match parsed.tree.element(&tokens, pair) {
        Some(SyntaxElement::Node(n)) => {
            assert_eq!(n, Node { handle: pair, kind: NodeKind::KeyValue })
        }
        _ => panic!("a node was expected"),
    }
    let key = parsed.tree.children(pair)[0];
    match parsed.tree.element(&tokens, key) {
        Some(SyntaxElement::Token(t)) => {
            assert_eq!(t.token_type, TokenType::Word);
            assert_eq!(t.text(), b"name");
        }
        _ => panic!("a token was expected"),
    }
    assert!(parsed.tree.element(&tokens, parsed.tree.len()).is_none());
}

#[test]
fn every_error_kind_has_its_words() {
    let all = [
        ErrorKind::InvalidCharacter,
        ErrorKind::UnterminatedQuotedText,
        ErrorKind::InconsistentIndentation,
        ErrorKind::UnexpectedToken,
        ErrorKind::UnmatchedOutdent,
        ErrorKind::UnmatchedIndentAtEnd,
        ErrorKind::MalformedKeyValue,
    ];
    let mut seen: Vec<&str> = Vec::new();
    for kind in all {
        let words = ParsingError { kind, location: 0 }.detail();
        assert!(!words.is_empty());
        assert!(!seen.contains(&words));
        seen.push(words);
    }
    assert_eq!(
        ParsingError { kind: ErrorKind::InconsistentIndentation, location: 3 }.detail(),
        "unindent does not match any enclosing level"
    );
}

#[test]
fn buffers_never_leave_scopes_unmatched() {
    let inputs: Vec<&[u8]> = vec![
        b"a\n  b\n    c",
        b"  a\n b\nc\n",
        b"a:\n      b: >\n        text\n   c\n",
        b"\t\tx\n\ty\n z\n",
        b"",
        b"      ",
    ];
    for input in inputs {
        let src = SourceBuffer::new(input.to_vec());
        let (_tokens, parsed) = parse(&src);
        for e in parsed.errors.iter() {
            assert_ne!(e.kind, ErrorKind::UnmatchedOutdent);
            assert_ne!(e.kind, ErrorKind::UnmatchedIndentAtEnd);
        }
        assert_eq!(parsed.tree.entries[0], Entry { item: Item::Node(NodeKind::Root), parent: 0 });
        for h in 1..parsed.tree.len() {
            let parent = parsed.tree.entry(h).parent;
            assert!(parent < h);
            assert!(parsed.tree.kind(parent).is_some());
        }
    }
}

#[test]
fn error_token_is_reported_in_every_phase() {
    // behind a complete line, and behind a diagnostic
    let src = SourceBuffer::new(b"k: \"v\" \x01 x \x02\n: \"open\n".to_vec());
    let (tokens, parsed) = parse(&src);
    assert_eq!(
        kinds(&parsed.errors),
        vec![
            ErrorKind::InvalidCharacter,
            ErrorKind::UnexpectedToken,
            ErrorKind::InvalidCharacter,
            ErrorKind::MalformedKeyValue,
            ErrorKind::UnterminatedQuotedText,
        ]
    );
    let lexical = parsed.errors.iter().filter(|e| e.is_lexical()).count();
    let error_tokens = tokens.iter().filter(|t| t.token_type == TokenType::Error).count();
    assert_eq!(lexical, 3);
    assert_eq!(error_tokens, 3);
    let error_nodes =
        (0..parsed.tree.len()).filter(|h| parsed.tree.kind(*h) == Some(NodeKind::Error)).count();
    assert_eq!(error_nodes, 3);
}
