use outline_syntax::lexer::{lex, Lexer, Mode};
use outline_syntax::scan::{
    class_has, find_block_end, find_content, scan_quoted, scan_run, trim_end, unescape_byte,
    ByteClass,
};
use outline_syntax::source::SourceBuffer;
use outline_syntax::tokens::{Token, TokenType};

fn types(tokens: &Vec<Token>) -> Vec<TokenType> {
    tokens.iter().map(|t| t.token_type).collect()
}

fn rebuilt(tokens: &Vec<Token>) -> Vec<u8> {
    let mut out: Vec<u8> = Vec::new();
    for t in tokens.iter() {
        out.extend_from_slice(t.trivia());
        out.extend_from_slice(t.text());
    }
    out
}

fn count(tokens: &Vec<Token>, ty: TokenType) -> usize {
    tokens.iter().filter(|t| t.token_type == ty).count()
}

#[test]
fn empty_input_has_only_sentinels() {
    let src = SourceBuffer::new(Vec::new());
    let tokens = lex(&src);
    assert_eq!(types(&tokens), vec![TokenType::StartOfInput, TokenType::EndOfInput]);
}

#[test]
fn key_value_line_tokens() {
    let src = SourceBuffer::new(b"name: Alice\n".to_vec());
    let tokens = lex(&src);
    assert_eq!(
        types(&tokens),
        vec![
            TokenType::StartOfInput,
            TokenType::Word,
            TokenType::Colon,
            TokenType::LineText,
            TokenType::EndOfLine,
            TokenType::EndOfInput
        ]
    );
    assert_eq!(tokens[1].text(), b"name");
    assert_eq!(tokens[2].text(), b":");
    assert_eq!(tokens[3].trivia(), b" ");
    assert_eq!(tokens[3].text(), b"Alice");
    assert_eq!(tokens[3].value_or_text(), b"Alice");
    assert_eq!(tokens[4].text(), b"\n");
}

#[test]
fn quoted_text_round_trip() {
    let src = SourceBuffer::new(b"\"a\\\"b\"".to_vec());
    let tokens = lex(&src);
    assert_eq!(
        types(&tokens),
        vec![TokenType::StartOfInput, TokenType::QuotedText, TokenType::EndOfInput]
    );
    assert_eq!(tokens[1].text(), b"\"a\\\"b\"");
    assert_eq!(tokens[1].value.as_deref(), Some(&b"a\"b"[..]));
    assert_eq!(tokens[1].value_or_text(), b"a\"b");
}

#[test]
fn escapes_are_decoded() {
    let src = SourceBuffer::new(b"k: \"x\\ny\\tz\\\\w\\q\"\n".to_vec());
    let tokens = lex(&src);
    assert_eq!(tokens[3].token_type, TokenType::QuotedText);
    assert_eq!(tokens[3].value_or_text(), b"x\ny\tz\\wq");
    assert_eq!(tokens[3].text(), b"\"x\\ny\\tz\\\\w\\q\"");
}

#[test]
fn unterminated_quote_is_one_error_token() {
    let src = SourceBuffer::new(b"note: \"hello\nnext\n".to_vec());
    let tokens = lex(&src);
    assert_eq!(
        types(&tokens),
        vec![
            TokenType::StartOfInput,
            TokenType::Word,
            TokenType::Colon,
            TokenType::Error,
            TokenType::EndOfLine,
            TokenType::Word,
            TokenType::EndOfLine,
            TokenType::EndOfInput
        ]
    );
    assert_eq!(tokens[3].text(), b"\"hello");
    assert_eq!(count(&tokens, TokenType::Error), 1);
    assert_eq!(rebuilt(&tokens), src.text());
}

#[test]
fn unterminated_quote_at_end_of_input() {
    let src = SourceBuffer::new(b"note: \"hello".to_vec());
    let tokens = lex(&src);
    assert_eq!(
        types(&tokens),
        vec![
            TokenType::StartOfInput,
            TokenType::Word,
            TokenType::Colon,
            TokenType::Error,
            TokenType::EndOfInput
        ]
    );
    assert_eq!(tokens[3].text_start, 6);
    assert_eq!(tokens[3].text_end, 12);
}

#[test]
fn indentation_opens_and_closes_levels() {
    let src = SourceBuffer::new(b"a\n  b\n    c\nd\n".to_vec());
    let tokens = lex(&src);
    assert_eq!(
        types(&tokens),
        vec![
            TokenType::StartOfInput,
            TokenType::Word,
            TokenType::EndOfLine,
            TokenType::Indent,
            TokenType::Word,
            TokenType::EndOfLine,
            TokenType::Indent,
            TokenType::Word,
            TokenType::EndOfLine,
            TokenType::Outdent,
            TokenType::Outdent,
            TokenType::Word,
            TokenType::EndOfLine,
            TokenType::EndOfInput
        ]
    );
    assert_eq!(rebuilt(&tokens), src.text());
}

#[test]
fn open_levels_are_closed_at_end_of_input() {
    let src = SourceBuffer::new(b"a\n  b\n    c".to_vec());
    let tokens = lex(&src);
    assert_eq!(count(&tokens, TokenType::Indent), 2);
    assert_eq!(count(&tokens, TokenType::Outdent), 2);
    let n = tokens.len();
    assert_eq!(tokens[n - 1].token_type, TokenType::EndOfInput);
    assert_eq!(tokens[n - 2].token_type, TokenType::Outdent);
    assert_eq!(tokens[n - 3].token_type, TokenType::Outdent);
}

#[test]
fn inconsistent_dedent_gives_one_error_token() {
    let src = SourceBuffer::new(b"title: Demo\n    ok: 1\n  bad: 2\n".to_vec());
    let tokens = lex(&src);
    assert_eq!(
        types(&tokens),
        vec![
            TokenType::StartOfInput,
            TokenType::Word,
            TokenType::Colon,
            TokenType::LineText,
            TokenType::EndOfLine,
            TokenType::Indent,
            TokenType::Word,
            TokenType::Colon,
            TokenType::LineText,
            TokenType::EndOfLine,
            TokenType::Outdent,
            TokenType::Error,
            TokenType::Word,
            TokenType::Colon,
            TokenType::LineText,
            TokenType::EndOfLine,
            TokenType::EndOfInput
        ]
    );
    assert_eq!(tokens[11].text(), b"");
    assert_eq!(tokens[11].trivia(), b"  ");
    assert_eq!(tokens[12].text(), b"bad");
    assert_eq!(count(&tokens, TokenType::Indent), count(&tokens, TokenType::Outdent));
    assert_eq!(rebuilt(&tokens), src.text());
}

#[test]
fn blank_and_comment_lines_are_trivia() {
    let src = SourceBuffer::new(b"\n# note\n  \na\n\n    # deep\nb".to_vec());
    let tokens = lex(&src);
    assert_eq!(
        types(&tokens),
        vec![
            TokenType::StartOfInput,
            TokenType::Word,
            TokenType::EndOfLine,
            TokenType::Word,
            TokenType::EndOfInput
        ]
    );
    assert_eq!(tokens[1].trivia(), b"\n# note\n  \n");
    assert_eq!(tokens[3].trivia(), b"\n    # deep\n");
    assert_eq!(rebuilt(&tokens), src.text());
}

#[test]
fn leading_greater_than_takes_the_rest_of_the_line() {
    let src = SourceBuffer::new(b"> said: so  \n".to_vec());
    let tokens = lex(&src);
    assert_eq!(
        types(&tokens),
        vec![
            TokenType::StartOfInput,
            TokenType::GreaterThan,
            TokenType::LineText,
            TokenType::EndOfLine,
            TokenType::EndOfInput
        ]
    );
    assert_eq!(tokens[2].text(), b"said: so");
    assert_eq!(tokens[3].trivia(), b"  ");
}

#[test]
fn verbatim_block_is_one_token() {
    let src = SourceBuffer::new(b"body: >\n    one\n      two: x\n    \"three\nnext: 1\n".to_vec());
    let tokens = lex(&src);
    assert_eq!(
        types(&tokens),
        vec![
            TokenType::StartOfInput,
            TokenType::Word,
            TokenType::Colon,
            TokenType::GreaterThan,
            TokenType::EndOfLine,
            TokenType::BlockText,
            TokenType::Word,
            TokenType::Colon,
            TokenType::LineText,
            TokenType::EndOfLine,
            TokenType::EndOfInput
        ]
    );
    assert_eq!(tokens[5].text(), b"    one\n      two: x\n    \"three\n");
    assert_eq!(tokens[6].text(), b"next");
    assert_eq!(rebuilt(&tokens), src.text());
}

#[test]
fn verbatim_block_runs_to_end_of_input() {
    let src = SourceBuffer::new(b"a\n  body: >\n    one\n    two".to_vec());
    let tokens = lex(&src);
    let n = tokens.len();
    assert_eq!(tokens[n - 3].token_type, TokenType::BlockText);
    assert_eq!(tokens[n - 3].text(), b"    one\n    two");
    assert_eq!(tokens[n - 2].token_type, TokenType::Outdent);
    assert_eq!(tokens[n - 1].token_type, TokenType::EndOfInput);
    assert_eq!(rebuilt(&tokens), src.text());
}

#[test]
fn control_byte_is_an_error_token_of_one_byte() {
    let src = SourceBuffer::new(b"a \x01b\n".to_vec());
    let tokens = lex(&src);
    assert_eq!(
        types(&tokens),
        vec![
            TokenType::StartOfInput,
            TokenType::Word,
            TokenType::Error,
            TokenType::Word,
            TokenType::EndOfLine,
            TokenType::EndOfInput
        ]
    );
    assert_eq!(tokens[2].text(), b"\x01");
}

#[test]
fn lexing_is_lossless_on_mixed_input() {
    let text = b"  lead\n\t\ttabs: \"q\" tail\r\n# c\n   x\n >y\n:\n\"open\n  z: >\n     v\n";
    let src = SourceBuffer::new(text.to_vec());
    let tokens = lex(&src);
    assert_eq!(rebuilt(&tokens), text.to_vec());
    assert_eq!(count(&tokens, TokenType::Indent), count(&tokens, TokenType::Outdent));
    assert_eq!(tokens[0].token_type, TokenType::StartOfInput);
    assert_eq!(tokens[tokens.len() - 1].token_type, TokenType::EndOfInput);
    for w in tokens.windows(2) {
        assert_eq!(w[0].text_end, w[1].trivia_start);
    }
}

#[test]
fn lexing_twice_gives_the_same_stream() {
    let src = SourceBuffer::new(b"a: 1\n  b: \"x\\ty\"\n c\n".to_vec());
    let first = lex(&src);
    let second = lex(&src);
    assert_eq!(first.len(), second.len());
    for (x, y) in first.iter().zip(second.iter()) {
        assert_eq!(x.token_type, y.token_type);
        assert_eq!(x.trivia_start, y.trivia_start);
        assert_eq!(x.text_start, y.text_start);
        assert_eq!(x.text_end, y.text_end);
        assert_eq!(x.value, y.value);
    }
}

#[test]
fn offsets_map_to_lines_and_columns() {
    let src = SourceBuffer::new(b"ab\ncd\n\nefg".to_vec());
    assert_eq!(src.line_column(0), (0, 0));
    assert_eq!(src.line_column(2), (0, 2));
    assert_eq!(src.line_column(3), (1, 0));
    assert_eq!(src.line_column(5), (1, 2));
    assert_eq!(src.line_column(6), (2, 0));
    assert_eq!(src.line_column(9), (3, 2));
    assert_eq!(src.line_column(10), (3, 3));
    assert_eq!(src.len(), 10);
    assert_eq!(src.byte_at(3), b'c');
    assert_eq!(src.slice(3, 5), b"cd");
}

#[test]
fn stepping_ends_with_the_stack_at_its_bottom() {
    let src = SourceBuffer::new(b"a\n   b\n      c\n  d".to_vec());
    let mut lexer = Lexer::new(&src);
    assert_eq!(lexer.mode, Mode::Start);
    let mut seen = Vec::new();
    let mut deepest = 0;
    while !lexer.is_done() {
        let t = lexer.next_token();
        deepest = deepest.max(lexer.stack.len());
        seen.push(t.token_type);
    }
    assert_eq!(lexer.stack, vec![0]);
    assert_eq!(lexer.pos, src.len());
    assert_eq!(deepest, 3);
    assert_eq!(seen, types(&lex(&src)));
    // once done, the lexer stays done
    let again = lexer.next_token();
    assert_eq!(again.token_type, TokenType::EndOfInput);
    assert_eq!(again.text_start, src.len());
    assert!(lexer.is_done());
}

#[test]
fn scanning_primitives_follow_their_classes() {
    let src = SourceBuffer::new(b"  \t key \r\n# c\n   next\n".to_vec());
    assert_eq!(scan_run(&src, 0, ByteClass::Indentation), 4);
    assert_eq!(scan_run(&src, 4, ByteClass::WordBody), 7);
    assert_eq!(scan_run(&src, 7, ByteClass::Blank), 9);
    assert_eq!(scan_run(&src, 0, ByteClass::LineBody), 9);
    assert_eq!(trim_end(&src, 4, 9), 7);
    assert_eq!(trim_end(&src, 7, 9), 7);
    assert_eq!(find_content(&src, 0), (4, 4));
    assert_eq!(find_content(&src, 10), (17, 3));
    assert_eq!(find_content(&src, 22), (22, 0));
    assert_eq!(find_block_end(&src, 10, 2), 10);
    assert_eq!(find_block_end(&src, 14, 2), 22);
    assert!(class_has(ByteClass::WordBody, b'>'));
    assert!(!class_has(ByteClass::WordBody, b':'));
    assert!(!class_has(ByteClass::WordBody, b'"'));
    assert!(!class_has(ByteClass::Indentation, b'\r'));
    assert_eq!(unescape_byte(b'n'), b'\n');
    assert_eq!(unescape_byte(b't'), b'\t');
    assert_eq!(unescape_byte(b'r'), b'\r');
    assert_eq!(unescape_byte(b'"'), b'"');
    let quoted = SourceBuffer::new(b"\"a\\nb\" rest".to_vec());
    let r = scan_quoted(&quoted, 1);
    assert_eq!((r.end, r.closed, r.value), (6, true, b"a\nb".to_vec()));
    let open = SourceBuffer::new(b"\"ab\\\ncd".to_vec());
    let r = scan_quoted(&open, 1);
    assert_eq!((r.end, r.closed, r.value), (4, false, b"ab\\".to_vec()));
}
