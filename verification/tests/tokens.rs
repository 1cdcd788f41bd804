use jsonlib::buffer::{LineBuffer, StringIterator};
use jsonlib::scanner::{Scanner, Token, TokenKind};

fn collect_tokens(mut scanner: Scanner) -> Vec<Token> {
    let mut tokens: Vec<Token> = vec![];
    loop {
        let t = scanner.next_token();
        if t.kind == TokenKind::Eof {
            tokens.push(t);
            break;
        }
        tokens.push(t);
    }
    tokens
}

#[test]
fn string_iterator() {
    let mut si = StringIterator::new("jhone".to_string());
    assert_eq!(Some('j'), si.next());
    assert_eq!(Some('h'), si.next());
    assert_eq!(Some('o'), si.next());
    assert_eq!(Some('n'), si.next());
    assert_eq!(Some('e'), si.next());
    assert_eq!(None, si.next());
}

#[test]
fn line_buffer_appends_newlines() {
    let text = "alpha\nbeta\r\ngamma".to_string();
    let mut lb = LineBuffer::from_string(&text);
    assert_eq!(lb.next(), Some("alpha\n".to_string()));
    assert_eq!(lb.next(), Some("beta\n".to_string()));
    assert_eq!(lb.next(), Some("gamma\n".to_string()));
    assert_eq!(lb.next(), None);
}

#[test]
fn scanner_error() {
    let json = "[ 1, 2, _ ]".to_string();
    let scanner = Scanner::from_string(&json);
    let tokens = collect_tokens(scanner);

    let t = &tokens[5];
    assert_eq!(t.kind, TokenKind::Error);
    assert_eq!(t.value, "_".to_string());
    assert_eq!(t.line, 1);
    assert_eq!(t.col, 9);

    assert_eq!(tokens.len(), 8);
}

#[test]
fn token_positions_across_lines() {
    let json = "{\n  \"name\": true,\n  \"age\": 3\n}".to_string();
    let scanner = Scanner::from_string(&json);
    let tokens = collect_tokens(scanner);

    assert_eq!(tokens[0].kind, TokenKind::LeftBrace);
    assert_eq!((tokens[0].line, tokens[0].col), (1, 1));

    assert_eq!(tokens[1].kind, TokenKind::String);
    assert_eq!(tokens[1].value, "name".to_string());
    assert_eq!((tokens[1].line, tokens[1].col), (2, 3));

    assert_eq!(tokens[2].kind, TokenKind::Collon);
    assert_eq!((tokens[2].line, tokens[2].col), (2, 9));

    assert_eq!(tokens[3].kind, TokenKind::True);
    assert_eq!((tokens[3].line, tokens[3].col), (2, 11));

    assert_eq!(tokens[4].kind, TokenKind::Comma);

    assert_eq!(tokens[5].kind, TokenKind::String);
    assert_eq!(tokens[5].value, "age".to_string());
    assert_eq!((tokens[5].line, tokens[5].col), (3, 3));

    assert_eq!(tokens[7].kind, TokenKind::Number);
    assert_eq!(tokens[7].value, "3".to_string());
    assert_eq!((tokens[7].line, tokens[7].col), (3, 10));

    assert_eq!(tokens[8].kind, TokenKind::RightBrace);
    assert_eq!((tokens[8].line, tokens[8].col), (4, 1));

    assert_eq!(tokens[9].kind, TokenKind::Eof);
}

#[test]
fn source_independence() {
    // The same content through the in-memory entry and through the
    // pre-split-lines entry yields identical token and position sequences.
    let text = "{\n  \"a\": null\n}".to_string();
    let lines = vec!["{".to_string(), "  \"a\": null".to_string(), "}".to_string()];
    let from_text = collect_tokens(Scanner::from_string(&text));
    let from_lines = collect_tokens(Scanner::from_lines(lines));
    assert_eq!(from_text.len(), from_lines.len());
    for (a, b) in from_text.iter().zip(from_lines.iter()) {
        assert_eq!(a.kind, b.kind);
        assert_eq!(a.value, b.value);
        assert_eq!(a.line, b.line);
        assert_eq!(a.col, b.col);
    }
}

#[test]
fn escaped_quote_stays_in_string() {
    let json = "\"a\\\"b\"".to_string();
    let scanner = Scanner::from_string(&json);
    let tokens = collect_tokens(scanner);
    assert_eq!(tokens[0].kind, TokenKind::String);
    assert_eq!(tokens[0].value, "a\\\"b".to_string());
    assert_eq!(tokens.len(), 2);
}

#[test]
fn dummy_token_is_placeholder() {
    let t = Token::dummy();
    assert_eq!(t.kind, TokenKind::Eof);
    assert_eq!(t.value, "".to_string());
    assert_eq!((t.line, t.col), (0, 0));
}

#[test]
fn keyword_and_number_tokens() {
    let json = "nullx -12.5e-2 true".to_string();
    let scanner = Scanner::from_string(&json);
    let tokens = collect_tokens(scanner);
    assert_eq!(tokens[0].kind, TokenKind::Error);
    assert_eq!(tokens[0].value, "nullx".to_string());
    assert_eq!(tokens[1].kind, TokenKind::Number);
    assert_eq!(tokens[1].value, "-12.5e-2".to_string());
    assert_eq!(tokens[2].kind, TokenKind::True);
    assert_eq!(tokens[3].kind, TokenKind::Eof);
}
