use brainmelt::lexer::{lex, Token, TokenKind};

#[test]
fn lex_basic_tokens() {
    let tokens = lex("+-><.,[]\n+");
    let kinds: Vec<TokenKind> = tokens.iter().map(|t| t.kind).collect();

    assert_eq!(
        kinds,
        vec![
            TokenKind::Inc,
            TokenKind::Dec,
            TokenKind::Left,
            TokenKind::Right,
            TokenKind::Put,
            TokenKind::Get,
            TokenKind::LoopStart,
            TokenKind::LoopEnd,
            TokenKind::Inc,
        ]
    );

    assert_eq!(tokens.last().unwrap().line, 2);
    assert_eq!(tokens.last().unwrap().col, 1);
}

#[test]
fn ignores_comments() {
    let tokens = lex("+++ hello +++");
    assert_eq!(tokens.len(), 6);
}

#[test]
fn columns_count_comments_and_carriage_returns() {
    let tokens = lex("a+\r\n\r-x>");
    assert_eq!(
        tokens,
        vec![
            Token { kind: TokenKind::Inc, line: 1, col: 2 },
            Token { kind: TokenKind::Dec, line: 2, col: 2 },
            Token { kind: TokenKind::Left, line: 2, col: 4 },
        ]
    );
}

#[test]
fn multibyte_characters_count_as_one_column() {
    let tokens = lex("é[ü]");
    assert_eq!(tokens[0], Token { kind: TokenKind::LoopStart, line: 1, col: 2 });
    assert_eq!(tokens[1], Token { kind: TokenKind::LoopEnd, line: 1, col: 4 });
}

#[test]
fn empty_source_has_no_tokens() {
    assert!(lex("").is_empty());
    assert!(lex("\n\n only words \n").is_empty());
}

#[test]
fn lines_count_from_one() {
    let tokens = lex(".\n\n\n,");
    assert_eq!(tokens[0], Token { kind: TokenKind::Put, line: 1, col: 1 });
    assert_eq!(tokens[1], Token { kind: TokenKind::Get, line: 4, col: 1 });
}
