use iacc::lexer::{tokenize, LexError, LexErrorKind, Lexer};
use iacc::token::{Decimal, Token, TokenKind};

fn kinds_of_source(source: &str) -> Vec<TokenKind> {
    tokenize(source).unwrap().into_iter().map(|t| t.kind).collect()
}

fn ident(text: &str) -> TokenKind {
    TokenKind::Identifier(text.to_string())
}

#[test]
fn lexer_canonical() {
    let v = Lexer::new("(+ 2 3)").lex().unwrap();
    assert_eq!(v[0].kind, TokenKind::LParen);
}

#[test]
fn lexer_true() {
    let v = Lexer::new("( #t #f )").lex().unwrap();
    assert_eq!(v.len(), 5);
    assert_eq!(v[0].kind, TokenKind::LParen);
    assert_eq!(v[1].kind, TokenKind::True);
    assert_eq!(v[2].kind, TokenKind::False);
    assert_eq!(v[3].kind, TokenKind::RParen);
    assert_eq!(v[4].kind, TokenKind::Eof);
}

#[test]
fn lex_gives_the_worked_examples() {
    let kinds = |source: &str| -> Vec<TokenKind> {
        Lexer::new(source).lex().unwrap().into_iter().map(|t| t.kind).collect()
    };
    assert_eq!(
        kinds("(+ 2 3)"),
        vec![
            TokenKind::LParen,
            TokenKind::Plus,
            TokenKind::Number(2),
            TokenKind::Number(3),
            TokenKind::RParen,
            TokenKind::Eof,
        ]
    );
    assert_eq!(kinds("42"), vec![TokenKind::Number(42), TokenKind::Eof]);
    assert_eq!(kinds(""), vec![TokenKind::Eof]);
    assert_eq!(kinds(" \t \n  "), vec![TokenKind::Eof]);
    let places: Vec<usize> =
        Lexer::new("( #t #f )").lex().unwrap().iter().map(|t| t.column).collect();
    assert_eq!(places, vec![1, 3, 6, 9, 10]);
}

#[test]
fn worked_example_sum() {
    assert_eq!(
        kinds_of_source("(+ 2 3)"),
        vec![
            TokenKind::LParen,
            TokenKind::Plus,
            TokenKind::Number(2),
            TokenKind::Number(3),
            TokenKind::RParen,
            TokenKind::Eof,
        ]
    );
}

#[test]
fn worked_example_booleans() {
    let tokens = tokenize("( #t #f )").unwrap();
    let before_eof: Vec<TokenKind> = tokens
        .iter()
        .filter(|t| t.kind != TokenKind::Eof)
        .map(|t| t.kind.clone())
        .collect();
    assert_eq!(
        before_eof,
        vec![TokenKind::LParen, TokenKind::True, TokenKind::False, TokenKind::RParen]
    );
    assert_eq!(tokens.len(), 5);
    assert_eq!(tokens[4].kind, TokenKind::Eof);
}

#[test]
fn empty_and_blank_sources_give_only_eof() {
    assert_eq!(
        tokenize("").unwrap(),
        vec![Token { kind: TokenKind::Eof, line: 1, column: 1 }]
    );
    assert_eq!(
        tokenize("  \t ").unwrap(),
        vec![Token { kind: TokenKind::Eof, line: 1, column: 5 }]
    );
    assert_eq!(
        tokenize(" \n\n  ").unwrap(),
        vec![Token { kind: TokenKind::Eof, line: 3, column: 3 }]
    );
    assert_eq!(
        Lexer::new("").lex().unwrap(),
        vec![Token { kind: TokenKind::Eof, line: 1, column: 1 }]
    );
    for source in ["", "  \t ", " \n\n  ", "(a)\n"] {
        assert_eq!(Lexer::new(source).lex(), tokenize(source));
    }
}

#[test]
fn every_token_stream_ends_in_one_eof() {
    for source in ["", "42", "(a b)", ";; nothing\n", "'(1 . 2)", "\"s\" #\\x"] {
        let tokens = tokenize(source).unwrap();
        let eofs = tokens.iter().filter(|t| t.kind == TokenKind::Eof).count();
        assert_eq!(eofs, 1);
        assert_eq!(tokens.last().unwrap().kind, TokenKind::Eof);
    }
}

#[test]
fn tokenize_is_a_function_of_the_text() {
    for source in ["(define (f x) (+ x 1))", "\"open", "#\\", "a @ b"] {
        assert_eq!(tokenize(source), tokenize(source));
    }
}

#[test]
fn token_places_are_those_of_the_first_character() {
    let tokens = tokenize("(foo\n  \"a\nb\" 12)\n").unwrap();
    assert_eq!(
        tokens,
        vec![
            Token { kind: TokenKind::LParen, line: 1, column: 1 },
            Token { kind: ident("foo"), line: 1, column: 2 },
            Token { kind: TokenKind::String("a\nb".to_string()), line: 2, column: 3 },
            Token { kind: TokenKind::Number(12), line: 3, column: 4 },
            Token { kind: TokenKind::RParen, line: 3, column: 6 },
            Token { kind: TokenKind::Eof, line: 4, column: 1 },
        ]
    );
}

#[test]
fn delimiters_and_quoting_tokens() {
    assert_eq!(
        kinds_of_source("'a `b ,c ,@d #(e)"),
        vec![
            TokenKind::Quote,
            ident("a"),
            TokenKind::QuasiQuote,
            ident("b"),
            TokenKind::Comma,
            ident("c"),
            TokenKind::CommaAt,
            ident("d"),
            TokenKind::HashLParen,
            ident("e"),
            TokenKind::RParen,
            TokenKind::Eof,
        ]
    );
    assert_eq!(kinds_of_source(","), vec![TokenKind::Comma, TokenKind::Eof]);
    assert_eq!(kinds_of_source(",@"), vec![TokenKind::CommaAt, TokenKind::Eof]);
}

#[test]
fn operators_and_signed_numbers() {
    assert_eq!(
        kinds_of_source("+ - * / +7 -7 - 7 +x"),
        vec![
            TokenKind::Plus,
            TokenKind::Minus,
            TokenKind::Star,
            TokenKind::Slash,
            TokenKind::Number(7),
            TokenKind::Number(-7),
            TokenKind::Minus,
            TokenKind::Number(7),
            TokenKind::Plus,
            ident("x"),
            TokenKind::Eof,
        ]
    );
}

#[test]
fn integer_literals() {
    assert_eq!(kinds_of_source("0"), vec![TokenKind::Number(0), TokenKind::Eof]);
    assert_eq!(kinds_of_source("007"), vec![TokenKind::Number(7), TokenKind::Eof]);
    assert_eq!(
        kinds_of_source("9223372036854775807"),
        vec![TokenKind::Number(i64::MAX), TokenKind::Eof]
    );
    assert_eq!(
        kinds_of_source("-9223372036854775808"),
        vec![TokenKind::Number(i64::MIN), TokenKind::Eof]
    );
    assert_eq!(
        kinds_of_source("12abc"),
        vec![TokenKind::Number(12), ident("abc"), TokenKind::Eof]
    );
}

#[test]
fn decimal_literals() {
    assert_eq!(
        kinds_of_source("3.14"),
        vec![
            TokenKind::Float(Decimal { negative: false, digits: 314, scale: 2 }),
            TokenKind::Eof
        ]
    );
    assert_eq!(
        kinds_of_source("-0.5"),
        vec![TokenKind::Float(Decimal { negative: true, digits: 5, scale: 1 }), TokenKind::Eof]
    );
    assert_eq!(
        kinds_of_source("+1.50"),
        vec![
            TokenKind::Float(Decimal { negative: false, digits: 150, scale: 2 }),
            TokenKind::Eof
        ]
    );
    assert_eq!(
        kinds_of_source("2."),
        vec![TokenKind::Float(Decimal { negative: false, digits: 2, scale: 0 }), TokenKind::Eof]
    );
    assert_eq!(
        kinds_of_source("0.001"),
        vec![TokenKind::Float(Decimal { negative: false, digits: 1, scale: 3 }), TokenKind::Eof]
    );
    assert_eq!(
        kinds_of_source("18446744073709551.615"),
        vec![
            TokenKind::Float(Decimal { negative: false, digits: u64::MAX, scale: 3 }),
            TokenKind::Eof
        ]
    );
}

#[test]
fn numbers_out_of_range() {
    let err = |column| LexError {
        kind: LexErrorKind::NumberOutOfRange,
        ch: '9',
        line: 1,
        column,
    };
    assert_eq!(tokenize("9223372036854775808"), Err(err(1)));
    assert_eq!(tokenize("  99999999999999999999999"), Err(err(3)));
    assert_eq!(
        tokenize("-9223372036854775809"),
        Err(LexError { kind: LexErrorKind::NumberOutOfRange, ch: '-', line: 1, column: 1 })
    );
    assert_eq!(
        tokenize("1.8446744073709551616"),
        Err(LexError { kind: LexErrorKind::NumberOutOfRange, ch: '1', line: 1, column: 1 })
    );
}

#[test]
fn keywords_and_identifiers() {
    assert_eq!(
        kinds_of_source("define lambda set! begin cond and or letrec else if => ... ."),
        vec![
            TokenKind::Define,
            TokenKind::Lambda,
            TokenKind::SetBang,
            TokenKind::Begin,
            TokenKind::Cond,
            TokenKind::And,
            TokenKind::Or,
            TokenKind::LetRec,
            TokenKind::Else,
            TokenKind::If,
            TokenKind::Arrow,
            TokenKind::Ellipsis,
            TokenKind::Dot,
            TokenKind::Eof,
        ]
    );
    assert_eq!(
        kinds_of_source("defined list->vector x1 <=? _tmp if2"),
        vec![
            ident("defined"),
            ident("list->vector"),
            ident("x1"),
            ident("<=?"),
            ident("_tmp"),
            ident("if2"),
            TokenKind::Eof,
        ]
    );
    assert_eq!(
        kinds_of_source("(if(a)b)"),
        vec![
            TokenKind::LParen,
            TokenKind::If,
            TokenKind::LParen,
            ident("a"),
            TokenKind::RParen,
            ident("b"),
            TokenKind::RParen,
            TokenKind::Eof,
        ]
    );
}

#[test]
fn string_literals_and_escapes() {
    assert_eq!(
        kinds_of_source("\"hello world\""),
        vec![TokenKind::String("hello world".to_string()), TokenKind::Eof]
    );
    assert_eq!(
        kinds_of_source("\"\""),
        vec![TokenKind::String(String::new()), TokenKind::Eof]
    );
    assert_eq!(
        kinds_of_source(r#""a\"b\\c\nd\te""#),
        vec![TokenKind::String("a\"b\\c\nd\te".to_string()), TokenKind::Eof]
    );
    assert_eq!(
        kinds_of_source("\"(; not a comment)\"x"),
        vec![TokenKind::String("(; not a comment)".to_string()), ident("x"), TokenKind::Eof]
    );
}

#[test]
fn unterminated_strings() {
    assert_eq!(
        tokenize("(f \"abc"),
        Err(LexError { kind: LexErrorKind::UnterminatedString, ch: '"', line: 1, column: 4 })
    );
    assert_eq!(
        tokenize("\n\"abc\\"),
        Err(LexError { kind: LexErrorKind::UnterminatedString, ch: '"', line: 2, column: 1 })
    );
    assert_eq!(
        tokenize("\"abc\\\""),
        Err(LexError { kind: LexErrorKind::UnterminatedString, ch: '"', line: 1, column: 1 })
    );
}

#[test]
fn unknown_escape() {
    assert_eq!(
        tokenize("\"a\\qb\""),
        Err(LexError { kind: LexErrorKind::UnexpectedChar, ch: 'q', line: 1, column: 4 })
    );
}

#[test]
fn character_literals() {
    assert_eq!(
        kinds_of_source("#\\a #\\( #\\  #\\\u{3bb}"),
        vec![
            TokenKind::Char('a'),
            TokenKind::Char('('),
            TokenKind::Char(' '),
            TokenKind::Char('\u{3bb}'),
            TokenKind::Eof,
        ]
    );
    assert_eq!(
        tokenize("#\\\nx").unwrap(),
        vec![
            Token { kind: TokenKind::Char('\n'), line: 1, column: 1 },
            Token { kind: ident("x"), line: 2, column: 1 },
            Token { kind: TokenKind::Eof, line: 2, column: 2 },
        ]
    );
}

#[test]
fn unterminated_character() {
    assert_eq!(
        tokenize("a #\\"),
        Err(LexError { kind: LexErrorKind::UnterminatedChar, ch: '#', line: 1, column: 3 })
    );
}

#[test]
fn comments_run_to_the_end_of_the_line() {
    assert_eq!(
        tokenize("1 ; two (three\n4 ;five").unwrap(),
        vec![
            Token { kind: TokenKind::Number(1), line: 1, column: 1 },
            Token { kind: TokenKind::Number(4), line: 2, column: 1 },
            Token { kind: TokenKind::Eof, line: 2, column: 8 },
        ]
    );
}

#[test]
fn unexpected_characters() {
    assert_eq!(
        tokenize("(a @ b)"),
        Err(LexError { kind: LexErrorKind::UnexpectedChar, ch: '@', line: 1, column: 4 })
    );
    assert_eq!(
        tokenize("#x"),
        Err(LexError { kind: LexErrorKind::UnexpectedChar, ch: '#', line: 1, column: 1 })
    );
    assert_eq!(
        tokenize("ok\n  #"),
        Err(LexError { kind: LexErrorKind::UnexpectedChar, ch: '#', line: 2, column: 3 })
    );
    assert_eq!(
        tokenize("\0"),
        Err(LexError { kind: LexErrorKind::UnexpectedChar, ch: '\0', line: 1, column: 1 })
    );
    assert_eq!(
        tokenize("[1]"),
        Err(LexError { kind: LexErrorKind::UnexpectedChar, ch: '[', line: 1, column: 1 })
    );
    assert_eq!(
        tokenize("a\r\n"),
        Ok(vec![
            Token { kind: ident("a\r"), line: 1, column: 1 },
            Token { kind: TokenKind::Eof, line: 2, column: 1 },
        ])
    );
    assert_eq!(
        tokenize("\u{e9}"),
        Err(LexError { kind: LexErrorKind::UnexpectedChar, ch: '\u{e9}', line: 1, column: 1 })
    );
}

#[test]
fn cursor_primitives() {
    let mut lexer = Lexer::new("ab");
    assert!(!lexer.is_at_end());
    assert_eq!(lexer.peek(), 'b');
    assert_eq!(lexer.bite(), 'a');
    assert_eq!(lexer.peek(), '\0');
    assert_eq!(lexer.bite(), 'b');
    assert!(lexer.is_at_end());
    assert_eq!(lexer.bite(), '\0');
    assert!(lexer.is_at_end());
    assert_eq!(lexer.peek(), '\0');
    assert_eq!(lexer.bite(), '\0');
    assert!(lexer.is_at_end());
    assert_eq!(
        lexer.lex(),
        Ok(vec![Token { kind: TokenKind::Eof, line: 1, column: 3 }])
    );
}

#[test]
fn bite_keeps_line_and_column() {
    let mut lexer = Lexer::new("a\nbc");
    assert_eq!(lexer.bite(), 'a');
    assert_eq!(lexer.bite(), '\n');
    assert_eq!(
        lexer.scan_token(),
        Ok(Some(Token { kind: TokenKind::Identifier("bc".to_string()), line: 2, column: 1 }))
    );
    assert_eq!(lexer.bite(), '\0');
    assert_eq!(
        lexer.scan_token(),
        Ok(Some(Token { kind: TokenKind::Eof, line: 2, column: 3 }))
    );
}

#[test]
fn make_token_marks_the_place_and_moves_on() {
    let mut lexer = Lexer::new("(x\n)");
    assert_eq!(
        lexer.make_token(TokenKind::LParen),
        Some(Token { kind: TokenKind::LParen, line: 1, column: 1 })
    );
    assert_eq!(
        lexer.make_token(TokenKind::Identifier("x".to_string())),
        Some(Token { kind: TokenKind::Identifier("x".to_string()), line: 1, column: 2 })
    );
    assert_eq!(lexer.bite(), '\n');
    assert_eq!(
        lexer.make_token(TokenKind::RParen),
        Some(Token { kind: TokenKind::RParen, line: 2, column: 1 })
    );
    assert!(lexer.is_at_end());
    assert_eq!(
        lexer.make_token(TokenKind::Eof),
        Some(Token { kind: TokenKind::Eof, line: 2, column: 2 })
    );
}

#[test]
fn make_token_keeps_the_payload() {
    for n in [0i64, 1, -1, 42, (1 << 61) - 1, -(1 << 61), i64::MAX, i64::MIN] {
        let token = Lexer::new("x").make_token(TokenKind::Number(n)).unwrap();
        assert_eq!(token.kind, TokenKind::Number(n));
    }
    for b in [true, false] {
        let kind = if b { TokenKind::True } else { TokenKind::False };
        let token = Lexer::new("x").make_token(kind).unwrap();
        assert_eq!(token.kind == TokenKind::True, b);
    }
    for c in ['a', '\0', '\n', '\u{3bb}', '\u{10ffff}'] {
        let token = Lexer::new("x").make_token(TokenKind::Char(c)).unwrap();
        assert_eq!(token.kind, TokenKind::Char(c));
    }
}

#[test]
fn scan_token_steps_through_the_source() {
    let mut lexer = Lexer::new(" (x");
    assert_eq!(lexer.scan_token(), Ok(None));
    assert_eq!(
        lexer.scan_token(),
        Ok(Some(Token { kind: TokenKind::LParen, line: 1, column: 2 }))
    );
    assert_eq!(lexer.scan_token(), Ok(Some(Token { kind: ident("x"), line: 1, column: 3 })));
    assert!(lexer.is_at_end());
    for _ in 0..3 {
        assert_eq!(
            lexer.scan_token(),
            Ok(Some(Token { kind: TokenKind::Eof, line: 1, column: 4 }))
        );
    }
}

#[test]
fn lex_continues_from_the_cursor() {
    let mut lexer = Lexer::new("a b");
    lexer.bite();
    assert_eq!(
        lexer.lex(),
        Ok(vec![
            Token { kind: ident("b"), line: 1, column: 3 },
            Token { kind: TokenKind::Eof, line: 1, column: 4 },
        ])
    );
    assert_eq!(lexer.lex(), Ok(vec![Token { kind: TokenKind::Eof, line: 1, column: 4 }]));
}
