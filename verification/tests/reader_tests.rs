use iacc::lexer::tokenize;
use iacc::reader::{read, ParseError, ParseErrorKind, DEFAULT_MAX_DEPTH};
use iacc::sexpr::{Atom, Form, SExpr};
use iacc::token::{Decimal, Token, TokenKind};

fn read_source(source: &str) -> Result<Vec<SExpr>, ParseError> {
    let tokens = tokenize(source).unwrap();
    read(&tokens, DEFAULT_MAX_DEPTH).map(|forms| forms.into_iter().map(|f| f.expr).collect())
}

fn read_error(source: &str) -> ParseError {
    read_source(source).unwrap_err()
}

fn sym(text: &str) -> SExpr {
    SExpr::Atom(Atom::Symbol(text.to_string()))
}

fn num(n: i64) -> SExpr {
    SExpr::Atom(Atom::Integer(n))
}

fn tok(kind: TokenKind) -> Token {
    Token { kind, line: 1, column: 1 }
}

#[test]
fn reads_atoms() {
    assert_eq!(read_source("42"), Ok(vec![num(42)]));
    assert_eq!(read_source("-7"), Ok(vec![num(-7)]));
    assert_eq!(
        read_source("2.5"),
        Ok(vec![SExpr::Atom(Atom::Float(Decimal { negative: false, digits: 25, scale: 1 }))])
    );
    assert_eq!(
        read_source("#t #f"),
        Ok(vec![SExpr::Atom(Atom::Boolean(true)), SExpr::Atom(Atom::Boolean(false))])
    );
    assert_eq!(read_source("#\\x"), Ok(vec![SExpr::Atom(Atom::Character('x'))]));
    assert_eq!(
        read_source("\"hi there\""),
        Ok(vec![SExpr::Atom(Atom::String("hi there".to_string()))])
    );
    assert_eq!(read_source("foo"), Ok(vec![sym("foo")]));
}

#[test]
fn reads_nothing_from_an_empty_source() {
    assert_eq!(read_source(""), Ok(vec![]));
    assert_eq!(read_source(" ; only a comment\n"), Ok(vec![]));
    assert_eq!(read(&vec![], DEFAULT_MAX_DEPTH), Ok(vec![]));
}

#[test]
fn reads_lists() {
    assert_eq!(read_source("(+ 2 3)"), Ok(vec![SExpr::List(vec![sym("+"), num(2), num(3)])]));
    assert_eq!(read_source("()"), Ok(vec![SExpr::List(vec![])]));
    assert_eq!(
        read_source("(a (b (c)) () d)"),
        Ok(vec![SExpr::List(vec![
            sym("a"),
            SExpr::List(vec![sym("b"), SExpr::List(vec![sym("c")])]),
            SExpr::List(vec![]),
            sym("d"),
        ])])
    );
}

#[test]
fn reads_keywords_and_operators_as_symbols() {
    assert_eq!(
        read_source("(define x 5)"),
        Ok(vec![SExpr::List(vec![sym("define"), sym("x"), num(5)])])
    );
    assert_eq!(
        read_source("lambda set! begin cond and or letrec else if => ... + - * /"),
        Ok(vec![
            sym("lambda"),
            sym("set!"),
            sym("begin"),
            sym("cond"),
            sym("and"),
            sym("or"),
            sym("letrec"),
            sym("else"),
            sym("if"),
            sym("=>"),
            sym("..."),
            sym("+"),
            sym("-"),
            sym("*"),
            sym("/"),
        ])
    );
}

#[test]
fn reads_improper_lists() {
    assert_eq!(
        read_source("(a b . c)"),
        Ok(vec![SExpr::Improper(vec![sym("a"), sym("b")], Box::new(sym("c")))])
    );
    assert_eq!(
        read_source("(a . (b c))"),
        Ok(vec![SExpr::Improper(
            vec![sym("a")],
            Box::new(SExpr::List(vec![sym("b"), sym("c")]))
        )])
    );
    assert_eq!(
        read_source("(. c)"),
        Ok(vec![SExpr::Improper(vec![], Box::new(sym("c")))])
    );
    assert_eq!(
        read_source("((1 . 2) . 3)"),
        Ok(vec![SExpr::Improper(
            vec![SExpr::Improper(vec![num(1)], Box::new(num(2)))],
            Box::new(num(3))
        )])
    );
}

#[test]
fn reads_vectors() {
    assert_eq!(
        read_source("#(1 2 3)"),
        Ok(vec![SExpr::Vector(vec![num(1), num(2), num(3)])])
    );
    assert_eq!(read_source("#()"), Ok(vec![SExpr::Vector(vec![])]));
    assert_eq!(
        read_source("#(a #(b) (c))"),
        Ok(vec![SExpr::Vector(vec![
            sym("a"),
            SExpr::Vector(vec![sym("b")]),
            SExpr::List(vec![sym("c")]),
        ])])
    );
}

#[test]
fn reads_quoting_forms_as_two_item_lists() {
    assert_eq!(read_source("'x"), Ok(vec![SExpr::List(vec![sym("quote"), sym("x")])]));
    assert_eq!(read_source("`x"), Ok(vec![SExpr::List(vec![sym("quasiquote"), sym("x")])]));
    assert_eq!(read_source(",x"), Ok(vec![SExpr::List(vec![sym("unquote"), sym("x")])]));
    assert_eq!(
        read_source(",@x"),
        Ok(vec![SExpr::List(vec![sym("unquote-splicing"), sym("x")])])
    );
    assert_eq!(
        read_source("'(1 'b)"),
        Ok(vec![SExpr::List(vec![
            sym("quote"),
            SExpr::List(vec![num(1), SExpr::List(vec![sym("quote"), sym("b")])]),
        ])])
    );
    assert_eq!(read_source("'x"), read_source("(quote x)"));
}

#[test]
fn forms_carry_the_place_of_their_first_token() {
    let tokens = tokenize("1\n  (2 3)\n'x").unwrap();
    assert_eq!(
        read(&tokens, DEFAULT_MAX_DEPTH),
        Ok(vec![
            Form { expr: num(1), line: 1, column: 1 },
            Form { expr: SExpr::List(vec![num(2), num(3)]), line: 2, column: 3 },
            Form { expr: SExpr::List(vec![sym("quote"), sym("x")]), line: 3, column: 1 },
        ])
    );
}

#[test]
fn reading_stops_at_eof_or_at_the_last_token() {
    let without_eof = vec![tok(TokenKind::Number(1)), tok(TokenKind::Number(2))];
    assert_eq!(
        read(&without_eof, DEFAULT_MAX_DEPTH).unwrap().into_iter().map(|f| f.expr).collect::<Vec<_>>(),
        vec![num(1), num(2)]
    );
    let eof_in_the_middle =
        vec![tok(TokenKind::Number(1)), tok(TokenKind::Eof), tok(TokenKind::RParen)];
    assert_eq!(
        read(&eof_in_the_middle, DEFAULT_MAX_DEPTH)
            .unwrap()
            .into_iter()
            .map(|f| f.expr)
            .collect::<Vec<_>>(),
        vec![num(1)]
    );
    let open = vec![
        Token { kind: TokenKind::LParen, line: 4, column: 2 },
        Token { kind: TokenKind::Number(1), line: 4, column: 3 },
    ];
    assert_eq!(
        read(&open, DEFAULT_MAX_DEPTH),
        Err(ParseError { kind: ParseErrorKind::UnexpectedEof, line: 4, column: 2 })
    );
}

#[test]
fn symbol_tokens_read_as_symbols() {
    let tokens = vec![tok(TokenKind::Symbol("abc".to_string())), tok(TokenKind::Eof)];
    assert_eq!(
        read(&tokens, DEFAULT_MAX_DEPTH),
        Ok(vec![Form { expr: sym("abc"), line: 1, column: 1 }])
    );
}

#[test]
fn unmatched_closing_parenthesis() {
    assert_eq!(
        read_error(")"),
        ParseError { kind: ParseErrorKind::UnmatchedRParen, line: 1, column: 1 }
    );
    assert_eq!(
        read_error("(a)\n b)"),
        ParseError { kind: ParseErrorKind::UnmatchedRParen, line: 2, column: 3 }
    );
}

#[test]
fn end_of_input_inside_a_list_or_vector() {
    assert_eq!(
        read_error("(a"),
        ParseError { kind: ParseErrorKind::UnexpectedEof, line: 1, column: 1 }
    );
    assert_eq!(
        read_error("x (a (b c)"),
        ParseError { kind: ParseErrorKind::UnexpectedEof, line: 1, column: 3 }
    );
    assert_eq!(
        read_error("(a (b c"),
        ParseError { kind: ParseErrorKind::UnexpectedEof, line: 1, column: 4 }
    );
    assert_eq!(
        read_error("\n#(1 2"),
        ParseError { kind: ParseErrorKind::UnexpectedEof, line: 2, column: 1 }
    );
    assert_eq!(
        read_error("(a . b"),
        ParseError { kind: ParseErrorKind::UnexpectedEof, line: 1, column: 1 }
    );
    assert_eq!(
        read_error("(a ."),
        ParseError { kind: ParseErrorKind::UnexpectedEof, line: 1, column: 1 }
    );
}

#[test]
fn misplaced_dots() {
    let at = |column| ParseError { kind: ParseErrorKind::MisplacedDot, line: 1, column };
    assert_eq!(read_error("."), at(1));
    assert_eq!(read_error("(a . b c)"), at(4));
    assert_eq!(read_error("(a . )"), at(4));
    assert_eq!(read_error("(a . . b)"), at(4));
    assert_eq!(read_error("(a . b . c)"), at(4));
    assert_eq!(read_error("#(a . b)"), at(5));
    assert_eq!(read_error("'."), at(2));
}

#[test]
fn truncated_quoting_forms() {
    let at = |column| ParseError { kind: ParseErrorKind::TruncatedQuote, line: 1, column };
    assert_eq!(read_error("'"), at(1));
    assert_eq!(read_error("(a ')"), at(4));
    assert_eq!(read_error("`"), at(1));
    assert_eq!(read_error("(,)"), at(2));
    assert_eq!(read_error("x ,@"), at(3));
    assert_eq!(read_error("''"), at(2));
}

#[test]
fn nesting_deeper_than_the_maximum() {
    let tokens = tokenize("((1))").unwrap();
    assert!(read(&tokens, 2).is_ok());
    let tokens = tokenize("(((1)))").unwrap();
    assert_eq!(
        read(&tokens, 2),
        Err(ParseError { kind: ParseErrorKind::TooDeep, line: 1, column: 3 })
    );
    assert!(read(&tokens, 3).is_ok());
    let tokens = tokenize("''x").unwrap();
    assert_eq!(
        read(&tokens, 1),
        Err(ParseError { kind: ParseErrorKind::TooDeep, line: 1, column: 2 })
    );
    let tokens = tokenize("1 #()").unwrap();
    assert_eq!(
        read(&tokens, 0),
        Err(ParseError { kind: ParseErrorKind::TooDeep, line: 1, column: 3 })
    );
    let tokens = tokenize("(1) (2) ((3))").unwrap();
    assert_eq!(
        read(&tokens, 1),
        Err(ParseError { kind: ParseErrorKind::TooDeep, line: 1, column: 10 })
    );
}

#[test]
fn very_deep_nesting_is_an_error_and_no_crash() {
    let source = "(".repeat(200_000);
    let tokens = tokenize(&source).unwrap();
    assert_eq!(DEFAULT_MAX_DEPTH, 256);
    assert_eq!(
        read(&tokens, DEFAULT_MAX_DEPTH),
        Err(ParseError { kind: ParseErrorKind::TooDeep, line: 1, column: 257 })
    );
    let quotes = "'".repeat(200_000);
    let tokens = tokenize(&quotes).unwrap();
    assert_eq!(
        read(&tokens, DEFAULT_MAX_DEPTH),
        Err(ParseError { kind: ParseErrorKind::TooDeep, line: 1, column: 257 })
    );
}

#[test]
fn long_flat_lists_are_fine() {
    let source = format!("({})", "x ".repeat(50_000));
    let forms = read_source(&source).unwrap();
    match &forms[0] {
        SExpr::List(items) => assert_eq!(items.len(), 50_000),
        other => panic!("not a list: {:?}", other),
    }
}
