//! The reader: tokens to S-expressions, by recursive descent.
//!
//! `spec_read` states what a sequence of tokens reads as. Reading stops at
//! the first `Eof` token or at the end of the sequence. The nesting depth is
//! counted, so that input nested deeper than the given maximum is an error
//! and never exhausts the stack.

use crate::sexpr::{
    forms_view, lemma_trees_push, trees, Atom, AtomView, Form, FormView, SExpr, Tree,
};
use crate::token::{tokens_view, Kind, Token, TokenKind, TokenView};
use vstd::prelude::*;
use vstd::string::*;

verus! {

/// The nesting depth that `read` accepts when nothing else is asked for.
pub const DEFAULT_MAX_DEPTH: usize = 256;

/// Why a sequence of tokens is no sequence of expressions.
#[derive(Clone, Copy, Debug, PartialEq, Eq, Structural)]
pub enum ParseErrorKind {
    /// A `)` that closes nothing.
    UnmatchedRParen,
    /// The tokens end inside an open list or vector.
    UnexpectedEof,
    /// A dot anywhere but before the last expression of a list.
    MisplacedDot,
    /// A quoting token with no expression after it.
    TruncatedQuote,
    /// A list, vector or quoting form nested deeper than the maximum.
    TooDeep,
}

/// A parse error and the place of the token it is about.
#[derive(Clone, Copy, Debug, PartialEq, Eq, Structural)]
pub struct ParseError {
    pub kind: ParseErrorKind,
    pub line: usize,
    pub column: usize,
}

/// An expression and the position after its last token, or an error.
pub type Parsed = Result<(Tree, int), ParseError>;

/// The error of kind `kind` about `token`.
pub open spec fn error_on(kind: ParseErrorKind, token: TokenView) -> ParseError {
    ParseError { kind, line: token.line, column: token.column }
}

/// Whether the tokens end at position `i`: there is no token there, or it
/// is `Eof`.
pub open spec fn at_end(tokens: Seq<TokenView>, i: int) -> bool {
    i < 0 || i >= tokens.len() || tokens[i].kind == Kind::Eof
}

/// The symbol that a keyword or operator token is read as.
pub open spec fn word_text(kind: Kind) -> Option<Seq<char>> {
    match kind {
        Kind::Plus => Some("+"@),
        Kind::Minus => Some("-"@),
        Kind::Star => Some("*"@),
        Kind::Slash => Some("/"@),
        Kind::Define => Some("define"@),
        Kind::Lambda => Some("lambda"@),
        Kind::Arrow => Some("=>"@),
        Kind::SetBang => Some("set!"@),
        Kind::Begin => Some("begin"@),
        Kind::Cond => Some("cond"@),
        Kind::And => Some("and"@),
        Kind::Or => Some("or"@),
        Kind::LetRec => Some("letrec"@),
        Kind::Else => Some("else"@),
        Kind::If => Some("if"@),
        Kind::Ellipsis => Some("..."@),
        _ => None,
    }
}

/// The atom that a token is read as, for the tokens that are atoms.
pub open spec fn atom_of(kind: Kind) -> Option<AtomView> {
    match kind {
        Kind::Number(n) => Some(AtomView::Integer(n)),
        Kind::Float(d) => Some(AtomView::Float(d)),
        Kind::String(s) => Some(AtomView::String(s)),
        Kind::Char(c) => Some(AtomView::Character(c)),
        Kind::True => Some(AtomView::Boolean(true)),
        Kind::False => Some(AtomView::Boolean(false)),
        Kind::Identifier(s) => Some(AtomView::Symbol(s)),
        Kind::Symbol(s) => Some(AtomView::Symbol(s)),
        _ => match word_text(kind) {
            Some(text) => Some(AtomView::Symbol(text)),
            None => None,
        },
    }
}

/// The symbol that a quoting token wraps the next expression in.
pub open spec fn quote_name(kind: Kind) -> Option<Seq<char>> {
    match kind {
        Kind::Quote => Some("quote"@),
        Kind::QuasiQuote => Some("quasiquote"@),
        Kind::Comma => Some("unquote"@),
        Kind::CommaAt => Some("unquote-splicing"@),
        _ => None,
    }
}

/// The two-item list that a quoting form stands for.
pub open spec fn quoted(name: Seq<char>, inner: Tree) -> Tree {
    Tree::List(seq![Tree::Atom(AtomView::Symbol(name)), inner])
}

/// The expression that starts at token `i`, which lies `depth` levels deep.
pub open spec fn parse_expr(tokens: Seq<TokenView>, i: int, depth: nat, max_depth: nat) -> Parsed
    recommends
        !at_end(tokens, i),
    decreases tokens.len() - i, 0nat,
{
    if at_end(tokens, i) {
        Err(ParseError { kind: ParseErrorKind::UnexpectedEof, line: 0, column: 0 })
    } else {
        let token = tokens[i];
        match token.kind {
            Kind::LParen => if depth >= max_depth {
                Err(error_on(ParseErrorKind::TooDeep, token))
            } else {
                parse_items(tokens, i + 1, token, depth + 1, max_depth, true, Seq::empty())
            },
            Kind::HashLParen => if depth >= max_depth {
                Err(error_on(ParseErrorKind::TooDeep, token))
            } else {
                parse_items(tokens, i + 1, token, depth + 1, max_depth, false, Seq::empty())
            },
            Kind::RParen => Err(error_on(ParseErrorKind::UnmatchedRParen, token)),
            Kind::Dot => Err(error_on(ParseErrorKind::MisplacedDot, token)),
            kind => match quote_name(kind) {
                Some(name) => if depth >= max_depth {
                    Err(error_on(ParseErrorKind::TooDeep, token))
                } else if at_end(tokens, i + 1) || tokens[i + 1].kind == Kind::RParen {
                    Err(error_on(ParseErrorKind::TruncatedQuote, token))
                } else {
                    match parse_expr(tokens, i + 1, depth + 1, max_depth) {
                        Ok((inner, next)) => Ok((quoted(name, inner), next)),
                        Err(e) => Err(e),
                    }
                },
                None => match atom_of(kind) {
                    Some(atom) => Ok((Tree::Atom(atom), i + 1)),
                    None => Err(error_on(ParseErrorKind::UnexpectedEof, token)),
                },
            },
        }
    }
}

/// The rest of the list (or, where `list` is false, of the vector) that
/// `opener` opened, from token `i` on, after the items `items`.
pub open spec fn parse_items(
    tokens: Seq<TokenView>,
    i: int,
    opener: TokenView,
    depth: nat,
    max_depth: nat,
    list: bool,
    items: Seq<Tree>,
) -> Parsed
    decreases tokens.len() - i, 2nat,
{
    if at_end(tokens, i) {
        Err(error_on(ParseErrorKind::UnexpectedEof, opener))
    } else if tokens[i].kind == Kind::RParen {
        Ok(
            (
                if list {
                    Tree::List(items)
                } else {
                    Tree::Vector(items)
                },
                i + 1,
            ),
        )
    } else if tokens[i].kind == Kind::Dot {
        if list {
            parse_tail(tokens, i, opener, depth, max_depth, items)
        } else {
            Err(error_on(ParseErrorKind::MisplacedDot, tokens[i]))
        }
    } else {
        match parse_expr(tokens, i, depth, max_depth) {
            // An expression spans at least one token and ends within the tokens.
            Ok((item, next)) => if i < next <= tokens.len() {
                parse_items(tokens, next, opener, depth, max_depth, list, items.push(item))
            } else {
                Err(error_on(ParseErrorKind::UnexpectedEof, opener))
            },
            Err(e) => Err(e),
        }
    }
}

/// The end of an improper list whose dot is token `dot`: one expression,
/// then the closing parenthesis.
pub open spec fn parse_tail(
    tokens: Seq<TokenView>,
    dot: int,
    opener: TokenView,
    depth: nat,
    max_depth: nat,
    items: Seq<Tree>,
) -> Parsed
    decreases tokens.len() - dot, 1nat,
{
    if at_end(tokens, dot + 1) {
        Err(error_on(ParseErrorKind::UnexpectedEof, opener))
    } else if tokens[dot + 1].kind == Kind::RParen || tokens[dot + 1].kind == Kind::Dot {
        Err(error_on(ParseErrorKind::MisplacedDot, tokens[dot]))
    } else {
        match parse_expr(tokens, dot + 1, depth, max_depth) {
            Ok((tail, next)) => if at_end(tokens, next) {
                Err(error_on(ParseErrorKind::UnexpectedEof, opener))
            } else if tokens[next].kind == Kind::RParen {
                Ok((Tree::Improper(items, Box::new(tail)), next + 1))
            } else {
                Err(error_on(ParseErrorKind::MisplacedDot, tokens[dot]))
            },
            Err(e) => Err(e),
        }
    }
}

/// The top-level forms from token `i` on, after the forms `forms`.
pub open spec fn read_from(tokens: Seq<TokenView>, i: int, max_depth: nat, forms: Seq<FormView>) -> Result<
    Seq<FormView>,
    ParseError,
>
    decreases tokens.len() - i,
{
    if at_end(tokens, i) {
        Ok(forms)
    } else {
        proof {
            lemma_parse_advances(tokens, i, 0, max_depth);
        }
        match parse_expr(tokens, i, 0, max_depth) {
            Ok((expr, next)) => read_from(
                tokens,
                next,
                max_depth,
                forms.push(FormView { expr, line: tokens[i].line, column: tokens[i].column }),
            ),
            Err(e) => Err(e),
        }
    }
}

/// What a sequence of tokens reads as: its top-level forms in order, or the
/// first parse error.
pub open spec fn spec_read(tokens: Seq<TokenView>, max_depth: nat) -> Result<
    Seq<FormView>,
    ParseError,
> {
    read_from(tokens, 0, max_depth, Seq::empty())
}

/// An expression spans at least one token and ends within the tokens.
pub proof fn lemma_parse_advances(tokens: Seq<TokenView>, i: int, depth: nat, max_depth: nat)
    requires
        !at_end(tokens, i),
    ensures
        parse_expr(tokens, i, depth, max_depth) matches Ok((_, next)) ==> i < next <= tokens.len(),
    decreases tokens.len() - i, 0nat,
{
    let token = tokens[i];
    match token.kind {
        Kind::LParen => {
            if depth < max_depth {
                lemma_items_advance(
                    tokens,
                    i + 1,
                    token,
                    depth + 1,
                    max_depth,
                    true,
                    Seq::empty(),
                );
            }
        },
        Kind::HashLParen => {
            if depth < max_depth {
                lemma_items_advance(
                    tokens,
                    i + 1,
                    token,
                    depth + 1,
                    max_depth,
                    false,
                    Seq::empty(),
                );
            }
        },
        kind => {
            if quote_name(kind) is Some && depth < max_depth && !at_end(tokens, i + 1) {
                lemma_parse_advances(tokens, i + 1, depth + 1, max_depth);
            }
        },
    }
}

/// A list ends after the position it is read from, within the tokens.
pub proof fn lemma_items_advance(
    tokens: Seq<TokenView>,
    i: int,
    opener: TokenView,
    depth: nat,
    max_depth: nat,
    list: bool,
    items: Seq<Tree>,
)
    requires
        0 <= i,
    ensures
        parse_items(tokens, i, opener, depth, max_depth, list, items) matches Ok((_, next)) ==> i
            < next <= tokens.len(),
    decreases tokens.len() - i, 2nat,
{
    if !at_end(tokens, i) && tokens[i].kind != Kind::RParen {
        if tokens[i].kind == Kind::Dot {
            if list {
                lemma_tail_advances(tokens, i, opener, depth, max_depth, items);
            }
        } else {
            lemma_parse_advances(tokens, i, depth, max_depth);
            match parse_expr(tokens, i, depth, max_depth) {
                Ok((item, next)) => {
                    lemma_items_advance(
                        tokens,
                        next,
                        opener,
                        depth,
                        max_depth,
                        list,
                        items.push(item),
                    );
                },
                Err(_) => {},
            }
        }
    }
}

/// An improper list ends after its dot, within the tokens.
pub proof fn lemma_tail_advances(
    tokens: Seq<TokenView>,
    dot: int,
    opener: TokenView,
    depth: nat,
    max_depth: nat,
    items: Seq<Tree>,
)
    requires
        0 <= dot,
    ensures
        parse_tail(tokens, dot, opener, depth, max_depth, items) matches Ok((_, next)) ==> dot
            < next <= tokens.len(),
    decreases tokens.len() - dot, 1nat,
{
    if !at_end(tokens, dot + 1) {
        lemma_parse_advances(tokens, dot + 1, depth, max_depth);
    }
}

fn symbol(text: &str) -> (atom: Atom)
    ensures
        atom@ == AtomView::Symbol(text@),
{
    Atom::Symbol(String::from_str(text))
}

/// The symbol text of a keyword or operator token.
fn word_of(kind: &TokenKind) -> (r: Option<&'static str>)
    ensures
        match r {
            Some(text) => word_text(kind@) == Some(text@),
            None => word_text(kind@) is None,
        },
{
    match kind {
        TokenKind::Plus => Some("+"),
        TokenKind::Minus => Some("-"),
        TokenKind::Star => Some("*"),
        TokenKind::Slash => Some("/"),
        TokenKind::Define => Some("define"),
        TokenKind::Lambda => Some("lambda"),
        TokenKind::Arrow => Some("=>"),
        TokenKind::SetBang => Some("set!"),
        TokenKind::Begin => Some("begin"),
        TokenKind::Cond => Some("cond"),
        TokenKind::And => Some("and"),
        TokenKind::Or => Some("or"),
        TokenKind::LetRec => Some("letrec"),
        TokenKind::Else => Some("else"),
        TokenKind::If => Some("if"),
        TokenKind::Ellipsis => Some("..."),
        _ => None,
    }
}

/// The symbol name of a quoting token.
fn quote_word(kind: &TokenKind) -> (r: Option<&'static str>)
    ensures
        match r {
            Some(text) => quote_name(kind@) == Some(text@),
            None => quote_name(kind@) is None,
        },
{
    match kind {
        TokenKind::Quote => Some("quote"),
        TokenKind::QuasiQuote => Some("quasiquote"),
        TokenKind::Comma => Some("unquote"),
        TokenKind::CommaAt => Some("unquote-splicing"),
        _ => None,
    }
}

/// The atom of a token, for the tokens that are atoms.
fn atom_from(kind: &TokenKind) -> (r: Option<Atom>)
    ensures
        match r {
            Some(atom) => atom_of(kind@) == Some(atom@),
            None => atom_of(kind@) is None,
        },
{
    match kind {
        TokenKind::Number(n) => Some(Atom::Integer(*n)),
        TokenKind::Float(d) => Some(Atom::Float(*d)),
        TokenKind::String(s) => Some(Atom::String(s.clone())),
        TokenKind::Char(c) => Some(Atom::Character(*c)),
        TokenKind::True => Some(Atom::Boolean(true)),
        TokenKind::False => Some(Atom::Boolean(false)),
        TokenKind::Identifier(s) => Some(Atom::Symbol(s.clone())),
        TokenKind::Symbol(s) => Some(Atom::Symbol(s.clone())),
        other => match word_of(other) {
            Some(text) => Some(symbol(text)),
            None => None,
        },
    }
}

fn is_end(tokens: &Vec<Token>, i: usize) -> (b: bool)
    ensures
        b == at_end(tokens_view(tokens@), i as int),
{
    if i >= tokens.len() {
        true
    } else {
        match tokens[i].kind {
            TokenKind::Eof => true,
            _ => false,
        }
    }
}

fn is_rparen(tokens: &Vec<Token>, i: usize) -> (b: bool)
    requires
        i < tokens.len(),
    ensures
        b == (tokens_view(tokens@)[i as int].kind == Kind::RParen),
{
    match tokens[i].kind {
        TokenKind::RParen => true,
        _ => false,
    }
}

fn is_dot(tokens: &Vec<Token>, i: usize) -> (b: bool)
    requires
        i < tokens.len(),
    ensures
        b == (tokens_view(tokens@)[i as int].kind == Kind::Dot),
{
    match tokens[i].kind {
        TokenKind::Dot => true,
        _ => false,
    }
}

fn error_about(kind: ParseErrorKind, token: &Token) -> (e: ParseError)
    ensures
        e == error_on(kind, token@),
{
    ParseError { kind, line: token.line, column: token.column }
}

/// Reads the expression that starts at token `i`.
fn read_expr(tokens: &Vec<Token>, i: usize, depth: usize, max_depth: usize) -> (r: Result<
    (SExpr, usize),
    ParseError,
>)
    requires
        !at_end(tokens_view(tokens@), i as int),
    ensures
        match parse_expr(tokens_view(tokens@), i as int, depth as nat, max_depth as nat) {
            Ok((tree, next)) => r matches Ok((expr, n)) && expr@ == tree && n == next && i < n
                <= tokens.len(),
            Err(e) => r == Err::<(SExpr, usize), ParseError>(e),
        },
    decreases tokens.len() - i, 0nat,
{
    proof {
        lemma_parse_advances(tokens_view(tokens@), i as int, depth as nat, max_depth as nat);
    }
    let token = &tokens[i];
    match token.kind {
        TokenKind::LParen => {
            if depth >= max_depth {
                Err(error_about(ParseErrorKind::TooDeep, token))
            } else {
                read_items(tokens, i + 1, i, depth + 1, max_depth, true)
            }
        },
        TokenKind::HashLParen => {
            if depth >= max_depth {
                Err(error_about(ParseErrorKind::TooDeep, token))
            } else {
                read_items(tokens, i + 1, i, depth + 1, max_depth, false)
            }
        },
        TokenKind::RParen => Err(error_about(ParseErrorKind::UnmatchedRParen, token)),
        TokenKind::Dot => Err(error_about(ParseErrorKind::MisplacedDot, token)),
        _ => match quote_word(&token.kind) {
            Some(name) => {
                if depth >= max_depth {
                    Err(error_about(ParseErrorKind::TooDeep, token))
                } else if is_end(tokens, i + 1) || is_rparen(tokens, i + 1) {
                    Err(error_about(ParseErrorKind::TruncatedQuote, token))
                } else {
                    match read_expr(tokens, i + 1, depth + 1, max_depth) {
                        Ok((inner, next)) => {
                            let mut pair: Vec<SExpr> = Vec::new();
                            pair.push(SExpr::Atom(symbol(name)));
                            pair.push(inner);
                            proof {
                                lemma_trees_push(seq![pair@[0]], pair@[1]);
                                lemma_trees_push(Seq::empty(), pair@[0]);
                                assert(pair@ =~= seq![pair@[0]].push(pair@[1]));
                                assert(seq![pair@[0]] =~= Seq::<SExpr>::empty().push(pair@[0]));
                                assert(trees(pair@) =~= seq![
                                    Tree::Atom(AtomView::Symbol(name@)),
                                    pair@[1]@,
                                ]);
                            }
                            Ok((SExpr::List(pair), next))
                        },
                        Err(e) => Err(e),
                    }
                }
            },
            None => match atom_from(&token.kind) {
                Some(atom) => Ok((SExpr::Atom(atom), i + 1)),
                None => Err(error_about(ParseErrorKind::UnexpectedEof, token)),
            },
        },
    }
}

/// Reads the items of the list or vector that token `opener` opened, from
/// token `start` on, up to its closing parenthesis.
fn read_items(
    tokens: &Vec<Token>,
    start: usize,
    opener: usize,
    depth: usize,
    max_depth: usize,
    list: bool,
) -> (r: Result<(SExpr, usize), ParseError>)
    requires
        opener < start <= tokens.len(),
    ensures
        match parse_items(
            tokens_view(tokens@),
            start as int,
            tokens_view(tokens@)[opener as int],
            depth as nat,
            max_depth as nat,
            list,
            Seq::empty(),
        ) {
            Ok((tree, next)) => r matches Ok((expr, n)) && expr@ == tree && n == next && start < n
                <= tokens.len(),
            Err(e) => r == Err::<(SExpr, usize), ParseError>(e),
        },
    decreases tokens.len() - start, 2nat,
{
    let ghost view = tokens_view(tokens@);
    let ghost open = view[opener as int];
    let mut items: Vec<SExpr> = Vec::new();
    let mut i: usize = start;
    loop
        invariant
            opener < start <= i <= tokens.len(),
            view == tokens_view(tokens@),
            open == view[opener as int],
            parse_items(view, i as int, open, depth as nat, max_depth as nat, list, trees(items@))
                == parse_items(
                view,
                start as int,
                open,
                depth as nat,
                max_depth as nat,
                list,
                Seq::empty(),
            ),
        decreases tokens.len() - i,
    {
        proof {
            lemma_items_advance(
                view,
                i as int,
                open,
                depth as nat,
                max_depth as nat,
                list,
                trees(items@),
            );
        }
        if is_end(tokens, i) {
            return Err(error_about(ParseErrorKind::UnexpectedEof, &tokens[opener]));
        } else if is_rparen(tokens, i) {
            if list {
                return Ok((SExpr::List(items), i + 1));
            } else {
                return Ok((SExpr::Vector(items), i + 1));
            }
        } else if is_dot(tokens, i) {
            if list {
                return read_tail(tokens, i, opener, depth, max_depth, items);
            } else {
                return Err(error_about(ParseErrorKind::MisplacedDot, &tokens[i]));
            }
        } else {
            match read_expr(tokens, i, depth, max_depth) {
                Ok((item, next)) => {
                    proof {
                        lemma_trees_push(items@, item);
                    }
                    items.push(item);
                    i = next;
                },
                Err(e) => {
                    return Err(e);
                },
            }
        }
    }
}

/// Reads the end of an improper list whose dot is token `dot`.
fn read_tail(
    tokens: &Vec<Token>,
    dot: usize,
    opener: usize,
    depth: usize,
    max_depth: usize,
    items: Vec<SExpr>,
) -> (r: Result<(SExpr, usize), ParseError>)
    requires
        opener < dot < tokens.len(),
    ensures
        match parse_tail(
            tokens_view(tokens@),
            dot as int,
            tokens_view(tokens@)[opener as int],
            depth as nat,
            max_depth as nat,
            trees(items@),
        ) {
            Ok((tree, next)) => r matches Ok((expr, n)) && expr@ == tree && n == next && dot < n
                <= tokens.len(),
            Err(e) => r == Err::<(SExpr, usize), ParseError>(e),
        },
    decreases tokens.len() - dot, 1nat,
{
    if is_end(tokens, dot + 1) {
        Err(error_about(ParseErrorKind::UnexpectedEof, &tokens[opener]))
    } else if is_rparen(tokens, dot + 1) || is_dot(tokens, dot + 1) {
        Err(error_about(ParseErrorKind::MisplacedDot, &tokens[dot]))
    } else {
        match read_expr(tokens, dot + 1, depth, max_depth) {
            Ok((tail, next)) => {
                if is_end(tokens, next) {
                    Err(error_about(ParseErrorKind::UnexpectedEof, &tokens[opener]))
                } else if is_rparen(tokens, next) {
                    Ok((SExpr::Improper(items, Box::new(tail)), next + 1))
                } else {
                    Err(error_about(ParseErrorKind::MisplacedDot, &tokens[dot]))
                }
            },
            Err(e) => Err(e),
        }
    }
}

/// Reads a sequence of tokens into its top-level forms. Fails with the first
/// parse error: an unmatched `)`, tokens that end inside a list or vector, a
/// misplaced dot, a quoting token without an expression, or nesting deeper
/// than `max_depth`.
pub fn read(tokens: &Vec<Token>, max_depth: usize) -> (r: Result<Vec<Form>, ParseError>)
    ensures
        match spec_read(tokens_view(tokens@), max_depth as nat) {
            Ok(forms) => r matches Ok(v) && forms_view(v@) == forms,
            Err(e) => r == Err::<Vec<Form>, ParseError>(e),
        },
{
    let ghost view = tokens_view(tokens@);
    let mut forms: Vec<Form> = Vec::new();
    let mut i: usize = 0;
    assert(forms_view(forms@) =~= Seq::empty());
    while !is_end(tokens, i)
        invariant
            i <= tokens.len(),
            view == tokens_view(tokens@),
            read_from(view, i as int, max_depth as nat, forms_view(forms@)) == spec_read(
                view,
                max_depth as nat,
            ),
        decreases tokens.len() - i,
    {
        let ghost before = forms_view(forms@);
        match read_expr(tokens, i, 0, max_depth) {
            Ok((expr, next)) => {
                let form = Form { expr, line: tokens[i].line, column: tokens[i].column };
                forms.push(form);
                assert(forms_view(forms@) =~= before.push(
                    FormView {
                        expr: forms@.last().expr@,
                        line: view[i as int].line,
                        column: view[i as int].column,
                    },
                ));
                i = next;
            },
            Err(e) => {
                return Err(e);
            },
        }
    }
    Ok(forms)
}

} // verus!
