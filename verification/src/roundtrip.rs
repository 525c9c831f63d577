//! Printing and reading are inverse to each other.
//!
//! The text that `print` gives for a tree lexes to the tokens `tokens_of`
//! says, and those tokens read as the tree again. This holds for the trees
//! that `printable` describes, which are the ones that the reader builds
//! from the tokens of a source text.

use crate::lexer::{
    char_at, classify_word, digit_run, digit_value, identifier_end, is_delimiter, is_digit,
    is_identifier_start, lemma_identifier_end_bounds, lemma_scan_advances, lex_from, located,
    scan, scan_number, scan_string, scan_word, spec_tokenize, string_body, DigitRun, Scan,
    StringScan,
};
use crate::printer::{
    decimal_digits, escaped, escaped_char, gap, print, print_atom, print_decimal, print_integer,
    print_items, zeros,
};
use crate::reader::{
    at_end, atom_of, lemma_parse_advances, parse_expr, parse_items, parse_tail, quote_name,
    quoted, read_from, spec_read, word_text,
};
use crate::sexpr::{AtomView, FormView, Tree};
use crate::text::{decimal, digit_char};
use crate::token::{kinds_of, Decimal, Kind, TokenView};
use vstd::prelude::*;

verus! {

/// Whether `text` stands in `src` at position `i`.
pub open spec fn occurs(src: Seq<char>, i: int, text: Seq<char>) -> bool {
    &&& 0 <= i
    &&& i + text.len() <= src.len()
    &&& forall|k: int| 0 <= k < text.len() ==> src[i + k] == #[trigger] text[k]
}

/// Whether a token that ends before position `j` ends there for the lexer
/// too: the source ends at `j`, or a delimiter stands there.
pub open spec fn ends_at(src: Seq<char>, j: int) -> bool {
    j >= src.len() || (0 <= j && is_delimiter(src[j]))
}

/// Whether every character of `s` is a decimal digit.
pub open spec fn all_digits(s: Seq<char>) -> bool {
    forall|k: int| 0 <= k < s.len() ==> is_digit(#[trigger] s[k])
}

/// The number that the digits of `s` from `k` on make of `acc`.
pub open spec fn digits_value(acc: nat, s: Seq<char>, k: int) -> nat
    decreases s.len() - k,
{
    if k < 0 || k >= s.len() {
        acc
    } else {
        digits_value(acc * 10 + digit_value(s[k]), s, k + 1)
    }
}

/// The text of a symbol that the lexer gives back as one token: an
/// operator, or an identifier start followed by characters that are no
/// delimiters, but not the dot.
pub open spec fn lexable_symbol(s: Seq<char>) -> bool {
    ||| s == "+"@
    ||| s == "-"@
    ||| s == "*"@
    ||| s == "/"@
    ||| {
        &&& s.len() > 0
        &&& is_identifier_start(s[0])
        &&& forall|k: int| 0 <= k < s.len() ==> !is_delimiter(#[trigger] s[k])
        &&& s != "."@
    }
}

/// The atoms that the reader builds: every atom but a symbol that is no
/// single token, and but the empty-list value, which has no literal.
pub open spec fn printable_atom(atom: AtomView) -> bool {
    match atom {
        AtomView::Symbol(s) => lexable_symbol(s),
        AtomView::EmptyList => false,
        _ => true,
    }
}

/// The trees all of whose atoms are printable.
pub open spec fn printable(tree: Tree) -> bool
    decreases tree,
{
    match tree {
        Tree::Atom(atom) => printable_atom(atom),
        Tree::List(items) => forall|k: int| 0 <= k < items.len() ==> printable(#[trigger] items[k]),
        Tree::Improper(items, tail) => {
            &&& forall|k: int| 0 <= k < items.len() ==> printable(#[trigger] items[k])
            &&& printable(*tail)
        },
        Tree::Vector(items) => forall|k: int|
            0 <= k < items.len() ==> printable(#[trigger] items[k]),
    }
}

/// Whether the tree nests lists and vectors at most `budget` deep.
pub open spec fn fits(tree: Tree, budget: nat) -> bool
    decreases tree,
{
    match tree {
        Tree::Atom(_) => true,
        Tree::List(items) => budget > 0 && forall|k: int|
            0 <= k < items.len() ==> fits(#[trigger] items[k], (budget - 1) as nat),
        Tree::Improper(items, tail) => {
            &&& budget > 0
            &&& forall|k: int| 0 <= k < items.len() ==> fits(#[trigger] items[k], (budget - 1) as nat)
            &&& fits(*tail, (budget - 1) as nat)
        },
        Tree::Vector(items) => budget > 0 && forall|k: int|
            0 <= k < items.len() ==> fits(#[trigger] items[k], (budget - 1) as nat),
    }
}

/// The token of a symbol.
pub open spec fn symbol_kind(s: Seq<char>) -> Kind {
    if s == "+"@ {
        Kind::Plus
    } else if s == "-"@ {
        Kind::Minus
    } else if s == "*"@ {
        Kind::Star
    } else if s == "/"@ {
        Kind::Slash
    } else {
        classify_word(s)
    }
}

/// The token of an atom.
pub open spec fn atom_kind(atom: AtomView) -> Kind {
    match atom {
        AtomView::Integer(n) => Kind::Number(n),
        AtomView::Float(d) => Kind::Float(d),
        AtomView::Boolean(b) => if b {
            Kind::True
        } else {
            Kind::False
        },
        AtomView::Character(c) => Kind::Char(c),
        AtomView::String(s) => Kind::String(s),
        AtomView::Symbol(s) => symbol_kind(s),
        AtomView::EmptyList => Kind::LParen,
    }
}

/// The tokens of the text of a tree.
pub open spec fn tokens_of(tree: Tree) -> Seq<Kind>
    decreases tree, 0nat,
{
    match tree {
        Tree::Atom(atom) => seq![atom_kind(atom)],
        Tree::List(items) => seq![Kind::LParen] + tokens_items(items, 0) + seq![Kind::RParen],
        Tree::Improper(items, tail) => seq![Kind::LParen] + tokens_items(items, 0) + seq![Kind::Dot]
            + tokens_of(*tail) + seq![Kind::RParen],
        Tree::Vector(items) => seq![Kind::HashLParen] + tokens_items(items, 0) + seq![
            Kind::RParen,
        ],
    }
}

/// The tokens of the items from `k` on.
pub open spec fn tokens_items(items: Seq<Tree>, k: int) -> Seq<Kind>
    decreases items, items.len() - k,
{
    if k < 0 || k >= items.len() {
        Seq::empty()
    } else {
        tokens_of(items[k]) + tokens_items(items, k + 1)
    }
}

/// The kinds of the tokens of `src` from position `i` to its end, after the
/// kinds `done`; `None` where there is a lexical error.
pub open spec fn lex_kinds(src: Seq<char>, i: int, done: Seq<Kind>) -> Option<Seq<Kind>>
    decreases src.len() - i,
{
    if i < 0 || i >= src.len() {
        Some(done)
    } else {
        proof {
            lemma_scan_advances(src, i);
        }
        match scan(src, i) {
            Scan::Token { kind, next } => lex_kinds(src, next, done.push(kind)),
            Scan::Skip { next } => lex_kinds(src, next, done),
            Scan::Error { .. } => None,
        }
    }
}

/// `lex_kinds` gives the kinds of the tokens that `lex_from` gives.
pub proof fn lemma_lex_kinds(src: Seq<char>, i: int, done: Seq<TokenView>)
    ensures
        match lex_from(src, i, done) {
            Ok(tokens) => lex_kinds(src, i, kinds_of(done)) == Some(kinds_of(tokens)),
            Err(_) => lex_kinds(src, i, kinds_of(done)) is None,
        },
    decreases src.len() - i,
{
    if 0 <= i < src.len() {
        lemma_scan_advances(src, i);
        match scan(src, i) {
            Scan::Token { kind, next } => {
                let token = located(src, kind, i);
                assert(kinds_of(done.push(token)) =~= kinds_of(done).push(kind));
                lemma_lex_kinds(src, next, done.push(token));
            },
            Scan::Skip { next } => {
                lemma_lex_kinds(src, next, done);
            },
            Scan::Error { .. } => {},
        }
    }
}

/// A text that stands at a position stands there part by part.
pub proof fn lemma_occurs_concat(src: Seq<char>, i: int, a: Seq<char>, b: Seq<char>)
    requires
        occurs(src, i, a + b),
    ensures
        occurs(src, i, a),
        occurs(src, i + a.len(), b),
{
    assert forall|k: int| 0 <= k < a.len() implies src[i + k] == #[trigger] a[k] by {
        assert((a + b)[k] == a[k]);
    }
    assert forall|k: int| 0 <= k < b.len() implies src[i + a.len() + k] == #[trigger] b[k] by {
        assert((a + b)[a.len() + k] == b[k]);
    }
}

/// A run of digits in the source is read as the number that the digits
/// make.
pub proof fn lemma_digit_run_over(src: Seq<char>, j: int, acc: nat, s: Seq<char>, k: int)
    requires
        0 <= k <= s.len(),
        occurs(src, j, s),
        all_digits(s),
    ensures
        digit_run(src, j + k, acc) == digit_run(src, j + s.len(), digits_value(acc, s, k)),
    decreases s.len() - k,
{
    if k < s.len() {
        assert(src[j + k] == s[k]);
        lemma_digit_run_over(src, j, acc * 10 + digit_value(s[k]), s, k + 1);
    }
}

/// One more digit at the end multiplies by ten and adds the digit.
pub proof fn lemma_digits_value_push(acc: nat, s: Seq<char>, c: char, k: int)
    requires
        0 <= k <= s.len(),
    ensures
        digits_value(acc, s.push(c), k) == digits_value(acc, s, k) * 10 + digit_value(c),
    decreases s.len() - k,
{
    if k < s.len() {
        assert(s.push(c)[k] == s[k]);
        lemma_digits_value_push(acc * 10 + digit_value(s[k]), s, c, k + 1);
    } else {
        assert(s.push(c)[k] == c);
        assert(digits_value(acc * 10 + digit_value(c), s.push(c), k + 1) == acc * 10 + digit_value(
            c,
        ));
    }
}

/// The digits of two texts in a row make the number that the second makes
/// of the number of the first.
pub proof fn lemma_digits_value_concat(acc: nat, a: Seq<char>, b: Seq<char>, k: int)
    requires
        0 <= k <= a.len(),
    ensures
        digits_value(acc, a + b, k) == digits_value(digits_value(acc, a, k), b, 0),
    decreases a.len() + b.len() - k,
{
    if k < a.len() {
        assert((a + b)[k] == a[k]);
        lemma_digits_value_concat(acc * 10 + digit_value(a[k]), a, b, k + 1);
    } else {
        lemma_digits_value_shift(acc, a, b, 0);
    }
}

/// The digits of `b` make the same number wherever `b` stands.
pub proof fn lemma_digits_value_shift(acc: nat, a: Seq<char>, b: Seq<char>, k: int)
    requires
        0 <= k <= b.len(),
    ensures
        digits_value(acc, a + b, a.len() + k) == digits_value(acc, b, k),
    decreases b.len() - k,
{
    if k < b.len() {
        assert((a + b)[a.len() + k] == b[k]);
        lemma_digits_value_shift(acc * 10 + digit_value(b[k]), a, b, k + 1);
    }
}

/// Zeros in front make nothing of nothing.
pub proof fn lemma_digits_value_zeros(n: nat, k: int)
    requires
        0 <= k <= n,
    ensures
        digits_value(0, zeros(n), k) == 0,
    decreases n - k,
{
    if k < n {
        assert(zeros(n)[k] == '0');
        lemma_digits_value_zeros(n, k + 1);
    }
}

/// The decimal numeral of `n` is a run of digits that makes `n`.
pub proof fn lemma_decimal(n: nat)
    ensures
        decimal(n).len() >= 1,
        all_digits(decimal(n)),
        digits_value(0, decimal(n), 0) == n,
    decreases n,
{
    if n < 10 {
        assert(decimal(n)[0] == digit_char(n));
        assert(digits_value(digit_value(digit_char(n)), decimal(n), 1) == n);
    } else {
        lemma_decimal(n / 10);
        lemma_digits_value_push(0, decimal(n / 10), digit_char(n % 10), 0);
        assert forall|k: int| 0 <= k < decimal(n).len() implies is_digit(
            #[trigger] decimal(n)[k],
        ) by {
            if k < decimal(n / 10).len() {
                assert(decimal(n)[k] == decimal(n / 10)[k]);
            }
        }
    }
}

/// The rest of a string literal is read as the text it was printed from.
pub proof fn lemma_string_body_over(src: Seq<char>, j: int, acc: Seq<char>, s: Seq<char>, k: int)
    requires
        0 <= k <= s.len(),
        occurs(src, j, escaped(s, k)),
        j + escaped(s, k).len() < src.len(),
        src[j + escaped(s, k).len()] == '"',
    ensures
        string_body(src, j, acc) == (StringScan::Closed {
            text: acc + s.subrange(k, s.len() as int),
            next: j + escaped(s, k).len() + 1,
        }),
    decreases s.len() - k,
{
    if k < s.len() {
        let c = s[k];
        let first = escaped_char(c);
        lemma_occurs_concat(src, j, first, escaped(s, k + 1));
        assert(src[j] == first[0]);
        assert(acc.push(c) + s.subrange(k + 1, s.len() as int) =~= acc + s.subrange(
            k,
            s.len() as int,
        ));
        if c == '"' || c == '\\' || c == '\n' || c == '\t' {
            assert(src[j + 1] == first[1]);
            lemma_string_body_over(src, j + 2, acc.push(c), s, k + 1);
        } else {
            lemma_string_body_over(src, j + 1, acc.push(c), s, k + 1);
        }
    } else {
        assert(acc + s.subrange(k, s.len() as int) =~= acc);
    }
}

/// An identifier in the source ends where a delimiter follows it.
pub proof fn lemma_identifier_end_over(src: Seq<char>, j: int, s: Seq<char>, k: int)
    requires
        0 <= k <= s.len(),
        occurs(src, j, s),
        forall|m: int| 0 <= m < s.len() ==> !is_delimiter(#[trigger] s[m]),
        ends_at(src, j + s.len()),
    ensures
        identifier_end(src, j + k) == j + s.len(),
    decreases s.len() - k,
{
    if k < s.len() {
        assert(src[j + k] == s[k]);
        lemma_identifier_end_over(src, j, s, k + 1);
    }
}

/// The numeral of an integer is read as the integer.
pub proof fn lemma_scan_integer(src: Seq<char>, i: int, n: i64)
    requires
        occurs(src, i, print_integer(n)),
        ends_at(src, i + print_integer(n).len()),
    ensures
        print_integer(n).len() >= 1,
        scan(src, i) == (Scan::Token { kind: Kind::Number(n), next: i + print_integer(n).len() }),
{
    let m: nat = if n < 0 {
        (-(n as int)) as nat
    } else {
        n as nat
    };
    let digits = decimal(m);
    lemma_decimal(m);
    let first = if n < 0 {
        i + 1
    } else {
        i
    };
    if n < 0 {
        lemma_occurs_concat(src, i, seq!['-'], digits);
        assert(src[i] == seq!['-'][0]);
    }
    assert(occurs(src, first, digits));
    assert(src[first] == digits[0]);
    lemma_digit_run_over(src, first, 0, digits, 0);
    let end = first + digits.len();
    assert(end == i + print_integer(n).len());
    assert(digit_run(src, end, m) == DigitRun { value: m, end });
    assert(char_at(src, end) != '.');
    assert(scan_number(src, i) == (Scan::Token { kind: Kind::Number(n), next: end }));
}

/// The digits of a decimal are digits, and they make its number.
pub proof fn lemma_decimal_digits(d: Decimal)
    ensures
        decimal_digits(d).len() > d.scale,
        all_digits(decimal_digits(d)),
        digits_value(0, decimal_digits(d), 0) == d.digits,
{
    let digits = decimal(d.digits as nat);
    lemma_decimal(d.digits as nat);
    if digits.len() <= d.scale {
        let padding = zeros((d.scale + 1 - digits.len()) as nat);
        lemma_digits_value_zeros(padding.len(), 0);
        lemma_digits_value_concat(0, padding, digits, 0);
        assert forall|k: int| 0 <= k < (padding + digits).len() implies is_digit(
            #[trigger] (padding + digits)[k],
        ) by {
            if k >= padding.len() {
                assert((padding + digits)[k] == digits[k - padding.len()]);
            }
        }
    }
}

/// The numeral of a decimal is read as the decimal.
pub proof fn lemma_scan_decimal(src: Seq<char>, i: int, d: Decimal)
    requires
        occurs(src, i, print_decimal(d)),
        ends_at(src, i + print_decimal(d).len()),
    ensures
        print_decimal(d).len() >= 1,
        scan(src, i) == (Scan::Token { kind: Kind::Float(d), next: i + print_decimal(d).len() }),
{
    let all = decimal_digits(d);
    lemma_decimal_digits(d);
    let split = all.len() - d.scale;
    let whole = all.subrange(0, split);
    let fraction = all.subrange(split, all.len() as int);
    let sign: Seq<char> = if d.negative {
        seq!['-']
    } else {
        Seq::empty()
    };
    let first = i + sign.len();
    let point = first + split;
    let end = point + 1 + d.scale;
    assert(print_decimal(d) == sign + whole + seq!['.'] + fraction);
    lemma_occurs_concat(src, i, sign + whole + seq!['.'], fraction);
    lemma_occurs_concat(src, i, sign + whole, seq!['.']);
    lemma_occurs_concat(src, i, sign, whole);
    assert(src[point] == seq!['.'][0]);
    if d.negative {
        assert(src[i] == sign[0]);
    }
    assert(src[first] == whole[0]);
    assert(is_digit(all[0]));
    assert(all_digits(whole)) by {
        assert forall|k: int| 0 <= k < whole.len() implies is_digit(#[trigger] whole[k]) by {
            assert(whole[k] == all[k]);
        }
    }
    assert(all_digits(fraction)) by {
        assert forall|k: int| 0 <= k < fraction.len() implies is_digit(#[trigger] fraction[k]) by {
            assert(fraction[k] == all[split + k]);
        }
    }
    assert(whole + fraction =~= all);
    lemma_digits_value_concat(0, whole, fraction, 0);
    let value = digits_value(0, whole, 0);
    lemma_digit_run_over(src, first, 0, whole, 0);
    assert(digit_run(src, point, value) == DigitRun { value, end: point });
    lemma_digit_run_over(src, point + 1, value, fraction, 0);
    assert(end == i + print_decimal(d).len());
    assert(digit_run(src, end, d.digits as nat) == DigitRun { value: d.digits as nat, end });
    assert(scan_number(src, i) == (Scan::Token { kind: Kind::Float(d), next: end }));
}

/// The text of a symbol is read as the token of the symbol.
pub proof fn lemma_scan_symbol(src: Seq<char>, i: int, s: Seq<char>)
    requires
        lexable_symbol(s),
        occurs(src, i, s),
        ends_at(src, i + s.len()),
    ensures
        s.len() >= 1,
        scan(src, i) == (Scan::Token { kind: symbol_kind(s), next: i + s.len() }),
{
    reveal_strlit("+");
    reveal_strlit("-");
    reveal_strlit("*");
    reveal_strlit("/");
    if s == "+"@ || s == "-"@ || s == "*"@ || s == "/"@ {
        assert(s.len() == 1);
        assert(src[i] == s[0]);
        assert(!is_digit(char_at(src, i + 1)));
    } else {
        assert(src[i] == s[0]);
        lemma_identifier_end_over(src, i, s, 0);
        assert(src.subrange(i, i + s.len()) =~= s);
        assert(scan_word(src, i) == (Scan::Token { kind: classify_word(s), next: i + s.len() }));
    }
}

/// The text of a printable atom is read as the token of the atom.
pub proof fn lemma_scan_atom(src: Seq<char>, i: int, atom: AtomView)
    requires
        printable_atom(atom),
        occurs(src, i, print_atom(atom)),
        ends_at(src, i + print_atom(atom).len()),
    ensures
        print_atom(atom).len() >= 1,
        scan(src, i) == (Scan::Token { kind: atom_kind(atom), next: i + print_atom(atom).len() }),
{
    let text = print_atom(atom);
    match atom {
        AtomView::Integer(n) => {
            lemma_scan_integer(src, i, n);
        },
        AtomView::Float(d) => {
            lemma_scan_decimal(src, i, d);
        },
        AtomView::Boolean(b) => {
            assert(src[i] == text[0]);
            assert(src[i + 1] == text[1]);
        },
        AtomView::Character(c) => {
            assert(src[i] == text[0]);
            assert(src[i + 1] == text[1]);
            assert(src[i + 2] == text[2]);
        },
        AtomView::String(s) => {
            let body = escaped(s, 0);
            lemma_occurs_concat(src, i, seq!['"'] + body, seq!['"']);
            lemma_occurs_concat(src, i, seq!['"'], body);
            assert(src[i] == seq!['"'][0]);
            assert(src[i + 1 + body.len()] == seq!['"'][0]);
            lemma_string_body_over(src, i + 1, Seq::empty(), s, 0);
            assert(Seq::<char>::empty() + s.subrange(0, s.len() as int) =~= s);
            assert(scan_string(src, i) == (Scan::Token {
                kind: Kind::String(s),
                next: i + text.len(),
            }));
        },
        AtomView::Symbol(s) => {
            lemma_scan_symbol(src, i, s);
        },
        AtomView::EmptyList => {},
    }
}

/// A dot before a delimiter is read as the dot token.
pub proof fn lemma_scan_dot(src: Seq<char>, i: int)
    requires
        0 <= i < src.len(),
        src[i] == '.',
        ends_at(src, i + 1),
    ensures
        scan(src, i) == (Scan::Token { kind: Kind::Dot, next: i + 1 }),
{
    reveal_strlit("define");
    reveal_strlit("lambda");
    reveal_strlit("set!");
    reveal_strlit("begin");
    reveal_strlit("cond");
    reveal_strlit("and");
    reveal_strlit("or");
    reveal_strlit("letrec");
    reveal_strlit("else");
    reveal_strlit("if");
    reveal_strlit("=>");
    reveal_strlit("...");
    reveal_strlit(".");
    let dot = seq!['.'];
    assert(occurs(src, i, dot));
    lemma_identifier_end_over(src, i, dot, 0);
    assert(src.subrange(i, i + 1) =~= "."@);
    assert(scan_word(src, i) == (Scan::Token { kind: Kind::Dot, next: i + 1 }));
}

/// The text of a printable tree is lexed into the tokens of the tree:
/// wherever the text stands in a source, before a delimiter or at its end,
/// the lexer goes through it and adds those tokens.
pub proof fn lemma_lex_tree(src: Seq<char>, i: int, done: Seq<Kind>, tree: Tree)
    requires
        printable(tree),
        occurs(src, i, print(tree)),
        ends_at(src, i + print(tree).len()),
    ensures
        print(tree).len() >= 1,
        lex_kinds(src, i, done) == lex_kinds(src, i + print(tree).len(), done + tokens_of(tree)),
    decreases tree, 0nat,
{
    let text = print(tree);
    match tree {
        Tree::Atom(atom) => {
            lemma_scan_atom(src, i, atom);
            assert(done.push(atom_kind(atom)) =~= done + tokens_of(tree));
        },
        Tree::List(items) => {
            let body = print_items(items, 0, false);
            lemma_occurs_concat(src, i, seq!['('] + body, seq![')']);
            lemma_occurs_concat(src, i, seq!['('], body);
            assert(src[i] == seq!['('][0]);
            let close = i + 1 + body.len();
            assert(src[close] == seq![')'][0]);
            lemma_lex_items(src, i + 1, done.push(Kind::LParen), items, 0, false);
            let inner = done.push(Kind::LParen) + tokens_items(items, 0);
            assert(scan(src, close) == (Scan::Token { kind: Kind::RParen, next: close + 1 }));
            assert(lex_kinds(src, close, inner) == lex_kinds(
                src,
                close + 1,
                inner.push(Kind::RParen),
            ));
            assert(inner.push(Kind::RParen) =~= done + tokens_of(tree));
        },
        Tree::Vector(items) => {
            let body = print_items(items, 0, false);
            lemma_occurs_concat(src, i, seq!['#', '('] + body, seq![')']);
            lemma_occurs_concat(src, i, seq!['#', '('], body);
            assert(src[i] == seq!['#', '('][0]);
            assert(src[i + 1] == seq!['#', '('][1]);
            let close = i + 2 + body.len();
            assert(src[close] == seq![')'][0]);
            assert(scan(src, i) == (Scan::Token { kind: Kind::HashLParen, next: i + 2 }));
            lemma_lex_items(src, i + 2, done.push(Kind::HashLParen), items, 0, false);
            let inner = done.push(Kind::HashLParen) + tokens_items(items, 0);
            assert(scan(src, close) == (Scan::Token { kind: Kind::RParen, next: close + 1 }));
            assert(lex_kinds(src, close, inner) == lex_kinds(
                src,
                close + 1,
                inner.push(Kind::RParen),
            ));
            assert(inner.push(Kind::RParen) =~= done + tokens_of(tree));
        },
        Tree::Improper(items, tail) => {
            let body = print_items(items, 0, true);
            let end = print(*tail);
            lemma_occurs_concat(src, i, seq!['('] + body + seq!['.', ' '] + end, seq![')']);
            lemma_occurs_concat(src, i, seq!['('] + body + seq!['.', ' '], end);
            lemma_occurs_concat(src, i, seq!['('] + body, seq!['.', ' ']);
            lemma_occurs_concat(src, i, seq!['('], body);
            assert(src[i] == seq!['('][0]);
            let dot = i + 1 + body.len();
            assert(src[dot] == seq!['.', ' '][0]);
            assert(src[dot + 1] == seq!['.', ' '][1]);
            let close = dot + 2 + end.len();
            assert(src[close] == seq![')'][0]);
            lemma_lex_items(src, i + 1, done.push(Kind::LParen), items, 0, true);
            let inner = done.push(Kind::LParen) + tokens_items(items, 0);
            lemma_scan_dot(src, dot);
            assert(lex_kinds(src, dot, inner) == lex_kinds(src, dot + 1, inner.push(Kind::Dot)));
            assert(scan(src, dot + 1) == (Scan::Skip { next: dot + 2 }));
            assert(lex_kinds(src, dot + 1, inner.push(Kind::Dot)) == lex_kinds(
                src,
                dot + 2,
                inner.push(Kind::Dot),
            ));
            lemma_lex_tree(src, dot + 2, inner.push(Kind::Dot), *tail);
            let full = inner.push(Kind::Dot) + tokens_of(*tail);
            assert(scan(src, close) == (Scan::Token { kind: Kind::RParen, next: close + 1 }));
            assert(lex_kinds(src, close, full) == lex_kinds(
                src,
                close + 1,
                full.push(Kind::RParen),
            ));
            assert(full.push(Kind::RParen) =~= done + tokens_of(tree));
        },
    }
}

/// The texts of printable items are lexed into the tokens of the items.
pub proof fn lemma_lex_items(
    src: Seq<char>,
    j: int,
    done: Seq<Kind>,
    items: Seq<Tree>,
    k: int,
    trailing: bool,
)
    requires
        0 <= k <= items.len(),
        forall|m: int| 0 <= m < items.len() ==> printable(#[trigger] items[m]),
        occurs(src, j, print_items(items, k, trailing)),
        !trailing ==> ends_at(src, j + print_items(items, k, trailing).len()),
    ensures
        lex_kinds(src, j, done) == lex_kinds(
            src,
            j + print_items(items, k, trailing).len(),
            done + tokens_items(items, k),
        ),
    decreases items, items.len() - k,
{
    if k < items.len() {
        let item = print(items[k]);
        let space = gap(items, k, trailing);
        let rest = print_items(items, k + 1, trailing);
        lemma_occurs_concat(src, j, item + space, rest);
        lemma_occurs_concat(src, j, item, space);
        let after = j + item.len();
        if space.len() > 0 {
            assert(src[after] == space[0]);
        } else {
            assert(rest.len() == 0);
        }
        lemma_lex_tree(src, j, done, items[k]);
        let next = done + tokens_of(items[k]);
        if space.len() > 0 {
            assert(scan(src, after) == (Scan::Skip { next: after + 1 }));
            assert(lex_kinds(src, after, next) == lex_kinds(src, after + 1, next));
        }
        lemma_lex_items(src, after + space.len(), next, items, k + 1, trailing);
        assert(next + tokens_items(items, k + 1) =~= done + tokens_items(items, k));
    } else {
        assert(done + tokens_items(items, k) =~= done);
    }
}

/// Whether the tokens from position `i` on are of the kinds `kinds`.
pub open spec fn kinds_at(tokens: Seq<TokenView>, i: int, kinds: Seq<Kind>) -> bool {
    &&& 0 <= i
    &&& i + kinds.len() <= tokens.len()
    &&& forall|k: int| 0 <= k < kinds.len() ==> tokens[i + k].kind == #[trigger] kinds[k]
}

/// Tokens that are of some kinds are so part by part.
pub proof fn lemma_kinds_concat(tokens: Seq<TokenView>, i: int, a: Seq<Kind>, b: Seq<Kind>)
    requires
        kinds_at(tokens, i, a + b),
    ensures
        kinds_at(tokens, i, a),
        kinds_at(tokens, i + a.len(), b),
{
    assert forall|k: int| 0 <= k < a.len() implies tokens[i + k].kind == #[trigger] a[k] by {
        assert((a + b)[k] == a[k]);
    }
    assert forall|k: int| 0 <= k < b.len() implies tokens[i + a.len() + k].kind
        == #[trigger] b[k] by {
        assert((a + b)[a.len() + k] == b[k]);
    }
}

/// The token of a printable atom is read as the atom.
pub proof fn lemma_atom_reads_back(atom: AtomView)
    requires
        printable_atom(atom),
    ensures
        atom_of(atom_kind(atom)) == Some(atom),
        quote_name(atom_kind(atom)) is None,
        atom_kind(atom) != Kind::LParen,
        atom_kind(atom) != Kind::HashLParen,
        atom_kind(atom) != Kind::RParen,
        atom_kind(atom) != Kind::Dot,
        atom_kind(atom) != Kind::Eof,
{
}

/// The text of a printable tree starts with a token that starts an
/// expression.
pub proof fn lemma_first_token(tree: Tree)
    requires
        printable(tree),
    ensures
        tokens_of(tree).len() >= 1,
        tokens_of(tree)[0] != Kind::RParen,
        tokens_of(tree)[0] != Kind::Dot,
        tokens_of(tree)[0] != Kind::Eof,
{
    match tree {
        Tree::Atom(atom) => {
            lemma_atom_reads_back(atom);
        },
        _ => {},
    }
}

/// The tokens of a printable tree are read as the tree, wherever they stand
/// among other tokens, as long as the tree is not nested too deep.
pub proof fn lemma_parse_tree(
    tokens: Seq<TokenView>,
    i: int,
    tree: Tree,
    depth: nat,
    max_depth: nat,
)
    requires
        printable(tree),
        depth <= max_depth,
        fits(tree, (max_depth - depth) as nat),
        kinds_at(tokens, i, tokens_of(tree)),
    ensures
        parse_expr(tokens, i, depth, max_depth) == Ok::<(Tree, int), crate::reader::ParseError>(
            (tree, i + tokens_of(tree).len()),
        ),
    decreases tree, 0nat,
{
    let kinds = tokens_of(tree);
    lemma_first_token(tree);
    assert(tokens[i].kind == kinds[0]);
    match tree {
        Tree::Atom(atom) => {
            lemma_atom_reads_back(atom);
        },
        Tree::List(items) => {
            let inner = tokens_items(items, 0);
            lemma_kinds_concat(tokens, i, seq![Kind::LParen] + inner, seq![Kind::RParen]);
            lemma_kinds_concat(tokens, i, seq![Kind::LParen], inner);
            let close = i + 1 + inner.len();
            assert(tokens[close].kind == seq![Kind::RParen][0]);
            lemma_parse_items(
                tokens,
                i + 1,
                tokens[i],
                depth + 1,
                max_depth,
                true,
                Seq::empty(),
                items,
                0,
            );
            assert(Seq::<Tree>::empty() + items.subrange(0, items.len() as int) =~= items);
        },
        Tree::Vector(items) => {
            let inner = tokens_items(items, 0);
            lemma_kinds_concat(tokens, i, seq![Kind::HashLParen] + inner, seq![Kind::RParen]);
            lemma_kinds_concat(tokens, i, seq![Kind::HashLParen], inner);
            let close = i + 1 + inner.len();
            assert(tokens[close].kind == seq![Kind::RParen][0]);
            lemma_parse_items(
                tokens,
                i + 1,
                tokens[i],
                depth + 1,
                max_depth,
                false,
                Seq::empty(),
                items,
                0,
            );
            assert(Seq::<Tree>::empty() + items.subrange(0, items.len() as int) =~= items);
        },
        Tree::Improper(items, tail) => {
            let inner = tokens_items(items, 0);
            let end = tokens_of(*tail);
            lemma_kinds_concat(
                tokens,
                i,
                seq![Kind::LParen] + inner + seq![Kind::Dot] + end,
                seq![Kind::RParen],
            );
            lemma_kinds_concat(tokens, i, seq![Kind::LParen] + inner + seq![Kind::Dot], end);
            lemma_kinds_concat(tokens, i, seq![Kind::LParen] + inner, seq![Kind::Dot]);
            lemma_kinds_concat(tokens, i, seq![Kind::LParen], inner);
            let dot = i + 1 + inner.len();
            assert(tokens[dot].kind == seq![Kind::Dot][0]);
            let close = dot + 1 + end.len();
            assert(tokens[close].kind == seq![Kind::RParen][0]);
            lemma_parse_items(
                tokens,
                i + 1,
                tokens[i],
                depth + 1,
                max_depth,
                true,
                Seq::empty(),
                items,
                0,
            );
            assert(Seq::<Tree>::empty() + items.subrange(0, items.len() as int) =~= items);
            lemma_first_token(*tail);
            assert(tokens[dot + 1].kind == end[0]);
            lemma_parse_tree(tokens, dot + 1, *tail, depth + 1, max_depth);
            assert(parse_tail(tokens, dot, tokens[i], depth + 1, max_depth, items) == Ok::<
                (Tree, int),
                crate::reader::ParseError,
            >((tree, close + 1)));
        },
    }
}

/// The tokens of printable items are read as the items: the reader goes
/// through them and adds the items to those it has.
pub proof fn lemma_parse_items(
    tokens: Seq<TokenView>,
    j: int,
    opener: TokenView,
    depth: nat,
    max_depth: nat,
    list: bool,
    acc: Seq<Tree>,
    items: Seq<Tree>,
    k: int,
)
    requires
        0 <= k <= items.len(),
        depth <= max_depth,
        forall|m: int| 0 <= m < items.len() ==> printable(#[trigger] items[m]),
        forall|m: int|
            0 <= m < items.len() ==> fits(#[trigger] items[m], (max_depth - depth) as nat),
        kinds_at(tokens, j, tokens_items(items, k)),
    ensures
        parse_items(tokens, j, opener, depth, max_depth, list, acc) == parse_items(
            tokens,
            j + tokens_items(items, k).len(),
            opener,
            depth,
            max_depth,
            list,
            acc + items.subrange(k, items.len() as int),
        ),
    decreases items, items.len() - k,
{
    if k < items.len() {
        let first = tokens_of(items[k]);
        lemma_kinds_concat(tokens, j, first, tokens_items(items, k + 1));
        lemma_first_token(items[k]);
        assert(tokens[j].kind == first[0]);
        lemma_parse_tree(tokens, j, items[k], depth, max_depth);
        lemma_parse_items(
            tokens,
            j + first.len(),
            opener,
            depth,
            max_depth,
            list,
            acc.push(items[k]),
            items,
            k + 1,
        );
        assert(acc.push(items[k]) + items.subrange(k + 1, items.len() as int) =~= acc
            + items.subrange(k, items.len() as int));
    } else {
        assert(acc + items.subrange(k, items.len() as int) =~= acc);
    }
}

/// Printing and then reading gives the tree back: the text of a printable
/// tree is tokenized without error, and its tokens are read, without error,
/// as one form that is the tree itself.
pub proof fn lemma_print_then_reparse(tree: Tree, max_depth: nat)
    requires
        printable(tree),
        fits(tree, max_depth),
    ensures
        spec_tokenize(print(tree)) is Ok,
        kinds_of(spec_tokenize(print(tree)).unwrap()) == tokens_of(tree).push(Kind::Eof),
        spec_read(spec_tokenize(print(tree)).unwrap(), max_depth) is Ok,
        spec_read(spec_tokenize(print(tree)).unwrap(), max_depth).unwrap().len() == 1,
        spec_read(spec_tokenize(print(tree)).unwrap(), max_depth).unwrap()[0].expr == tree,
{
    let src = print(tree);
    let kinds = tokens_of(tree);
    assert(occurs(src, 0, src));
    lemma_lex_tree(src, 0, Seq::empty(), tree);
    assert(Seq::<Kind>::empty() + kinds =~= kinds);
    assert(lex_kinds(src, src.len() as int, kinds) == Some(kinds));
    lemma_lex_kinds(src, 0, Seq::empty());
    assert(kinds_of(Seq::<TokenView>::empty()) =~= Seq::<Kind>::empty());
    let lexed = lex_from(src, 0, Seq::empty()).unwrap();
    assert(kinds_of(lexed) == kinds);
    let eof = located(src, Kind::Eof, src.len() as int);
    let tokens = lexed.push(eof);
    assert(spec_tokenize(src) == Ok::<Seq<TokenView>, crate::lexer::LexError>(tokens));
    assert(kinds_of(tokens) =~= kinds.push(Kind::Eof));
    assert(kinds_at(tokens, 0, kinds)) by {
        assert forall|k: int| 0 <= k < kinds.len() implies tokens[0 + k].kind
            == #[trigger] kinds[k] by {
            assert(kinds_of(lexed)[k] == lexed[k].kind);
        }
    }
    lemma_first_token(tree);
    assert(tokens[0].kind == kinds[0]);
    lemma_parse_tree(tokens, 0, tree, 0, max_depth);
    let end = kinds.len() as int;
    let form = FormView { expr: tree, line: tokens[0].line, column: tokens[0].column };
    assert(at_end(tokens, end));
    assert(read_from(tokens, end, max_depth, Seq::<FormView>::empty().push(form)) == Ok::<
        Seq<FormView>,
        crate::reader::ParseError,
    >(Seq::<FormView>::empty().push(form)));
    assert(read_from(tokens, 0, max_depth, Seq::empty()) == read_from(
        tokens,
        end,
        max_depth,
        Seq::<FormView>::empty().push(form),
    ));
}

/// The tokens that the lexer gives: the text of an identifier is that of a
/// lexable symbol.
pub open spec fn valid_kind(kind: Kind) -> bool {
    match kind {
        Kind::Identifier(s) => lexable_symbol(s),
        Kind::Symbol(s) => lexable_symbol(s),
        _ => true,
    }
}

/// Whether every token is valid.
pub open spec fn all_valid(tokens: Seq<TokenView>) -> bool {
    forall|k: int| 0 <= k < tokens.len() ==> valid_kind((#[trigger] tokens[k]).kind)
}

/// No character of an identifier is a delimiter.
pub proof fn lemma_identifier_run(src: Seq<char>, i: int, m: int)
    requires
        0 <= i <= m < identifier_end(src, i),
    ensures
        m < src.len(),
        !is_delimiter(src[m]),
    decreases m - i,
{
    if i < src.len() && !is_delimiter(src[i]) && i < m {
        lemma_identifier_run(src, i + 1, m);
    }
}

/// Every token that the lexer finds is valid.
pub proof fn lemma_scan_valid(src: Seq<char>, i: int)
    requires
        0 <= i < src.len(),
    ensures
        scan(src, i) matches Scan::Token { kind, .. } ==> valid_kind(kind),
{
    if is_identifier_start(src[i]) {
        let end = identifier_end(src, i);
        let text = src.subrange(i, end);
        lemma_identifier_end_bounds(src, i + 1);
        assert(text[0] == src[i]);
        assert forall|k: int| 0 <= k < text.len() implies !is_delimiter(#[trigger] text[k]) by {
            lemma_identifier_run(src, i, i + k);
        }
    }
}

/// Lexing adds only valid tokens.
pub proof fn lemma_lex_valid(src: Seq<char>, i: int, done: Seq<TokenView>)
    requires
        all_valid(done),
    ensures
        lex_from(src, i, done) matches Ok(tokens) ==> all_valid(tokens),
    decreases src.len() - i,
{
    if 0 <= i < src.len() {
        lemma_scan_advances(src, i);
        lemma_scan_valid(src, i);
        match scan(src, i) {
            Scan::Token { kind, next } => {
                lemma_lex_valid(src, next, done.push(located(src, kind, i)));
            },
            Scan::Skip { next } => {
                lemma_lex_valid(src, next, done);
            },
            Scan::Error { .. } => {},
        }
    }
}

/// A text of two characters or more that starts as an identifier does and
/// holds no delimiter is a lexable symbol.
pub proof fn lemma_lexable(s: Seq<char>)
    requires
        s.len() >= 2,
        is_identifier_start(s[0]),
        forall|k: int| 0 <= k < s.len() ==> !is_delimiter(#[trigger] s[k]),
    ensures
        lexable_symbol(s),
{
    reveal_strlit(".");
}

/// The symbols of the keywords, of the operators and of the quoting forms
/// are lexable.
pub proof fn lemma_words_lexable()
    ensures
        forall|kind: Kind| #[trigger]
            word_text(kind) matches Some(text) ==> lexable_symbol(text),
        forall|kind: Kind| #[trigger]
            quote_name(kind) matches Some(text) ==> lexable_symbol(text),
{
    assert(lexable_symbol("define"@)) by {
        reveal_strlit("define");
        let s = "define"@;
        assert(!is_delimiter(s[0]));
        assert(!is_delimiter(s[1]));
        assert(!is_delimiter(s[2]));
        assert(!is_delimiter(s[3]));
        assert(!is_delimiter(s[4]));
        assert(!is_delimiter(s[5]));
        lemma_lexable(s);
    }
    assert(lexable_symbol("lambda"@)) by {
        reveal_strlit("lambda");
        let s = "lambda"@;
        assert(!is_delimiter(s[0]));
        assert(!is_delimiter(s[1]));
        assert(!is_delimiter(s[2]));
        assert(!is_delimiter(s[3]));
        assert(!is_delimiter(s[4]));
        assert(!is_delimiter(s[5]));
        lemma_lexable(s);
    }
    assert(lexable_symbol("set!"@)) by {
        reveal_strlit("set!");
        let s = "set!"@;
        assert(!is_delimiter(s[0]));
        assert(!is_delimiter(s[1]));
        assert(!is_delimiter(s[2]));
        assert(!is_delimiter(s[3]));
        lemma_lexable(s);
    }
    assert(lexable_symbol("begin"@)) by {
        reveal_strlit("begin");
        let s = "begin"@;
        assert(!is_delimiter(s[0]));
        assert(!is_delimiter(s[1]));
        assert(!is_delimiter(s[2]));
        assert(!is_delimiter(s[3]));
        assert(!is_delimiter(s[4]));
        lemma_lexable(s);
    }
    assert(lexable_symbol("cond"@)) by {
        reveal_strlit("cond");
        let s = "cond"@;
        assert(!is_delimiter(s[0]));
        assert(!is_delimiter(s[1]));
        assert(!is_delimiter(s[2]));
        assert(!is_delimiter(s[3]));
        lemma_lexable(s);
    }
    assert(lexable_symbol("and"@)) by {
        reveal_strlit("and");
        let s = "and"@;
        assert(!is_delimiter(s[0]));
        assert(!is_delimiter(s[1]));
        assert(!is_delimiter(s[2]));
        lemma_lexable(s);
    }
    assert(lexable_symbol("or"@)) by {
        reveal_strlit("or");
        let s = "or"@;
        assert(!is_delimiter(s[0]));
        assert(!is_delimiter(s[1]));
        lemma_lexable(s);
    }
    assert(lexable_symbol("letrec"@)) by {
        reveal_strlit("letrec");
        let s = "letrec"@;
        assert(!is_delimiter(s[0]));
        assert(!is_delimiter(s[1]));
        assert(!is_delimiter(s[2]));
        assert(!is_delimiter(s[3]));
        assert(!is_delimiter(s[4]));
        assert(!is_delimiter(s[5]));
        lemma_lexable(s);
    }
    assert(lexable_symbol("else"@)) by {
        reveal_strlit("else");
        let s = "else"@;
        assert(!is_delimiter(s[0]));
        assert(!is_delimiter(s[1]));
        assert(!is_delimiter(s[2]));
        assert(!is_delimiter(s[3]));
        lemma_lexable(s);
    }
    assert(lexable_symbol("if"@)) by {
        reveal_strlit("if");
        let s = "if"@;
        assert(!is_delimiter(s[0]));
        assert(!is_delimiter(s[1]));
        lemma_lexable(s);
    }
    assert(lexable_symbol("=>"@)) by {
        reveal_strlit("=>");
        let s = "=>"@;
        assert(!is_delimiter(s[0]));
        assert(!is_delimiter(s[1]));
        lemma_lexable(s);
    }
    assert(lexable_symbol("..."@)) by {
        reveal_strlit("...");
        let s = "..."@;
        assert(!is_delimiter(s[0]));
        assert(!is_delimiter(s[1]));
        assert(!is_delimiter(s[2]));
        lemma_lexable(s);
    }
    assert(lexable_symbol("quote"@)) by {
        reveal_strlit("quote");
        let s = "quote"@;
        assert(!is_delimiter(s[0]));
        assert(!is_delimiter(s[1]));
        assert(!is_delimiter(s[2]));
        assert(!is_delimiter(s[3]));
        assert(!is_delimiter(s[4]));
        lemma_lexable(s);
    }
    assert(lexable_symbol("quasiquote"@)) by {
        reveal_strlit("quasiquote");
        let s = "quasiquote"@;
        assert(!is_delimiter(s[0]));
        assert(!is_delimiter(s[1]));
        assert(!is_delimiter(s[2]));
        assert(!is_delimiter(s[3]));
        assert(!is_delimiter(s[4]));
        assert(!is_delimiter(s[5]));
        assert(!is_delimiter(s[6]));
        assert(!is_delimiter(s[7]));
        assert(!is_delimiter(s[8]));
        assert(!is_delimiter(s[9]));
        lemma_lexable(s);
    }
    assert(lexable_symbol("unquote"@)) by {
        reveal_strlit("unquote");
        let s = "unquote"@;
        assert(!is_delimiter(s[0]));
        assert(!is_delimiter(s[1]));
        assert(!is_delimiter(s[2]));
        assert(!is_delimiter(s[3]));
        assert(!is_delimiter(s[4]));
        assert(!is_delimiter(s[5]));
        assert(!is_delimiter(s[6]));
        lemma_lexable(s);
    }
    assert(lexable_symbol("unquote-splicing"@)) by {
        reveal_strlit("unquote-splicing");
        let s = "unquote-splicing"@;
        assert(!is_delimiter(s[0]));
        assert(!is_delimiter(s[1]));
        assert(!is_delimiter(s[2]));
        assert(!is_delimiter(s[3]));
        assert(!is_delimiter(s[4]));
        assert(!is_delimiter(s[5]));
        assert(!is_delimiter(s[6]));
        assert(!is_delimiter(s[7]));
        assert(!is_delimiter(s[8]));
        assert(!is_delimiter(s[9]));
        assert(!is_delimiter(s[10]));
        assert(!is_delimiter(s[11]));
        assert(!is_delimiter(s[12]));
        assert(!is_delimiter(s[13]));
        assert(!is_delimiter(s[14]));
        assert(!is_delimiter(s[15]));
        lemma_lexable(s);
    }
}

/// The atom of a valid token is printable.
pub proof fn lemma_atom_printable(kind: Kind)
    requires
        valid_kind(kind),
    ensures
        atom_of(kind) matches Some(atom) ==> printable_atom(atom),
{
    lemma_words_lexable();
}

/// What is read from valid tokens is printable and nested no deeper than
/// the reader allows.
pub proof fn lemma_parse_printable(tokens: Seq<TokenView>, i: int, depth: nat, max_depth: nat)
    requires
        all_valid(tokens),
        depth <= max_depth,
    ensures
        parse_expr(tokens, i, depth, max_depth) matches Ok((tree, _)) ==> printable(tree) && fits(
            tree,
            (max_depth - depth) as nat,
        ),
    decreases tokens.len() - i, 0nat,
{
    if !at_end(tokens, i) {
        let token = tokens[i];
        match token.kind {
            Kind::LParen => {
                if depth < max_depth {
                    lemma_items_printable(
                        tokens,
                        i + 1,
                        token,
                        depth + 1,
                        max_depth,
                        true,
                        Seq::empty(),
                    );
                }
            },
            Kind::HashLParen => {
                if depth < max_depth {
                    lemma_items_printable(
                        tokens,
                        i + 1,
                        token,
                        depth + 1,
                        max_depth,
                        false,
                        Seq::empty(),
                    );
                }
            },
            Kind::RParen => {},
            Kind::Dot => {},
            kind => {
                lemma_words_lexable();
                match quote_name(kind) {
                    Some(name) => {
                        if depth < max_depth && !at_end(tokens, i + 1) && tokens[i + 1].kind
                            != Kind::RParen {
                            lemma_parse_printable(tokens, i + 1, depth + 1, max_depth);
                            match parse_expr(tokens, i + 1, depth + 1, max_depth) {
                                Ok((inner, _)) => {
                                    let pair = seq![Tree::Atom(AtomView::Symbol(name)), inner];
                                    assert(quoted(name, inner) == Tree::List(pair));
                                    assert forall|k: int| 0 <= k < pair.len() implies printable(
                                        #[trigger] pair[k],
                                    ) && fits(pair[k], (max_depth - depth - 1) as nat) by {
                                        if k == 0 {
                                        } else {
                                            assert(pair[k] == inner);
                                        }
                                    }
                                },
                                Err(_) => {},
                            }
                        }
                    },
                    None => {
                        lemma_atom_printable(kind);
                    },
                }
            },
        }
    }
}

/// The list or vector read from valid tokens is printable and nested no
/// deeper than the reader allows, if the items read so far are.
pub proof fn lemma_items_printable(
    tokens: Seq<TokenView>,
    i: int,
    opener: TokenView,
    depth: nat,
    max_depth: nat,
    list: bool,
    items: Seq<Tree>,
)
    requires
        all_valid(tokens),
        1 <= depth <= max_depth,
        forall|k: int| 0 <= k < items.len() ==> printable(#[trigger] items[k]),
        forall|k: int|
            0 <= k < items.len() ==> fits(#[trigger] items[k], (max_depth - depth) as nat),
    ensures
        parse_items(tokens, i, opener, depth, max_depth, list, items) matches Ok((tree, _))
            ==> printable(tree) && fits(tree, (max_depth - depth + 1) as nat),
    decreases tokens.len() - i, 2nat,
{
    if !at_end(tokens, i) && tokens[i].kind != Kind::RParen {
        if tokens[i].kind == Kind::Dot {
            if list {
                lemma_tail_printable(tokens, i, opener, depth, max_depth, items);
            }
        } else {
            lemma_parse_printable(tokens, i, depth, max_depth);
            match parse_expr(tokens, i, depth, max_depth) {
                Ok((item, next)) => {
                    if i < next <= tokens.len() {
                        lemma_items_printable(
                            tokens,
                            next,
                            opener,
                            depth,
                            max_depth,
                            list,
                            items.push(item),
                        );
                    }
                },
                Err(_) => {},
            }
        }
    }
}

/// The improper list read from valid tokens is printable and nested no
/// deeper than the reader allows, if the items read so far are.
pub proof fn lemma_tail_printable(
    tokens: Seq<TokenView>,
    dot: int,
    opener: TokenView,
    depth: nat,
    max_depth: nat,
    items: Seq<Tree>,
)
    requires
        all_valid(tokens),
        1 <= depth <= max_depth,
        forall|k: int| 0 <= k < items.len() ==> printable(#[trigger] items[k]),
        forall|k: int|
            0 <= k < items.len() ==> fits(#[trigger] items[k], (max_depth - depth) as nat),
    ensures
        parse_tail(tokens, dot, opener, depth, max_depth, items) matches Ok((tree, _))
            ==> printable(tree) && fits(tree, (max_depth - depth + 1) as nat),
    decreases tokens.len() - dot, 1nat,
{
    if !at_end(tokens, dot + 1) {
        lemma_parse_printable(tokens, dot + 1, depth, max_depth);
    }
}

/// The forms read from valid tokens are printable and nested no deeper
/// than the reader allows.
pub proof fn lemma_read_printable(
    tokens: Seq<TokenView>,
    i: int,
    max_depth: nat,
    forms: Seq<FormView>,
)
    requires
        all_valid(tokens),
        forall|k: int|
            0 <= k < forms.len() ==> printable((#[trigger] forms[k]).expr) && fits(
                forms[k].expr,
                max_depth,
            ),
    ensures
        read_from(tokens, i, max_depth, forms) matches Ok(all) ==> forall|k: int|
            0 <= k < all.len() ==> printable((#[trigger] all[k]).expr) && fits(
                all[k].expr,
                max_depth,
            ),
    decreases tokens.len() - i,
{
    if !at_end(tokens, i) {
        lemma_parse_advances(tokens, i, 0, max_depth);
        lemma_parse_printable(tokens, i, 0, max_depth);
        match parse_expr(tokens, i, 0, max_depth) {
            Ok((expr, next)) => {
                let form = FormView { expr, line: tokens[i].line, column: tokens[i].column };
                lemma_read_printable(tokens, next, max_depth, forms.push(form));
            },
            Err(_) => {},
        }
    }
}

/// Reading is idempotent under printing: every form that is read from the
/// tokens of a source text has a text of its own, and that text is
/// tokenized and read, without error, as the one form that it was printed
/// from.
pub proof fn lemma_reparse_of_read(src: Seq<char>, max_depth: nat, k: int)
    requires
        spec_tokenize(src) is Ok,
        spec_read(spec_tokenize(src).unwrap(), max_depth) is Ok,
        0 <= k < spec_read(spec_tokenize(src).unwrap(), max_depth).unwrap().len(),
    ensures
        ({
            let tree = spec_read(spec_tokenize(src).unwrap(), max_depth).unwrap()[k].expr;
            &&& printable(tree)
            &&& fits(tree, max_depth)
            &&& spec_tokenize(print(tree)) is Ok
            &&& spec_read(spec_tokenize(print(tree)).unwrap(), max_depth) is Ok
            &&& spec_read(spec_tokenize(print(tree)).unwrap(), max_depth).unwrap().len() == 1
            &&& spec_read(spec_tokenize(print(tree)).unwrap(), max_depth).unwrap()[0].expr == tree
        }),
{
    lemma_lex_valid(src, 0, Seq::empty());
    let tokens = spec_tokenize(src).unwrap();
    assert(all_valid(tokens));
    lemma_read_printable(tokens, 0, max_depth, Seq::empty());
    let tree = spec_read(tokens, max_depth).unwrap()[k].expr;
    lemma_print_then_reparse(tree, max_depth);
}

} // verus!
