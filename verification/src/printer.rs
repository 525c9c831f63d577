//! The printer: S-expressions back to source text.
//!
//! `print` states the text of a tree. It is the text that the lexer and the
//! reader turn back into the same tree, for the trees that `printable`
//! describes.

use crate::sexpr::{lemma_trees, trees, Atom, AtomView, SExpr, Tree};
use crate::text::{chars_of, decimal, push_decimal};
use crate::token::Decimal;
use vstd::prelude::*;
use vstd::string::*;

verus! {

/// The numeral of an integer: a minus sign where it is negative, then its
/// magnitude in decimal.
pub open spec fn print_integer(n: i64) -> Seq<char> {
    if n < 0 {
        seq!['-'] + decimal((-(n as int)) as nat)
    } else {
        decimal(n as nat)
    }
}

/// `k` zeros.
pub open spec fn zeros(k: nat) -> Seq<char> {
    Seq::new(k, |i: int| '0')
}

/// The digits of a decimal, with as many digits after the point as its
/// scale says and at least one before it.
pub open spec fn decimal_digits(d: Decimal) -> Seq<char> {
    let digits = decimal(d.digits as nat);
    if digits.len() <= d.scale {
        zeros((d.scale + 1 - digits.len()) as nat) + digits
    } else {
        digits
    }
}

/// The numeral of a decimal: a minus sign where it is negative, the digits
/// before the point, the point, and the digits after it.
pub open spec fn print_decimal(d: Decimal) -> Seq<char> {
    let digits = decimal_digits(d);
    let split = digits.len() - d.scale;
    (if d.negative {
        seq!['-']
    } else {
        Seq::empty()
    }) + digits.subrange(0, split) + seq!['.'] + digits.subrange(split, digits.len() as int)
}

/// What stands for `c` inside a string literal.
pub open spec fn escaped_char(c: char) -> Seq<char> {
    if c == '"' {
        seq!['\\', '"']
    } else if c == '\\' {
        seq!['\\', '\\']
    } else if c == '\n' {
        seq!['\\', 'n']
    } else if c == '\t' {
        seq!['\\', 't']
    } else {
        seq![c]
    }
}

/// What stands for the characters of `text` from `k` on inside a string
/// literal.
pub open spec fn escaped(text: Seq<char>, k: int) -> Seq<char>
    decreases text.len() - k,
{
    if k < 0 || k >= text.len() {
        Seq::empty()
    } else {
        escaped_char(text[k]) + escaped(text, k + 1)
    }
}

/// The text of an atom.
pub open spec fn print_atom(atom: AtomView) -> Seq<char> {
    match atom {
        AtomView::Integer(n) => print_integer(n),
        AtomView::Float(d) => print_decimal(d),
        AtomView::Boolean(b) => if b {
            seq!['#', 't']
        } else {
            seq!['#', 'f']
        },
        AtomView::Character(c) => seq!['#', '\\', c],
        AtomView::String(s) => seq!['"'] + escaped(s, 0) + seq!['"'],
        AtomView::Symbol(s) => s,
        AtomView::EmptyList => seq!['(', ')'],
    }
}

/// The text of a tree.
pub open spec fn print(tree: Tree) -> Seq<char>
    decreases tree, 0nat,
{
    match tree {
        Tree::Atom(atom) => print_atom(atom),
        Tree::List(items) => seq!['('] + print_items(items, 0, false) + seq![')'],
        Tree::Improper(items, tail) => seq!['('] + print_items(items, 0, true) + seq!['.', ' ']
            + print(*tail) + seq![')'],
        Tree::Vector(items) => seq!['#', '('] + print_items(items, 0, false) + seq![')'],
    }
}

/// The space after item `k`: there is one between neighbours and, where
/// `trailing` holds, one after the last item as well.
pub open spec fn gap(items: Seq<Tree>, k: int, trailing: bool) -> Seq<char> {
    if trailing || k + 1 < items.len() {
        seq![' ']
    } else {
        Seq::empty()
    }
}

/// The texts of the items from `k` on, each with the space after it.
pub open spec fn print_items(items: Seq<Tree>, k: int, trailing: bool) -> Seq<char>
    decreases items, items.len() - k,
{
    if k < 0 || k >= items.len() {
        Seq::empty()
    } else {
        print(items[k]) + gap(items, k, trailing) + print_items(items, k + 1, trailing)
    }
}

fn write_integer(out: &mut String, n: i64)
    ensures
        final(out)@ == old(out)@ + print_integer(n),
{
    if n < 0 {
        out.push('-');
        let magnitude: u64 = if n == i64::MIN {
            0x8000_0000_0000_0000
        } else {
            (-n) as u64
        };
        push_decimal(out, magnitude);
        assert(out@ =~= old(out)@ + print_integer(n));
    } else {
        push_decimal(out, n as u64);
    }
}

fn write_decimal(out: &mut String, d: Decimal)
    ensures
        final(out)@ == old(out)@ + print_decimal(d),
{
    let mut numeral = String::new();
    push_decimal(&mut numeral, d.digits);
    let digits = chars_of(numeral.as_str());
    assert(digits@ =~= decimal(d.digits as nat));
    let scale: usize = d.scale as usize;
    let mut all: Vec<char> = Vec::new();
    if digits.len() <= scale {
        let padding: usize = scale - digits.len() + 1;
        let mut k: usize = 0;
        while k < padding
            invariant
                k <= padding,
                all@ == zeros(k as nat),
            decreases padding - k,
        {
            all.push('0');
            k = k + 1;
            assert(all@ =~= zeros(k as nat));
        }
    }
    let ghost padded = all@;
    let mut k: usize = 0;
    while k < digits.len()
        invariant
            k <= digits.len(),
            all@ == padded + digits@.subrange(0, k as int),
        decreases digits.len() - k,
    {
        all.push(digits[k]);
        k = k + 1;
        assert(all@ =~= padded + digits@.subrange(0, k as int));
    }
    assert(all@ =~= decimal_digits(d));
    let split: usize = all.len() - scale;
    if d.negative {
        out.push('-');
    }
    let ghost signed = out@;
    let mut k: usize = 0;
    while k < split
        invariant
            k <= split <= all.len(),
            out@ == signed + all@.subrange(0, k as int),
        decreases split - k,
    {
        out.push(all[k]);
        k = k + 1;
        assert(out@ =~= signed + all@.subrange(0, k as int));
    }
    out.push('.');
    let ghost pointed = out@;
    while k < all.len()
        invariant
            split <= k <= all.len(),
            out@ == pointed + all@.subrange(split as int, k as int),
        decreases all.len() - k,
    {
        out.push(all[k]);
        k = k + 1;
        assert(out@ =~= pointed + all@.subrange(split as int, k as int));
    }
    assert(out@ =~= old(out)@ + print_decimal(d));
}

fn write_string(out: &mut String, s: &String)
    ensures
        final(out)@ == old(out)@ + (seq!['"'] + escaped(s@, 0) + seq!['"']),
{
    let chars = chars_of(s.as_str());
    out.push('"');
    let ghost opened = out@;
    let mut k: usize = 0;
    while k < chars.len()
        invariant
            k <= chars.len(),
            chars@ == s@,
            out@ + escaped(chars@, k as int) == opened + escaped(chars@, 0),
        decreases chars.len() - k,
    {
        let c = chars[k];
        let ghost before = out@;
        if c == '"' {
            out.push('\\');
            out.push('"');
        } else if c == '\\' {
            out.push('\\');
            out.push('\\');
        } else if c == '\n' {
            out.push('\\');
            out.push('n');
        } else if c == '\t' {
            out.push('\\');
            out.push('t');
        } else {
            out.push(c);
        }
        assert(out@ =~= before + escaped_char(c));
        assert(out@ + escaped(chars@, k as int + 1) =~= before + escaped(chars@, k as int));
        k = k + 1;
    }
    assert(out@ =~= opened + escaped(chars@, 0));
    out.push('"');
    assert(out@ =~= old(out)@ + (seq!['"'] + escaped(s@, 0) + seq!['"']));
}

fn write_atom(out: &mut String, atom: &Atom)
    ensures
        final(out)@ == old(out)@ + print_atom(atom@),
{
    match atom {
        Atom::Integer(n) => write_integer(out, *n),
        Atom::Float(d) => write_decimal(out, *d),
        Atom::Boolean(b) => {
            out.push('#');
            if *b {
                out.push('t');
            } else {
                out.push('f');
            }
            assert(out@ =~= old(out)@ + print_atom(atom@));
        },
        Atom::Character(c) => {
            out.push('#');
            out.push('\\');
            out.push(*c);
            assert(out@ =~= old(out)@ + print_atom(atom@));
        },
        Atom::String(s) => write_string(out, s),
        Atom::Symbol(s) => {
            out.append(s.as_str());
        },
        Atom::EmptyList => {
            out.push('(');
            out.push(')');
            assert(out@ =~= old(out)@ + print_atom(atom@));
        },
    }
}

/// Appends the text of `expr` to `out`.
pub fn write_expr(out: &mut String, expr: &SExpr)
    ensures
        final(out)@ == old(out)@ + print(expr@),
    decreases expr, 0nat,
{
    match expr {
        SExpr::Atom(atom) => write_atom(out, atom),
        SExpr::List(items) => {
            out.push('(');
            write_items(out, items, false);
            out.push(')');
            assert(out@ =~= old(out)@ + print(expr@));
        },
        SExpr::Improper(items, tail) => {
            out.push('(');
            write_items(out, items, true);
            out.push('.');
            out.push(' ');
            write_expr(out, tail);
            out.push(')');
            assert(out@ =~= old(out)@ + print(expr@));
        },
        SExpr::Vector(items) => {
            out.push('#');
            out.push('(');
            write_items(out, items, false);
            out.push(')');
            assert(out@ =~= old(out)@ + print(expr@));
        },
    }
}

/// Appends the texts of `items` to `out`, with one space between neighbours
/// and, where `trailing` holds, one after the last as well.
fn write_items(out: &mut String, items: &Vec<SExpr>, trailing: bool)
    ensures
        final(out)@ == old(out)@ + print_items(trees(items@), 0, trailing),
    decreases items, 1nat,
{
    let ghost all = trees(items@);
    proof {
        lemma_trees(items@);
    }
    let mut k: usize = 0;
    while k < items.len()
        invariant
            k <= items.len(),
            all == trees(items@),
            all.len() == items.len(),
            forall|i: int| 0 <= i < items.len() ==> (#[trigger] all[i]) == items@[i].tree(),
            out@ + print_items(all, k as int, trailing) == old(out)@ + print_items(
                all,
                0,
                trailing,
            ),
        decreases items.len() - k,
    {
        let ghost before = out@;
        write_expr(out, &items[k]);
        assert(out@ == before + print(all[k as int]));
        if trailing || k + 1 < items.len() {
            out.push(' ');
        }
        assert(out@ + print_items(all, k as int + 1, trailing) =~= before + print_items(
            all,
            k as int,
            trailing,
        ));
        k = k + 1;
    }
    assert(out@ + print_items(all, k as int, trailing) =~= out@);
}

/// The source text of an expression.
pub fn to_source(expr: &SExpr) -> (s: String)
    ensures
        s@ == print(expr@),
{
    let mut out = String::new();
    write_expr(&mut out, expr);
    assert(out@ =~= print(expr@));
    out
}

} // verus!
