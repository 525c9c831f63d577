//! S-expressions: the trees that the reader builds and the code generator
//! walks.

use crate::token::Decimal;
use vstd::prelude::*;

verus! {

/// A leaf of an S-expression.
#[derive(Clone, Debug, PartialEq)]
pub enum Atom {
    Integer(i64),
    Float(Decimal),
    Boolean(bool),
    Character(char),
    String(String),
    Symbol(String),
    /// The empty-list value itself, as distinct from a list without items.
    EmptyList,
}

/// An S-expression.
#[derive(Debug, PartialEq)]
pub enum SExpr {
    Atom(Atom),
    /// A proper list: `(a b c)`.
    List(Vec<SExpr>),
    /// An improper list, with the items before the dot and the tail after
    /// it: `(a b . c)`.
    Improper(Vec<SExpr>, Box<SExpr>),
    /// A vector: `#(a b c)`.
    Vector(Vec<SExpr>),
}

/// A top-level form and the place of its first token.
#[derive(Debug, PartialEq)]
pub struct Form {
    pub expr: SExpr,
    pub line: usize,
    pub column: usize,
}

/// The mathematical model of an `Atom`.
pub enum AtomView {
    Integer(i64),
    Float(Decimal),
    Boolean(bool),
    Character(char),
    String(Seq<char>),
    Symbol(Seq<char>),
    EmptyList,
}

/// The mathematical model of an `SExpr`.
pub enum Tree {
    Atom(AtomView),
    List(Seq<Tree>),
    Improper(Seq<Tree>, Box<Tree>),
    Vector(Seq<Tree>),
}

/// The mathematical model of a `Form`.
pub struct FormView {
    pub expr: Tree,
    pub line: usize,
    pub column: usize,
}

impl View for Atom {
    type V = AtomView;

    open spec fn view(&self) -> AtomView {
        match *self {
            Atom::Integer(n) => AtomView::Integer(n),
            Atom::Float(d) => AtomView::Float(d),
            Atom::Boolean(b) => AtomView::Boolean(b),
            Atom::Character(c) => AtomView::Character(c),
            Atom::String(s) => AtomView::String(s@),
            Atom::Symbol(s) => AtomView::Symbol(s@),
            Atom::EmptyList => AtomView::EmptyList,
        }
    }
}

impl SExpr {
    /// The tree that this expression stands for.
    pub open spec fn tree(&self) -> Tree
        decreases self,
    {
        match self {
            SExpr::Atom(a) => Tree::Atom(a@),
            SExpr::List(items) => Tree::List(trees(items@)),
            SExpr::Improper(items, tail) => Tree::Improper(trees(items@), Box::new(tail.tree())),
            SExpr::Vector(items) => Tree::Vector(trees(items@)),
        }
    }
}

/// The trees of a sequence of expressions, one by one.
pub open spec fn trees(items: Seq<SExpr>) -> Seq<Tree>
    decreases items,
{
    if items.len() == 0 {
        Seq::empty()
    } else {
        trees(items.drop_last()).push(items.last().tree())
    }
}

impl View for SExpr {
    type V = Tree;

    open spec fn view(&self) -> Tree {
        self.tree()
    }
}

impl View for Form {
    type V = FormView;

    open spec fn view(&self) -> FormView {
        FormView { expr: self.expr@, line: self.line, column: self.column }
    }
}

/// The models of a sequence of forms, one by one.
pub open spec fn forms_view(forms: Seq<Form>) -> Seq<FormView> {
    Seq::new(forms.len(), |i: int| forms[i]@)
}

/// `trees` keeps the length, and its items are the trees of the items.
pub proof fn lemma_trees(items: Seq<SExpr>)
    ensures
        trees(items).len() == items.len(),
        forall|i: int| 0 <= i < items.len() ==> (#[trigger] trees(items)[i]) == items[i].tree(),
    decreases items.len(),
{
    if items.len() > 0 {
        lemma_trees(items.drop_last());
    }
}

/// The trees of a sequence with one more item.
pub proof fn lemma_trees_push(items: Seq<SExpr>, item: SExpr)
    ensures
        trees(items.push(item)) == trees(items).push(item.tree()),
{
    assert(items.push(item).drop_last() =~= items);
}

impl Atom {
    /// A copy of the atom.
    pub fn duplicate(&self) -> (copy: Atom)
        ensures
            copy@ == self@,
    {
        match self {
            Atom::Integer(n) => Atom::Integer(*n),
            Atom::Float(d) => Atom::Float(*d),
            Atom::Boolean(b) => Atom::Boolean(*b),
            Atom::Character(c) => Atom::Character(*c),
            Atom::String(s) => Atom::String(s.clone()),
            Atom::Symbol(s) => Atom::Symbol(s.clone()),
            Atom::EmptyList => Atom::EmptyList,
        }
    }
}

impl SExpr {
    /// A copy of the expression.
    pub fn duplicate(&self) -> (copy: SExpr)
        ensures
            copy@ == self@,
        decreases self, 0nat,
    {
        match self {
            SExpr::Atom(atom) => SExpr::Atom(atom.duplicate()),
            SExpr::List(items) => SExpr::List(Self::duplicate_items(items)),
            SExpr::Improper(items, tail) => SExpr::Improper(
                Self::duplicate_items(items),
                Box::new(tail.duplicate()),
            ),
            SExpr::Vector(items) => SExpr::Vector(Self::duplicate_items(items)),
        }
    }

    /// Copies of the expressions, in order.
    fn duplicate_items(items: &Vec<SExpr>) -> (copy: Vec<SExpr>)
        ensures
            trees(copy@) == trees(items@),
        decreases items, 1nat,
    {
        let mut copy: Vec<SExpr> = Vec::new();
        let mut k: usize = 0;
        while k < items.len()
            invariant
                k <= items.len(),
                trees(copy@) == trees(items@.subrange(0, k as int)),
            decreases items.len() - k,
        {
            let item = items[k].duplicate();
            proof {
                lemma_trees_push(copy@, item);
                lemma_trees_push(items@.subrange(0, k as int), items@[k as int]);
                assert(items@.subrange(0, k as int).push(items@[k as int]) =~= items@.subrange(
                    0,
                    k as int + 1,
                ));
            }
            copy.push(item);
            k = k + 1;
        }
        assert(items@.subrange(0, k as int) =~= items@);
        copy
    }
}

impl Clone for SExpr {
    fn clone(&self) -> (copy: Self)
        ensures
            copy@ == self@,
    {
        self.duplicate()
    }
}

impl Clone for Form {
    fn clone(&self) -> (copy: Self)
        ensures
            copy@ == self@,
    {
        Form { expr: self.expr.duplicate(), line: self.line, column: self.column }
    }
}

} // verus!
