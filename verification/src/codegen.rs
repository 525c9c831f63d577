//! The code generator: S-expressions to assembly text.
//!
//! The generator holds an ordered list of form handlers. A form is compiled
//! by the first handler that accepts it, so a handler added at the end never
//! changes what is generated for a form that an earlier handler accepts.

use crate::error::{CodegenError, CompileError, CompileErrorView};
use crate::sexpr::{forms_view, Atom, AtomView, Form, FormView, SExpr, Tree};
use crate::tagged::{encode, signed_width, spec_encode, EncodeError, SchemeVal};
use crate::text::{decimal, push_decimal};
use vstd::prelude::*;
use vstd::string::*;

verus! {

/// A form handler: each compiles the forms of one shape.
#[derive(Clone, Copy, Debug, PartialEq, Eq, Structural)]
pub enum Handler {
    /// Integer literals, as fixnums.
    Integer,
    /// `#t` and `#f`.
    Boolean,
    /// Character literals.
    Character,
    /// The empty-list value.
    EmptyList,
}

/// A code generator: its handlers, in the order in which they are tried.
pub struct Generator {
    handlers: Vec<Handler>,
}

impl Handler {
    /// The immediate value that this handler loads for `tree`, or `None`
    /// where the handler does not accept `tree`.
    pub open spec fn value(self, tree: Tree) -> Option<SchemeVal> {
        match (self, tree) {
            (Handler::Integer, Tree::Atom(AtomView::Integer(n))) => Some(SchemeVal::Fixnum(n)),
            (Handler::Boolean, Tree::Atom(AtomView::Boolean(b))) => Some(SchemeVal::Bool(b)),
            (Handler::Character, Tree::Atom(AtomView::Character(c))) => Some(SchemeVal::Char(c)),
            (Handler::EmptyList, Tree::Atom(AtomView::EmptyList)) => Some(SchemeVal::EmptyList),
            _ => None,
        }
    }

    /// Whether this handler accepts `tree`.
    pub open spec fn accepts(self, tree: Tree) -> bool {
        self.value(tree) is Some
    }
}

/// The handlers of a generator made by `Generator::new`.
pub open spec fn standard_handlers() -> Seq<Handler> {
    seq![Handler::Integer, Handler::Boolean, Handler::Character, Handler::EmptyList]
}

/// The first handler from `from` on that accepts `tree`.
pub open spec fn select(handlers: Seq<Handler>, tree: Tree, from: int) -> Option<Handler>
    decreases handlers.len() - from,
{
    if from < 0 || from >= handlers.len() {
        None
    } else if handlers[from].accepts(tree) {
        Some(handlers[from])
    } else {
        select(handlers, tree, from + 1)
    }
}

/// Whether some handler accepts `tree`.
pub open spec fn handled(handlers: Seq<Handler>, tree: Tree) -> bool {
    select(handlers, tree, 0) is Some
}

/// The lines before the first instruction: the entry symbol and its label.
pub open spec fn prologue() -> Seq<char> {
    ".globl _main\n_main:\n"@
}

/// The line after the last instruction.
pub open spec fn epilogue() -> Seq<char> {
    "\tret\n"@
}

/// The instruction that moves `word` into the return register.
pub open spec fn instruction(word: u64) -> Seq<char> {
    "\tmov w0, #"@ + decimal(word as nat) + "\n"@
}

/// The error for a value that has no word.
pub open spec fn encode_error(v: SchemeVal) -> EncodeError {
    match v {
        SchemeVal::Fixnum(n) => EncodeError { literal: n, required_bits: signed_width(n) },
        _ => EncodeError { literal: 0, required_bits: 0 },
    }
}

/// The instructions for one form, or why it has none.
pub open spec fn emit_form(handlers: Seq<Handler>, form: FormView) -> Result<
    Seq<char>,
    CompileErrorView,
> {
    match select(handlers, form.expr, 0) {
        Some(handler) => {
            let v = handler.value(form.expr).unwrap();
            match spec_encode(v) {
                Some(word) => Ok(instruction(word)),
                None => Err(CompileErrorView::Encode(encode_error(v))),
            }
        },
        None => Err(CompileErrorView::Codegen(form)),
    }
}

/// The text `text`, then the instructions of the forms from `i` on; or the
/// error of the first form that has none.
pub open spec fn emit_forms(
    handlers: Seq<Handler>,
    forms: Seq<FormView>,
    i: int,
    text: Seq<char>,
) -> Result<Seq<char>, CompileErrorView>
    decreases forms.len() - i,
{
    if i < 0 || i >= forms.len() {
        Ok(text)
    } else {
        match emit_form(handlers, forms[i]) {
            Ok(code) => emit_forms(handlers, forms, i + 1, text + code),
            Err(e) => Err(e),
        }
    }
}

/// The assembly text of a program: the prologue, the instructions of each
/// form in order, and the return instruction.
pub open spec fn spec_generate(handlers: Seq<Handler>, forms: Seq<FormView>) -> Result<
    Seq<char>,
    CompileErrorView,
> {
    match emit_forms(handlers, forms, 0, prologue()) {
        Ok(text) => Ok(text + epilogue()),
        Err(e) => Err(e),
    }
}

/// The value that `handler` loads for `expr`.
fn handler_value(handler: Handler, expr: &SExpr) -> (r: Option<SchemeVal>)
    ensures
        r == handler.value(expr@),
{
    match expr {
        SExpr::Atom(atom) => match handler {
            Handler::Integer => match atom {
                Atom::Integer(n) => Some(SchemeVal::Fixnum(*n)),
                _ => None,
            },
            Handler::Boolean => match atom {
                Atom::Boolean(b) => Some(SchemeVal::Bool(*b)),
                _ => None,
            },
            Handler::Character => match atom {
                Atom::Character(c) => Some(SchemeVal::Char(*c)),
                _ => None,
            },
            Handler::EmptyList => match atom {
                Atom::EmptyList => Some(SchemeVal::EmptyList),
                _ => None,
            },
        },
        _ => None,
    }
}

impl Generator {
    /// The handlers, in the order in which they are tried.
    pub closed spec fn handlers(&self) -> Seq<Handler> {
        self.handlers@
    }

    /// A generator with the standard handlers.
    pub fn new() -> (g: Self)
        ensures
            g.handlers() == standard_handlers(),
    {
        let mut handlers: Vec<Handler> = Vec::new();
        handlers.push(Handler::Integer);
        handlers.push(Handler::Boolean);
        handlers.push(Handler::Character);
        handlers.push(Handler::EmptyList);
        assert(handlers@ =~= standard_handlers());
        Generator { handlers }
    }

    /// A generator with the given handlers, in the given order.
    pub fn with_handlers(handlers: Vec<Handler>) -> (g: Self)
        ensures
            g.handlers() == handlers@,
    {
        Generator { handlers }
    }

    /// Adds a handler after those already there.
    pub fn add_handler(&mut self, handler: Handler)
        ensures
            final(self).handlers() == old(self).handlers().push(handler),
    {
        self.handlers.push(handler);
    }

    /// The value that the first accepting handler loads for `expr`.
    fn dispatch(&self, expr: &SExpr) -> (r: Option<SchemeVal>)
        ensures
            match select(self.handlers(), expr@, 0) {
                Some(handler) => r == handler.value(expr@) && r is Some,
                None => r is None,
            },
    {
        let mut i: usize = 0;
        while i < self.handlers.len()
            invariant
                i <= self.handlers.len(),
                select(self.handlers@, expr@, i as int) == select(self.handlers@, expr@, 0),
            decreases self.handlers.len() - i,
        {
            let r = handler_value(self.handlers[i], expr);
            if r.is_some() {
                return r;
            }
            i = i + 1;
        }
        None
    }

    /// Generates the assembly text of a program. Fails on the first form
    /// that no handler accepts, and on the first fixnum that has no word.
    pub fn generate(&self, forms: &Vec<Form>) -> (r: Result<String, CompileError>)
        ensures
            match spec_generate(self.handlers(), forms_view(forms@)) {
                Ok(text) => r matches Ok(s) && s@ == text,
                Err(e) => r matches Err(err) && err@ == e,
            },
    {
        let ghost all = forms_view(forms@);
        let mut out = String::from_str(".globl _main\n_main:\n");
        let mut i: usize = 0;
        while i < forms.len()
            invariant
                i <= forms.len(),
                all == forms_view(forms@),
                emit_forms(self.handlers@, all, i as int, out@) == emit_forms(
                    self.handlers@,
                    all,
                    0,
                    prologue(),
                ),
            decreases forms.len() - i,
        {
            match self.dispatch(&forms[i].expr) {
                Some(v) => match encode(v) {
                    Ok(word) => {
                        let ghost before = out@;
                        out.append("\tmov w0, #");
                        push_decimal(&mut out, word);
                        out.append("\n");
                        assert(out@ =~= before + instruction(word));
                    },
                    Err(e) => {
                        return Err(CompileError::Encode(e));
                    },
                },
                None => {
                    return Err(CompileError::Codegen(CodegenError { form: forms[i].clone() }));
                },
            }
            i = i + 1;
        }
        out.append("\tret\n");
        Ok(out)
    }
}

/// Generates the assembly text of a program with the standard handlers.
pub fn generate(forms: &Vec<Form>) -> (r: Result<String, CompileError>)
    ensures
        match spec_generate(standard_handlers(), forms_view(forms@)) {
            Ok(text) => r matches Ok(s) && s@ == text,
            Err(e) => r matches Err(err) && err@ == e,
        },
{
    Generator::new().generate(forms)
}

/// A handler that accepts a form is selected only if no earlier handler
/// accepts it; and if any handler accepts a form, one is selected.
pub proof fn lemma_select(handlers: Seq<Handler>, tree: Tree, from: int)
    requires
        0 <= from,
    ensures
        match select(handlers, tree, from) {
            Some(handler) => exists|k: int|
                from <= k < handlers.len() && handlers[k] == handler && handler.accepts(tree)
                    && forall|j: int| from <= j < k ==> !(#[trigger] handlers[j]).accepts(tree),
            None => forall|j: int| from <= j < handlers.len() ==> !(#[trigger] handlers[j]).accepts(
                tree,
            ),
        },
    decreases handlers.len() - from,
{
    if from < handlers.len() {
        if handlers[from].accepts(tree) {
            assert(from <= from < handlers.len() && handlers[from] == handlers[from]);
        } else {
            lemma_select(handlers, tree, from + 1);
            match select(handlers, tree, from + 1) {
                Some(handler) => {
                    let k = choose|k: int|
                        from + 1 <= k < handlers.len() && handlers[k] == handler && handler.accepts(
                            tree,
                        ) && forall|j: int|
                            from + 1 <= j < k ==> !(#[trigger] handlers[j]).accepts(tree);
                    assert forall|j: int| from <= j < k implies !(#[trigger] handlers[j]).accepts(
                        tree,
                    ) by {}
                },
                None => {},
            }
        }
    }
}

/// A handler added at the end is not selected for a form that an earlier
/// handler accepts.
pub proof fn lemma_select_extended(handlers: Seq<Handler>, extra: Handler, tree: Tree, from: int)
    requires
        0 <= from,
        select(handlers, tree, from) is Some,
    ensures
        select(handlers.push(extra), tree, from) == select(handlers, tree, from),
    decreases handlers.len() - from,
{
    if from < handlers.len() && !handlers[from].accepts(tree) {
        lemma_select_extended(handlers, extra, tree, from + 1);
    }
}

/// Adding a handler changes nothing for the forms that were handled before:
/// their instructions, and the error of a fixnum without a word, stay the
/// same.
pub proof fn lemma_emit_form_extended(handlers: Seq<Handler>, extra: Handler, form: FormView)
    requires
        handled(handlers, form.expr),
    ensures
        emit_form(handlers.push(extra), form) == emit_form(handlers, form),
{
    lemma_select_extended(handlers, extra, form.expr, 0);
}

/// Adding a handler changes nothing for a program whose forms were all
/// handled before, whatever text precedes their instructions.
pub proof fn lemma_emit_forms_extended(
    handlers: Seq<Handler>,
    extra: Handler,
    forms: Seq<FormView>,
    i: int,
    text: Seq<char>,
)
    requires
        forall|k: int| 0 <= k < forms.len() ==> handled(handlers, (#[trigger] forms[k]).expr),
    ensures
        emit_forms(handlers.push(extra), forms, i, text) == emit_forms(handlers, forms, i, text),
    decreases forms.len() - i,
{
    if 0 <= i < forms.len() {
        lemma_emit_form_extended(handlers, extra, forms[i]);
        match emit_form(handlers, forms[i]) {
            Ok(code) => lemma_emit_forms_extended(handlers, extra, forms, i + 1, text + code),
            Err(_) => {},
        }
    }
}

/// Extension is additive: for a program whose every form is accepted by
/// some handler, a generator with one more handler at the end generates the
/// same text, character for character.
pub proof fn lemma_additive_extension(
    handlers: Seq<Handler>,
    extra: Handler,
    forms: Seq<FormView>,
)
    requires
        forall|k: int| 0 <= k < forms.len() ==> handled(handlers, (#[trigger] forms[k]).expr),
    ensures
        spec_generate(handlers.push(extra), forms) == spec_generate(handlers, forms),
{
    lemma_emit_forms_extended(handlers, extra, forms, 0, prologue());
}

/// A program has assembly text exactly when each of its forms has
/// instructions: the text is then the prologue, those instructions in order
/// and the epilogue, and else the error is that of the first form without
/// instructions.
pub proof fn lemma_generate_outcome(handlers: Seq<Handler>, forms: Seq<FormView>)
    ensures
        spec_generate(handlers, forms) is Ok <==> forall|k: int|
            0 <= k < forms.len() ==> emit_form(handlers, #[trigger] forms[k]) is Ok,
        spec_generate(handlers, forms) matches Err(e) ==> exists|k: int|
            0 <= k < forms.len() && emit_form(handlers, #[trigger] forms[k]) == Err::<
                Seq<char>,
                CompileErrorView,
            >(e) && forall|j: int| 0 <= j < k ==> emit_form(handlers, #[trigger] forms[j]) is Ok,
{
    lemma_emit_forms_outcome(handlers, forms, 0, prologue());
}

/// What `lemma_generate_outcome` says, for the forms from `i` on.
pub proof fn lemma_emit_forms_outcome(
    handlers: Seq<Handler>,
    forms: Seq<FormView>,
    i: int,
    text: Seq<char>,
)
    requires
        0 <= i,
    ensures
        emit_forms(handlers, forms, i, text) is Ok <==> forall|k: int|
            i <= k < forms.len() ==> emit_form(handlers, #[trigger] forms[k]) is Ok,
        emit_forms(handlers, forms, i, text) matches Err(e) ==> exists|k: int|
            i <= k < forms.len() && emit_form(handlers, #[trigger] forms[k]) == Err::<
                Seq<char>,
                CompileErrorView,
            >(e) && forall|j: int| i <= j < k ==> emit_form(handlers, #[trigger] forms[j]) is Ok,
    decreases forms.len() - i,
{
    if i < forms.len() {
        match emit_form(handlers, forms[i]) {
            Ok(code) => {
                lemma_emit_forms_outcome(handlers, forms, i + 1, text + code);
                match emit_forms(handlers, forms, i + 1, text + code) {
                    Ok(_) => {
                        assert forall|k: int| i <= k < forms.len() implies emit_form(
                            handlers,
                            #[trigger] forms[k],
                        ) is Ok by {
                            if k > i {
                            }
                        }
                    },
                    Err(e) => {
                        let k = choose|k: int|
                            i + 1 <= k < forms.len() && emit_form(handlers, #[trigger] forms[k])
                                == Err::<Seq<char>, CompileErrorView>(e) && forall|j: int|
                                i + 1 <= j < k ==> emit_form(handlers, #[trigger] forms[j]) is Ok;
                        assert forall|j: int| i <= j < k implies emit_form(
                            handlers,
                            #[trigger] forms[j],
                        ) is Ok by {
                            if j > i {
                            }
                        }
                        assert(i <= k < forms.len() && emit_form(handlers, forms[k]) == Err::<
                            Seq<char>,
                            CompileErrorView,
                        >(e));
                    },
                }
            },
            Err(e) => {
                assert(i <= i < forms.len() && emit_form(handlers, forms[i]) == Err::<
                    Seq<char>,
                    CompileErrorView,
                >(e));
            },
        }
    }
}

} // verus!
