//! What can go wrong in one compilation.

use crate::lexer::LexError;
use crate::reader::ParseError;
use crate::sexpr::{Form, FormView};
use crate::tagged::EncodeError;
use vstd::prelude::*;

verus! {

/// A form that no handler of the code generator accepts.
#[derive(Debug, PartialEq)]
pub struct CodegenError {
    /// The unsupported form, with the place of its first token.
    pub form: Form,
}

/// The failure of one compilation unit: each stage gives its own error, and
/// none aborts the process.
#[derive(Debug, PartialEq)]
pub enum CompileError {
    Lex(LexError),
    Parse(ParseError),
    Encode(EncodeError),
    Codegen(CodegenError),
}

/// The mathematical model of a `CompileError`.
pub enum CompileErrorView {
    Lex(LexError),
    Parse(ParseError),
    Encode(EncodeError),
    Codegen(FormView),
}

impl View for CompileError {
    type V = CompileErrorView;

    open spec fn view(&self) -> CompileErrorView {
        match *self {
            CompileError::Lex(e) => CompileErrorView::Lex(e),
            CompileError::Parse(e) => CompileErrorView::Parse(e),
            CompileError::Encode(e) => CompileErrorView::Encode(e),
            CompileError::Codegen(e) => CompileErrorView::Codegen(e.form@),
        }
    }
}

} // verus!
