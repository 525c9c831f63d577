//! The whole pipeline: source text to assembly text.

use crate::codegen::{generate, spec_generate, standard_handlers};
use crate::error::{CompileError, CompileErrorView};
use crate::lexer::{spec_tokenize, tokenize};
use crate::reader::{read, spec_read, DEFAULT_MAX_DEPTH};
use crate::sexpr::{forms_view, Form};
use crate::text::chars_of;
use crate::token::{tokens_view, Token};
use vstd::prelude::*;
use vstd::string::*;

verus! {

/// What a source text compiles to: the error of the first stage that fails,
/// or the assembly text of its forms.
pub open spec fn spec_compile(source: Seq<char>) -> Result<Seq<char>, CompileErrorView> {
    match spec_tokenize(source) {
        Err(e) => Err(CompileErrorView::Lex(e)),
        Ok(tokens) => match spec_read(tokens, DEFAULT_MAX_DEPTH as nat) {
            Err(e) => Err(CompileErrorView::Parse(e)),
            Ok(forms) => spec_generate(standard_handlers(), forms),
        },
    }
}

/// One compilation: the source text and what each stage made of it.
#[derive(Debug, PartialEq)]
pub struct CompilationUnit {
    pub source: String,
    pub tokens: Vec<Token>,
    pub forms: Vec<Form>,
    pub assembly: String,
}

impl CompilationUnit {
    /// Every part is what its stage makes of the part before it.
    pub open spec fn wf(&self) -> bool {
        &&& spec_tokenize(self.source@) == Ok::<_, crate::lexer::LexError>(
            tokens_view(self.tokens@),
        )
        &&& spec_read(tokens_view(self.tokens@), DEFAULT_MAX_DEPTH as nat) == Ok::<
            _,
            crate::reader::ParseError,
        >(forms_view(self.forms@))
        &&& spec_generate(standard_handlers(), forms_view(self.forms@)) == Ok::<
            _,
            CompileErrorView,
        >(self.assembly@)
    }

    /// Runs the pipeline on a source text and keeps what each stage made.
    pub fn compile(source: &str) -> (r: Result<CompilationUnit, CompileError>)
        ensures
            match spec_compile(source@) {
                Ok(text) => r matches Ok(unit) && unit.wf() && unit.source@ == source@
                    && unit.assembly@ == text,
                Err(e) => r matches Err(err) && err@ == e,
            },
    {
        let tokens = match tokenize(source) {
            Ok(tokens) => tokens,
            Err(e) => {
                return Err(CompileError::Lex(e));
            },
        };
        let forms = match read(&tokens, DEFAULT_MAX_DEPTH) {
            Ok(forms) => forms,
            Err(e) => {
                return Err(CompileError::Parse(e));
            },
        };
        let assembly = match generate(&forms) {
            Ok(assembly) => assembly,
            Err(e) => {
                return Err(e);
            },
        };
        Ok(CompilationUnit { source: String::from_str(source), tokens, forms, assembly })
    }
}

/// Compiles a source text to assembly text.
pub fn compile(source: &str) -> (r: Result<String, CompileError>)
    ensures
        match spec_compile(source@) {
            Ok(text) => r matches Ok(s) && s@ == text,
            Err(e) => r matches Err(err) && err@ == e,
        },
{
    match CompilationUnit::compile(source) {
        Ok(unit) => Ok(unit.assembly),
        Err(e) => Err(e),
    }
}

/// The first position from `i` on that holds a `.`, or the end of `path`.
pub open spec fn first_dot(path: Seq<char>, i: int) -> int
    decreases path.len() - i,
{
    if 0 <= i < path.len() && path[i] != '.' {
        first_dot(path, i + 1)
    } else {
        i
    }
}

/// The name of the assembly file for a source path: the text before the
/// first `.`, then `.s`.
pub open spec fn spec_assembly_file_name(path: Seq<char>) -> Seq<char> {
    path.subrange(0, first_dot(path, 0)) + ".s"@
}

/// The name of the assembly file that the source at `path` compiles to.
pub fn assembly_file_name(path: &str) -> (name: String)
    ensures
        name@ == spec_assembly_file_name(path@),
{
    let chars = chars_of(path);
    let mut name = String::new();
    let mut i: usize = 0;
    while i < chars.len() && chars[i] != '.'
        invariant
            i <= chars.len(),
            chars@ == path@,
            name@ == chars@.subrange(0, i as int),
            first_dot(chars@, i as int) == first_dot(chars@, 0),
        decreases chars.len() - i,
    {
        name.push(chars[i]);
        i = i + 1;
        assert(name@ =~= chars@.subrange(0, i as int));
    }
    name.append(".s");
    name
}

} // verus!
