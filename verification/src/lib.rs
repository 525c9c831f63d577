//! A small ahead-of-time compiler for a subset of Scheme.
//!
//! Source text flows strictly forward through four stages: the lexer turns
//! characters into located tokens, the reader assembles tokens into
//! S-expressions, the tagged-value encoder maps literals onto machine words,
//! and the code generator emits assembly text. The printer goes the other
//! way, from S-expressions back to source text. The rope is a text buffer
//! of its own.

pub mod codegen;
pub mod compiler;
pub mod error;
pub mod lexer;
pub mod printer;
pub mod reader;
pub mod rope;
pub mod roundtrip;
pub mod sexpr;
pub mod tagged;
pub mod text;
pub mod token;

pub use crate::codegen::{generate, Generator, Handler};
pub use crate::compiler::{assembly_file_name, compile, CompilationUnit};
pub use crate::error::{CodegenError, CompileError};
pub use crate::lexer::{tokenize, LexError, LexErrorKind, Lexer};
pub use crate::printer::to_source;
pub use crate::reader::{read, ParseError, ParseErrorKind, DEFAULT_MAX_DEPTH};
pub use crate::rope::{Rope, RopeNode};
pub use crate::sexpr::{Atom, Form, SExpr};
pub use crate::tagged::{decode, encode, kind_of, EncodeError, SchemeVal, WordKind};
pub use crate::token::{Decimal, Token, TokenKind};
