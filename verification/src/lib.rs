//! Front end of the Rustype language: source spans and diagnostics, the
//! token lexer, the bootstrap item parser and the line index used to
//! report locations.
use vstd::prelude::*;

pub mod ast;
pub mod text;
pub mod token;
pub mod lexer_spec;
pub mod lexer;
pub mod lexer_laws;
pub mod lexer_tabs;
pub mod line_index;
pub mod strings;
pub mod parser_spec;
pub mod parser;
pub mod parser_laws;
pub mod cli;
pub mod report;

pub use ast::{
    Diagnostic, FileId, FunctionDecl, Ident, Item, Module, NewtypeDecl, NodeId, Param, Span,
    TypeExpr,
};
pub use lexer::lex;
pub use line_index::LineIndex;
pub use parser::{parse_module, ParseOutput};
pub use token::{LexOutput, Token, TokenKind};
