//! Tokens produced by the lexer and the keyword table.
use vstd::prelude::*;
use crate::ast::{Diagnostic, DiagnosticView, Span, diagnostics_view};
use crate::text::matches_literal;

verus! {

/// The kinds of tokens of Rustype source.
#[derive(Debug, Clone, Copy, PartialEq, Eq, Hash, Structural)]
pub enum TokenKind {
    Name,
    Number,
    String,
    Newline,
    Indent,
    Dedent,
    Eof,
    Fn,
    Def,
    Async,
    Newtype,
    Enum,
    Trait,
    Class,
    Unsafe,
    If,
    Else,
    Elif,
    Let,
    Match,
    Case,
    Return,
    Raise,
    Pass,
    Break,
    Continue,
    While,
    For,
    In,
    Try,
    Except,
    Finally,
    With,
    As,
    Import,
    From,
    Await,
    True,
    False,
    NoneKeyword,
    And,
    Or,
    Not,
    Plus,
    Minus,
    Star,
    DoubleStar,
    Slash,
    DoubleSlash,
    Percent,
    At,
    Pipe,
    Ampersand,
    Caret,
    Tilde,
    LeftShift,
    RightShift,
    Walrus,
    Assign,
    EqEq,
    NotEq,
    Less,
    LessEq,
    Greater,
    GreaterEq,
    Arrow,
    Question,
    Colon,
    Comma,
    Dot,
    Semicolon,
    LParen,
    RParen,
    LBracket,
    RBracket,
    LBrace,
    RBrace,
}

/// A token with its byte span.
#[derive(Debug, Clone, Copy, PartialEq, Eq, Hash, Structural)]
pub struct Token {
    pub kind: TokenKind,
    pub span: Span,
}

impl Token {
    #[must_use]
    pub fn new(kind: TokenKind, span: Span) -> (t: Self)
        ensures
            t == (Token { kind, span }),
    {
        Self { kind, span }
    }
}

/// The tokens of a source file and the lexical errors found in it.
#[derive(Debug, Clone, PartialEq, Eq)]
pub struct LexOutput {
    pub tokens: Vec<Token>,
    pub diagnostics: Vec<Diagnostic>,
}

/// A lexer result as a value.
pub struct LexOutputView {
    pub tokens: Seq<Token>,
    pub diagnostics: Seq<DiagnosticView>,
}

impl View for LexOutput {
    type V = LexOutputView;

    open spec fn view(&self) -> LexOutputView {
        LexOutputView { tokens: self.tokens@, diagnostics: diagnostics_view(self.diagnostics@) }
    }
}

/// The keyword spelled by `text`, if it is one.
pub open spec fn keyword(text: Seq<char>) -> Option<TokenKind> {
    if text == "fn"@ {
        Some(TokenKind::Fn)
    } else if text == "def"@ {
        Some(TokenKind::Def)
    } else if text == "async"@ {
        Some(TokenKind::Async)
    } else if text == "newtype"@ {
        Some(TokenKind::Newtype)
    } else if text == "enum"@ {
        Some(TokenKind::Enum)
    } else if text == "trait"@ {
        Some(TokenKind::Trait)
    } else if text == "class"@ {
        Some(TokenKind::Class)
    } else if text == "unsafe"@ {
        Some(TokenKind::Unsafe)
    } else if text == "if"@ {
        Some(TokenKind::If)
    } else if text == "else"@ {
        Some(TokenKind::Else)
    } else if text == "elif"@ {
        Some(TokenKind::Elif)
    } else if text == "let"@ {
        Some(TokenKind::Let)
    } else if text == "match"@ {
        Some(TokenKind::Match)
    } else if text == "case"@ {
        Some(TokenKind::Case)
    } else if text == "return"@ {
        Some(TokenKind::Return)
    } else if text == "raise"@ {
        Some(TokenKind::Raise)
    } else if text == "pass"@ {
        Some(TokenKind::Pass)
    } else if text == "break"@ {
        Some(TokenKind::Break)
    } else if text == "continue"@ {
        Some(TokenKind::Continue)
    } else if text == "while"@ {
        Some(TokenKind::While)
    } else if text == "for"@ {
        Some(TokenKind::For)
    } else if text == "in"@ {
        Some(TokenKind::In)
    } else if text == "try"@ {
        Some(TokenKind::Try)
    } else if text == "except"@ {
        Some(TokenKind::Except)
    } else if text == "finally"@ {
        Some(TokenKind::Finally)
    } else if text == "with"@ {
        Some(TokenKind::With)
    } else if text == "as"@ {
        Some(TokenKind::As)
    } else if text == "import"@ {
        Some(TokenKind::Import)
    } else if text == "from"@ {
        Some(TokenKind::From)
    } else if text == "await"@ {
        Some(TokenKind::Await)
    } else if text == "True"@ {
        Some(TokenKind::True)
    } else if text == "False"@ {
        Some(TokenKind::False)
    } else if text == "None"@ {
        Some(TokenKind::NoneKeyword)
    } else if text == "and"@ {
        Some(TokenKind::And)
    } else if text == "or"@ {
        Some(TokenKind::Or)
    } else if text == "not"@ {
        Some(TokenKind::Not)
    } else {
        Option::None
    }
}

/// The keyword spelled by `cs[start..end]`, if it is one.
pub(crate) fn keyword_kind(cs: &Vec<char>, start: usize, end: usize) -> (k: Option<TokenKind>)
    requires
        start <= end <= cs.len(),
    ensures
        k == keyword(cs@.subrange(start as int, end as int)),
{
    if matches_literal(cs, start, end, "fn") {
        Some(TokenKind::Fn)
    } else if matches_literal(cs, start, end, "def") {
        Some(TokenKind::Def)
    } else if matches_literal(cs, start, end, "async") {
        Some(TokenKind::Async)
    } else if matches_literal(cs, start, end, "newtype") {
        Some(TokenKind::Newtype)
    } else if matches_literal(cs, start, end, "enum") {
        Some(TokenKind::Enum)
    } else if matches_literal(cs, start, end, "trait") {
        Some(TokenKind::Trait)
    } else if matches_literal(cs, start, end, "class") {
        Some(TokenKind::Class)
    } else if matches_literal(cs, start, end, "unsafe") {
        Some(TokenKind::Unsafe)
    } else if matches_literal(cs, start, end, "if") {
        Some(TokenKind::If)
    } else if matches_literal(cs, start, end, "else") {
        Some(TokenKind::Else)
    } else if matches_literal(cs, start, end, "elif") {
        Some(TokenKind::Elif)
    } else if matches_literal(cs, start, end, "let") {
        Some(TokenKind::Let)
    } else if matches_literal(cs, start, end, "match") {
        Some(TokenKind::Match)
    } else if matches_literal(cs, start, end, "case") {
        Some(TokenKind::Case)
    } else if matches_literal(cs, start, end, "return") {
        Some(TokenKind::Return)
    } else if matches_literal(cs, start, end, "raise") {
        Some(TokenKind::Raise)
    } else if matches_literal(cs, start, end, "pass") {
        Some(TokenKind::Pass)
    } else if matches_literal(cs, start, end, "break") {
        Some(TokenKind::Break)
    } else if matches_literal(cs, start, end, "continue") {
        Some(TokenKind::Continue)
    } else if matches_literal(cs, start, end, "while") {
        Some(TokenKind::While)
    } else if matches_literal(cs, start, end, "for") {
        Some(TokenKind::For)
    } else if matches_literal(cs, start, end, "in") {
        Some(TokenKind::In)
    } else if matches_literal(cs, start, end, "try") {
        Some(TokenKind::Try)
    } else if matches_literal(cs, start, end, "except") {
        Some(TokenKind::Except)
    } else if matches_literal(cs, start, end, "finally") {
        Some(TokenKind::Finally)
    } else if matches_literal(cs, start, end, "with") {
        Some(TokenKind::With)
    } else if matches_literal(cs, start, end, "as") {
        Some(TokenKind::As)
    } else if matches_literal(cs, start, end, "import") {
        Some(TokenKind::Import)
    } else if matches_literal(cs, start, end, "from") {
        Some(TokenKind::From)
    } else if matches_literal(cs, start, end, "await") {
        Some(TokenKind::Await)
    } else if matches_literal(cs, start, end, "True") {
        Some(TokenKind::True)
    } else if matches_literal(cs, start, end, "False") {
        Some(TokenKind::False)
    } else if matches_literal(cs, start, end, "None") {
        Some(TokenKind::NoneKeyword)
    } else if matches_literal(cs, start, end, "and") {
        Some(TokenKind::And)
    } else if matches_literal(cs, start, end, "or") {
        Some(TokenKind::Or)
    } else if matches_literal(cs, start, end, "not") {
        Some(TokenKind::Not)
    } else {
        Option::None
    }
}

} // verus!
