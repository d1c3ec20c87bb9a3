//! Syntax tree of a Rustype module, source spans and diagnostics.
//!
//! Every node carries a node identifier and a half-open byte span
//! `[start, end)` into the UTF-8 source. The views map the owned strings of
//! the tree to character sequences so that contracts can speak of them.
use vstd::prelude::*;

verus! {

/// Identifies a source file.
#[derive(Debug, Clone, Copy, PartialEq, Eq, Hash, Structural)]
pub struct FileId(pub u32);

/// Identifies a syntax node within one parse.
#[derive(Debug, Clone, Copy, PartialEq, Eq, Hash, Structural)]
pub struct NodeId(pub u32);

/// A half-open byte range `[start, end)` of a source file.
#[derive(Debug, Clone, Copy, PartialEq, Eq, Hash, Structural)]
pub struct Span {
    pub file: FileId,
    pub start: usize,
    pub end: usize,
}

impl Span {
    #[must_use]
    pub fn new(file: FileId, start: usize, end: usize) -> (s: Self)
        ensures
            s == (Span { file, start, end }),
    {
        Self { file, start, end }
    }
}

/// An identifier with its text.
#[derive(Debug, Clone, PartialEq, Eq)]
pub struct Ident {
    pub id: NodeId,
    pub span: Span,
    pub name: String,
}

/// A type written in the source, kept as its text.
#[derive(Debug, Clone, PartialEq, Eq)]
pub struct TypeExpr {
    pub id: NodeId,
    pub span: Span,
    pub text: String,
}

/// `newtype Name = Type`
#[derive(Debug, Clone, PartialEq, Eq)]
pub struct NewtypeDecl {
    pub id: NodeId,
    pub span: Span,
    pub name: Ident,
    pub underlying: TypeExpr,
}

/// `name: Type` in a function signature.
#[derive(Debug, Clone, PartialEq, Eq)]
pub struct Param {
    pub id: NodeId,
    pub span: Span,
    pub name: Ident,
    pub annotation: TypeExpr,
}

/// `fn name(params) -> Type:` or `async fn ...`
#[derive(Debug, Clone, PartialEq, Eq)]
pub struct FunctionDecl {
    pub id: NodeId,
    pub span: Span,
    pub is_async: bool,
    pub name: Ident,
    pub params: Vec<Param>,
    pub return_type: TypeExpr,
}

/// A top-level item.
#[derive(Debug, Clone, PartialEq, Eq)]
pub enum Item {
    Newtype(NewtypeDecl),
    Function(FunctionDecl),
}

/// A parsed source file.
#[derive(Debug, Clone, PartialEq, Eq)]
pub struct Module {
    pub id: NodeId,
    pub span: Span,
    pub items: Vec<Item>,
}

/// An error found in the source, with a stable code such as `RYL0001`.
#[derive(Debug, Clone, PartialEq, Eq)]
pub struct Diagnostic {
    pub code: &'static str,
    pub message: String,
    pub span: Span,
}

impl Diagnostic {
    #[must_use]
    pub fn error(code: &'static str, message: String, span: Span) -> (d: Self)
        ensures
            d@ == (DiagnosticView { code: code@, message: message@, span }),
    {
        Self { code, message, span }
    }
}

/// An identifier as a value.
pub struct IdentView {
    pub id: NodeId,
    pub span: Span,
    pub name: Seq<char>,
}

/// A type expression as a value.
pub struct TypeExprView {
    pub id: NodeId,
    pub span: Span,
    pub text: Seq<char>,
}

/// A newtype declaration as a value.
pub struct NewtypeDeclView {
    pub id: NodeId,
    pub span: Span,
    pub name: IdentView,
    pub underlying: TypeExprView,
}

/// A parameter as a value.
pub struct ParamView {
    pub id: NodeId,
    pub span: Span,
    pub name: IdentView,
    pub annotation: TypeExprView,
}

/// A function header as a value.
pub struct FunctionDeclView {
    pub id: NodeId,
    pub span: Span,
    pub is_async: bool,
    pub name: IdentView,
    pub params: Seq<ParamView>,
    pub return_type: TypeExprView,
}

/// An item as a value.
pub enum ItemView {
    Newtype(NewtypeDeclView),
    Function(FunctionDeclView),
}

/// A module as a value.
pub struct ModuleView {
    pub id: NodeId,
    pub span: Span,
    pub items: Seq<ItemView>,
}

/// A diagnostic as a value.
pub struct DiagnosticView {
    pub code: Seq<char>,
    pub message: Seq<char>,
    pub span: Span,
}

impl View for Ident {
    type V = IdentView;

    open spec fn view(&self) -> IdentView {
        IdentView { id: self.id, span: self.span, name: self.name@ }
    }
}

impl View for TypeExpr {
    type V = TypeExprView;

    open spec fn view(&self) -> TypeExprView {
        TypeExprView { id: self.id, span: self.span, text: self.text@ }
    }
}

impl View for NewtypeDecl {
    type V = NewtypeDeclView;

    open spec fn view(&self) -> NewtypeDeclView {
        NewtypeDeclView {
            id: self.id,
            span: self.span,
            name: self.name@,
            underlying: self.underlying@,
        }
    }
}

impl View for Param {
    type V = ParamView;

    open spec fn view(&self) -> ParamView {
        ParamView { id: self.id, span: self.span, name: self.name@, annotation: self.annotation@ }
    }
}

impl View for FunctionDecl {
    type V = FunctionDeclView;

    open spec fn view(&self) -> FunctionDeclView {
        FunctionDeclView {
            id: self.id,
            span: self.span,
            is_async: self.is_async,
            name: self.name@,
            params: self.params@.map_values(|p: Param| p@),
            return_type: self.return_type@,
        }
    }
}

impl View for Item {
    type V = ItemView;

    open spec fn view(&self) -> ItemView {
        match self {
            Item::Newtype(d) => ItemView::Newtype(d@),
            Item::Function(f) => ItemView::Function(f@),
        }
    }
}

impl View for Module {
    type V = ModuleView;

    open spec fn view(&self) -> ModuleView {
        ModuleView { id: self.id, span: self.span, items: self.items@.map_values(|i: Item| i@) }
    }
}

impl View for Diagnostic {
    type V = DiagnosticView;

    open spec fn view(&self) -> DiagnosticView {
        DiagnosticView { code: self.code@, message: self.message@, span: self.span }
    }
}

/// The views of a sequence of diagnostics.
pub open spec fn diagnostics_view(ds: Seq<Diagnostic>) -> Seq<DiagnosticView> {
    ds.map_values(|d: Diagnostic| d@)
}

} // verus!
