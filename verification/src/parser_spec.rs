//! What the bootstrap parser computes, as functions on the characters of
//! the source.
//!
//! The bootstrap parser reads the source line by line, each without its
//! trailing comment. Blank lines, comment lines and indented lines
//! (function bodies) are skipped; a line holding a
//! tab is reported. Every other line must be a `newtype` declaration or a
//! function header; anything else is reported, one diagnostic per line.
//! Names, types and parameters carry the spans of their own text. Node
//! identifiers are handed out in order, the module's last.
use vstd::prelude::*;
use crate::ast::{
    DiagnosticView, FileId, FunctionDeclView, IdentView, ItemView, ModuleView, NewtypeDeclView,
    NodeId, ParamView, Span, TypeExprView,
};
use crate::lexer_spec::{continues_identifier, starts_identifier};
use crate::strings::{
    find, index_of, index_of_from, last_index_of, lemma_index_of_from, space_end, starts_with, trim,
};
use crate::token::keyword;
use crate::text::{byte_offset, utf8_len};

verus! {

/// A parse result as a value.
pub struct ParseOutputView {
    pub module: ModuleView,
    pub diagnostics: Seq<DiagnosticView>,
}

/// The outcome of parsing one construct: what was built, the next free
/// node identifier, and the diagnostics reported.
pub struct Parsed<T> {
    pub value: Option<T>,
    pub next: nat,
    pub diagnostics: Seq<DiagnosticView>,
}

/// What has been parsed of a module so far.
pub struct ParseState {
    pub items: Seq<ItemView>,
    pub next: nat,
    pub diagnostics: Seq<DiagnosticView>,
}

/// `s` is a name: a letter or `_`, then letters, digits or `_`, and not
/// one of the reserved words (the keywords of the lexer).
pub open spec fn is_name(s: Seq<char>) -> bool {
    &&& s.len() > 0
    &&& starts_identifier(s[0])
    &&& forall|m: int| 1 <= m < s.len() ==> continues_identifier(#[trigger] s[m])
    &&& keyword(s) is None
}

pub open spec fn node(n: nat) -> NodeId {
    NodeId(n as u32)
}

/// The span of the bytes `start..end`.
pub open spec fn byte_span(file: FileId, start: int, end: int) -> Span {
    Span { file, start: start as usize, end: end as usize }
}

/// The span of the characters `cs[a..b]`.
pub open spec fn span_at(file: FileId, cs: Seq<char>, a: int, b: int) -> Span {
    byte_span(file, byte_offset(cs, a) as int, byte_offset(cs, b) as int)
}

pub open spec fn error(code: Seq<char>, message: Seq<char>, span: Span) -> DiagnosticView {
    DiagnosticView { code, message, span }
}

/// Nothing built, `n` still free, and the diagnostics `ds`.
pub open spec fn failed<T>(n: nat, ds: Seq<DiagnosticView>) -> Parsed<T> {
    Parsed { value: None, next: n, diagnostics: ds }
}

/// The positions of `trim(cs[a..b])` in `cs`: from the first character of
/// `cs[a..b]` that is not white space, as many characters as `trim` keeps.
pub open spec fn trimmed_range(cs: Seq<char>, a: int, b: int) -> (int, int) {
    let from = a + space_end(cs.subrange(a, b), 0);
    (from, from + trim(cs.subrange(a, b)).len())
}

/// `newtype Name = Type` on the line `cs[ls..le]` (already trimmed).
pub open spec fn parse_newtype(file: FileId, cs: Seq<char>, ls: int, le: int, next: nat) -> Parsed<
    NewtypeDeclView,
> {
    let line = cs.subrange(ls, le);
    let whole = span_at(file, cs, ls, le);
    if !starts_with(line, "newtype "@) {
        failed(next, Seq::empty())
    } else {
        let rs = ls + "newtype "@.len();
        match index_of(cs.subrange(rs, le), '=') {
            None => failed(
                next,
                seq![error("RYP0101"@, "expected `newtype Name = Type`"@, whole)],
            ),
            Some(r) => {
                let (ns, ne) = trimmed_range(cs, rs, rs + r);
                let (ys, ye) = trimmed_range(cs, rs + r + 1, le);
                let name = cs.subrange(ns, ne);
                let ty = cs.subrange(ys, ye);
                if !is_name(name) || ty.len() == 0 {
                    failed(next, seq![error("RYP0102"@, "invalid newtype declaration"@, whole)])
                } else {
                    Parsed {
                        value: Some(
                            NewtypeDeclView {
                                id: node(next),
                                span: whole,
                                name: IdentView {
                                    id: node(next + 1),
                                    span: span_at(file, cs, ns, ne),
                                    name,
                                },
                                underlying: TypeExprView {
                                    id: node(next + 2),
                                    span: span_at(file, cs, ys, ye),
                                    text: ty,
                                },
                            },
                        ),
                        next: next + 3,
                        diagnostics: Seq::empty(),
                    }
                }
            },
        }
    }
}

/// The positions of the piece `cs[a..b]` of a parameter list, trimmed: none
/// when it is empty.
pub open spec fn param_piece(cs: Seq<char>, a: int, b: int) -> Seq<(int, int)> {
    let (x, y) = trimmed_range(cs, a, b);
    if x < y {
        seq![(x, y)]
    } else {
        Seq::empty()
    }
}

/// Bracket depth after the character `c`, starting from `depth`: `(`, `[`
/// and `{` open a level, `)`, `]` and `}` close one.
pub open spec fn depth_after(c: char, depth: nat) -> nat {
    if c == '(' || c == '[' || c == '{' {
        depth + 1
    } else if (c == ')' || c == ']' || c == '}') && depth > 0 {
        (depth - 1) as nat
    } else {
        depth
    }
}

/// The first comma of `cs[i..b]` outside brackets (`depth` brackets being
/// open at `i`), as a position in `cs`.
pub open spec fn top_comma(cs: Seq<char>, i: int, b: int, depth: nat) -> Option<int>
    decreases b - i,
{
    if i < 0 || i >= b || b > cs.len() {
        None
    } else if cs[i] == ',' && depth == 0 {
        Some(i)
    } else {
        top_comma(cs, i + 1, b, depth_after(cs[i], depth))
    }
}

pub proof fn lemma_top_comma(cs: Seq<char>, i: int, b: int, depth: nat)
    ensures
        top_comma(cs, i, b, depth) matches Some(k) ==> i <= k < b,
    decreases b - i,
{
    if !(i < 0 || i >= b || b > cs.len()) && !(cs[i] == ',' && depth == 0) {
        lemma_top_comma(cs, i + 1, b, depth_after(cs[i], depth));
    }
}

/// The positions of the parameters between the parentheses `cs[a..b]`:
/// split at the commas outside brackets, trimmed, empty ones dropped.
pub open spec fn param_ranges(cs: Seq<char>, a: int, b: int) -> Seq<(int, int)>
    decreases b - a,
{
    if b <= a || a < 0 || b > cs.len() {
        Seq::empty()
    } else {
        match top_comma(cs, a, b, 0) {
            None => param_piece(cs, a, b),
            Some(k) => {
                proof {
                    lemma_top_comma(cs, a, b, 0);
                }
                param_piece(cs, a, k) + param_ranges(cs, k + 1, b)
            },
        }
    }
}

/// The parameter `cs[a..b]` (`name: Type`) of the function header on the line `cs[ls..le]`.
pub open spec fn parse_param(
    file: FileId,
    cs: Seq<char>,
    ls: int,
    le: int,
    a: int,
    b: int,
    next: nat,
) -> Parsed<ParamView> {
    let raw = cs.subrange(a, b);
    let whole = span_at(file, cs, ls, le);
    match index_of(raw, ':') {
        None => failed(
            next,
            seq![error("RYP0206"@, "parameter `"@ + raw + "` requires a type annotation"@, whole)],
        ),
        Some(c) => {
            let (ns, ne) = trimmed_range(cs, a, a + c);
            let (ys, ye) = trimmed_range(cs, a + c + 1, b);
            let name = cs.subrange(ns, ne);
            let annotation = cs.subrange(ys, ye);
            if !is_name(name) || annotation.len() == 0 {
                failed(next, seq![error("RYP0207"@, "invalid function parameter"@, whole)])
            } else {
                Parsed {
                    value: Some(
                        ParamView {
                            id: node(next),
                            span: span_at(file, cs, a, b),
                            name: IdentView {
                                id: node(next + 1),
                                span: span_at(file, cs, ns, ne),
                                name,
                            },
                            annotation: TypeExprView {
                                id: node(next + 2),
                                span: span_at(file, cs, ys, ye),
                                text: annotation,
                            },
                        },
                    ),
                    next: next + 3,
                    diagnostics: Seq::empty(),
                }
            }
        },
    }
}

/// The parameters at the positions `ranges` of the function header on the
/// line `cs[ls..le]`, read in order up to the first that fails.
pub open spec fn parse_params(
    file: FileId,
    cs: Seq<char>,
    ls: int,
    le: int,
    ranges: Seq<(int, int)>,
    next: nat,
) -> Parsed<Seq<ParamView>>
    decreases ranges.len(),
{
    if ranges.len() == 0 {
        Parsed { value: Some(Seq::empty()), next, diagnostics: Seq::empty() }
    } else {
        let first = parse_param(file, cs, ls, le, ranges[0].0, ranges[0].1, next);
        match first.value {
            None => failed(first.next, first.diagnostics),
            Some(param) => {
                let rest = parse_params(file, cs, ls, le, ranges.drop_first(), first.next);
                Parsed {
                    value: match rest.value {
                        Some(ps) => Some(seq![param] + ps),
                        None => None,
                    },
                    next: rest.next,
                    diagnostics: rest.diagnostics,
                }
            },
        }
    }
}

/// `fn name(params) -> Type:` or `async fn ...` on the line `cs[ls..le]` (already trimmed).
pub open spec fn parse_function_header(
    file: FileId,
    cs: Seq<char>,
    ls: int,
    le: int,
    next: nat,
) -> Parsed<FunctionDeclView> {
    let line = cs.subrange(ls, le);
    let whole = span_at(file, cs, ls, le);
    let is_async = starts_with(line, "async fn "@);
    if !is_async && !starts_with(line, "fn "@) {
        failed(next, Seq::empty())
    } else {
        let rs = ls + if is_async {
            "async fn "@.len() as int
        } else {
            "fn "@.len() as int
        };
        match find(cs.subrange(rs, le), "->"@) {
            None => failed(
                next,
                seq![error("RYP0201"@, "Rustype functions require an explicit return type"@, whole)],
            ),
            Some(r) => {
                let rc = rs + r + "->"@.len();
                if !(rc < le && cs[le - 1] == ':') {
                    failed(
                        next,
                        seq![error("RYP0202"@, "expected `:` after function signature"@, whole)],
                    )
                } else {
                    let (ys, ye) = trimmed_range(cs, rc, le - 1);
                    let signature = cs.subrange(rs, rs + r);
                    if ys == ye {
                        failed(
                            next,
                            seq![error("RYP0208"@, "expected a return type after `->`"@, whole)],
                        )
                    } else {
                        match index_of(signature, '(') {
                            None => failed(
                                next,
                                seq![error("RYP0203"@, "expected `(` in function signature"@, whole)],
                            ),
                            Some(open) => match last_index_of(signature, ')') {
                                Some(close) => if close <= open {
                                    failed(
                                        next,
                                        seq![error("RYP0204"@, "expected `)` in function signature"@, whole)],
                                    )
                                } else {
                                    let (ns, ne) = trimmed_range(cs, rs, rs + open);
                                    let name = cs.subrange(ns, ne);
                                    if !is_name(name) {
                                        failed(
                                            next,
                                            seq![error("RYP0205"@, "invalid function name"@, whole)],
                                        )
                                    } else {
                                        let ps = parse_params(
                                            file,
                                            cs,
                                            ls,
                                            le,
                                            param_ranges(cs, rs + open + 1, rs + close),
                                            next,
                                        );
                                        match ps.value {
                                            None => failed(ps.next, ps.diagnostics),
                                            Some(params) => {
                                                let n = ps.next;
                                                Parsed {
                                                    value: Some(
                                                        FunctionDeclView {
                                                            id: node(n),
                                                            span: whole,
                                                            is_async,
                                                            name: IdentView {
                                                                id: node(n + 1),
                                                                span: span_at(file, cs, ns, ne),
                                                                name,
                                                            },
                                                            params,
                                                            return_type: TypeExprView {
                                                                id: node(n + 2),
                                                                span: span_at(file, cs, ys, ye),
                                                                text: cs.subrange(ys, ye),
                                                            },
                                                        },
                                                    ),
                                                    next: n + 3,
                                                    diagnostics: ps.diagnostics,
                                                }
                                            },
                                        }
                                    }
                                },
                                None => failed(
                                    next,
                                    seq![error("RYP0204"@, "expected `)` in function signature"@, whole)],
                                ),
                            },
                        }
                    }
                }
            },
        }
    }
}

/// End of the physical line starting at `i`: just past its `\n`, or the end of the source.
pub open spec fn line_break_end(cs: Seq<char>, i: int) -> int {
    match index_of_from(cs, '\n', i) {
        Some(k) => k + 1,
        None => cs.len() as int,
    }
}

/// End of the text of the line `cs[i..e]` without its trailing `\r` and `\n` characters.
pub open spec fn text_end(cs: Seq<char>, i: int, e: int) -> int
    decreases e - i,
{
    if e > i && (cs[e - 1] == '\n' || cs[e - 1] == '\r') {
        text_end(cs, i, e - 1)
    } else {
        e
    }
}

/// Where the comment of the text `cs[i..e]` starts: the first `#` that is
/// not inside a string literal (`quote` is the quote of the literal the
/// scan is in, if any; a backslash escapes the next character), or `e`.
pub open spec fn comment_start(cs: Seq<char>, i: int, e: int, quote: Option<char>) -> int
    decreases e - i,
{
    if i < 0 || i >= e || e > cs.len() {
        e
    } else {
        match quote {
            None => if cs[i] == '#' {
                i
            } else if cs[i] == '"' || cs[i] == '\'' {
                comment_start(cs, i + 1, e, Some(cs[i]))
            } else {
                comment_start(cs, i + 1, e, None)
            },
            Some(q) => if cs[i] == '\\' && i + 1 < e {
                comment_start(cs, i + 2, e, quote)
            } else if cs[i] == q {
                comment_start(cs, i + 1, e, None)
            } else {
                comment_start(cs, i + 1, e, quote)
            },
        }
    }
}

/// End of what the parser reads of the line `cs[i..e]`: its text without
/// the line break and without a trailing comment.
pub open spec fn content_end(cs: Seq<char>, i: int, e: int) -> int {
    comment_start(cs, i, text_end(cs, i, e), None)
}

/// Parses the line whose text (without line break) is `cs[i..e]`.
pub open spec fn parse_line(file: FileId, cs: Seq<char>, i: int, e: int, st: ParseState) -> ParseState {
    let line = cs.subrange(i, e);
    let trimmed = trim(line);
    let ts = i + space_end(line, 0);
    let span = byte_span(file, byte_offset(cs, ts) as int, byte_offset(cs, e) as int);
    if trimmed.len() == 0 || trimmed[0] == '#' {
        st
    } else if index_of(line, '\t') is Some {
        ParseState {
            diagnostics: st.diagnostics.push(
                error("RYP0001"@, "tabs are not allowed in Rustype v0 source"@, span),
            ),
            ..st
        }
    } else if ts > i {
        st
    } else {
        let te = i + trimmed.len();
        let nt = parse_newtype(file, cs, i, te, st.next);
        match nt.value {
            Some(d) => ParseState {
                items: st.items.push(ItemView::Newtype(d)),
                next: nt.next,
                diagnostics: st.diagnostics + nt.diagnostics,
            },
            None => {
                let fh = parse_function_header(file, cs, i, te, nt.next);
                let diagnostics = st.diagnostics + nt.diagnostics + fh.diagnostics;
                match fh.value {
                    Some(f) => ParseState {
                        items: st.items.push(ItemView::Function(f)),
                        next: fh.next,
                        diagnostics,
                    },
                    None => ParseState {
                        items: st.items,
                        next: fh.next,
                        diagnostics: if starts_with(trimmed, "def "@) || starts_with(
                            trimmed,
                            "async def "@,
                        ) {
                            diagnostics.push(
                                error(
                                    "RYP0002"@,
                                    "use `fn` or `async fn` in .rpy source; Python `def` is not valid Rustype v0 syntax"@,
                                    span,
                                ),
                            )
                        } else if starts_with(trimmed, "newtype "@) || starts_with(trimmed, "fn "@)
                            || starts_with(trimmed, "async fn "@) {
                            diagnostics
                        } else {
                            diagnostics.push(
                                error(
                                    "RYP0003"@,
                                    "unsupported top-level syntax in bootstrap parser: `"@ + trimmed
                                        + "`"@,
                                    span,
                                ),
                            )
                        },
                    },
                }
            },
        }
    }
}

/// Parses the lines from position `i` on.
pub open spec fn parse_from(file: FileId, cs: Seq<char>, i: int, st: ParseState) -> ParseState
    decreases cs.len() - i,
{
    if i < 0 || i >= cs.len() {
        st
    } else {
        let e = line_break_end(cs, i);
        proof {
            lemma_index_of_from(cs, '\n', i);
        }
        parse_from(file, cs, e, parse_line(file, cs, i, content_end(cs, i, e), st))
    }
}

/// The module and diagnostics of the source `cs` of file `file`.
pub open spec fn parse_source(file: FileId, cs: Seq<char>) -> ParseOutputView {
    let st = parse_from(
        file,
        cs,
        0,
        ParseState { items: Seq::empty(), next: 0, diagnostics: Seq::empty() },
    );
    ParseOutputView {
        module: ModuleView {
            id: node(st.next),
            span: byte_span(file, 0, utf8_len(cs) as int),
            items: st.items,
        },
        diagnostics: st.diagnostics,
    }
}

} // verus!
