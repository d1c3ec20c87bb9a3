//! The bootstrap parser: top-level `newtype` declarations and function
//! headers, read line by line, with their spans and node identifiers.
use vstd::prelude::*;
use vstd::string::StringSliceAdditionalSpecFns;
use crate::ast::{
    diagnostics_view, Diagnostic, FileId, FunctionDecl, Ident, Item, Module, NewtypeDecl,
    NodeId, Param, Span, TypeExpr,
};
use crate::lexer_spec::continues_identifier;
use crate::parser_spec;
use crate::parser_spec::{
    is_name, line_break_end, param_ranges, parse_from, parse_source, span_at, text_end,
    ParseOutputView, ParseState,
};
use crate::strings::{
    find_in, index_of_in, last_index_of_in, lemma_find_occurs, lemma_index_of_from,
    lemma_index_of_shift, starts_with_in, trim_range,
};
use crate::text::{
    append_literal, append_range, byte_offset, char_is_alphabetic, char_is_alphanumeric,
    chars_of, owned, string_of, utf8_len,
};
use crate::token::keyword_kind;

verus! {

/// The module parsed from a source file and the errors found in it.
#[derive(Debug, Clone, PartialEq, Eq)]
pub struct ParseOutput {
    pub module: Module,
    pub diagnostics: Vec<Diagnostic>,
}

impl View for ParseOutput {
    type V = ParseOutputView;

    open spec fn view(&self) -> ParseOutputView {
        ParseOutputView { module: self.module@, diagnostics: diagnostics_view(self.diagnostics@) }
    }
}

/// Hands out node identifiers in increasing order.
struct IdGen(u32);

impl IdGen {
    fn next(&mut self) -> (id: NodeId)
        requires
            old(self).0 < u32::MAX,
        ensures
            id == NodeId(old(self).0),
            final(self).0 == old(self).0 + 1,
    {
        let id = NodeId(self.0);
        self.0 = self.0 + 1;
        id
    }

    /// The identifier the next node would get, for the last node of all.
    fn last(self) -> (id: NodeId)
        ensures
            id == NodeId(self.0),
    {
        NodeId(self.0)
    }
}

/// Largest source, in bytes, the parser takes: node identifiers are `u32`,
/// and every byte yields at most one of them.
pub const MAX_SOURCE_BYTES: usize = 0xFFFF_FFFF;

/// A source file as characters, with the byte offset of every character position.
struct Source {
    file: FileId,
    chars: Vec<char>,
    offsets: Vec<usize>,
}

impl Source {
    spec fn wf(&self) -> bool {
        &&& self.offsets.len() == self.chars.len() + 1
        &&& forall|k: int|
            0 <= k <= self.chars.len() ==> self.offsets@[k] == byte_offset(self.chars@, k)
        &&& utf8_len(self.chars@) <= MAX_SOURCE_BYTES
    }

    /// The span of the characters `a..b`.
    fn span(&self, a: usize, b: usize) -> (s: Span)
        requires
            self.wf(),
            a <= b <= self.chars.len(),
        ensures
            s == span_at(self.file, self.chars@, a as int, b as int),
    {
        Span::new(self.file, self.offsets[a], self.offsets[b])
    }

    fn report(&self, diagnostics: &mut Vec<Diagnostic>, code: &'static str, message: String, span: Span)
        ensures
            diagnostics_view(final(diagnostics)@) == diagnostics_view(old(diagnostics)@).push(
                crate::parser_spec::error(code@, message@, span),
            ),
    {
        diagnostics.push(Diagnostic::error(code, message, span));
        assert(diagnostics_view(diagnostics@) =~= diagnostics_view(old(diagnostics)@).push(
            crate::parser_spec::error(code@, message@, span),
        ));
    }
}

/// Whether `cs[from..to]` is a name: a letter or `_`, then letters, digits
/// or `_`, and not a reserved word.
fn is_identifier(cs: &Vec<char>, from: usize, to: usize) -> (b: bool)
    requires
        from <= to <= cs.len(),
    ensures
        b == is_name(cs@.subrange(from as int, to as int)),
{
    let ghost s = cs@.subrange(from as int, to as int);
    if from == to {
        return false;
    }
    let first = cs[from];
    if !(first == '_' || char_is_alphabetic(first)) {
        return false;
    }
    let mut k = from + 1;
    while k < to
        invariant
            from < k <= to <= cs.len(),
            s == cs@.subrange(from as int, to as int),
            forall|m: int| 1 <= m < k - from ==> continues_identifier(#[trigger] s[m]),
        decreases to - k,
    {
        let ch = cs[k];
        if !(ch == '_' || char_is_alphanumeric(ch)) {
            assert(!continues_identifier(s[k - from]));
            return false;
        }
        k = k + 1;
    }
    keyword_kind(cs, from, to).is_none()
}

/// Reads `newtype Name = Type` from the trimmed line `ls..le`.
fn parse_newtype(
    src: &Source,
    ls: usize,
    le: usize,
    ids: &mut IdGen,
    diagnostics: &mut Vec<Diagnostic>,
) -> (r: Option<NewtypeDecl>)
    requires
        src.wf(),
        ls <= le <= src.chars.len(),
        old(ids).0 + (le - ls) <= u32::MAX,
    ensures
        ({
            let p = parser_spec::parse_newtype(src.file, src.chars@, ls as int, le as int, old(ids).0 as nat);
            &&& match r {
                Some(d) => p.value == Some(d@),
                None => p.value is None,
            }
            &&& final(ids).0 == p.next
            &&& diagnostics_view(final(diagnostics)@) == diagnostics_view(old(diagnostics)@)
                + p.diagnostics
        }),
        final(ids).0 <= old(ids).0 + (le - ls),
{
    let ghost p = parser_spec::parse_newtype(src.file, src.chars@, ls as int, le as int, old(ids).0 as nat);
    let cs = &src.chars;
    let prefix = chars_of("newtype ");
    if !starts_with_in(cs, ls, le, &prefix) {
        assert(diagnostics_view(diagnostics@) =~= diagnostics_view(old(diagnostics)@) + p.diagnostics);
        return None;
    }
    proof {
        reveal_strlit("newtype ");
    }
    let rs = ls + prefix.len();
    match index_of_in(cs, rs, le, '=') {
        None => {
            src.report(diagnostics, "RYP0101", owned("expected `newtype Name = Type`"), src.span(ls, le));
            None
        },
        Some(r) => {
            proof {
                lemma_index_of_from(src.chars@.subrange(rs as int, le as int), '=', 0);
            }
            let (ns, ne) = trim_range(cs, rs, rs + r);
            let (ys, ye) = trim_range(cs, rs + r + 1, le);
            if !is_identifier(cs, ns, ne) || ys == ye {
                src.report(diagnostics, "RYP0102", owned("invalid newtype declaration"), src.span(ls, le));
                return None;
            }
            let id = ids.next();
            let name_id = ids.next();
            let ty_id = ids.next();
            let decl = NewtypeDecl {
                id,
                span: src.span(ls, le),
                name: Ident { id: name_id, span: src.span(ns, ne), name: string_of(cs, ns, ne) },
                underlying: TypeExpr { id: ty_id, span: src.span(ys, ye), text: string_of(cs, ys, ye) },
            };
            assert(diagnostics_view(diagnostics@) =~= diagnostics_view(old(diagnostics)@) + p.diagnostics);
            Some(decl)
        },
    }
}

/// The views of a sequence of parameters.
pub open spec fn params_view(ps: Seq<Param>) -> Seq<crate::ast::ParamView> {
    ps.map_values(|p: Param| p@)
}

/// Reads the parameter `cs[a..b]` of the function header on the line `ls..le`.
fn parse_param(
    src: &Source,
    ls: usize,
    le: usize,
    a: usize,
    b: usize,
    ids: &mut IdGen,
    diagnostics: &mut Vec<Diagnostic>,
) -> (r: Option<Param>)
    requires
        src.wf(),
        ls <= le <= src.chars.len(),
        a <= b <= src.chars.len(),
        old(ids).0 + (b - a) <= u32::MAX,
    ensures
        ({
            let p = parser_spec::parse_param(
                src.file,
                src.chars@,
                ls as int,
                le as int,
                a as int,
                b as int,
                old(ids).0 as nat,
            );
            &&& match r {
                Some(x) => p.value == Some(x@),
                None => p.value is None,
            }
            &&& final(ids).0 == p.next
            &&& diagnostics_view(final(diagnostics)@) == diagnostics_view(old(diagnostics)@)
                + p.diagnostics
        }),
        final(ids).0 <= old(ids).0 + (b - a),
{
    let ghost p = parser_spec::parse_param(
        src.file,
        src.chars@,
        ls as int,
        le as int,
        a as int,
        b as int,
        old(ids).0 as nat,
    );
    let ghost raw = src.chars@.subrange(a as int, b as int);
    let cs = &src.chars;
    match index_of_in(cs, a, b, ':') {
        None => {
            let mut message = owned("parameter `");
            append_range(&mut message, cs, a, b);
            append_literal(&mut message, "` requires a type annotation");
            src.report(diagnostics, "RYP0206", message, src.span(ls, le));
            assert(diagnostics_view(diagnostics@) =~= diagnostics_view(old(diagnostics)@) + p.diagnostics);
            None
        },
        Some(c) => {
            proof {
                lemma_index_of_from(raw, ':', 0);
            }
            let (ns, ne) = trim_range(cs, a, a + c);
            let (ys, ye) = trim_range(cs, a + c + 1, b);
            if !is_identifier(cs, ns, ne) || ys == ye {
                src.report(diagnostics, "RYP0207", owned("invalid function parameter"), src.span(ls, le));
                assert(diagnostics_view(diagnostics@) =~= diagnostics_view(old(diagnostics)@) + p.diagnostics);
                return None;
            }
            let id = ids.next();
            let name_id = ids.next();
            let annotation_id = ids.next();
            let param = Param {
                id,
                span: src.span(a, b),
                name: Ident { id: name_id, span: src.span(ns, ne), name: string_of(cs, ns, ne) },
                annotation: TypeExpr {
                    id: annotation_id,
                    span: src.span(ys, ye),
                    text: string_of(cs, ys, ye),
                },
            };
            assert(diagnostics_view(diagnostics@) =~= diagnostics_view(old(diagnostics)@) + p.diagnostics);
            Some(param)
        },
    }
}

/// One step of splitting a parameter list: the first piece, then the rest
/// after the first comma outside brackets.
proof fn lemma_param_ranges_step(cs: Seq<char>, a: int, b: int)
    requires
        0 <= a <= b <= cs.len(),
    ensures
        param_ranges(cs, a, b) == match parser_spec::top_comma(cs, a, b, 0) {
            None => parser_spec::param_piece(cs, a, b),
            Some(k) => parser_spec::param_piece(cs, a, k) + param_ranges(cs, k + 1, b),
        },
{
    if a == b {
        crate::strings::lemma_trim(cs.subrange(a, b));
    }
}

/// The first comma of `cs[from..to]` outside brackets.
fn top_comma_in(cs: &Vec<char>, from: usize, to: usize) -> (r: Option<usize>)
    requires
        from <= to <= cs.len(),
    ensures
        r matches Some(k) ==> parser_spec::top_comma(cs@, from as int, to as int, 0) == Some(
            k as int,
        ),
        r is None ==> parser_spec::top_comma(cs@, from as int, to as int, 0) is None,
{
    let mut k = from;
    let mut depth: usize = 0;
    while k < to
        invariant
            from <= k <= to <= cs.len(),
            depth <= k - from,
            parser_spec::top_comma(cs@, k as int, to as int, depth as nat) == parser_spec::top_comma(
                cs@,
                from as int,
                to as int,
                0,
            ),
        decreases to - k,
    {
        let ch = cs[k];
        if ch == ',' && depth == 0 {
            return Some(k);
        }
        if ch == '(' || ch == '[' || ch == '{' {
            depth = depth + 1;
        } else if (ch == ')' || ch == ']' || ch == '}') && depth > 0 {
            depth = depth - 1;
        }
        k = k + 1;
    }
    None
}

/// Reads the parameters between the parentheses `cs[ps..pe]` of the
/// function header on the line `ls..le`.
fn parse_params(
    src: &Source,
    ls: usize,
    le: usize,
    ps: usize,
    pe: usize,
    ids: &mut IdGen,
    diagnostics: &mut Vec<Diagnostic>,
) -> (r: Option<Vec<Param>>)
    requires
        src.wf(),
        ls <= le <= src.chars.len(),
        ps <= pe <= src.chars.len(),
        old(ids).0 + (pe - ps) <= u32::MAX,
    ensures
        ({
            let p = parser_spec::parse_params(
                src.file,
                src.chars@,
                ls as int,
                le as int,
                param_ranges(src.chars@, ps as int, pe as int),
                old(ids).0 as nat,
            );
            &&& match r {
                Some(v) => p.value == Some(params_view(v@)),
                None => p.value is None,
            }
            &&& final(ids).0 == p.next
            &&& diagnostics_view(final(diagnostics)@) == diagnostics_view(old(diagnostics)@)
                + p.diagnostics
        }),
        final(ids).0 <= old(ids).0 + (pe - ps),
{
    let ghost file = src.file;
    let ghost cs0 = src.chars@;
    let ghost target = parser_spec::parse_params(
        file,
        cs0,
        ls as int,
        le as int,
        param_ranges(cs0, ps as int, pe as int),
        old(ids).0 as nat,
    );
    let ghost ids0 = old(ids).0;
    let cs = &src.chars;
    let mut params: Vec<Param> = Vec::new();
    let mut pos = ps;
    loop
        invariant
            src.wf(),
            cs0 == src.chars@,
            cs@ == cs0,
            file == src.file,
            ls <= le <= cs0.len(),
            ps <= pos <= pe <= cs0.len(),
            ids0 == old(ids).0,
            ids0 + (pe - ps) <= u32::MAX,
            ids.0 <= ids0 + (pos - ps),
            diagnostics_view(diagnostics@) == diagnostics_view(old(diagnostics)@),
            target == parser_spec::parse_params(
                file,
                cs0,
                ls as int,
                le as int,
                param_ranges(cs0, ps as int, pe as int),
                ids0 as nat,
            ),
            ({
                let rest = parser_spec::parse_params(
                    file,
                    cs0,
                    ls as int,
                    le as int,
                    param_ranges(cs0, pos as int, pe as int),
                    ids.0 as nat,
                );
                &&& target.next == rest.next
                &&& target.diagnostics == rest.diagnostics
                &&& target.value == match rest.value {
                    Some(v) => Some(params_view(params@) + v),
                    None => None,
                }
            }),
        decreases pe - pos,
    {
        let ghost before = params@;
        let found = top_comma_in(cs, pos, pe);
        proof {
            parser_spec::lemma_top_comma(cs0, pos as int, pe as int, 0);
        }
        let end = match found {
            Some(k) => k,
            None => pe,
        };
        proof {
            lemma_param_ranges_step(cs0, pos as int, pe as int);
        }
        let (a, b) = trim_range(cs, pos, end);
        let ghost tail = if found is Some {
            param_ranges(cs0, end + 1, pe as int)
        } else {
            Seq::<(int, int)>::empty()
        };
        assert(param_ranges(cs0, pos as int, pe as int) =~= parser_spec::param_piece(cs0, pos as int, end as int) + tail);
        if a < b {
            assert((seq![(a as int, b as int)] + tail).drop_first() =~= tail);
            assert((seq![(a as int, b as int)] + tail)[0] == (a as int, b as int));
            match parse_param(src, ls, le, a, b, ids, diagnostics) {
                None => {
                    return None;
                },
                Some(param) => {
                    params.push(param);
                    assert(diagnostics_view(old(diagnostics)@) + Seq::empty() =~= diagnostics_view(old(diagnostics)@));
                    assert(params_view(params@) =~= params_view(before).push(param@));
                    assert forall|v: Seq<crate::ast::ParamView>| params_view(before) + (seq![param@] + v) =~= params_view(params@) + v by {}
                },
            }
        } else {
            assert(Seq::<(int, int)>::empty() + tail =~= tail);
        }
        if found.is_none() {
            let ghost none_left = parser_spec::parse_params(file, cs0, ls as int, le as int, Seq::empty(), ids.0 as nat);
            assert(none_left.value == Some(Seq::<crate::ast::ParamView>::empty()));
            assert(params_view(params@) + Seq::empty() =~= params_view(params@));
            assert(diagnostics_view(old(diagnostics)@) + Seq::empty() =~= diagnostics_view(old(diagnostics)@));
            return Some(params);
        }
        pos = end + 1;
    }
}

/// Reads `fn name(params) -> Type:` or `async fn ...` from the trimmed line `ls..le`.
#[verifier::spinoff_prover]
#[verifier::rlimit(100)]
fn parse_function_header(
    src: &Source,
    ls: usize,
    le: usize,
    ids: &mut IdGen,
    diagnostics: &mut Vec<Diagnostic>,
) -> (r: Option<FunctionDecl>)
    requires
        src.wf(),
        ls <= le <= src.chars.len(),
        old(ids).0 + (le - ls) <= u32::MAX,
    ensures
        ({
            let p = parser_spec::parse_function_header(
                src.file,
                src.chars@,
                ls as int,
                le as int,
                old(ids).0 as nat,
            );
            &&& match r {
                Some(f) => p.value == Some(f@),
                None => p.value is None,
            }
            &&& final(ids).0 == p.next
            &&& diagnostics_view(final(diagnostics)@) == diagnostics_view(old(diagnostics)@)
                + p.diagnostics
        }),
        final(ids).0 <= old(ids).0 + (le - ls),
{
    let ghost cs0 = src.chars@;
    let ghost p = parser_spec::parse_function_header(
        src.file,
        cs0,
        ls as int,
        le as int,
        old(ids).0 as nat,
    );
    let cs = &src.chars;
    let async_prefix = chars_of("async fn ");
    let fn_prefix = chars_of("fn ");
    let is_async = starts_with_in(cs, ls, le, &async_prefix);
    if !is_async && !starts_with_in(cs, ls, le, &fn_prefix) {
        assert(diagnostics_view(diagnostics@) =~= diagnostics_view(old(diagnostics)@) + p.diagnostics);
        return None;
    }
    proof {
        reveal_strlit("async fn ");
        reveal_strlit("fn ");
    }
    let rs = ls + if is_async {
        async_prefix.len()
    } else {
        fn_prefix.len()
    };
    let arrow = chars_of("->");
    proof {
        reveal_strlit("->");
        assert(arrow@.subrange(0, arrow.len() as int) =~= arrow@);
    }
    let r = match find_in(cs, rs, le, &arrow, 0, arrow.len()) {
        None => {
            src.report(
                diagnostics,
                "RYP0201",
                owned("Rustype functions require an explicit return type"),
                src.span(ls, le),
            );
            assert(diagnostics_view(diagnostics@) =~= diagnostics_view(old(diagnostics)@) + p.diagnostics);
            return None;
        },
        Some(r) => r,
    };
    proof {
        lemma_find_occurs(cs0.subrange(rs as int, le as int), "->"@);
    }
    let rc = rs + r + arrow.len();
    if !(rc < le && cs[le - 1] == ':') {
        src.report(diagnostics, "RYP0202", owned("expected `:` after function signature"), src.span(ls, le));
        assert(diagnostics_view(diagnostics@) =~= diagnostics_view(old(diagnostics)@) + p.diagnostics);
        return None;
    }
    let (ys, ye) = trim_range(cs, rc, le - 1);
    if ys == ye {
        src.report(diagnostics, "RYP0208", owned("expected a return type after `->`"), src.span(ls, le));
        assert(diagnostics_view(diagnostics@) =~= diagnostics_view(old(diagnostics)@) + p.diagnostics);
        return None;
    }
    let open = match index_of_in(cs, rs, rs + r, '(') {
        None => {
            src.report(diagnostics, "RYP0203", owned("expected `(` in function signature"), src.span(ls, le));
            assert(diagnostics_view(diagnostics@) =~= diagnostics_view(old(diagnostics)@) + p.diagnostics);
            return None;
        },
        Some(open) => open,
    };
    let ghost signature = cs0.subrange(rs as int, rs + r);
    proof {
        lemma_index_of_from(signature, '(', 0);
        crate::strings::lemma_last_index_of_to(signature, ')', signature.len() - 1);
    }
    let found_close = last_index_of_in(cs, rs, rs + r, ')');
    let close = match found_close {
        Some(close) => close,
        None => 0,
    };
    if found_close.is_none() || close <= open {
        src.report(diagnostics, "RYP0204", owned("expected `)` in function signature"), src.span(ls, le));
        assert(diagnostics_view(diagnostics@) =~= diagnostics_view(old(diagnostics)@) + p.diagnostics);
        return None;
    }
    let (ns, ne) = trim_range(cs, rs, rs + open);
    if !is_identifier(cs, ns, ne) {
        src.report(diagnostics, "RYP0205", owned("invalid function name"), src.span(ls, le));
        assert(diagnostics_view(diagnostics@) =~= diagnostics_view(old(diagnostics)@) + p.diagnostics);
        return None;
    }
    let params = match parse_params(src, ls, le, rs + open + 1, rs + close, ids, diagnostics) {
        None => {
            return None;
        },
        Some(params) => params,
    };
    let id = ids.next();
    let name_id = ids.next();
    let return_id = ids.next();
    let decl = FunctionDecl {
        id,
        span: src.span(ls, le),
        is_async,
        name: Ident { id: name_id, span: src.span(ns, ne), name: string_of(cs, ns, ne) },
        params,
        return_type: TypeExpr { id: return_id, span: src.span(ys, ye), text: string_of(cs, ys, ye) },
    };
    Some(decl)
}

/// Parses the top-level items of `source`, the text of file `file`.
///
/// Sources longer than `MAX_SOURCE_BYTES` are not taken: node identifiers
/// are 32-bit.
#[must_use]
pub fn parse_module(file: FileId, source: &str) -> (out: ParseOutput)
    requires
        source.spec_bytes().len() <= MAX_SOURCE_BYTES,
    ensures
        out@ == parse_source(file, source@),
{
    let chars = chars_of(source);
    let total = source.as_bytes().len();
    proof {
        crate::text::lemma_utf8_len_encoding(source@);
    }
    let offsets = crate::text::char_offsets(&chars, total);
    let src = Source { file, chars, offsets };
    let ghost cs0 = src.chars@;
    let n = src.chars.len();
    proof {
        lemma_chars_bound(cs0);
    }
    let mut ids = IdGen(0);
    let mut items: Vec<Item> = Vec::new();
    let mut diagnostics: Vec<Diagnostic> = Vec::new();
    let ghost init = ParseState { items: Seq::empty(), next: 0, diagnostics: Seq::empty() };
    assert(items_view(items@) =~= Seq::empty());
    assert(diagnostics_view(diagnostics@) =~= Seq::empty());
    let mut i: usize = 0;
    while i < n
        invariant
            src.wf(),
            src.file == file,
            cs0 == src.chars@,
            n == cs0.len(),
            n <= MAX_SOURCE_BYTES,
            i <= n,
            ids.0 <= i,
            parse_from(
                file,
                cs0,
                i as int,
                ParseState {
                    items: items_view(items@),
                    next: ids.0 as nat,
                    diagnostics: diagnostics_view(diagnostics@),
                },
            ) == parse_from(file, cs0, 0, init),
        decreases n - i,
    {
        let ghost st = ParseState {
            items: items_view(items@),
            next: ids.0 as nat,
            diagnostics: diagnostics_view(diagnostics@),
        };
        let found = index_of_in(&src.chars, i, n, '\n');
        proof {
            crate::strings::lemma_index_of_from(cs0.subrange(i as int, n as int), '\n', 0);
        }
        let e = match found {
            Some(k) => i + k + 1,
            None => n,
        };
        proof {
            lemma_index_of_shift(cs0, '\n', i as int, i as int);
            assert(cs0.skip(i as int) =~= cs0.subrange(i as int, n as int));
            crate::strings::lemma_index_of_from(cs0, '\n', i as int);
        }
        assert(e == line_break_end(cs0, i as int));
        let mut c = e;
        while c > i && (src.chars[c - 1] == '\n' || src.chars[c - 1] == '\r')
            invariant
                i <= c <= e <= n,
                cs0 == src.chars@,
                n == cs0.len(),
                text_end(cs0, i as int, c as int) == text_end(cs0, i as int, e as int),
            decreases c,
        {
            c = c - 1;
        }
        let c = comment_start(&src.chars, i, c);
        parse_line(&src, i, c, &mut ids, &mut items, &mut diagnostics);
        i = e;
    }
    let id = ids.last();
    let module = Module { id, span: Span::new(file, 0, src.offsets[n]), items };
    proof {
        assert(cs0.take(n as int) =~= cs0);
    }
    ParseOutput { module, diagnostics }
}

/// Where the comment of the text `cs[from..to]` starts: the first `#`
/// outside a string literal, or `to`.
fn comment_start(cs: &Vec<char>, from: usize, to: usize) -> (c: usize)
    requires
        from <= to <= cs.len(),
    ensures
        from <= c <= to,
        c == parser_spec::comment_start(cs@, from as int, to as int, None),
{
    let mut k = from;
    let mut quote: Option<char> = None;
    while k < to
        invariant
            from <= k <= to <= cs.len(),
            parser_spec::comment_start(cs@, k as int, to as int, quote) == parser_spec::comment_start(
                cs@,
                from as int,
                to as int,
                None,
            ),
        decreases to - k,
    {
        let ch = cs[k];
        match quote {
            None => {
                if ch == '#' {
                    return k;
                } else if ch == '"' || ch == '\'' {
                    quote = Some(ch);
                }
                k = k + 1;
            },
            Some(q) => {
                if ch == '\\' && k + 1 < to {
                    k = k + 2;
                } else {
                    if ch == q {
                        quote = None;
                    }
                    k = k + 1;
                }
            },
        }
    }
    k
}

/// A source whose encoding fits the parser's limit has no more characters than that.
pub(crate) proof fn lemma_chars_bound(cs: Seq<char>)
    requires
        utf8_len(cs) <= MAX_SOURCE_BYTES,
    ensures
        cs.len() <= MAX_SOURCE_BYTES,
{
    assert(cs.take(cs.len() as int) =~= cs);
    lemma_chars_le_bytes(cs);
}

proof fn lemma_chars_le_bytes(cs: Seq<char>)
    ensures
        cs.len() <= utf8_len(cs),
    decreases cs.len(),
{
    if cs.len() > 0 {
        lemma_chars_le_bytes(cs.drop_first());
    }
}

/// The views of a sequence of items.
pub open spec fn items_view(items: Seq<Item>) -> Seq<crate::ast::ItemView> {
    items.map_values(|i: Item| i@)
}

/// Parses the line whose text (without line break) is `cs[i..e]`.
fn parse_line(
    src: &Source,
    i: usize,
    e: usize,
    ids: &mut IdGen,
    items: &mut Vec<Item>,
    diagnostics: &mut Vec<Diagnostic>,
)
    requires
        src.wf(),
        i <= e <= src.chars.len(),
        old(ids).0 + (e - i) <= u32::MAX,
    ensures
        ({
            let st = parser_spec::parse_line(
                src.file,
                src.chars@,
                i as int,
                e as int,
                ParseState {
                    items: items_view(old(items)@),
                    next: old(ids).0 as nat,
                    diagnostics: diagnostics_view(old(diagnostics)@),
                },
            );
            &&& items_view(final(items)@) == st.items
            &&& final(ids).0 == st.next
            &&& diagnostics_view(final(diagnostics)@) == st.diagnostics
        }),
        final(ids).0 <= old(ids).0 + (e - i),
{
    let ghost cs0 = src.chars@;
    let ghost line = cs0.subrange(i as int, e as int);
    let cs = &src.chars;
    let (ts, te) = trim_range(cs, i, e);
    if ts == te || cs[ts] == '#' {
        return ;
    }
    if index_of_in(cs, i, e, '\t').is_some() {
        src.report(
            diagnostics,
            "RYP0001",
            owned("tabs are not allowed in Rustype v0 source"),
            src.span(ts, e),
        );
        return ;
    }
    if ts > i {
        return ;
    }
    let ghost items0 = items_view(items@);
    let ghost diags0 = diagnostics_view(diagnostics@);
    let ghost trimmed = cs0.subrange(ts as int, te as int);
    if let Some(decl) = parse_newtype(src, i, te, ids, diagnostics) {
        items.push(Item::Newtype(decl));
        assert(items_view(items@) =~= items0.push(crate::ast::ItemView::Newtype(decl@)));
        return ;
    }
    let ghost diags1 = diagnostics_view(diagnostics@);
    if let Some(decl) = parse_function_header(src, i, te, ids, diagnostics) {
        items.push(Item::Function(decl));
        assert(items_view(items@) =~= items0.push(crate::ast::ItemView::Function(decl@)));
        return ;
    }
    if starts_with_in(cs, ts, te, &chars_of("def ")) || starts_with_in(cs, ts, te, &chars_of("async def ")) {
        src.report(
            diagnostics,
            "RYP0002",
            owned("use `fn` or `async fn` in .rpy source; Python `def` is not valid Rustype v0 syntax"),
            src.span(ts, e),
        );
    } else if starts_with_in(cs, ts, te, &chars_of("newtype ")) || starts_with_in(cs, ts, te, &chars_of("fn ")) || starts_with_in(cs, ts, te, &chars_of("async fn ")) {
    } else {
        let mut message = owned("unsupported top-level syntax in bootstrap parser: `");
        append_range(&mut message, cs, ts, te);
        append_literal(&mut message, "`");
        src.report(diagnostics, "RYP0003", message, src.span(ts, e));
    }
}

} // verus!
