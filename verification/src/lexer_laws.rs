//! Properties of every token stream the lexer produces.
use vstd::prelude::*;
use crate::ast::{DiagnosticView, FileId, Span};
use crate::lexer_spec::{
    close_deeper, copies, error_of, indentation_end, initial_state, innermost, is_closing,
    is_opening, lemma_indentation_end, lemma_lex_element_advances, lemma_lex_step_advances,
    lex_element, lex_from, lex_indentation, lex_source, lex_step, nesting_after, operator,
    span_of, tab_error, tab_errors, token_of, LexState,
};
use crate::text::{byte_offset, is_alphabetic, is_alphanumeric, lemma_byte_offset_mono, utf8_len};
use crate::token::{keyword, Token, TokenKind};

verus! {

/// Number of tokens of kind `k` in `ts`.
pub open spec fn count_kind(ts: Seq<Token>, k: TokenKind) -> nat
    decreases ts.len(),
{
    if ts.len() == 0 {
        0
    } else {
        count_kind(ts.drop_last(), k) + if ts.last().kind == k {
            1nat
        } else {
            0nat
        }
    }
}

/// Every token lies in file `file` and inside the first `bound` bytes.
pub open spec fn tokens_within(file: FileId, ts: Seq<Token>, bound: int) -> bool {
    forall|a: int|
        0 <= a < ts.len() ==> {
            &&& (#[trigger] ts[a]).span.file == file
            &&& ts[a].span.start <= ts[a].span.end
            &&& ts[a].span.end <= bound
        }
}

/// Tokens come in the order of their start offsets.
pub open spec fn starts_ordered(ts: Seq<Token>) -> bool {
    forall|a: int, b: int| 0 <= a < b < ts.len() ==> ts[a].span.start <= ts[b].span.start
}

/// The codes the lexer reports.
pub open spec fn is_lexer_code(code: Seq<char>) -> bool {
    code == "RYL0001"@ || code == "RYL0002"@ || code == "RYL0003"@ || code == "RYL0004"@
}

/// Every diagnostic has a lexer code and lies in file `file` inside the first `bound` bytes.
pub open spec fn diagnostics_within(file: FileId, ds: Seq<DiagnosticView>, bound: int) -> bool {
    forall|a: int|
        0 <= a < ds.len() ==> {
            &&& is_lexer_code((#[trigger] ds[a]).code)
            &&& ds[a].span.file == file
            &&& ds[a].span.start <= ds[a].span.end
            &&& ds[a].span.end <= bound
        }
}

/// Bracket depth after the tokens `ts`, counted as the lexer counts it.
pub open spec fn depth(ts: Seq<Token>) -> nat
    decreases ts.len(),
{
    if ts.len() == 0 {
        0
    } else {
        nesting_after(ts.last().kind, depth(ts.drop_last()))
    }
}

/// `k` is a layout token: `Newline`, `Indent` or `Dedent`.
pub open spec fn is_layout(k: TokenKind) -> bool {
    k == TokenKind::Newline || k == TokenKind::Indent || k == TokenKind::Dedent
}

/// Layout tokens only occur outside brackets.
pub open spec fn layout_at_depth_zero(ts: Seq<Token>) -> bool {
    forall|a: int| 0 <= a < ts.len() && is_layout((#[trigger] ts[a]).kind) ==> depth(ts.take(a)) == 0
}

/// `Newline` and `Indent` tokens only occur outside brackets; a `Dedent`
/// inside brackets is followed by nothing but `Dedent`s and the end marker.
pub open spec fn layout_outside_brackets(ts: Seq<Token>) -> bool {
    forall|a: int|
        0 <= a < ts.len() && is_layout((#[trigger] ts[a]).kind) && depth(ts.take(a)) != 0 ==> {
            &&& ts[a].kind == TokenKind::Dedent
            &&& forall|b: int|
                a <= b < ts.len() ==> (#[trigger] ts[b]).kind == TokenKind::Dedent || ts[b].kind
                    == TokenKind::Eof
        }
}

/// What holds of the lexer state between any two steps.
pub open spec fn lex_invariant(file: FileId, cs: Seq<char>, s: LexState) -> bool {
    &&& 0 <= s.idx <= cs.len()
    &&& s.indents.len() >= 1
    &&& s.indents[0] == 0
    &&& count_kind(s.tokens, TokenKind::Indent) + 1 == count_kind(s.tokens, TokenKind::Dedent)
        + s.indents.len()
    &&& count_kind(s.tokens, TokenKind::Eof) == 0
    &&& tokens_within(file, s.tokens, byte_offset(cs, s.idx) as int)
    &&& starts_ordered(s.tokens)
    &&& diagnostics_within(file, s.diagnostics, byte_offset(cs, s.idx) as int)
    &&& s.nesting == depth(s.tokens)
    &&& layout_at_depth_zero(s.tokens)
}

proof fn lemma_count_concat(a: Seq<Token>, b: Seq<Token>, k: TokenKind)
    ensures
        count_kind(a + b, k) == count_kind(a, k) + count_kind(b, k),
    decreases b.len(),
{
    if b.len() == 0 {
        assert(a + b =~= a);
    } else {
        assert((a + b).drop_last() =~= a + b.drop_last());
        lemma_count_concat(a, b.drop_last(), k);
    }
}

proof fn lemma_count_copies(t: Token, n: nat, k: TokenKind)
    ensures
        count_kind(copies(t, n), k) == if t.kind == k {
            n
        } else {
            0
        },
    decreases n,
{
    if n > 0 {
        assert(copies(t, n).drop_last() =~= copies(t, (n - 1) as nat));
        lemma_count_copies(t, (n - 1) as nat, k);
    }
}

proof fn lemma_count_single(t: Token, k: TokenKind)
    ensures
        count_kind(seq![t], k) == if t.kind == k {
            1nat
        } else {
            0nat
        },
{
    assert(seq![t].drop_last() =~= Seq::<Token>::empty());
    assert(count_kind(Seq::<Token>::empty(), k) == 0);
    assert(seq![t].last() == t);
}

/// Depth after a run of tokens none of which is a bracket.
proof fn lemma_depth_no_brackets(a: Seq<Token>, b: Seq<Token>)
    requires
        forall|m: int| 0 <= m < b.len() ==> !is_opening(#[trigger] b[m].kind) && !is_closing(b[m].kind),
    ensures
        depth(a + b) == depth(a),
    decreases b.len(),
{
    if b.len() > 0 {
        assert((a + b).drop_last() =~= a + b.drop_last());
        lemma_depth_no_brackets(a, b.drop_last());
    } else {
        assert(a + b =~= a);
    }
}

/// Byte offsets of positions of a source whose encoding fits in memory fit in `usize`.
proof fn lemma_offsets_fit(cs: Seq<char>, i: int)
    requires
        0 <= i <= cs.len(),
        utf8_len(cs) <= usize::MAX,
    ensures
        byte_offset(cs, i) <= byte_offset(cs, cs.len() as int) == utf8_len(cs),
{
    assert(cs.take(cs.len() as int) =~= cs);
    lemma_byte_offset_mono(cs, i, cs.len() as int);
}

/// The span of `cs[i..j]` in numbers.
proof fn lemma_span_of(file: FileId, cs: Seq<char>, i: int, j: int)
    requires
        0 <= i <= j <= cs.len(),
        utf8_len(cs) <= usize::MAX,
    ensures
        span_of(file, cs, i, j).file == file,
        span_of(file, cs, i, j).start == byte_offset(cs, i),
        span_of(file, cs, i, j).end == byte_offset(cs, j),
        byte_offset(cs, i) <= byte_offset(cs, j) <= utf8_len(cs),
{
    lemma_offsets_fit(cs, i);
    lemma_offsets_fit(cs, j);
    lemma_byte_offset_mono(cs, i, j);
}

/// Appending tokens that start no earlier than `old_bound` keeps the stream
/// ordered and within the new bound.
proof fn lemma_append_tokens(
    file: FileId,
    ts: Seq<Token>,
    more: Seq<Token>,
    old_bound: int,
    new_bound: int,
)
    requires
        tokens_within(file, ts, old_bound),
        starts_ordered(ts),
        tokens_within(file, more, new_bound),
        starts_ordered(more),
        forall|m: int| 0 <= m < more.len() ==> old_bound <= (#[trigger] more[m]).span.start,
        old_bound <= new_bound,
    ensures
        tokens_within(file, ts + more, new_bound),
        starts_ordered(ts + more),
{
    let all = ts + more;
    assert forall|a: int, b: int| 0 <= a < b < all.len() implies all[a].span.start
        <= all[b].span.start by {
        if b >= ts.len() && a < ts.len() {
            assert(all[b] == more[b - ts.len()]);
        } else if a >= ts.len() {
            assert(all[b] == more[b - ts.len()]);
            assert(all[a] == more[a - ts.len()]);
        }
    }
    assert forall|a: int| 0 <= a < all.len() implies {
        &&& (#[trigger] all[a]).span.file == file
        &&& all[a].span.start <= all[a].span.end
        &&& all[a].span.end <= new_bound
    } by {
        if a >= ts.len() {
            assert(all[a] == more[a - ts.len()]);
        }
    }
}

/// One token spanning `cs[i..j]`, appended at a position no earlier than the stream's bound.
proof fn lemma_append_token(
    file: FileId,
    cs: Seq<char>,
    ts: Seq<Token>,
    kind: TokenKind,
    old_idx: int,
    i: int,
    j: int,
    new_idx: int,
)
    requires
        utf8_len(cs) <= usize::MAX,
        0 <= old_idx <= i <= j <= new_idx <= cs.len(),
        tokens_within(file, ts, byte_offset(cs, old_idx) as int),
        starts_ordered(ts),
    ensures
        tokens_within(file, ts.push(token_of(kind, file, cs, i, j)), byte_offset(cs, new_idx) as int),
        starts_ordered(ts.push(token_of(kind, file, cs, i, j))),
{
    lemma_span_of(file, cs, i, j);
    lemma_byte_offset_mono(cs, old_idx, i);
    lemma_byte_offset_mono(cs, j, new_idx);
    lemma_byte_offset_mono(cs, old_idx, new_idx);
    let t = token_of(kind, file, cs, i, j);
    assert(ts.push(t) =~= ts + seq![t]);
    lemma_append_tokens(file, ts, seq![t], byte_offset(cs, old_idx) as int, byte_offset(cs, new_idx) as int);
}

proof fn lemma_append_diagnostics(
    file: FileId,
    ds: Seq<DiagnosticView>,
    more: Seq<DiagnosticView>,
    old_bound: int,
    new_bound: int,
)
    requires
        diagnostics_within(file, ds, old_bound),
        diagnostics_within(file, more, new_bound),
        old_bound <= new_bound,
    ensures
        diagnostics_within(file, ds + more, new_bound),
{
    let all = ds + more;
    assert forall|a: int| 0 <= a < all.len() implies {
        &&& is_lexer_code((#[trigger] all[a]).code)
        &&& all[a].span.file == file
        &&& all[a].span.start <= all[a].span.end
        &&& all[a].span.end <= new_bound
    } by {
        if a >= ds.len() {
            assert(all[a] == more[a - ds.len()]);
        }
    }
}

/// A diagnostic with a lexer code spanning `cs[i..j]`, appended.
proof fn lemma_append_diagnostic(
    file: FileId,
    cs: Seq<char>,
    ds: Seq<DiagnosticView>,
    code: Seq<char>,
    message: Seq<char>,
    old_idx: int,
    i: int,
    j: int,
    new_idx: int,
)
    requires
        utf8_len(cs) <= usize::MAX,
        is_lexer_code(code),
        0 <= i <= j <= new_idx <= cs.len(),
        0 <= old_idx <= new_idx,
        diagnostics_within(file, ds, byte_offset(cs, old_idx) as int),
    ensures
        diagnostics_within(
            file,
            ds.push(error_of(code, message, file, cs, i, j)),
            byte_offset(cs, new_idx) as int,
        ),
{
    lemma_span_of(file, cs, i, j);
    lemma_byte_offset_mono(cs, j, new_idx);
    lemma_byte_offset_mono(cs, old_idx, new_idx);
    let d = error_of(code, message, file, cs, i, j);
    assert(ds.push(d) =~= ds + seq![d]);
    lemma_append_diagnostics(file, ds, seq![d], byte_offset(cs, old_idx) as int, byte_offset(cs, new_idx) as int);
}

/// The tab errors of `cs[i..j]` lie inside its first `j` characters.
proof fn lemma_tab_errors_within(file: FileId, cs: Seq<char>, i: int, j: int)
    requires
        utf8_len(cs) <= usize::MAX,
        0 <= i <= j <= cs.len(),
    ensures
        diagnostics_within(file, tab_errors(file, cs, i, j), byte_offset(cs, j) as int),
    decreases j - i,
{
    if j > i {
        lemma_tab_errors_within(file, cs, i, j - 1);
        lemma_byte_offset_mono(cs, j - 1, j);
        if cs[j - 1] == '\t' {
            lemma_append_diagnostic(
                file,
                cs,
                tab_errors(file, cs, i, j - 1),
                "RYL0001"@,
                "tabs are not allowed in Rustype v0 source"@,
                j - 1,
                j - 1,
                j,
                j,
            );
            assert(tab_errors(file, cs, i, j) =~= tab_errors(file, cs, i, j - 1).push(tab_error(file, cs, j - 1)));
        } else {
            assert(tab_errors(file, cs, i, j) =~= tab_errors(file, cs, i, j - 1));
        }
    } else {
        assert(tab_errors(file, cs, i, j) =~= Seq::<DiagnosticView>::empty());
    }
}

/// Closing levels keeps a prefix of the stack and never the bottom level 0.
proof fn lemma_close_deeper(indents: Seq<usize>, width: nat)
    requires
        indents.len() >= 1,
        indents[0] == 0,
    ensures
        1 <= close_deeper(indents, width).len() <= indents.len(),
        close_deeper(indents, width) == indents.take(close_deeper(indents, width).len() as int),
    decreases indents.len(),
{
    if indents.last() > width {
        if indents.len() == 1 {
            assert(indents.last() == indents[0]);
        } else {
            lemma_close_deeper(indents.drop_last(), width);
            let r = close_deeper(indents.drop_last(), width);
            assert(r =~= indents.take(r.len() as int));
        }
    } else {
        assert(indents =~= indents.take(indents.len() as int));
    }
}

/// Tokens the lexer reads from the text: never layout, never the end marker.
pub open spec fn is_text_kind(k: TokenKind) -> bool {
    k != TokenKind::Indent && k != TokenKind::Dedent && k != TokenKind::Eof && k
        != TokenKind::Newline
}

proof fn lemma_keyword_kind(text: Seq<char>)
    ensures
        keyword(text) matches Some(k) ==> is_text_kind(k) && !is_opening(k) && !is_closing(k),
{
}

proof fn lemma_operator_kind(cs: Seq<char>, i: int)
    requires
        0 <= i < cs.len(),
    ensures
        operator(cs, i).0 matches Some(k) ==> is_text_kind(k),
{
}

/// Appending one token of kind `k` read from `cs[s.idx..e]` keeps the invariant.
proof fn lemma_push_token(file: FileId, cs: Seq<char>, s: LexState, k: TokenKind, e: int, s2: LexState)
    requires
        utf8_len(cs) <= usize::MAX,
        lex_invariant(file, cs, s),
        s.idx <= e <= cs.len(),
        k != TokenKind::Indent && k != TokenKind::Dedent && k != TokenKind::Eof,
        k == TokenKind::Newline ==> s.nesting == 0,
        s2.idx == e,
        s2.nesting == nesting_after(k, s.nesting),
        s2.indents == s.indents,
        s2.tokens == s.tokens.push(token_of(k, file, cs, s.idx, e)),
        s2.diagnostics == s.diagnostics,
    ensures
        lex_invariant(file, cs, s2),
{
    let t = token_of(k, file, cs, s.idx, e);
    lemma_append_token(file, cs, s.tokens, k, s.idx, s.idx, e, e);
    assert(s2.tokens.drop_last() =~= s.tokens);
    lemma_byte_offset_mono(cs, s.idx, e);
    lemma_append_diagnostics(file, s.diagnostics, Seq::empty(), byte_offset(cs, s.idx) as int, byte_offset(cs, e) as int);
    assert(s.diagnostics + Seq::<DiagnosticView>::empty() =~= s.diagnostics);
    assert forall|a: int|
        0 <= a < s2.tokens.len() && is_layout((#[trigger] s2.tokens[a]).kind) implies depth(
            s2.tokens.take(a),
        ) == 0 by {
        if a < s.tokens.len() {
            assert(s2.tokens.take(a) =~= s.tokens.take(a));
            assert(s2.tokens[a] == s.tokens[a]);
        } else {
            assert(s2.tokens.take(a) =~= s.tokens);
        }
    }
}

/// Appending one diagnostic about `cs[s.idx..e]` keeps the invariant.
proof fn lemma_push_diagnostic(
    file: FileId,
    cs: Seq<char>,
    s: LexState,
    code: Seq<char>,
    message: Seq<char>,
    e: int,
    s2: LexState,
)
    requires
        utf8_len(cs) <= usize::MAX,
        lex_invariant(file, cs, s),
        is_lexer_code(code),
        s.idx <= e <= cs.len(),
        s2.idx == e,
        s2.nesting == s.nesting,
        s2.indents == s.indents,
        s2.tokens == s.tokens,
        s2.diagnostics == s.diagnostics.push(error_of(code, message, file, cs, s.idx, e)),
    ensures
        lex_invariant(file, cs, s2),
{
    lemma_byte_offset_mono(cs, s.idx, e);
    lemma_append_diagnostic(file, cs, s.diagnostics, code, message, s.idx, s.idx, e, e);
    lemma_append_tokens(file, s.tokens, Seq::empty(), byte_offset(cs, s.idx) as int, byte_offset(cs, e) as int);
    assert(s.tokens + Seq::<Token>::empty() =~= s.tokens);
}

/// Moving forward without output keeps the invariant.
proof fn lemma_advance(file: FileId, cs: Seq<char>, s: LexState, e: int, s2: LexState)
    requires
        utf8_len(cs) <= usize::MAX,
        lex_invariant(file, cs, s),
        s.idx <= e <= cs.len(),
        s2.idx == e,
        s2.nesting == s.nesting,
        s2.indents == s.indents,
        s2.tokens == s.tokens,
        s2.diagnostics == s.diagnostics,
    ensures
        lex_invariant(file, cs, s2),
{
    lemma_byte_offset_mono(cs, s.idx, e);
    lemma_append_tokens(file, s.tokens, Seq::empty(), byte_offset(cs, s.idx) as int, byte_offset(cs, e) as int);
    assert(s.tokens + Seq::<Token>::empty() =~= s.tokens);
    lemma_append_diagnostics(file, s.diagnostics, Seq::empty(), byte_offset(cs, s.idx) as int, byte_offset(cs, e) as int);
    assert(s.diagnostics + Seq::<DiagnosticView>::empty() =~= s.diagnostics);
}

/// Reading one element keeps the invariant.
proof fn lemma_lex_element_invariant(file: FileId, cs: Seq<char>, s: LexState)
    requires
        utf8_len(cs) <= usize::MAX,
        lex_invariant(file, cs, s),
        s.idx < cs.len(),
    ensures
        lex_invariant(file, cs, lex_element(file, cs, s)),
{
    let i = s.idx;
    let c = cs[i];
    let s2 = lex_element(file, cs, s);
    lemma_lex_element_advances(file, cs, s);
    if c == ' ' || c == '\x0c' || c == '#' {
        lemma_advance(file, cs, s, s2.idx, s2);
    } else if c == '\t' {
        lemma_push_diagnostic(file, cs, s, "RYL0001"@, "tabs are not allowed in Rustype v0 source"@, i + 1, s2);
    } else if c == '\n' || c == '\r' {
        if s.nesting == 0 {
            lemma_push_token(file, cs, s, TokenKind::Newline, s2.idx, s2);
        } else {
            lemma_advance(file, cs, s, s2.idx, s2);
        }
    } else if '0' <= c && c <= '9' {
        lemma_push_token(file, cs, s, TokenKind::Number, s2.idx, s2);
    } else if c == '\'' || c == '"' {
        if s2.tokens.len() > s.tokens.len() {
            lemma_push_token(file, cs, s, TokenKind::String, s2.idx, s2);
        } else {
            lemma_push_diagnostic(file, cs, s, "RYL0003"@, "unterminated string literal"@, s2.idx, s2);
        }
    } else if crate::lexer_spec::starts_identifier(c) {
        let e = s2.idx;
        lemma_keyword_kind(cs.subrange(i, e));
        lemma_push_token(file, cs, s, s2.tokens.last().kind, e, s2);
    } else {
        lemma_operator_kind(cs, i);
        let (kind, e) = operator(cs, i);
        match kind {
            Some(k) => {
                lemma_push_token(file, cs, s, k, e, s2);
            },
            None => {
                lemma_push_diagnostic(file, cs, s, "RYL0004"@, "unexpected character `"@.push(c).push('`'), e, s2);
            },
        }
    }
}

/// Appending layout tokens (`Indent` or `Dedent`) spanning `cs[s.idx..j]`
/// outside brackets keeps everything but the indentation count.
proof fn lemma_append_layout(file: FileId, cs: Seq<char>, s: LexState, more: Seq<Token>, j: int)
    requires
        utf8_len(cs) <= usize::MAX,
        lex_invariant(file, cs, s),
        s.nesting == 0,
        s.idx <= j <= cs.len(),
        forall|m: int|
            0 <= m < more.len() ==> (#[trigger] more[m]) == token_of(TokenKind::Indent, file, cs, s.idx, j)
                || more[m] == token_of(TokenKind::Dedent, file, cs, s.idx, j),
    ensures
        tokens_within(file, s.tokens + more, byte_offset(cs, j) as int),
        starts_ordered(s.tokens + more),
        depth(s.tokens + more) == 0,
        layout_at_depth_zero(s.tokens + more),
        count_kind(s.tokens + more, TokenKind::Eof) == 0,
{
    lemma_span_of(file, cs, s.idx, j);
    lemma_byte_offset_mono(cs, s.idx, j);
    lemma_append_tokens(file, s.tokens, more, byte_offset(cs, s.idx) as int, byte_offset(cs, j) as int);
    lemma_depth_no_brackets(s.tokens, more);
    let all = s.tokens + more;
    assert forall|a: int| 0 <= a < all.len() && is_layout((#[trigger] all[a]).kind) implies depth(
        all.take(a),
    ) == 0 by {
        if a < s.tokens.len() {
            assert(all.take(a) =~= s.tokens.take(a));
            assert(all[a] == s.tokens[a]);
        } else {
            let pre = more.take(a - s.tokens.len());
            assert(all.take(a) =~= s.tokens + pre);
            lemma_depth_no_brackets(s.tokens, pre);
        }
    }
    lemma_count_concat(s.tokens, more, TokenKind::Eof);
    lemma_count_no_kind(more, TokenKind::Eof);
}

/// A sequence without tokens of kind `k` counts none.
proof fn lemma_count_no_kind(ts: Seq<Token>, k: TokenKind)
    requires
        forall|m: int| 0 <= m < ts.len() ==> (#[trigger] ts[m]).kind != k,
    ensures
        count_kind(ts, k) == 0,
    decreases ts.len(),
{
    if ts.len() > 0 {
        lemma_count_no_kind(ts.drop_last(), k);
    }
}

/// Measuring indentation outside brackets keeps the invariant.
proof fn lemma_lex_indentation_invariant(file: FileId, cs: Seq<char>, s: LexState)
    requires
        utf8_len(cs) <= usize::MAX,
        lex_invariant(file, cs, s),
        s.nesting == 0,
    ensures
        lex_invariant(file, cs, lex_indentation(file, cs, s)),
{
    let i = s.idx;
    let j = indentation_end(cs, i);
    lemma_indentation_end(cs, i);
    let width = crate::lexer_spec::indentation_width(cs, i, j);
    let diagnostics = s.diagnostics + tab_errors(file, cs, i, j);
    lemma_tab_errors_within(file, cs, i, j);
    lemma_byte_offset_mono(cs, i, j);
    lemma_append_diagnostics(file, s.diagnostics, tab_errors(file, cs, i, j), byte_offset(cs, i) as int, byte_offset(cs, j) as int);
    let s2 = lex_indentation(file, cs, s);
    if j >= cs.len() || cs[j] == '\n' || cs[j] == '\r' || cs[j] == '#' {
        lemma_append_layout(file, cs, s, Seq::empty(), j);
        assert(s.tokens + Seq::<Token>::empty() =~= s.tokens);
    } else if width > innermost(s.indents) {
        let t = token_of(TokenKind::Indent, file, cs, i, j);
        lemma_append_layout(file, cs, s, seq![t], j);
        assert(s.tokens + seq![t] =~= s2.tokens);
        assert(s2.tokens.drop_last() =~= s.tokens);
        assert(s2.indents[0] == s.indents[0]);
    } else if width < innermost(s.indents) {
        let kept = close_deeper(s.indents, width);
        lemma_close_deeper(s.indents, width);
        let n = (s.indents.len() - kept.len()) as nat;
        let d = token_of(TokenKind::Dedent, file, cs, i, j);
        lemma_append_layout(file, cs, s, copies(d, n), j);
        lemma_count_concat(s.tokens, copies(d, n), TokenKind::Indent);
        lemma_count_concat(s.tokens, copies(d, n), TokenKind::Dedent);
        lemma_count_copies(d, n, TokenKind::Indent);
        lemma_count_copies(d, n, TokenKind::Dedent);
        assert(kept[0] == s.indents[0]);
        if innermost(kept) != width {
            lemma_append_diagnostic(
                file,
                cs,
                diagnostics,
                "RYL0002"@,
                "inconsistent indentation"@,
                j,
                i,
                j,
                j,
            );
        }
    } else {
        lemma_append_layout(file, cs, s, Seq::empty(), j);
        assert(s.tokens + Seq::<Token>::empty() =~= s.tokens);
    }
}

proof fn lemma_lex_step_invariant(file: FileId, cs: Seq<char>, s: LexState)
    requires
        utf8_len(cs) <= usize::MAX,
        lex_invariant(file, cs, s),
        s.idx < cs.len(),
    ensures
        lex_invariant(file, cs, lex_step(file, cs, s)),
{
    let s1 = if s.at_line_start && s.nesting == 0 {
        lemma_lex_indentation_invariant(file, cs, s);
        lex_indentation(file, cs, s)
    } else {
        s
    };
    if s1.idx < cs.len() {
        lemma_lex_element_invariant(file, cs, s1);
    }
}

proof fn lemma_lex_from_invariant(file: FileId, cs: Seq<char>, s: LexState)
    requires
        utf8_len(cs) <= usize::MAX,
        lex_invariant(file, cs, s),
    ensures
        lex_invariant(file, cs, lex_from(file, cs, s)),
        lex_from(file, cs, s).idx == cs.len(),
    decreases cs.len() - s.idx,
{
    if s.idx < cs.len() {
        lemma_lex_step_advances(file, cs, s);
        lemma_lex_step_invariant(file, cs, s);
        lemma_lex_from_invariant(file, cs, lex_step(file, cs, s));
    }
}

/// All the properties of a finished token stream, at once.
proof fn lemma_lex_source(file: FileId, cs: Seq<char>)
    requires
        utf8_len(cs) <= usize::MAX,
    ensures
        ({
            let out = lex_source(file, cs);
            let n = cs.len() as int;
            &&& out.tokens.len() > 0
            &&& out.tokens.last() == token_of(TokenKind::Eof, file, cs, n, n)
            &&& count_kind(out.tokens, TokenKind::Eof) == 1
            &&& count_kind(out.tokens, TokenKind::Indent) == count_kind(out.tokens, TokenKind::Dedent)
            &&& tokens_within(file, out.tokens, utf8_len(cs) as int)
            &&& starts_ordered(out.tokens)
            &&& diagnostics_within(file, out.diagnostics, utf8_len(cs) as int)
            &&& layout_outside_brackets(out.tokens)
        }),
{
    let s0 = initial_state();
    assert(count_kind(s0.tokens, TokenKind::Indent) == 0);
    assert(count_kind(s0.tokens, TokenKind::Dedent) == 0);
    assert(count_kind(s0.tokens, TokenKind::Eof) == 0);
    lemma_lex_from_invariant(file, cs, s0);
    let s = lex_from(file, cs, s0);
    let n = cs.len() as int;
    lemma_offsets_fit(cs, n);
    lemma_span_of(file, cs, n, n);
    let d = token_of(TokenKind::Dedent, file, cs, n, n);
    let eof = token_of(TokenKind::Eof, file, cs, n, n);
    let open = (s.indents.len() - 1) as nat;
    let more = copies(d, open) + seq![eof];
    let out = lex_source(file, cs);
    assert(out.tokens =~= s.tokens + more);
    lemma_append_tokens(file, s.tokens, more, byte_offset(cs, n) as int, byte_offset(cs, n) as int);
    lemma_count_copies(d, open, TokenKind::Eof);
    lemma_count_copies(d, open, TokenKind::Indent);
    lemma_count_copies(d, open, TokenKind::Dedent);
    lemma_count_single(eof, TokenKind::Eof);
    lemma_count_single(eof, TokenKind::Indent);
    lemma_count_single(eof, TokenKind::Dedent);
    lemma_count_concat(copies(d, open), seq![eof], TokenKind::Eof);
    lemma_count_concat(copies(d, open), seq![eof], TokenKind::Indent);
    lemma_count_concat(copies(d, open), seq![eof], TokenKind::Dedent);
    lemma_count_concat(s.tokens, more, TokenKind::Eof);
    lemma_count_concat(s.tokens, more, TokenKind::Indent);
    lemma_count_concat(s.tokens, more, TokenKind::Dedent);
    let all = s.tokens + more;
    assert forall|a: int|
        0 <= a < all.len() && is_layout((#[trigger] all[a]).kind) && depth(all.take(a)) != 0 implies {
            &&& all[a].kind == TokenKind::Dedent
            &&& forall|b: int|
                a <= b < all.len() ==> (#[trigger] all[b]).kind == TokenKind::Dedent || all[b].kind
                    == TokenKind::Eof
        } by {
        if a < s.tokens.len() {
            assert(all.take(a) =~= s.tokens.take(a));
            assert(all[a] == s.tokens[a]);
        } else {
            assert(all[a] == more[a - s.tokens.len()]);
            assert forall|b: int| a <= b < all.len() implies (#[trigger] all[b]).kind
                == TokenKind::Dedent || all[b].kind == TokenKind::Eof by {
                assert(all[b] == more[b - s.tokens.len()]);
            }
        }
    }
}

/// The token stream ends with the end-of-file token, empty and placed at
/// the end of the source, and holds no other.
pub proof fn lex_ends_with_eof(file: FileId, cs: Seq<char>)
    requires
        utf8_len(cs) <= usize::MAX,
    ensures
        lex_source(file, cs).tokens.len() > 0,
        lex_source(file, cs).tokens.last().kind == TokenKind::Eof,
        lex_source(file, cs).tokens.last().span.start == utf8_len(cs),
        lex_source(file, cs).tokens.last().span.end == utf8_len(cs),
        count_kind(lex_source(file, cs).tokens, TokenKind::Eof) == 1,
{
    lemma_lex_source(file, cs);
    lemma_offsets_fit(cs, cs.len() as int);
}

/// Every `Indent` is closed by a `Dedent`: the stream holds as many of each.
pub proof fn lex_balances_indentation(file: FileId, cs: Seq<char>)
    requires
        utf8_len(cs) <= usize::MAX,
    ensures
        count_kind(lex_source(file, cs).tokens, TokenKind::Indent) == count_kind(
            lex_source(file, cs).tokens,
            TokenKind::Dedent,
        ),
{
    lemma_lex_source(file, cs);
}

/// Tokens and diagnostics carry spans of the source file, inside the
/// source, and tokens come in source order; every diagnostic has a lexer code.
pub proof fn lex_spans_in_source_order(file: FileId, cs: Seq<char>)
    requires
        utf8_len(cs) <= usize::MAX,
    ensures
        tokens_within(file, lex_source(file, cs).tokens, utf8_len(cs) as int),
        starts_ordered(lex_source(file, cs).tokens),
        diagnostics_within(file, lex_source(file, cs).diagnostics, utf8_len(cs) as int),
{
    lemma_lex_source(file, cs);
}

/// Inside `()`, `[]` or `{}` the lexer emits no `Newline` and no `Indent`;
/// a `Dedent` there is followed by nothing but `Dedent`s and the end marker.
/// (`lex_token_placement` adds that layout tokens starting inside the
/// source are all outside brackets.)
pub proof fn lex_layout_outside_brackets(file: FileId, cs: Seq<char>)
    requires
        utf8_len(cs) <= usize::MAX,
    ensures
        layout_outside_brackets(lex_source(file, cs).tokens),
{
    lemma_lex_source(file, cs);
}

/// `cs` is one identifier: a letter or `_`, then letters, digits or `_`.
pub open spec fn is_identifier_text(cs: Seq<char>) -> bool {
    &&& cs.len() > 0
    &&& (cs[0] == '_' || is_alphabetic(cs[0]))
    &&& forall|k: int| 1 <= k < cs.len() ==> (#[trigger] cs[k] == '_' || is_alphanumeric(cs[k]))
}

proof fn lemma_identifier_end_all(cs: Seq<char>, i: int)
    requires
        1 <= i <= cs.len(),
        forall|k: int| 1 <= k < cs.len() ==> crate::lexer_spec::continues_identifier(#[trigger] cs[k]),
    ensures
        crate::lexer_spec::identifier_end(cs, i) == cs.len(),
    decreases cs.len() - i,
{
    if i < cs.len() {
        assert(crate::lexer_spec::continues_identifier(cs[i]));
        lemma_identifier_end_all(cs, i + 1);
    }
}

/// A source that is one identifier lexes to one token, `Name` or the
/// keyword it spells, spanning the whole source, then `Eof`; nothing is reported.
pub proof fn lex_lone_identifier(file: FileId, cs: Seq<char>)
    requires
        is_identifier_text(cs),
    ensures
        lex_source(file, cs).tokens == seq![
            token_of(
                match keyword(cs) {
                    Some(k) => k,
                    None => TokenKind::Name,
                },
                file,
                cs,
                0,
                cs.len() as int,
            ),
            token_of(TokenKind::Eof, file, cs, cs.len() as int, cs.len() as int),
        ],
        lex_source(file, cs).diagnostics.len() == 0,
{
    let n = cs.len() as int;
    let s0 = initial_state();
    let c = cs[0];
    assert(!crate::lexer_spec::is_indentation_char(c));
    assert(indentation_end(cs, 0) == 0);
    assert(crate::lexer_spec::tab_errors(file, cs, 0, 0) =~= Seq::<DiagnosticView>::empty());
    let s1 = lex_indentation(file, cs, s0);
    assert(s1 == LexState { at_line_start: false, ..s0 }) by {
        assert(s0.diagnostics + Seq::<DiagnosticView>::empty() =~= s0.diagnostics);
    }
    lemma_identifier_end_all(cs, 1);
    assert(cs.subrange(0, n) =~= cs);
    let s2 = lex_step(file, cs, s0);
    assert(s2.idx == n);
    lemma_lex_step_advances(file, cs, s0);
    assert(lex_from(file, cs, s2) == s2);
    assert(lex_from(file, cs, s0) == s2);
    assert(copies(token_of(TokenKind::Dedent, file, cs, n, n), 0) =~= Seq::<Token>::empty());
    assert(lex_source(file, cs).tokens =~= s2.tokens + Seq::<Token>::empty() + seq![
        token_of(TokenKind::Eof, file, cs, n, n),
    ]);
}

/// The token at `a` of `ts` is an `Indent`.
pub open spec fn indent_at(ts: Seq<Token>, a: int) -> bool {
    0 <= a < ts.len() && ts[a].kind == TokenKind::Indent
}

/// Every `Indent` opens the stream or follows a `Newline`.
pub open spec fn indents_follow_newlines(ts: Seq<Token>) -> bool {
    forall|a: int| #[trigger] indent_at(ts, a) ==> a == 0 || ts[a - 1].kind == TokenKind::Newline
}

/// What holds between steps about where indentation is measured.
spec fn line_start_invariant(s: LexState) -> bool {
    &&& s.at_line_start ==> s.nesting == 0 && (s.tokens.len() == 0 || s.tokens.last().kind
        == TokenKind::Newline)
    &&& indents_follow_newlines(s.tokens)
}

proof fn lemma_push_not_indent(ts: Seq<Token>, t: Token)
    requires
        indents_follow_newlines(ts),
        t.kind != TokenKind::Indent,
    ensures
        indents_follow_newlines(ts.push(t)),
{
    assert forall|a: int| #[trigger] indent_at(ts.push(t), a) implies a == 0 || ts.push(t)[a
        - 1].kind == TokenKind::Newline by {
        assert(ts.push(t)[a] == ts[a]);
        assert(indent_at(ts, a));
        if a > 0 {
            assert(ts.push(t)[a - 1] == ts[a - 1]);
        }
    }
}

proof fn lemma_line_start_element(file: FileId, cs: Seq<char>, s: LexState)
    requires
        0 <= s.idx < cs.len(),
        !s.at_line_start,
        indents_follow_newlines(s.tokens),
    ensures
        line_start_invariant(lex_element(file, cs, s)),
{
    let i = s.idx;
    let c = cs[i];
    let s2 = lex_element(file, cs, s);
    lemma_lex_element_advances(file, cs, s);
    let e = s2.idx;
    if c == ' ' || c == '\x0c' || c == '#' || c == '\t' {
        assert(s2.tokens == s.tokens && !s2.at_line_start);
    } else if c == '\n' || c == '\r' {
        if s.nesting == 0 {
            lemma_push_not_indent(s.tokens, token_of(TokenKind::Newline, file, cs, i, e));
        } else {
            assert(s2.tokens == s.tokens && !s2.at_line_start);
        }
    } else if '0' <= c && c <= '9' {
        lemma_push_not_indent(s.tokens, token_of(TokenKind::Number, file, cs, i, e));
    } else if c == '\'' || c == '"' {
        if s2.tokens.len() > s.tokens.len() {
            lemma_push_not_indent(s.tokens, token_of(TokenKind::String, file, cs, i, e));
        } else {
            assert(s2.tokens == s.tokens);
        }
    } else if crate::lexer_spec::starts_identifier(c) {
        lemma_keyword_kind(cs.subrange(i, e));
        lemma_push_not_indent(s.tokens, s2.tokens.last());
        assert(s2.tokens == s.tokens.push(s2.tokens.last()));
    } else {
        lemma_operator_kind(cs, i);
        let (kind, e2) = operator(cs, i);
        match kind {
            Some(k) => {
                lemma_push_not_indent(s.tokens, token_of(k, file, cs, i, e2));
            },
            None => {
                assert(s2.tokens == s.tokens);
            },
        }
    }
}

proof fn lemma_line_start_indentation(file: FileId, cs: Seq<char>, s: LexState)
    requires
        0 <= s.idx <= cs.len(),
        line_start_invariant(s),
        s.at_line_start,
    ensures
        indents_follow_newlines(lex_indentation(file, cs, s).tokens),
        !lex_indentation(file, cs, s).at_line_start,
        s.idx <= lex_indentation(file, cs, s).idx <= cs.len(),
{
    let i = s.idx;
    let j = indentation_end(cs, i);
    lemma_indentation_end(cs, i);
    let width = crate::lexer_spec::indentation_width(cs, i, j);
    let s1 = lex_indentation(file, cs, s);
    if !(j >= cs.len() || cs[j] == '\n' || cs[j] == '\r' || cs[j] == '#') {
        if width > innermost(s.indents) {
            let t = token_of(TokenKind::Indent, file, cs, i, j);
            assert(s1.tokens == s.tokens.push(t));
            assert forall|a: int| #[trigger] indent_at(s.tokens.push(t), a) implies a == 0
                || s.tokens.push(t)[a - 1].kind == TokenKind::Newline by {
                if a < s.tokens.len() {
                    assert(s.tokens.push(t)[a] == s.tokens[a]);
                    assert(indent_at(s.tokens, a));
                    if a > 0 {
                        assert(s.tokens.push(t)[a - 1] == s.tokens[a - 1]);
                    }
                } else if a > 0 {
                    assert(s.tokens.push(t)[a - 1] == s.tokens.last());
                }
            }
        } else if width < innermost(s.indents) {
            let kept = close_deeper(s.indents, width);
            let n = (s.indents.len() - kept.len()) as nat;
            let d = token_of(TokenKind::Dedent, file, cs, i, j);
            let all = s.tokens + copies(d, n);
            assert(s1.tokens == all);
            assert forall|a: int| #[trigger] indent_at(all, a) implies a == 0 || all[a - 1].kind
                == TokenKind::Newline by {
                if a < s.tokens.len() {
                    assert(all[a] == s.tokens[a]);
                    assert(indent_at(s.tokens, a));
                    if a > 0 {
                        assert(all[a - 1] == s.tokens[a - 1]);
                    }
                } else {
                    assert(all[a] == copies(d, n)[a - s.tokens.len()]);
                }
            }
        }
    }
}

proof fn lemma_line_start_step(file: FileId, cs: Seq<char>, s: LexState)
    requires
        0 <= s.idx < cs.len(),
        line_start_invariant(s),
    ensures
        line_start_invariant(lex_step(file, cs, s)),
{
    if s.at_line_start {
        lemma_line_start_indentation(file, cs, s);
        let s1 = lex_indentation(file, cs, s);
        if s1.idx < cs.len() {
            lemma_line_start_element(file, cs, s1);
        }
    } else {
        lemma_line_start_element(file, cs, s);
    }
}

proof fn lemma_line_start_from(file: FileId, cs: Seq<char>, s: LexState)
    requires
        0 <= s.idx <= cs.len(),
        line_start_invariant(s),
    ensures
        indents_follow_newlines(lex_from(file, cs, s).tokens),
    decreases cs.len() - s.idx,
{
    if s.idx < cs.len() {
        lemma_lex_step_advances(file, cs, s);
        lemma_line_start_step(file, cs, s);
        lemma_line_start_from(file, cs, lex_step(file, cs, s));
    }
}

/// The lexer measures indentation only where a logical line starts: every
/// `Indent` opens the token stream or follows a `Newline`.
pub proof fn lex_indent_follows_newline(file: FileId, cs: Seq<char>)
    ensures
        indents_follow_newlines(lex_source(file, cs).tokens),
{
    let s0 = initial_state();
    lemma_line_start_from(file, cs, s0);
    let s = lex_from(file, cs, s0);
    let n = cs.len() as int;
    let open = if s.indents.len() > 1 {
        (s.indents.len() - 1) as nat
    } else {
        0
    };
    let more = copies(token_of(TokenKind::Dedent, file, cs, n, n), open) + seq![
        token_of(TokenKind::Eof, file, cs, n, n),
    ];
    let all = lex_source(file, cs).tokens;
    assert(all =~= s.tokens + more);
    assert forall|a: int| #[trigger] indent_at(all, a) implies a == 0 || all[a - 1].kind
        == TokenKind::Newline by {
        if a < s.tokens.len() {
            assert(all[a] == s.tokens[a]);
            assert(indent_at(s.tokens, a));
            if a > 0 {
                assert(all[a - 1] == s.tokens[a - 1]);
            }
        } else {
            assert(all[a] == more[a - s.tokens.len()]);
        }
    }
}

/// No prefix of `ts` holds more `Dedent`s than `Indent`s: a block is only
/// closed after it was opened.
pub open spec fn dedents_never_exceed_indents(ts: Seq<Token>) -> bool {
    forall|k: int|
        0 <= k <= ts.len() ==> count_kind(#[trigger] ts.take(k), TokenKind::Dedent) <= count_kind(
            ts.take(k),
            TokenKind::Indent,
        )
}

/// Appending `more` keeps the property when every prefix of `more` adds
/// no more `Dedent`s than the stream can take.
proof fn lemma_append_dedents(ts: Seq<Token>, more: Seq<Token>)
    requires
        dedents_never_exceed_indents(ts),
        forall|j: int|
            0 <= j <= more.len() ==> count_kind(ts, TokenKind::Dedent) + count_kind(
                #[trigger] more.take(j),
                TokenKind::Dedent,
            ) <= count_kind(ts, TokenKind::Indent) + count_kind(more.take(j), TokenKind::Indent),
    ensures
        dedents_never_exceed_indents(ts + more),
{
    let all = ts + more;
    assert forall|k: int| 0 <= k <= all.len() implies count_kind(
        #[trigger] all.take(k),
        TokenKind::Dedent,
    ) <= count_kind(all.take(k), TokenKind::Indent) by {
        if k <= ts.len() {
            assert(all.take(k) =~= ts.take(k));
        } else {
            let j = k - ts.len();
            assert(all.take(k) =~= ts + more.take(j));
            assert(more.take(j) == more.take(j));
            lemma_count_concat(ts, more.take(j), TokenKind::Dedent);
            lemma_count_concat(ts, more.take(j), TokenKind::Indent);
        }
    }
}

/// Appending one token that is not a `Dedent` keeps the property.
proof fn lemma_push_no_dedent(ts: Seq<Token>, t: Token)
    requires
        dedents_never_exceed_indents(ts),
        t.kind != TokenKind::Dedent,
    ensures
        dedents_never_exceed_indents(ts.push(t)),
{
    assert(ts.take(ts.len() as int) =~= ts);
    let more = seq![t];
    assert forall|j: int| 0 <= j <= more.len() implies count_kind(ts, TokenKind::Dedent)
        + count_kind(#[trigger] more.take(j), TokenKind::Dedent) <= count_kind(ts, TokenKind::Indent)
        + count_kind(more.take(j), TokenKind::Indent) by {
        if j == 0 {
            assert(more.take(j) =~= Seq::<Token>::empty());
        } else {
            assert(more.take(j) =~= more);
            lemma_count_single(t, TokenKind::Dedent);
            lemma_count_single(t, TokenKind::Indent);
        }
    }
    lemma_append_dedents(ts, more);
    assert(ts + more =~= ts.push(t));
}

/// Appending `n` `Dedent`s keeps the property when the stream has `n` more
/// `Indent`s than `Dedent`s.
proof fn lemma_append_dedent_copies(ts: Seq<Token>, d: Token, n: nat)
    requires
        dedents_never_exceed_indents(ts),
        d.kind == TokenKind::Dedent,
        count_kind(ts, TokenKind::Dedent) + n <= count_kind(ts, TokenKind::Indent),
    ensures
        dedents_never_exceed_indents(ts + copies(d, n)),
{
    let more = copies(d, n);
    assert forall|j: int| 0 <= j <= more.len() implies count_kind(ts, TokenKind::Dedent)
        + count_kind(#[trigger] more.take(j), TokenKind::Dedent) <= count_kind(ts, TokenKind::Indent)
        + count_kind(more.take(j), TokenKind::Indent) by {
        assert(more.take(j) =~= copies(d, j as nat));
        lemma_count_copies(d, j as nat, TokenKind::Dedent);
        lemma_count_copies(d, j as nat, TokenKind::Indent);
    }
    lemma_append_dedents(ts, more);
}

proof fn lemma_dedents_element(file: FileId, cs: Seq<char>, s: LexState)
    requires
        0 <= s.idx < cs.len(),
        dedents_never_exceed_indents(s.tokens),
    ensures
        dedents_never_exceed_indents(lex_element(file, cs, s).tokens),
{
    let i = s.idx;
    let c = cs[i];
    let s2 = lex_element(file, cs, s);
    lemma_lex_element_advances(file, cs, s);
    let e = s2.idx;
    if c == ' ' || c == '\x0c' || c == '#' || c == '\t' {
        assert(s2.tokens == s.tokens);
    } else if c == '\n' || c == '\r' {
        if s.nesting == 0 {
            lemma_push_no_dedent(s.tokens, token_of(TokenKind::Newline, file, cs, i, e));
        } else {
            assert(s2.tokens == s.tokens);
        }
    } else if '0' <= c && c <= '9' {
        lemma_push_no_dedent(s.tokens, token_of(TokenKind::Number, file, cs, i, e));
    } else if c == '\'' || c == '"' {
        if s2.tokens.len() > s.tokens.len() {
            lemma_push_no_dedent(s.tokens, token_of(TokenKind::String, file, cs, i, e));
        } else {
            assert(s2.tokens == s.tokens);
        }
    } else if crate::lexer_spec::starts_identifier(c) {
        lemma_keyword_kind(cs.subrange(i, e));
        lemma_push_no_dedent(s.tokens, s2.tokens.last());
        assert(s2.tokens == s.tokens.push(s2.tokens.last()));
    } else {
        lemma_operator_kind(cs, i);
        let (kind, e2) = operator(cs, i);
        match kind {
            Some(k) => {
                lemma_push_no_dedent(s.tokens, token_of(k, file, cs, i, e2));
            },
            None => {
                assert(s2.tokens == s.tokens);
            },
        }
    }
}

proof fn lemma_dedents_indentation(file: FileId, cs: Seq<char>, s: LexState)
    requires
        lex_invariant(file, cs, s),
        dedents_never_exceed_indents(s.tokens),
    ensures
        dedents_never_exceed_indents(lex_indentation(file, cs, s).tokens),
{
    let i = s.idx;
    let j = indentation_end(cs, i);
    let width = crate::lexer_spec::indentation_width(cs, i, j);
    let s1 = lex_indentation(file, cs, s);
    if !(j >= cs.len() || cs[j] == '\n' || cs[j] == '\r' || cs[j] == '#') {
        if width > innermost(s.indents) {
            lemma_push_no_dedent(s.tokens, token_of(TokenKind::Indent, file, cs, i, j));
        } else if width < innermost(s.indents) {
            let kept = close_deeper(s.indents, width);
            lemma_close_deeper(s.indents, width);
            let n = (s.indents.len() - kept.len()) as nat;
            lemma_append_dedent_copies(s.tokens, token_of(TokenKind::Dedent, file, cs, i, j), n);
        }
    }
}

proof fn lemma_dedents_from(file: FileId, cs: Seq<char>, s: LexState)
    requires
        utf8_len(cs) <= usize::MAX,
        lex_invariant(file, cs, s),
        dedents_never_exceed_indents(s.tokens),
    ensures
        dedents_never_exceed_indents(lex_from(file, cs, s).tokens),
    decreases cs.len() - s.idx,
{
    if s.idx < cs.len() {
        lemma_lex_step_advances(file, cs, s);
        lemma_lex_step_invariant(file, cs, s);
        let s1 = if s.at_line_start && s.nesting == 0 {
            lemma_dedents_indentation(file, cs, s);
            lemma_lex_indentation_invariant(file, cs, s);
            lex_indentation(file, cs, s)
        } else {
            s
        };
        if s1.idx < cs.len() {
            lemma_dedents_element(file, cs, s1);
        }
        lemma_dedents_from(file, cs, lex_step(file, cs, s));
    }
}

/// No prefix of the token stream holds more `Dedent`s than `Indent`s: a
/// block is only closed after it was opened.
pub proof fn lex_dedents_never_exceed_indents(file: FileId, cs: Seq<char>)
    requires
        utf8_len(cs) <= usize::MAX,
    ensures
        dedents_never_exceed_indents(lex_source(file, cs).tokens),
{
    let s0 = initial_state();
    assert(count_kind(s0.tokens, TokenKind::Indent) == 0);
    assert(count_kind(s0.tokens, TokenKind::Dedent) == 0);
    assert(count_kind(s0.tokens, TokenKind::Eof) == 0);
    assert forall|k: int| 0 <= k <= s0.tokens.len() implies count_kind(
        #[trigger] s0.tokens.take(k),
        TokenKind::Dedent,
    ) <= count_kind(s0.tokens.take(k), TokenKind::Indent) by {
        assert(s0.tokens.take(k) =~= Seq::<Token>::empty());
    }
    lemma_lex_from_invariant(file, cs, s0);
    lemma_dedents_from(file, cs, s0);
    let s = lex_from(file, cs, s0);
    let n = cs.len() as int;
    let open = if s.indents.len() > 1 {
        (s.indents.len() - 1) as nat
    } else {
        0
    };
    let d = token_of(TokenKind::Dedent, file, cs, n, n);
    lemma_append_dedent_copies(s.tokens, d, open);
    lemma_push_no_dedent(s.tokens + copies(d, open), token_of(TokenKind::Eof, file, cs, n, n));
    assert(lex_source(file, cs).tokens =~= (s.tokens + copies(d, open)).push(
        token_of(TokenKind::Eof, file, cs, n, n),
    ));
}

/// The span `sp` runs between two character positions of `cs`: it starts
/// and ends on character boundaries of the source.
pub open spec fn on_char_boundaries(file: FileId, cs: Seq<char>, sp: Span) -> bool {
    exists|p: int, q: int| 0 <= p <= q <= cs.len() && sp == #[trigger] span_of(file, cs, p, q)
}

/// The tokens at `a` and `a + 1` of `ts` do not overlap, unless both are
/// `Dedent`s with one span (closing several blocks at one place).
pub open spec fn apart_at(ts: Seq<Token>, a: int) -> bool {
    ||| ts[a].span.end <= ts[a + 1].span.start
    ||| ts[a].kind == TokenKind::Dedent && ts[a + 1].kind == TokenKind::Dedent && ts[a].span
        == ts[a + 1].span
}

/// The token at `k` of `ts` is a `Dedent`.
pub open spec fn dedent_at(ts: Seq<Token>, k: int) -> bool {
    0 <= k < ts.len() && ts[k].kind == TokenKind::Dedent
}

/// Every token of `ts` lies on character boundaries of `cs`, and
/// consecutive tokens do not overlap except for runs of equal `Dedent`s.
pub open spec fn spans_apart(file: FileId, cs: Seq<char>, ts: Seq<Token>) -> bool {
    &&& forall|a: int| 0 <= a < ts.len() ==> on_char_boundaries(file, cs, (#[trigger] ts[a]).span)
    &&& forall|a: int| 0 <= a < ts.len() - 1 ==> #[trigger] apart_at(ts, a)
}

/// Every `Dedent` that starts before byte `bound` follows a `Newline` or
/// another `Dedent`.
pub open spec fn dedents_follow_line_breaks(ts: Seq<Token>, bound: int) -> bool {
    forall|k: int|
        #[trigger] dedent_at(ts, k) && ts[k].span.start < bound ==> k > 0 && (ts[k - 1].kind
            == TokenKind::Newline || ts[k - 1].kind == TokenKind::Dedent)
}

/// Every layout token that starts before byte `bound` is outside brackets.
pub open spec fn layout_in_source_at_depth_zero(ts: Seq<Token>, bound: int) -> bool {
    forall|a: int|
        0 <= a < ts.len() && is_layout((#[trigger] ts[a]).kind) && ts[a].span.start < bound
            ==> depth(ts.take(a)) == 0
}

/// What holds of the tokens read so far.
spec fn stream_shape(file: FileId, cs: Seq<char>, ts: Seq<Token>) -> bool {
    &&& spans_apart(file, cs, ts)
    &&& forall|k: int|
        #[trigger] dedent_at(ts, k) ==> k > 0 && (ts[k - 1].kind == TokenKind::Newline || ts[k
            - 1].kind == TokenKind::Dedent)
}

/// Appending a token that is not a `Dedent`, read from `cs[i..e]` after
/// tokens that end by the offset of `i`.
proof fn lemma_push_shape(file: FileId, cs: Seq<char>, ts: Seq<Token>, k: TokenKind, i: int, e: int)
    requires
        utf8_len(cs) <= usize::MAX,
        0 <= i <= e <= cs.len(),
        stream_shape(file, cs, ts),
        tokens_within(file, ts, byte_offset(cs, i) as int),
        k != TokenKind::Dedent,
    ensures
        stream_shape(file, cs, ts.push(token_of(k, file, cs, i, e))),
{
    let t = token_of(k, file, cs, i, e);
    let all = ts.push(t);
    lemma_span_of(file, cs, i, e);
    assert(on_char_boundaries(file, cs, span_of(file, cs, i, e)));
    assert forall|a: int| 0 <= a < all.len() implies on_char_boundaries(file, cs, (
    #[trigger] all[a]).span) by {
        if a < ts.len() {
            assert(all[a] == ts[a]);
        }
    }
    assert forall|a: int| 0 <= a < all.len() - 1 implies #[trigger] apart_at(all, a) by {
        assert(all[a] == ts[a]);
        if a + 1 < ts.len() {
            assert(all[a + 1] == ts[a + 1]);
            assert(apart_at(ts, a));
        }
    }
    assert forall|j: int| #[trigger] dedent_at(all, j) implies j > 0 && (all[j - 1].kind
        == TokenKind::Newline || all[j - 1].kind == TokenKind::Dedent) by {
        assert(all[j] == ts[j]);
        assert(dedent_at(ts, j));
        assert(all[j - 1] == ts[j - 1]);
    }
}

/// Appending `n` equal `Dedent`s for `cs[i..j]` after a `Newline`.
proof fn lemma_dedents_shape(file: FileId, cs: Seq<char>, ts: Seq<Token>, i: int, j: int, n: nat)
    requires
        utf8_len(cs) <= usize::MAX,
        0 <= i <= j <= cs.len(),
        stream_shape(file, cs, ts),
        tokens_within(file, ts, byte_offset(cs, i) as int),
        n > 0 ==> ts.len() > 0 && ts.last().kind == TokenKind::Newline,
    ensures
        stream_shape(file, cs, ts + copies(token_of(TokenKind::Dedent, file, cs, i, j), n)),
{
    let d = token_of(TokenKind::Dedent, file, cs, i, j);
    let more = copies(d, n);
    let all = ts + more;
    lemma_span_of(file, cs, i, j);
    assert(on_char_boundaries(file, cs, span_of(file, cs, i, j)));
    assert forall|a: int| 0 <= a < all.len() implies on_char_boundaries(file, cs, (
    #[trigger] all[a]).span) by {
        if a < ts.len() {
            assert(all[a] == ts[a]);
        } else {
            assert(all[a] == d);
        }
    }
    assert forall|a: int| 0 <= a < all.len() - 1 implies #[trigger] apart_at(all, a) by {
        if a + 1 < ts.len() {
            assert(all[a] == ts[a]);
            assert(all[a + 1] == ts[a + 1]);
            assert(apart_at(ts, a));
        } else if a + 1 == ts.len() {
            assert(all[a] == ts[a]);
            assert(all[a + 1] == d);
        } else {
            assert(all[a] == d);
            assert(all[a + 1] == d);
        }
    }
    assert forall|k: int| #[trigger] dedent_at(all, k) implies k > 0 && (all[k - 1].kind
        == TokenKind::Newline || all[k - 1].kind == TokenKind::Dedent) by {
        if k < ts.len() {
            assert(all[k] == ts[k]);
            assert(dedent_at(ts, k));
            assert(all[k - 1] == ts[k - 1]);
        } else if k == ts.len() {
            assert(all[k - 1] == ts.last());
        } else {
            assert(all[k - 1] == d);
        }
    }
}

proof fn lemma_shape_element(file: FileId, cs: Seq<char>, s: LexState)
    requires
        utf8_len(cs) <= usize::MAX,
        lex_invariant(file, cs, s),
        s.idx < cs.len(),
        stream_shape(file, cs, s.tokens),
    ensures
        stream_shape(file, cs, lex_element(file, cs, s).tokens),
{
    let i = s.idx;
    let c = cs[i];
    let s2 = lex_element(file, cs, s);
    lemma_lex_element_advances(file, cs, s);
    let e = s2.idx;
    if c == ' ' || c == '\x0c' || c == '#' || c == '\t' {
        assert(s2.tokens == s.tokens);
    } else if c == '\n' || c == '\r' {
        if s.nesting == 0 {
            lemma_push_shape(file, cs, s.tokens, TokenKind::Newline, i, e);
        } else {
            assert(s2.tokens == s.tokens);
        }
    } else if '0' <= c && c <= '9' {
        lemma_push_shape(file, cs, s.tokens, TokenKind::Number, i, e);
    } else if c == '\'' || c == '"' {
        if s2.tokens.len() > s.tokens.len() {
            lemma_push_shape(file, cs, s.tokens, TokenKind::String, i, e);
        } else {
            assert(s2.tokens == s.tokens);
        }
    } else if crate::lexer_spec::starts_identifier(c) {
        lemma_keyword_kind(cs.subrange(i, e));
        lemma_push_shape(file, cs, s.tokens, s2.tokens.last().kind, i, e);
        assert(s2.tokens == s.tokens.push(token_of(s2.tokens.last().kind, file, cs, i, e)));
    } else {
        lemma_operator_kind(cs, i);
        let (kind, e2) = operator(cs, i);
        match kind {
            Some(k) => {
                lemma_push_shape(file, cs, s.tokens, k, i, e2);
            },
            None => {
                assert(s2.tokens == s.tokens);
            },
        }
    }
}

proof fn lemma_shape_indentation(file: FileId, cs: Seq<char>, s: LexState)
    requires
        utf8_len(cs) <= usize::MAX,
        lex_invariant(file, cs, s),
        line_start_invariant(s),
        s.at_line_start,
        stream_shape(file, cs, s.tokens),
    ensures
        stream_shape(file, cs, lex_indentation(file, cs, s).tokens),
{
    let i = s.idx;
    let j = indentation_end(cs, i);
    lemma_indentation_end(cs, i);
    let width = crate::lexer_spec::indentation_width(cs, i, j);
    if !(j >= cs.len() || cs[j] == '\n' || cs[j] == '\r' || cs[j] == '#') {
        if width > innermost(s.indents) {
            lemma_push_shape(file, cs, s.tokens, TokenKind::Indent, i, j);
        } else if width < innermost(s.indents) {
            let kept = close_deeper(s.indents, width);
            lemma_close_deeper(s.indents, width);
            let n = (s.indents.len() - kept.len()) as nat;
            if s.tokens.len() == 0 {
                assert(count_kind(s.tokens, TokenKind::Indent) == 0);
                assert(count_kind(s.tokens, TokenKind::Dedent) == 0);
                assert(s.indents.len() == 1);
                assert(innermost(s.indents) == s.indents[0]);
            }
            lemma_dedents_shape(file, cs, s.tokens, i, j, n);
        }
    }
}

proof fn lemma_shape_from(file: FileId, cs: Seq<char>, s: LexState)
    requires
        utf8_len(cs) <= usize::MAX,
        lex_invariant(file, cs, s),
        line_start_invariant(s),
        stream_shape(file, cs, s.tokens),
    ensures
        stream_shape(file, cs, lex_from(file, cs, s).tokens),
    decreases cs.len() - s.idx,
{
    if s.idx < cs.len() {
        lemma_lex_step_advances(file, cs, s);
        lemma_lex_step_invariant(file, cs, s);
        lemma_line_start_step(file, cs, s);
        if s.at_line_start && s.nesting == 0 {
            lemma_shape_indentation(file, cs, s);
            lemma_lex_indentation_invariant(file, cs, s);
            let s1 = lex_indentation(file, cs, s);
            if s1.idx < cs.len() {
                lemma_shape_element(file, cs, s1);
            }
        } else {
            lemma_shape_element(file, cs, s);
        }
        lemma_shape_from(file, cs, lex_step(file, cs, s));
    }
}

/// Where the tokens lie: every token starts and ends on character
/// boundaries; consecutive tokens do not overlap, except runs of `Dedent`s
/// with one span; a `Dedent` inside the source follows a `Newline` or a
/// `Dedent`; and a layout token (`Newline`, `Indent`, `Dedent`) that starts
/// inside the source is outside brackets.
pub proof fn lex_token_placement(file: FileId, cs: Seq<char>)
    requires
        utf8_len(cs) <= usize::MAX,
    ensures
        spans_apart(file, cs, lex_source(file, cs).tokens),
        dedents_follow_line_breaks(lex_source(file, cs).tokens, utf8_len(cs) as int),
        layout_in_source_at_depth_zero(lex_source(file, cs).tokens, utf8_len(cs) as int),
{
    let s0 = initial_state();
    assert(count_kind(s0.tokens, TokenKind::Indent) == 0);
    assert(count_kind(s0.tokens, TokenKind::Dedent) == 0);
    assert(count_kind(s0.tokens, TokenKind::Eof) == 0);
    lemma_lex_from_invariant(file, cs, s0);
    lemma_shape_from(file, cs, s0);
    let s = lex_from(file, cs, s0);
    let n = cs.len() as int;
    lemma_offsets_fit(cs, n);
    lemma_span_of(file, cs, n, n);
    let open = if s.indents.len() > 1 {
        (s.indents.len() - 1) as nat
    } else {
        0
    };
    let d = token_of(TokenKind::Dedent, file, cs, n, n);
    let eof = token_of(TokenKind::Eof, file, cs, n, n);
    let more = copies(d, open) + seq![eof];
    let all = lex_source(file, cs).tokens;
    assert(all =~= s.tokens + more);
    let bound = utf8_len(cs) as int;
    assert(on_char_boundaries(file, cs, span_of(file, cs, n, n)));
    assert forall|a: int| s.tokens.len() <= a < all.len() implies (#[trigger] all[a]).span
        == span_of(file, cs, n, n) by {
        if a < s.tokens.len() + open {
            assert(all[a] == d);
        } else {
            assert(all[a] == eof);
        }
    }
    assert forall|a: int| 0 <= a < all.len() implies on_char_boundaries(file, cs, (
    #[trigger] all[a]).span) by {
        if a < s.tokens.len() {
            assert(all[a] == s.tokens[a]);
        }
    }
    assert forall|a: int| 0 <= a < all.len() - 1 implies #[trigger] apart_at(all, a) by {
        if a + 1 < s.tokens.len() {
            assert(all[a] == s.tokens[a]);
            assert(all[a + 1] == s.tokens[a + 1]);
            assert(apart_at(s.tokens, a));
        } else if a + 1 == s.tokens.len() {
            assert(all[a] == s.tokens[a]);
        } else if a + 1 < s.tokens.len() + open {
            assert(all[a] == d);
            assert(all[a + 1] == d);
        } else {
            assert(all[a + 1] == eof);
        }
    }
    assert forall|k: int| #[trigger] dedent_at(all, k) && all[k].span.start < bound implies k > 0
        && (all[k - 1].kind == TokenKind::Newline || all[k - 1].kind == TokenKind::Dedent) by {
        assert(all[k] == s.tokens[k]);
        assert(dedent_at(s.tokens, k));
        assert(all[k - 1] == s.tokens[k - 1]);
    }
    assert forall|a: int|
        0 <= a < all.len() && is_layout((#[trigger] all[a]).kind) && all[a].span.start < bound
            implies depth(all.take(a)) == 0 by {
        assert(all[a] == s.tokens[a]);
        assert(all.take(a) =~= s.tokens.take(a));
    }
}




/// The reserved words and the keyword each one spells.
pub proof fn keyword_table()
    ensures
        keyword("fn"@) == Some(TokenKind::Fn),
        keyword("def"@) == Some(TokenKind::Def),
        keyword("async"@) == Some(TokenKind::Async),
        keyword("newtype"@) == Some(TokenKind::Newtype),
        keyword("enum"@) == Some(TokenKind::Enum),
        keyword("trait"@) == Some(TokenKind::Trait),
        keyword("class"@) == Some(TokenKind::Class),
        keyword("unsafe"@) == Some(TokenKind::Unsafe),
        keyword("if"@) == Some(TokenKind::If),
        keyword("else"@) == Some(TokenKind::Else),
        keyword("elif"@) == Some(TokenKind::Elif),
        keyword("let"@) == Some(TokenKind::Let),
        keyword("match"@) == Some(TokenKind::Match),
        keyword("case"@) == Some(TokenKind::Case),
        keyword("return"@) == Some(TokenKind::Return),
        keyword("raise"@) == Some(TokenKind::Raise),
        keyword("pass"@) == Some(TokenKind::Pass),
        keyword("break"@) == Some(TokenKind::Break),
        keyword("continue"@) == Some(TokenKind::Continue),
        keyword("while"@) == Some(TokenKind::While),
        keyword("for"@) == Some(TokenKind::For),
        keyword("in"@) == Some(TokenKind::In),
        keyword("try"@) == Some(TokenKind::Try),
        keyword("except"@) == Some(TokenKind::Except),
        keyword("finally"@) == Some(TokenKind::Finally),
        keyword("with"@) == Some(TokenKind::With),
        keyword("as"@) == Some(TokenKind::As),
        keyword("import"@) == Some(TokenKind::Import),
        keyword("from"@) == Some(TokenKind::From),
        keyword("await"@) == Some(TokenKind::Await),
        keyword("True"@) == Some(TokenKind::True),
        keyword("False"@) == Some(TokenKind::False),
        keyword("None"@) == Some(TokenKind::NoneKeyword),
        keyword("and"@) == Some(TokenKind::And),
        keyword("or"@) == Some(TokenKind::Or),
        keyword("not"@) == Some(TokenKind::Not),
{
    reveal_strlit("fn");
    assert("fn"@.len() == 2);
    reveal_strlit("def");
    assert("def"@.len() == 3);
    reveal_strlit("async");
    assert("async"@.len() == 5);
    reveal_strlit("newtype");
    assert("newtype"@.len() == 7);
    reveal_strlit("enum");
    assert("enum"@.len() == 4);
    reveal_strlit("trait");
    assert("trait"@.len() == 5);
    reveal_strlit("class");
    assert("class"@.len() == 5);
    reveal_strlit("unsafe");
    assert("unsafe"@.len() == 6);
    reveal_strlit("if");
    assert("if"@.len() == 2);
    reveal_strlit("else");
    assert("else"@.len() == 4);
    reveal_strlit("elif");
    assert("elif"@.len() == 4);
    reveal_strlit("let");
    assert("let"@.len() == 3);
    reveal_strlit("match");
    assert("match"@.len() == 5);
    reveal_strlit("case");
    assert("case"@.len() == 4);
    reveal_strlit("return");
    assert("return"@.len() == 6);
    reveal_strlit("raise");
    assert("raise"@.len() == 5);
    reveal_strlit("pass");
    assert("pass"@.len() == 4);
    reveal_strlit("break");
    assert("break"@.len() == 5);
    reveal_strlit("continue");
    assert("continue"@.len() == 8);
    reveal_strlit("while");
    assert("while"@.len() == 5);
    reveal_strlit("for");
    assert("for"@.len() == 3);
    reveal_strlit("in");
    assert("in"@.len() == 2);
    reveal_strlit("try");
    assert("try"@.len() == 3);
    reveal_strlit("except");
    assert("except"@.len() == 6);
    reveal_strlit("finally");
    assert("finally"@.len() == 7);
    reveal_strlit("with");
    assert("with"@.len() == 4);
    reveal_strlit("as");
    assert("as"@.len() == 2);
    reveal_strlit("import");
    assert("import"@.len() == 6);
    reveal_strlit("from");
    assert("from"@.len() == 4);
    reveal_strlit("await");
    assert("await"@.len() == 5);
    reveal_strlit("True");
    assert("True"@.len() == 4);
    reveal_strlit("False");
    assert("False"@.len() == 5);
    reveal_strlit("None");
    assert("None"@.len() == 4);
    reveal_strlit("and");
    assert("and"@.len() == 3);
    reveal_strlit("or");
    assert("or"@.len() == 2);
    reveal_strlit("not");
    assert("not"@.len() == 3);
    assert(keyword("fn"@) == Some(TokenKind::Fn));
    assert(keyword("def"@) == Some(TokenKind::Def));
    assert(keyword("async"@) == Some(TokenKind::Async));
    assert(keyword("newtype"@) == Some(TokenKind::Newtype));
    assert(keyword("enum"@) == Some(TokenKind::Enum));
    assert(keyword("trait"@) == Some(TokenKind::Trait)) by {
        assert("trait"@[0] != "async"@[0]);
    }
    assert(keyword("class"@) == Some(TokenKind::Class)) by {
        assert("class"@[0] != "async"@[0]);
        assert("class"@[0] != "trait"@[0]);
    }
    assert(keyword("unsafe"@) == Some(TokenKind::Unsafe));
    assert(keyword("if"@) == Some(TokenKind::If)) by {
        assert("if"@[0] != "fn"@[0]);
    }
    assert(keyword("else"@) == Some(TokenKind::Else)) by {
        assert("else"@[1] != "enum"@[1]);
    }
    assert(keyword("elif"@) == Some(TokenKind::Elif)) by {
        assert("elif"@[1] != "enum"@[1]);
        assert("elif"@[2] != "else"@[2]);
    }
    assert(keyword("let"@) == Some(TokenKind::Let)) by {
        assert("let"@[0] != "def"@[0]);
    }
    assert(keyword("match"@) == Some(TokenKind::Match)) by {
        assert("match"@[0] != "async"@[0]);
        assert("match"@[0] != "trait"@[0]);
        assert("match"@[0] != "class"@[0]);
    }
    assert(keyword("case"@) == Some(TokenKind::Case)) by {
        assert("case"@[0] != "enum"@[0]);
        assert("case"@[0] != "else"@[0]);
        assert("case"@[0] != "elif"@[0]);
    }
    assert(keyword("return"@) == Some(TokenKind::Return)) by {
        assert("return"@[0] != "unsafe"@[0]);
    }
    assert(keyword("raise"@) == Some(TokenKind::Raise)) by {
        assert("raise"@[0] != "async"@[0]);
        assert("raise"@[0] != "trait"@[0]);
        assert("raise"@[0] != "class"@[0]);
        assert("raise"@[0] != "match"@[0]);
    }
    assert(keyword("pass"@) == Some(TokenKind::Pass)) by {
        assert("pass"@[0] != "enum"@[0]);
        assert("pass"@[0] != "else"@[0]);
        assert("pass"@[0] != "elif"@[0]);
        assert("pass"@[0] != "case"@[0]);
    }
    assert(keyword("break"@) == Some(TokenKind::Break)) by {
        assert("break"@[0] != "async"@[0]);
        assert("break"@[0] != "trait"@[0]);
        assert("break"@[0] != "class"@[0]);
        assert("break"@[0] != "match"@[0]);
        assert("break"@[0] != "raise"@[0]);
    }
    assert(keyword("continue"@) == Some(TokenKind::Continue));
    assert(keyword("while"@) == Some(TokenKind::While)) by {
        assert("while"@[0] != "async"@[0]);
        assert("while"@[0] != "trait"@[0]);
        assert("while"@[0] != "class"@[0]);
        assert("while"@[0] != "match"@[0]);
        assert("while"@[0] != "raise"@[0]);
        assert("while"@[0] != "break"@[0]);
    }
    assert(keyword("for"@) == Some(TokenKind::For)) by {
        assert("for"@[0] != "def"@[0]);
        assert("for"@[0] != "let"@[0]);
    }
    assert(keyword("in"@) == Some(TokenKind::In)) by {
        assert("in"@[0] != "fn"@[0]);
        assert("in"@[1] != "if"@[1]);
    }
    assert(keyword("try"@) == Some(TokenKind::Try)) by {
        assert("try"@[0] != "def"@[0]);
        assert("try"@[0] != "let"@[0]);
        assert("try"@[0] != "for"@[0]);
    }
    assert(keyword("except"@) == Some(TokenKind::Except)) by {
        assert("except"@[0] != "unsafe"@[0]);
        assert("except"@[0] != "return"@[0]);
    }
    assert(keyword("finally"@) == Some(TokenKind::Finally)) by {
        assert("finally"@[0] != "newtype"@[0]);
    }
    assert(keyword("with"@) == Some(TokenKind::With)) by {
        assert("with"@[0] != "enum"@[0]);
        assert("with"@[0] != "else"@[0]);
        assert("with"@[0] != "elif"@[0]);
        assert("with"@[0] != "case"@[0]);
        assert("with"@[0] != "pass"@[0]);
    }
    assert(keyword("as"@) == Some(TokenKind::As)) by {
        assert("as"@[0] != "fn"@[0]);
        assert("as"@[0] != "if"@[0]);
        assert("as"@[0] != "in"@[0]);
    }
    assert(keyword("import"@) == Some(TokenKind::Import)) by {
        assert("import"@[0] != "unsafe"@[0]);
        assert("import"@[0] != "return"@[0]);
        assert("import"@[0] != "except"@[0]);
    }
    assert(keyword("from"@) == Some(TokenKind::From)) by {
        assert("from"@[0] != "enum"@[0]);
        assert("from"@[0] != "else"@[0]);
        assert("from"@[0] != "elif"@[0]);
        assert("from"@[0] != "case"@[0]);
        assert("from"@[0] != "pass"@[0]);
        assert("from"@[0] != "with"@[0]);
    }
    assert(keyword("await"@) == Some(TokenKind::Await)) by {
        assert("await"@[1] != "async"@[1]);
        assert("await"@[0] != "trait"@[0]);
        assert("await"@[0] != "class"@[0]);
        assert("await"@[0] != "match"@[0]);
        assert("await"@[0] != "raise"@[0]);
        assert("await"@[0] != "break"@[0]);
        assert("await"@[0] != "while"@[0]);
    }
    assert(keyword("True"@) == Some(TokenKind::True)) by {
        assert("True"@[0] != "enum"@[0]);
        assert("True"@[0] != "else"@[0]);
        assert("True"@[0] != "elif"@[0]);
        assert("True"@[0] != "case"@[0]);
        assert("True"@[0] != "pass"@[0]);
        assert("True"@[0] != "with"@[0]);
        assert("True"@[0] != "from"@[0]);
    }
    assert(keyword("False"@) == Some(TokenKind::False)) by {
        assert("False"@[0] != "async"@[0]);
        assert("False"@[0] != "trait"@[0]);
        assert("False"@[0] != "class"@[0]);
        assert("False"@[0] != "match"@[0]);
        assert("False"@[0] != "raise"@[0]);
        assert("False"@[0] != "break"@[0]);
        assert("False"@[0] != "while"@[0]);
        assert("False"@[0] != "await"@[0]);
    }
    assert(keyword("None"@) == Some(TokenKind::NoneKeyword)) by {
        assert("None"@[0] != "enum"@[0]);
        assert("None"@[0] != "else"@[0]);
        assert("None"@[0] != "elif"@[0]);
        assert("None"@[0] != "case"@[0]);
        assert("None"@[0] != "pass"@[0]);
        assert("None"@[0] != "with"@[0]);
        assert("None"@[0] != "from"@[0]);
        assert("None"@[0] != "True"@[0]);
    }
    assert(keyword("and"@) == Some(TokenKind::And)) by {
        assert("and"@[0] != "def"@[0]);
        assert("and"@[0] != "let"@[0]);
        assert("and"@[0] != "for"@[0]);
        assert("and"@[0] != "try"@[0]);
    }
    assert(keyword("or"@) == Some(TokenKind::Or)) by {
        assert("or"@[0] != "fn"@[0]);
        assert("or"@[0] != "if"@[0]);
        assert("or"@[0] != "in"@[0]);
        assert("or"@[0] != "as"@[0]);
    }
    assert(keyword("not"@) == Some(TokenKind::Not)) by {
        assert("not"@[0] != "def"@[0]);
        assert("not"@[0] != "let"@[0]);
        assert("not"@[0] != "for"@[0]);
        assert("not"@[0] != "try"@[0]);
        assert("not"@[0] != "and"@[0]);
    }
}

/// Every reserved word is spelled as an identifier.
proof fn lemma_keywords_are_identifiers(w: Seq<char>)
    requires
        keyword(w) is Some,
    ensures
        is_identifier_text(w),
{
    if w == "fn"@ {
        reveal_strlit("fn");
    } else if w == "def"@ {
        reveal_strlit("def");
    } else if w == "async"@ {
        reveal_strlit("async");
    } else if w == "newtype"@ {
        reveal_strlit("newtype");
    } else if w == "enum"@ {
        reveal_strlit("enum");
    } else if w == "trait"@ {
        reveal_strlit("trait");
    } else if w == "class"@ {
        reveal_strlit("class");
    } else if w == "unsafe"@ {
        reveal_strlit("unsafe");
    } else if w == "if"@ {
        reveal_strlit("if");
    } else if w == "else"@ {
        reveal_strlit("else");
    } else if w == "elif"@ {
        reveal_strlit("elif");
    } else if w == "let"@ {
        reveal_strlit("let");
    } else if w == "match"@ {
        reveal_strlit("match");
    } else if w == "case"@ {
        reveal_strlit("case");
    } else if w == "return"@ {
        reveal_strlit("return");
    } else if w == "raise"@ {
        reveal_strlit("raise");
    } else if w == "pass"@ {
        reveal_strlit("pass");
    } else if w == "break"@ {
        reveal_strlit("break");
    } else if w == "continue"@ {
        reveal_strlit("continue");
    } else if w == "while"@ {
        reveal_strlit("while");
    } else if w == "for"@ {
        reveal_strlit("for");
    } else if w == "in"@ {
        reveal_strlit("in");
    } else if w == "try"@ {
        reveal_strlit("try");
    } else if w == "except"@ {
        reveal_strlit("except");
    } else if w == "finally"@ {
        reveal_strlit("finally");
    } else if w == "with"@ {
        reveal_strlit("with");
    } else if w == "as"@ {
        reveal_strlit("as");
    } else if w == "import"@ {
        reveal_strlit("import");
    } else if w == "from"@ {
        reveal_strlit("from");
    } else if w == "await"@ {
        reveal_strlit("await");
    } else if w == "True"@ {
        reveal_strlit("True");
    } else if w == "False"@ {
        reveal_strlit("False");
    } else if w == "None"@ {
        reveal_strlit("None");
    } else if w == "and"@ {
        reveal_strlit("and");
    } else if w == "or"@ {
        reveal_strlit("or");
    } else if w == "not"@ {
        reveal_strlit("not");
    }
}

/// A reserved word alone in a source lexes to one token of its keyword's
/// kind, spanning the word, then `Eof`; nothing is reported.
pub proof fn lex_reserved_word(file: FileId, w: Seq<char>, k: TokenKind)
    requires
        keyword(w) == Some(k),
    ensures
        lex_source(file, w).tokens == seq![
            token_of(k, file, w, 0, w.len() as int),
            token_of(TokenKind::Eof, file, w, w.len() as int, w.len() as int),
        ],
        lex_source(file, w).diagnostics.len() == 0,
{
    lemma_keywords_are_identifiers(w);
    lex_lone_identifier(file, w);
}


/// Scanning string contents over characters that are neither the quote nor
/// a backslash (nor, for a single-quoted string, a line break) moves on
/// without stopping.
proof fn lemma_scan_plain(cs: Seq<char>, q: char, triple: bool, a: int, b: int)
    requires
        0 <= a <= b <= cs.len(),
        forall|m: int|
            a <= m < b ==> #[trigger] cs[m] != q && cs[m] != '\\' && (triple || !(cs[m] == '\n'
                || cs[m] == '\r')),
    ensures
        crate::lexer_spec::string_scan(cs, q, triple, a) == crate::lexer_spec::string_scan(
            cs,
            q,
            triple,
            b,
        ),
    decreases b - a,
{
    if a < b {
        lemma_scan_plain(cs, q, triple, a + 1, b);
    }
}

/// A string literal that does not open with three quotes ends at the first
/// matching quote, when no backslash or line break comes before it: the
/// element read at the opening quote is one `String` token spanning both
/// quotes, and nothing is reported. So `""` followed by anything but a
/// third `"` is an empty string.
pub proof fn lex_closed_string(file: FileId, cs: Seq<char>, s: LexState, j: int)
    requires
        0 <= s.idx < j < cs.len(),
        cs[s.idx] == '"' || cs[s.idx] == '\'',
        cs[j] == cs[s.idx],
        forall|m: int|
            s.idx < m < j ==> #[trigger] cs[m] != cs[s.idx] && cs[m] != '\\' && cs[m] != '\n'
                && cs[m] != '\r',
        !(j == s.idx + 1 && j + 1 < cs.len() && cs[j + 1] == cs[s.idx]),
    ensures
        lex_element(file, cs, s) == (LexState {
            idx: j + 1,
            tokens: s.tokens.push(token_of(TokenKind::String, file, cs, s.idx, j + 1)),
            ..s
        }),
{
    let i = s.idx;
    if j > i + 1 {
        assert(cs[i + 1] != cs[i]);
    }
    assert(!crate::lexer_spec::opens_triple(cs, i));
    lemma_scan_plain(cs, cs[i], false, i + 1, j);
}

/// A literal that opens with three equal quotes ends at the next three of
/// them, when no quote or backslash comes before: one `String` token
/// spanning all six quotes and what lies between, and nothing is reported.
pub proof fn lex_triple_quoted_string(file: FileId, cs: Seq<char>, s: LexState, j: int)
    requires
        0 <= s.idx,
        s.idx + 3 <= j,
        j + 2 < cs.len(),
        cs[s.idx] == '"' || cs[s.idx] == '\'',
        cs[s.idx + 1] == cs[s.idx] && cs[s.idx + 2] == cs[s.idx],
        cs[j] == cs[s.idx] && cs[j + 1] == cs[s.idx] && cs[j + 2] == cs[s.idx],
        forall|m: int| s.idx + 3 <= m < j ==> #[trigger] cs[m] != cs[s.idx] && cs[m] != '\\',
    ensures
        lex_element(file, cs, s) == (LexState {
            idx: j + 3,
            tokens: s.tokens.push(token_of(TokenKind::String, file, cs, s.idx, j + 3)),
            ..s
        }),
{
    let i = s.idx;
    assert(crate::lexer_spec::opens_triple(cs, i));
    lemma_scan_plain(cs, cs[i], true, i + 3, j);
}

/// A string literal that reaches a line break or the end of the source
/// before its closing quote (with no backslash on the way) is reported as
/// unterminated over what was read, and gives no token.
pub proof fn lex_unterminated_string(file: FileId, cs: Seq<char>, s: LexState, j: int)
    requires
        0 <= s.idx < j <= cs.len(),
        cs[s.idx] == '"' || cs[s.idx] == '\'',
        forall|m: int|
            s.idx < m < j ==> #[trigger] cs[m] != cs[s.idx] && cs[m] != '\\' && cs[m] != '\n'
                && cs[m] != '\r',
        j == cs.len() || cs[j] == '\n' || cs[j] == '\r',
    ensures
        lex_element(file, cs, s) == (LexState {
            idx: j,
            diagnostics: s.diagnostics.push(
                error_of("RYL0003"@, "unterminated string literal"@, file, cs, s.idx, j),
            ),
            ..s
        }),
{
    let i = s.idx;
    if j > i + 1 {
        assert(cs[i + 1] != cs[i]);
    }
    assert(!crate::lexer_spec::opens_triple(cs, i));
    lemma_scan_plain(cs, cs[i], false, i + 1, j);
}


/// The operators and delimiters and the token kind each one spells, read
/// alone; a lone `!` spells none.
pub proof fn operator_table()
    ensures
        operator("+"@, 0) == (Some(TokenKind::Plus), 1int),
        operator("->"@, 0) == (Some(TokenKind::Arrow), 2int),
        operator("-"@, 0) == (Some(TokenKind::Minus), 1int),
        operator("**"@, 0) == (Some(TokenKind::DoubleStar), 2int),
        operator("*"@, 0) == (Some(TokenKind::Star), 1int),
        operator("//"@, 0) == (Some(TokenKind::DoubleSlash), 2int),
        operator("/"@, 0) == (Some(TokenKind::Slash), 1int),
        operator("%"@, 0) == (Some(TokenKind::Percent), 1int),
        operator("@"@, 0) == (Some(TokenKind::At), 1int),
        operator("|"@, 0) == (Some(TokenKind::Pipe), 1int),
        operator("&"@, 0) == (Some(TokenKind::Ampersand), 1int),
        operator("^"@, 0) == (Some(TokenKind::Caret), 1int),
        operator("~"@, 0) == (Some(TokenKind::Tilde), 1int),
        operator("<<"@, 0) == (Some(TokenKind::LeftShift), 2int),
        operator("<="@, 0) == (Some(TokenKind::LessEq), 2int),
        operator("<"@, 0) == (Some(TokenKind::Less), 1int),
        operator(">>"@, 0) == (Some(TokenKind::RightShift), 2int),
        operator(">="@, 0) == (Some(TokenKind::GreaterEq), 2int),
        operator(">"@, 0) == (Some(TokenKind::Greater), 1int),
        operator(":="@, 0) == (Some(TokenKind::Walrus), 2int),
        operator(":"@, 0) == (Some(TokenKind::Colon), 1int),
        operator("=="@, 0) == (Some(TokenKind::EqEq), 2int),
        operator("="@, 0) == (Some(TokenKind::Assign), 1int),
        operator("!="@, 0) == (Some(TokenKind::NotEq), 2int),
        operator("?"@, 0) == (Some(TokenKind::Question), 1int),
        operator(","@, 0) == (Some(TokenKind::Comma), 1int),
        operator("."@, 0) == (Some(TokenKind::Dot), 1int),
        operator(";"@, 0) == (Some(TokenKind::Semicolon), 1int),
        operator("("@, 0) == (Some(TokenKind::LParen), 1int),
        operator(")"@, 0) == (Some(TokenKind::RParen), 1int),
        operator("["@, 0) == (Some(TokenKind::LBracket), 1int),
        operator("]"@, 0) == (Some(TokenKind::RBracket), 1int),
        operator("{"@, 0) == (Some(TokenKind::LBrace), 1int),
        operator("}"@, 0) == (Some(TokenKind::RBrace), 1int),
        operator("!"@, 0) == (Option::<TokenKind>::None, 1int),
{
    reveal_strlit("+");
    reveal_strlit("->");
    reveal_strlit("-");
    reveal_strlit("**");
    reveal_strlit("*");
    reveal_strlit("//");
    reveal_strlit("/");
    reveal_strlit("%");
    reveal_strlit("@");
    reveal_strlit("|");
    reveal_strlit("&");
    reveal_strlit("^");
    reveal_strlit("~");
    reveal_strlit("<<");
    reveal_strlit("<=");
    reveal_strlit("<");
    reveal_strlit(">>");
    reveal_strlit(">=");
    reveal_strlit(">");
    reveal_strlit(":=");
    reveal_strlit(":");
    reveal_strlit("==");
    reveal_strlit("=");
    reveal_strlit("!=");
    reveal_strlit("?");
    reveal_strlit(",");
    reveal_strlit(".");
    reveal_strlit(";");
    reveal_strlit("(");
    reveal_strlit(")");
    reveal_strlit("[");
    reveal_strlit("]");
    reveal_strlit("{");
    reveal_strlit("}");
    reveal_strlit("!");
}

} // verus!
