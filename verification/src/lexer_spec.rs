//! What the lexer computes, as functions on the characters of the source.
//!
//! The lexer walks the characters from left to right keeping a small
//! state: whether it stands at the start of a logical line, how deeply it is
//! nested in brackets, and the stack of open indentation widths. Each step
//! reads one lexical element (white space, a comment, a line break, a
//! number, a string, a name or an operator) and, at the start of a logical
//! line outside brackets, first measures the indentation.
use vstd::prelude::*;
use crate::ast::{DiagnosticView, FileId, Span};
use crate::text::{byte_offset, is_alphabetic, is_alphanumeric};
use crate::token::{keyword, LexOutputView, Token, TokenKind};

verus! {

/// The state between two steps of the lexer.
pub struct LexState {
    /// Character position of the next unread character.
    pub idx: int,
    pub at_line_start: bool,
    /// Number of open brackets (never below zero).
    pub nesting: nat,
    /// Stack of indentation widths; the bottom is 0.
    pub indents: Seq<usize>,
    pub tokens: Seq<Token>,
    pub diagnostics: Seq<DiagnosticView>,
}

/// The byte span of the characters `cs[i..j]`.
pub open spec fn span_of(file: FileId, cs: Seq<char>, i: int, j: int) -> Span {
    Span { file, start: byte_offset(cs, i) as usize, end: byte_offset(cs, j) as usize }
}

pub open spec fn token_of(kind: TokenKind, file: FileId, cs: Seq<char>, i: int, j: int) -> Token {
    Token { kind, span: span_of(file, cs, i, j) }
}

pub open spec fn error_of(
    code: Seq<char>,
    message: Seq<char>,
    file: FileId,
    cs: Seq<char>,
    i: int,
    j: int,
) -> DiagnosticView {
    DiagnosticView { code, message, span: span_of(file, cs, i, j) }
}

/// `RYL0001` for the tab at position `i`.
pub open spec fn tab_error(file: FileId, cs: Seq<char>, i: int) -> DiagnosticView {
    error_of("RYL0001"@, "tabs are not allowed in Rustype v0 source"@, file, cs, i, i + 1)
}

pub open spec fn starts_identifier(c: char) -> bool {
    c == '_' || is_alphabetic(c)
}

pub open spec fn continues_identifier(c: char) -> bool {
    c == '_' || is_alphanumeric(c)
}

pub open spec fn is_ascii_alphanumeric(c: char) -> bool {
    ('0' <= c && c <= '9') || ('a' <= c && c <= 'z') || ('A' <= c && c <= 'Z')
}

pub open spec fn is_number_continue(c: char) -> bool {
    is_ascii_alphanumeric(c) || c == '_' || c == '.'
}

pub open spec fn is_indentation_char(c: char) -> bool {
    c == ' ' || c == '\x0c' || c == '\t'
}

pub open spec fn is_line_break(c: char) -> bool {
    c == '\n' || c == '\r'
}

/// First position at or after `i` that is not indentation (space, form feed or tab).
pub open spec fn indentation_end(cs: Seq<char>, i: int) -> int
    decreases cs.len() - i,
{
    if i < 0 || i >= cs.len() || !is_indentation_char(cs[i]) {
        i
    } else {
        indentation_end(cs, i + 1)
    }
}

/// First position at or after `i` that cannot continue an identifier.
pub open spec fn identifier_end(cs: Seq<char>, i: int) -> int
    decreases cs.len() - i,
{
    if i < 0 || i >= cs.len() || !continues_identifier(cs[i]) {
        i
    } else {
        identifier_end(cs, i + 1)
    }
}

/// The number starting at `start` is hexadecimal (`0x` or `0X`).
pub open spec fn is_hex_number(cs: Seq<char>, start: int) -> bool {
    0 <= start && start + 1 < cs.len() && cs[start] == '0' && (cs[start + 1] == 'x' || cs[start
        + 1] == 'X')
}

/// The `+` or `-` at `k` is the sign of the exponent of the number starting
/// at `start`, as in `1.5e-3`: it follows an `e` or `E` of a number that is
/// not hexadecimal, and a digit follows it.
pub open spec fn is_exponent_sign(cs: Seq<char>, start: int, k: int) -> bool {
    &&& start < k
    &&& k + 1 < cs.len()
    &&& (cs[k] == '+' || cs[k] == '-')
    &&& (cs[k - 1] == 'e' || cs[k - 1] == 'E')
    &&& '0' <= cs[k + 1] && cs[k + 1] <= '9'
    &&& !is_hex_number(cs, start)
}

/// First position at or after `i` that cannot continue the number starting at `start`.
pub open spec fn number_end(cs: Seq<char>, start: int, i: int) -> int
    decreases cs.len() - i,
{
    if i < 0 || i >= cs.len() || !(is_number_continue(cs[i]) || is_exponent_sign(cs, start, i)) {
        i
    } else {
        number_end(cs, start, i + 1)
    }
}

/// First line break at or after `i`, or the end of the source.
pub open spec fn line_end(cs: Seq<char>, i: int) -> int
    decreases cs.len() - i,
{
    if i < 0 || i >= cs.len() || is_line_break(cs[i]) {
        i
    } else {
        line_end(cs, i + 1)
    }
}

/// Width of the indentation `cs[i..j]`: spaces and tabs count one, form feeds nothing.
pub open spec fn indentation_width(cs: Seq<char>, i: int, j: int) -> nat
    decreases j - i,
{
    if j <= i {
        0
    } else {
        indentation_width(cs, i, j - 1) + if cs[j - 1] == ' ' || cs[j - 1] == '\t' {
            1nat
        } else {
            0nat
        }
    }
}

/// One `RYL0001` for each tab of `cs[i..j]`, in order.
pub open spec fn tab_errors(file: FileId, cs: Seq<char>, i: int, j: int) -> Seq<DiagnosticView>
    decreases j - i,
{
    if j <= i {
        Seq::empty()
    } else {
        tab_errors(file, cs, i, j - 1) + if cs[j - 1] == '\t' {
            seq![tab_error(file, cs, j - 1)]
        } else {
            Seq::empty()
        }
    }
}

/// The innermost indentation width (0 for an empty stack).
pub open spec fn innermost(indents: Seq<usize>) -> usize {
    if indents.len() > 0 {
        indents.last()
    } else {
        0
    }
}

/// The stack left after closing every indentation deeper than `width`.
pub open spec fn close_deeper(indents: Seq<usize>, width: nat) -> Seq<usize>
    decreases indents.len(),
{
    if indents.len() > 0 && indents.last() > width {
        close_deeper(indents.drop_last(), width)
    } else {
        indents
    }
}

/// `n` copies of `t`.
pub open spec fn copies(t: Token, n: nat) -> Seq<Token> {
    Seq::new(n, |k: int| t)
}

/// One more copy is one more element at the end.
pub(crate) proof fn lemma_copies_push(prefix: Seq<Token>, t: Token, n: nat)
    ensures
        (prefix + copies(t, n)).push(t) == prefix + copies(t, n + 1),
{
    assert(copies(t, n + 1) =~= copies(t, n).push(t));
    assert((prefix + copies(t, n)).push(t) =~= prefix + copies(t, n).push(t));
}

/// Measures the indentation at the start of a logical line.
///
/// A line holding only indentation, a comment or nothing leaves the stack
/// alone. A deeper line opens one level (`Indent`); a shallower one closes
/// every deeper level (one `Dedent` each) and reports `RYL0002` when it does
/// not land on an open level.
pub open spec fn lex_indentation(file: FileId, cs: Seq<char>, s: LexState) -> LexState {
    let i = s.idx;
    let j = indentation_end(cs, i);
    let width = indentation_width(cs, i, j);
    let diagnostics = s.diagnostics + tab_errors(file, cs, i, j);
    let base = LexState { idx: j, at_line_start: false, diagnostics, ..s };
    if j >= cs.len() || cs[j] == '\n' || cs[j] == '\r' || cs[j] == '#' {
        base
    } else if width > innermost(s.indents) {
        LexState {
            indents: s.indents.push(width as usize),
            tokens: s.tokens.push(token_of(TokenKind::Indent, file, cs, i, j)),
            ..base
        }
    } else if width < innermost(s.indents) {
        let kept = close_deeper(s.indents, width);
        LexState {
            indents: kept,
            tokens: s.tokens + copies(
                token_of(TokenKind::Dedent, file, cs, i, j),
                (s.indents.len() - kept.len()) as nat,
            ),
            diagnostics: if innermost(kept) != width {
                diagnostics.push(
                    error_of("RYL0002"@, "inconsistent indentation"@, file, cs, i, j),
                )
            } else {
                diagnostics
            },
            ..base
        }
    } else {
        base
    }
}

/// End of the line break starting at `i` (`\r\n` counts as one).
pub open spec fn newline_end(cs: Seq<char>, i: int) -> int {
    if cs[i] == '\r' && i + 1 < cs.len() && cs[i + 1] == '\n' {
        i + 2
    } else {
        i + 1
    }
}

/// Scans string contents from `j` for a closing `quote` (three of them when
/// `triple`), skipping the character after each backslash. Gives the end
/// position and whether the string was closed. A single-quoted string stops,
/// unclosed, at a line break.
pub open spec fn string_scan(cs: Seq<char>, quote: char, triple: bool, j: int) -> (int, bool)
    decreases cs.len() - j,
{
    if j < 0 || j >= cs.len() {
        (j, false)
    } else if cs[j] == '\\' {
        if j + 1 < cs.len() {
            string_scan(cs, quote, triple, j + 2)
        } else {
            string_scan(cs, quote, triple, j + 1)
        }
    } else if cs[j] == quote {
        if triple {
            if j + 2 < cs.len() && cs[j + 1] == quote && cs[j + 2] == quote {
                (j + 3, true)
            } else {
                string_scan(cs, quote, triple, j + 1)
            }
        } else {
            (j + 1, true)
        }
    } else if !triple && is_line_break(cs[j]) {
        (j, false)
    } else {
        string_scan(cs, quote, triple, j + 1)
    }
}

/// Whether the string starting at `i` opens with three quotes.
pub open spec fn opens_triple(cs: Seq<char>, i: int) -> bool {
    i + 2 < cs.len() && cs[i + 1] == cs[i] && cs[i + 2] == cs[i]
}

/// End and closedness of the string literal starting at `i`.
pub open spec fn string_literal(cs: Seq<char>, i: int) -> (int, bool) {
    let triple = opens_triple(cs, i);
    string_scan(cs, cs[i], triple, if triple { i + 3 } else { i + 1 })
}

pub open spec fn next_is(cs: Seq<char>, i: int, c: char) -> bool {
    0 <= i < cs.len() && cs[i] == c
}

/// The operator or delimiter starting at `i`, and where it ends. `None` for a
/// character that starts none (which then spans that one character).
pub open spec fn operator(cs: Seq<char>, i: int) -> (Option<TokenKind>, int) {
    let c = cs[i];
    let n = i + 1;
    if c == '+' {
        (Some(TokenKind::Plus), n)
    } else if c == '-' {
        if next_is(cs, n, '>') {
            (Some(TokenKind::Arrow), n + 1)
        } else {
            (Some(TokenKind::Minus), n)
        }
    } else if c == '*' {
        if next_is(cs, n, '*') {
            (Some(TokenKind::DoubleStar), n + 1)
        } else {
            (Some(TokenKind::Star), n)
        }
    } else if c == '/' {
        if next_is(cs, n, '/') {
            (Some(TokenKind::DoubleSlash), n + 1)
        } else {
            (Some(TokenKind::Slash), n)
        }
    } else if c == '%' {
        (Some(TokenKind::Percent), n)
    } else if c == '@' {
        (Some(TokenKind::At), n)
    } else if c == '|' {
        (Some(TokenKind::Pipe), n)
    } else if c == '&' {
        (Some(TokenKind::Ampersand), n)
    } else if c == '^' {
        (Some(TokenKind::Caret), n)
    } else if c == '~' {
        (Some(TokenKind::Tilde), n)
    } else if c == '<' {
        if next_is(cs, n, '<') {
            (Some(TokenKind::LeftShift), n + 1)
        } else if next_is(cs, n, '=') {
            (Some(TokenKind::LessEq), n + 1)
        } else {
            (Some(TokenKind::Less), n)
        }
    } else if c == '>' {
        if next_is(cs, n, '>') {
            (Some(TokenKind::RightShift), n + 1)
        } else if next_is(cs, n, '=') {
            (Some(TokenKind::GreaterEq), n + 1)
        } else {
            (Some(TokenKind::Greater), n)
        }
    } else if c == ':' {
        if next_is(cs, n, '=') {
            (Some(TokenKind::Walrus), n + 1)
        } else {
            (Some(TokenKind::Colon), n)
        }
    } else if c == '=' {
        if next_is(cs, n, '=') {
            (Some(TokenKind::EqEq), n + 1)
        } else {
            (Some(TokenKind::Assign), n)
        }
    } else if c == '!' {
        if next_is(cs, n, '=') {
            (Some(TokenKind::NotEq), n + 1)
        } else {
            (None, n)
        }
    } else if c == '?' {
        (Some(TokenKind::Question), n)
    } else if c == ',' {
        (Some(TokenKind::Comma), n)
    } else if c == '.' {
        (Some(TokenKind::Dot), n)
    } else if c == ';' {
        (Some(TokenKind::Semicolon), n)
    } else if c == '(' {
        (Some(TokenKind::LParen), n)
    } else if c == ')' {
        (Some(TokenKind::RParen), n)
    } else if c == '[' {
        (Some(TokenKind::LBracket), n)
    } else if c == ']' {
        (Some(TokenKind::RBracket), n)
    } else if c == '{' {
        (Some(TokenKind::LBrace), n)
    } else if c == '}' {
        (Some(TokenKind::RBrace), n)
    } else {
        (None, n)
    }
}

pub open spec fn is_opening(kind: TokenKind) -> bool {
    kind == TokenKind::LParen || kind == TokenKind::LBracket || kind == TokenKind::LBrace
}

pub open spec fn is_closing(kind: TokenKind) -> bool {
    kind == TokenKind::RParen || kind == TokenKind::RBracket || kind == TokenKind::RBrace
}

/// Bracket depth after a token: opening brackets add one, closing ones
/// remove one but never go below zero.
pub open spec fn nesting_after(kind: TokenKind, nesting: nat) -> nat {
    if is_opening(kind) {
        nesting + 1
    } else if is_closing(kind) {
        if nesting > 0 {
            (nesting - 1) as nat
        } else {
            0
        }
    } else {
        nesting
    }
}

/// Reads the lexical element at `s.idx` (which must be inside the source).
///
/// A line break ends a logical line only outside brackets: inside them it
/// yields no `Newline`, and the next physical line continues the logical one.
pub open spec fn lex_element(file: FileId, cs: Seq<char>, s: LexState) -> LexState {
    let i = s.idx;
    let c = cs[i];
    if c == ' ' || c == '\x0c' {
        LexState { idx: i + 1, ..s }
    } else if c == '\t' {
        LexState { idx: i + 1, diagnostics: s.diagnostics.push(tab_error(file, cs, i)), ..s }
    } else if c == '#' {
        LexState { idx: line_end(cs, i), ..s }
    } else if is_line_break(c) {
        let e = newline_end(cs, i);
        if s.nesting == 0 {
            LexState {
                idx: e,
                at_line_start: true,
                tokens: s.tokens.push(token_of(TokenKind::Newline, file, cs, i, e)),
                ..s
            }
        } else {
            LexState { idx: e, ..s }
        }
    } else if '0' <= c && c <= '9' {
        let e = number_end(cs, i, i + 1);
        LexState { idx: e, tokens: s.tokens.push(token_of(TokenKind::Number, file, cs, i, e)), ..s }
    } else if c == '\'' || c == '"' {
        let (e, closed) = string_literal(cs, i);
        if closed {
            LexState {
                idx: e,
                tokens: s.tokens.push(token_of(TokenKind::String, file, cs, i, e)),
                ..s
            }
        } else {
            LexState {
                idx: e,
                diagnostics: s.diagnostics.push(
                    error_of("RYL0003"@, "unterminated string literal"@, file, cs, i, e),
                ),
                ..s
            }
        }
    } else if starts_identifier(c) {
        let e = identifier_end(cs, i + 1);
        let kind = match keyword(cs.subrange(i, e)) {
            Some(k) => k,
            None => TokenKind::Name,
        };
        LexState { idx: e, tokens: s.tokens.push(token_of(kind, file, cs, i, e)), ..s }
    } else {
        let (kind, e) = operator(cs, i);
        match kind {
            Some(k) => LexState {
                idx: e,
                nesting: nesting_after(k, s.nesting),
                tokens: s.tokens.push(token_of(k, file, cs, i, e)),
                ..s
            },
            None => LexState {
                idx: e,
                diagnostics: s.diagnostics.push(
                    error_of(
                        "RYL0004"@,
                        "unexpected character `"@.push(c).push('`'),
                        file,
                        cs,
                        i,
                        e,
                    ),
                ),
                ..s
            },
        }
    }
}

/// One step of the lexer: indentation first when a logical line starts
/// outside brackets, then one element if the source is not exhausted.
pub open spec fn lex_step(file: FileId, cs: Seq<char>, s: LexState) -> LexState {
    let s1 = if s.at_line_start && s.nesting == 0 {
        lex_indentation(file, cs, s)
    } else {
        s
    };
    if s1.idx >= cs.len() {
        s1
    } else {
        lex_element(file, cs, s1)
    }
}

/// The state reached by stepping from `s` to the end of the source.
pub open spec fn lex_from(file: FileId, cs: Seq<char>, s: LexState) -> LexState
    decreases cs.len() - s.idx,
{
    if s.idx < 0 || s.idx >= cs.len() {
        s
    } else {
        proof {
            lemma_lex_step_advances(file, cs, s);
        }
        lex_from(file, cs, lex_step(file, cs, s))
    }
}

/// The state before the first character.
pub open spec fn initial_state() -> LexState {
    LexState {
        idx: 0,
        at_line_start: true,
        nesting: 0,
        indents: seq![0usize],
        tokens: Seq::empty(),
        diagnostics: Seq::empty(),
    }
}

/// Closes the open indentation levels at the end of the source and appends `Eof`.
pub open spec fn finish(file: FileId, cs: Seq<char>, s: LexState) -> LexOutputView {
    let n = cs.len() as int;
    let open = if s.indents.len() > 1 {
        (s.indents.len() - 1) as nat
    } else {
        0
    };
    LexOutputView {
        tokens: s.tokens + copies(token_of(TokenKind::Dedent, file, cs, n, n), open) + seq![
            token_of(TokenKind::Eof, file, cs, n, n),
        ],
        diagnostics: s.diagnostics,
    }
}

/// The tokens and diagnostics of the source `cs` of file `file`.
pub open spec fn lex_source(file: FileId, cs: Seq<char>) -> LexOutputView {
    finish(file, cs, lex_from(file, cs, initial_state()))
}

pub(crate) proof fn lemma_indentation_end(cs: Seq<char>, i: int)
    requires
        0 <= i <= cs.len(),
    ensures
        i <= indentation_end(cs, i) <= cs.len(),
    decreases cs.len() - i,
{
    if i < cs.len() && is_indentation_char(cs[i]) {
        lemma_indentation_end(cs, i + 1);
    }
}

proof fn lemma_identifier_end(cs: Seq<char>, i: int)
    requires
        0 <= i <= cs.len(),
    ensures
        i <= identifier_end(cs, i) <= cs.len(),
    decreases cs.len() - i,
{
    if i < cs.len() && continues_identifier(cs[i]) {
        lemma_identifier_end(cs, i + 1);
    }
}

proof fn lemma_number_end(cs: Seq<char>, start: int, i: int)
    requires
        0 <= i <= cs.len(),
    ensures
        i <= number_end(cs, start, i) <= cs.len(),
    decreases cs.len() - i,
{
    if i < cs.len() && (is_number_continue(cs[i]) || is_exponent_sign(cs, start, i)) {
        lemma_number_end(cs, start, i + 1);
    }
}

proof fn lemma_line_end(cs: Seq<char>, i: int)
    requires
        0 <= i <= cs.len(),
    ensures
        i <= line_end(cs, i) <= cs.len(),
    decreases cs.len() - i,
{
    if i < cs.len() && !is_line_break(cs[i]) {
        lemma_line_end(cs, i + 1);
    }
}

proof fn lemma_string_scan(cs: Seq<char>, quote: char, triple: bool, j: int)
    requires
        0 <= j <= cs.len(),
    ensures
        j <= string_scan(cs, quote, triple, j).0 <= cs.len(),
    decreases cs.len() - j,
{
    if j < cs.len() {
        if cs[j] == '\\' {
            if j + 1 < cs.len() {
                lemma_string_scan(cs, quote, triple, j + 2);
            } else {
                lemma_string_scan(cs, quote, triple, j + 1);
            }
        } else if cs[j] == quote {
            if triple && !(j + 2 < cs.len() && cs[j + 1] == quote && cs[j + 2] == quote) {
                lemma_string_scan(cs, quote, triple, j + 1);
            }
        } else if !(!triple && is_line_break(cs[j])) {
            lemma_string_scan(cs, quote, triple, j + 1);
        }
    }
}

proof fn lemma_operator_end(cs: Seq<char>, i: int)
    requires
        0 <= i < cs.len(),
    ensures
        i + 1 <= operator(cs, i).1 <= cs.len(),
{
}

/// Reading one element moves forward by at least one character and stays in the source.
pub(crate) proof fn lemma_lex_element_advances(file: FileId, cs: Seq<char>, s: LexState)
    requires
        0 <= s.idx < cs.len(),
    ensures
        s.idx < lex_element(file, cs, s).idx <= cs.len(),
{
    let i = s.idx;
    lemma_line_end(cs, i);
    lemma_number_end(cs, i, i + 1);
    lemma_identifier_end(cs, i + 1);
    let triple = opens_triple(cs, i);
    lemma_string_scan(cs, cs[i], triple, if triple { i + 3 } else { i + 1 });
    assert(i < string_literal(cs, i).0 <= cs.len());
    lemma_operator_end(cs, i);
    lemma_line_end(cs, i + 1);
    if cs[i] == '#' {
        assert(line_end(cs, i) == line_end(cs, i + 1));
    }
}

pub proof fn lemma_lex_step_advances(file: FileId, cs: Seq<char>, s: LexState)
    requires
        0 <= s.idx < cs.len(),
    ensures
        s.idx < lex_step(file, cs, s).idx <= cs.len(),
{
    lemma_indentation_end(cs, s.idx);
    let s1 = if s.at_line_start && s.nesting == 0 {
        lex_indentation(file, cs, s)
    } else {
        s
    };
    if s1.idx < cs.len() {
        lemma_lex_element_advances(file, cs, s1);
    }
}

} // verus!
