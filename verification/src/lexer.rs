//! The lexer: turns Rustype source into tokens with byte spans, with
//! `Indent`/`Dedent` for significant indentation and lexical diagnostics.
use vstd::prelude::*;
use crate::ast::{Diagnostic, FileId, Span, diagnostics_view};
use crate::lexer_spec::{
    close_deeper, continues_identifier, copies, error_of, finish, identifier_end,
    indentation_end, indentation_width, initial_state, is_indentation_char, is_line_break,
    is_number_continue, lemma_copies_push, lemma_lex_step_advances, lex_element, lex_from,
    lex_indentation, lex_source, lex_step, line_end, nesting_after, next_is, number_end,
    is_hex_number,
    operator, starts_identifier, string_literal, string_scan, tab_error, tab_errors, token_of,
    LexState,
};
use crate::text::{
    byte_offset, char_is_alphabetic, char_is_alphanumeric, char_offsets, chars_of,
    lemma_utf8_len_encoding, owned, push_char,
};
use crate::token::{keyword_kind, LexOutput, Token, TokenKind};

verus! {

/// Lexes `source`, the text of file `file`.
#[must_use]
pub fn lex(file: FileId, source: &str) -> (out: LexOutput)
    ensures
        out@ == lex_source(file, source@),
{
    Lexer::new(file, source).run()
}

struct Lexer {
    file: FileId,
    chars: Vec<char>,
    /// `offsets[k]` is the byte offset of character position `k`.
    offsets: Vec<usize>,
    idx: usize,
    at_line_start: bool,
    nesting: usize,
    indents: Vec<usize>,
    tokens: Vec<Token>,
    diagnostics: Vec<Diagnostic>,
}

impl Lexer {
    spec fn wf(&self) -> bool {
        &&& self.offsets.len() == self.chars.len() + 1
        &&& forall|k: int|
            0 <= k <= self.chars.len() ==> self.offsets@[k] == byte_offset(self.chars@, k)
        &&& self.idx <= self.chars.len()
        &&& self.nesting <= self.idx
        &&& forall|k: int| 0 <= k < self.indents.len() ==> self.indents@[k] <= self.idx
    }

    spec fn state(&self) -> LexState {
        LexState {
            idx: self.idx as int,
            at_line_start: self.at_line_start,
            nesting: self.nesting as nat,
            indents: self.indents@,
            tokens: self.tokens@,
            diagnostics: diagnostics_view(self.diagnostics@),
        }
    }

    /// The file and the characters, which no step changes.
    spec fn same_source(&self, other: &Lexer) -> bool {
        &&& self.file == other.file
        &&& self.chars@ == other.chars@
        &&& self.offsets@ == other.offsets@
    }

    fn new(file: FileId, source: &str) -> (l: Self)
        ensures
            l.wf(),
            l.file == file,
            l.chars@ == source@,
            l.state() == initial_state(),
    {
        let chars = chars_of(source);
        let total = source.as_bytes().len();
        proof {
            lemma_utf8_len_encoding(source@);
        }
        let offsets = char_offsets(&chars, total);
        let l = Self {
            file,
            chars,
            offsets,
            idx: 0,
            at_line_start: true,
            nesting: 0,
            indents: vec![0],
            tokens: Vec::new(),
            diagnostics: Vec::new(),
        };
        assert(diagnostics_view(l.diagnostics@) =~= Seq::empty());
        assert(l.indents@ =~= seq![0usize]);
        assert(l.tokens@ =~= Seq::<Token>::empty());
        l
    }

    fn run(self) -> (out: LexOutput)
        requires
            self.wf(),
            self.state() == initial_state(),
        ensures
            out@ == lex_source(self.file, self.chars@),
    {
        let mut lexer = self;
        lexer.run_to_end()
    }

    fn run_to_end(&mut self) -> (out: LexOutput)
        requires
            old(self).wf(),
            old(self).state() == initial_state(),
        ensures
            out@ == lex_source(old(self).file, old(self).chars@),
    {
        let ghost file = self.file;
        let ghost cs = self.chars@;
        let ghost start = *self;
        while self.idx < self.chars.len()
            invariant
                self.wf(),
                self.same_source(&start),
                file == self.file,
                cs == self.chars@,
                lex_from(file, cs, self.state()) == lex_from(file, cs, initial_state()),
            decreases self.chars.len() - self.idx,
        {
            let ghost before = self.state();
            if self.at_line_start && self.nesting == 0 {
                self.lex_indentation();
            }
            if self.idx < self.chars.len() {
                self.lex_element();
            }
            assert(self.state() == lex_step(file, cs, before));
            proof {
                lemma_lex_step_advances(file, cs, before);
            }
        }
        let n = self.chars.len();
        let ghost s = self.state();
        let ghost dedent = token_of(TokenKind::Dedent, file, cs, n as int, n as int);
        while self.indents.len() > 1
            invariant
                self.wf(),
                self.same_source(&start),
                file == self.file,
                cs == self.chars@,
                n == cs.len(),
                dedent == token_of(TokenKind::Dedent, file, cs, n as int, n as int),
                self.indents.len() <= s.indents.len(),
                s.indents.len() >= 1 ==> self.indents.len() >= 1,
                self.tokens@ == s.tokens + copies(dedent, (s.indents.len() - self.indents.len()) as nat),
                diagnostics_view(self.diagnostics@) == s.diagnostics,
            decreases self.indents.len(),
        {
            self.indents.pop();
            proof {
                lemma_copies_push(s.tokens, dedent, (s.indents.len() - self.indents.len() - 1) as nat);
            }
            self.push(TokenKind::Dedent, n, n);

        }
        self.push(TokenKind::Eof, n, n);
        assert(s.indents.len() > 1 ==> self.indents.len() == 1);
        assert(s.indents.len() <= 1 ==> self.indents.len() == s.indents.len());
        assert(self.tokens@ =~= finish(file, cs, s).tokens);
        let mut tokens: Vec<Token> = Vec::new();
        let mut diagnostics: Vec<Diagnostic> = Vec::new();
        std::mem::swap(&mut tokens, &mut self.tokens);
        std::mem::swap(&mut diagnostics, &mut self.diagnostics);
        LexOutput { tokens, diagnostics }
    }

    /// The character at the current position, if any.
    fn peek_char(&self) -> (c: Option<char>)
        requires
            self.wf(),
        ensures
            c == if self.idx < self.chars.len() {
                Some(self.chars@[self.idx as int])
            } else {
                None
            },
    {
        if self.idx < self.chars.len() {
            Some(self.chars[self.idx])
        } else {
            None
        }
    }

    /// Whether the character `n` places after the current one is `c`.
    fn peek_nth_is(&self, n: usize, c: char) -> (b: bool)
        requires
            self.wf(),
        ensures
            b == next_is(self.chars@, self.idx + n, c),
    {
        n < self.chars.len() - self.idx && self.chars[self.idx + n] == c
    }

    /// Moves past the current character.
    fn bump_char(&mut self)
        requires
            old(self).wf(),
            old(self).idx < old(self).chars.len(),
        ensures
            final(self).wf(),
            final(self).same_source(old(self)),
            final(self).state() == (LexState { idx: old(self).idx + 1, ..old(self).state() }),
    {
        self.idx = self.idx + 1;
    }

    /// Moves past the current character when it is `expected`.
    fn take_if(&mut self, expected: char) -> (taken: bool)
        requires
            old(self).wf(),
        ensures
            final(self).wf(),
            final(self).same_source(old(self)),
            taken == next_is(old(self).chars@, old(self).idx as int, expected),
            final(self).state() == (LexState {
                idx: old(self).idx + if taken {
                    1int
                } else {
                    0int
                },
                ..old(self).state()
            }),
    {
        if self.peek_nth_is(0, expected) {
            self.bump_char();
            true
        } else {
            false
        }
    }

    /// Appends a token spanning the characters `start..end`.
    fn push(&mut self, kind: TokenKind, start: usize, end: usize)
        requires
            old(self).wf(),
            start <= end <= old(self).chars.len(),
        ensures
            final(self).wf(),
            final(self).same_source(old(self)),
            final(self).state() == (LexState {
                tokens: old(self).state().tokens.push(
                    token_of(kind, old(self).file, old(self).chars@, start as int, end as int),
                ),
                ..old(self).state()
            }),
    {
        let span = Span::new(self.file, self.offsets[start], self.offsets[end]);
        self.tokens.push(Token::new(kind, span));
    }

    /// Appends the diagnostic `code` with `message` spanning the characters `start..end`.
    fn report(&mut self, code: &'static str, message: String, start: usize, end: usize)
        requires
            old(self).wf(),
            start <= end <= old(self).chars.len(),
        ensures
            final(self).wf(),
            final(self).same_source(old(self)),
            final(self).state() == (LexState {
                diagnostics: old(self).state().diagnostics.push(
                    error_of(code@, message@, old(self).file, old(self).chars@, start as int, end as int),
                ),
                ..old(self).state()
            }),
    {
        let span = Span::new(self.file, self.offsets[start], self.offsets[end]);
        let ghost before = self.diagnostics@;
        self.diagnostics.push(Diagnostic::error(code, message, span));
        assert(diagnostics_view(self.diagnostics@) =~= diagnostics_view(before).push(
            self.diagnostics@.last()@,
        ));
    }
}

/// Whether `ch` can start a name.
fn is_identifier_start(ch: char) -> (b: bool)
    ensures
        b == starts_identifier(ch),
{
    ch == '_' || char_is_alphabetic(ch)
}

/// Whether `ch` can continue a name.
fn is_identifier_continue(ch: char) -> (b: bool)
    ensures
        b == continues_identifier(ch),
{
    ch == '_' || char_is_alphanumeric(ch)
}

fn is_number_char(ch: char) -> (b: bool)
    ensures
        b == is_number_continue(ch),
{
    ('0' <= ch && ch <= '9') || ('a' <= ch && ch <= 'z') || ('A' <= ch && ch <= 'Z') || ch == '_'
        || ch == '.'
}

impl Lexer {
    /// Reads the indentation at the start of a logical line.
    fn lex_indentation(&mut self)
        requires
            old(self).wf(),
        ensures
            final(self).wf(),
            final(self).same_source(old(self)),
            final(self).state() == lex_indentation(old(self).file, old(self).chars@, old(self).state()),
    {
        let ghost s = self.state();
        let ghost file = self.file;
        let ghost cs = self.chars@;
        let start = self.idx;
        let mut width: usize = 0;
        while self.idx < self.chars.len() && is_indentation(self.chars[self.idx])
            invariant
                self.wf(),
                self.same_source(old(self)),
                file == self.file,
                cs == self.chars@,
                start <= self.idx <= cs.len(),
                width <= self.idx - start,
                indentation_end(cs, self.idx as int) == indentation_end(cs, start as int),
                width == indentation_width(cs, start as int, self.idx as int),
                self.state() == (LexState {
                    idx: self.idx as int,
                    diagnostics: s.diagnostics + tab_errors(file, cs, start as int, self.idx as int),
                    ..s
                }),
            decreases self.chars.len() - self.idx,
        {
            let ch = self.chars[self.idx];
            let ghost before = self.state();
            if ch == ' ' {
                width = width + 1;
                self.bump_char();
            } else if ch == '\x0c' {
                self.bump_char();
            } else {
                let tab_start = self.idx;
                self.bump_char();
                self.report(
                    "RYL0001",
                    owned("tabs are not allowed in Rustype v0 source"),
                    tab_start,
                    self.idx,
                );
                width = width + 1;
                assert(self.state().diagnostics == before.diagnostics.push(tab_error(file, cs, tab_start as int)));
            }
            assert(self.state().diagnostics =~= s.diagnostics + tab_errors(file, cs, start as int, self.idx as int));
            assert(s.diagnostics + tab_errors(file, cs, start as int, self.idx as int) =~= (
            s.diagnostics + tab_errors(file, cs, start as int, self.idx - 1)) + if ch == '\t' {
                seq![tab_error(file, cs, self.idx - 1)]
            } else {
                Seq::empty()
            });
        }
        let ghost j = self.idx as int;
        assert(indentation_end(cs, j) == j);
        if self.idx >= self.chars.len() || self.chars[self.idx] == '\n' || self.chars[self.idx]
            == '\r' || self.chars[self.idx] == '#' {
            self.at_line_start = false;
            return ;
        }
        let current = if self.indents.len() > 0 {
            self.indents[self.indents.len() - 1]
        } else {
            0
        };
        if width > current {
            self.indents.push(width);
            self.push(TokenKind::Indent, start, self.idx);
        } else if width < current {
            let ghost old_indents = self.indents@;
            let ghost t0 = self.tokens@;
            let ghost dedent = token_of(TokenKind::Dedent, file, cs, start as int, j);
            let ghost base = self.state();
            while self.indents.len() > 0 && self.indents[self.indents.len() - 1] > width
                invariant
                    self.wf(),
                    self.same_source(old(self)),
                    file == self.file,
                    cs == self.chars@,
                    self.idx == j,
                    start <= j,
                    dedent == token_of(TokenKind::Dedent, file, cs, start as int, j),
                    self.indents.len() <= old_indents.len(),
                    self.indents@ == old_indents.take(self.indents.len() as int),
                    close_deeper(self.indents@, width as nat) == close_deeper(old_indents, width as nat),
                    self.tokens@ == t0 + copies(dedent, (old_indents.len() - self.indents.len()) as nat),
                    self.state() == (LexState { indents: self.indents@, tokens: self.tokens@, ..base }),
                decreases self.indents.len(),
            {
                let ghost before = self.indents@;
                self.indents.pop();
                assert(self.indents@ =~= before.drop_last());
                assert(self.indents@ =~= old_indents.take(self.indents.len() as int));
                proof {
                    lemma_copies_push(t0, dedent, (old_indents.len() - self.indents.len() - 1) as nat);
                }
                self.push(TokenKind::Dedent, start, self.idx);
            }
            assert(close_deeper(self.indents@, width as nat) == self.indents@);
            let top = if self.indents.len() > 0 {
                self.indents[self.indents.len() - 1]
            } else {
                0
            };
            if top != width {
                self.report("RYL0002", owned("inconsistent indentation"), start, self.idx);
            }
        }
        self.at_line_start = false;
    }

    /// Reports the tab at the current position.
    fn lex_tab(&mut self)
        requires
            old(self).wf(),
            old(self).idx < old(self).chars.len(),
        ensures
            final(self).wf(),
            final(self).same_source(old(self)),
            final(self).state() == (LexState {
                idx: old(self).idx + 1,
                diagnostics: old(self).state().diagnostics.push(
                    tab_error(old(self).file, old(self).chars@, old(self).idx as int),
                ),
                ..old(self).state()
            }),
    {
        let start = self.idx;
        self.bump_char();
        self.report("RYL0001", owned("tabs are not allowed in Rustype v0 source"), start, self.idx);
    }

    /// Reads a line break.
    fn lex_newline(&mut self)
        requires
            old(self).wf(),
            old(self).idx < old(self).chars.len(),
            is_line_break(old(self).chars@[old(self).idx as int]),
        ensures
            final(self).wf(),
            final(self).same_source(old(self)),
            final(self).state() == lex_element(old(self).file, old(self).chars@, old(self).state()),
    {
        let start = self.idx;
        if self.chars[self.idx] == '\r' {
            self.bump_char();
            if self.take_if('\n') {
            }
        } else {
            self.bump_char();
        }
        if self.nesting == 0 {
            self.push(TokenKind::Newline, start, self.idx);
            self.at_line_start = true;
        }
    }

    /// Skips a comment up to the end of its line.
    fn skip_comment(&mut self)
        requires
            old(self).wf(),
        ensures
            final(self).wf(),
            final(self).same_source(old(self)),
            final(self).state() == (LexState {
                idx: line_end(old(self).chars@, old(self).idx as int),
                ..old(self).state()
            }),
    {
        let ghost s = self.state();
        let ghost cs = self.chars@;
        let ghost start = self.idx as int;
        while self.idx < self.chars.len() && !is_line_break_char(self.chars[self.idx])
            invariant
                self.wf(),
                self.same_source(old(self)),
                cs == self.chars@,
                start <= self.idx,
                line_end(cs, self.idx as int) == line_end(cs, start),
                self.state() == (LexState { idx: self.idx as int, ..s }),
            decreases self.chars.len() - self.idx,
        {
            self.bump_char();
        }
    }

    /// Reads a number: digits, letters, `_` and `.`, and the sign of an
    /// exponent as in `1.5e-3`.
    fn lex_number(&mut self)
        requires
            old(self).wf(),
            old(self).idx < old(self).chars.len(),
        ensures
            final(self).wf(),
            final(self).same_source(old(self)),
            final(self).state() == ({
                let e = number_end(old(self).chars@, old(self).idx as int, old(self).idx + 1);
                LexState {
                    idx: e,
                    tokens: old(self).state().tokens.push(
                        token_of(TokenKind::Number, old(self).file, old(self).chars@, old(self).idx as int, e),
                    ),
                    ..old(self).state()
                }
            }),
    {
        let ghost s = self.state();
        let ghost cs = self.chars@;
        let start = self.idx;
        let n = self.chars.len();
        let hex = start + 1 < n && self.chars[start] == '0' && (self.chars[start + 1] == 'x'
            || self.chars[start + 1] == 'X');
        self.bump_char();
        while self.idx < n && (is_number_char(self.chars[self.idx]) || (!hex && self.idx + 1 < n
            && (self.chars[self.idx] == '+' || self.chars[self.idx] == '-') && (self.chars[self.idx
            - 1] == 'e' || self.chars[self.idx - 1] == 'E') && '0' <= self.chars[self.idx + 1]
            && self.chars[self.idx + 1] <= '9'))
            invariant
                self.wf(),
                self.same_source(old(self)),
                cs == self.chars@,
                n == cs.len(),
                hex == is_hex_number(cs, start as int),
                start < self.idx,
                number_end(cs, start as int, self.idx as int) == number_end(cs, start as int, start + 1),
                self.state() == (LexState { idx: self.idx as int, ..s }),
            decreases self.chars.len() - self.idx,
        {
            self.bump_char();
        }
        self.push(TokenKind::Number, start, self.idx);
    }

    /// Reads a name or a keyword.
    fn lex_name(&mut self)
        requires
            old(self).wf(),
            old(self).idx < old(self).chars.len(),
        ensures
            final(self).wf(),
            final(self).same_source(old(self)),
            final(self).state() == ({
                let i = old(self).idx as int;
                let cs = old(self).chars@;
                let e = identifier_end(cs, i + 1);
                let kind = match crate::token::keyword(cs.subrange(i, e)) {
                    Some(k) => k,
                    None => TokenKind::Name,
                };
                LexState {
                    idx: e,
                    tokens: old(self).state().tokens.push(token_of(kind, old(self).file, cs, i, e)),
                    ..old(self).state()
                }
            }),
    {
        let ghost s = self.state();
        let ghost cs = self.chars@;
        let start = self.idx;
        self.bump_char();
        while self.idx < self.chars.len() && is_identifier_continue(self.chars[self.idx])
            invariant
                self.wf(),
                self.same_source(old(self)),
                cs == self.chars@,
                start < self.idx,
                identifier_end(cs, self.idx as int) == identifier_end(cs, start + 1),
                self.state() == (LexState { idx: self.idx as int, ..s }),
            decreases self.chars.len() - self.idx,
        {
            self.bump_char();
        }
        let kind = match keyword_kind(&self.chars, start, self.idx) {
            Some(k) => k,
            None => TokenKind::Name,
        };
        self.push(kind, start, self.idx);
    }

    /// Reads a string literal, reporting `RYL0003` when it is not closed.
    fn lex_string(&mut self)
        requires
            old(self).wf(),
            old(self).idx < old(self).chars.len(),
        ensures
            final(self).wf(),
            final(self).same_source(old(self)),
            final(self).state() == ({
                let i = old(self).idx as int;
                let cs = old(self).chars@;
                let (e, closed) = string_literal(cs, i);
                if closed {
                    LexState {
                        idx: e,
                        tokens: old(self).state().tokens.push(
                            token_of(TokenKind::String, old(self).file, cs, i, e),
                        ),
                        ..old(self).state()
                    }
                } else {
                    LexState {
                        idx: e,
                        diagnostics: old(self).state().diagnostics.push(
                            error_of(
                                "RYL0003"@,
                                "unterminated string literal"@,
                                old(self).file,
                                cs,
                                i,
                                e,
                            ),
                        ),
                        ..old(self).state()
                    }
                }
            }),
    {
        let ghost s = self.state();
        let ghost cs = self.chars@;
        let start = self.idx;
        let quote = self.chars[start];
        self.bump_char();
        let triple = self.peek_nth_is(0, quote) && self.peek_nth_is(1, quote);
        if triple {
            self.bump_char();
            self.bump_char();
        }
        let ghost target = string_literal(cs, start as int);
        let mut terminated = false;
        loop
            invariant_except_break
                string_scan(cs, quote, triple, self.idx as int) == target,
                !terminated,
            invariant
                self.wf(),
                self.same_source(old(self)),
                cs == self.chars@,
                start < self.idx,
                self.state() == (LexState { idx: self.idx as int, ..s }),
            ensures
                (self.idx as int, terminated) == target,
            decreases self.chars.len() - self.idx,
        {
            if self.idx >= self.chars.len() {
                break;
            }
            let ch = self.chars[self.idx];
            if ch == '\\' {
                self.bump_char();
                if self.idx < self.chars.len() {
                    self.bump_char();
                }
                continue;
            }
            if ch == quote {
                self.bump_char();
                if triple {
                    if self.peek_nth_is(0, quote) && self.peek_nth_is(1, quote) {
                        self.bump_char();
                        self.bump_char();
                        terminated = true;
                        break;
                    }
                    continue;
                }
                terminated = true;
                break;
            }
            if !triple && (ch == '\n' || ch == '\r') {
                break;
            }
            self.bump_char();
        }
        if terminated {
            self.push(TokenKind::String, start, self.idx);
        } else {
            self.report("RYL0003", owned("unterminated string literal"), start, self.idx);
        }
    }

    /// Reads an operator or delimiter, reporting `RYL0004` for a character that starts none.
    fn lex_operator(&mut self)
        requires
            old(self).wf(),
            old(self).idx < old(self).chars.len(),
        ensures
            final(self).wf(),
            final(self).same_source(old(self)),
            final(self).state() == ({
                let i = old(self).idx as int;
                let cs = old(self).chars@;
                let c = cs[i];
                let (kind, e) = operator(cs, i);
                match kind {
                    Some(k) => LexState {
                        idx: e,
                        nesting: nesting_after(k, old(self).nesting as nat),
                        tokens: old(self).state().tokens.push(token_of(k, old(self).file, cs, i, e)),
                        ..old(self).state()
                    },
                    None => LexState {
                        idx: e,
                        diagnostics: old(self).state().diagnostics.push(
                            error_of(
                                "RYL0004"@,
                                "unexpected character `"@.push(c).push('`'),
                                old(self).file,
                                cs,
                                i,
                                e,
                            ),
                        ),
                        ..old(self).state()
                    },
                }
            }),
    {
        let start = self.idx;
        let ch = self.chars[start];
        self.bump_char();
        let kind = if ch == '+' {
            Some(TokenKind::Plus)
        } else if ch == '-' {
            if self.take_if('>') {
                Some(TokenKind::Arrow)
            } else {
                Some(TokenKind::Minus)
            }
        } else if ch == '*' {
            if self.take_if('*') {
                Some(TokenKind::DoubleStar)
            } else {
                Some(TokenKind::Star)
            }
        } else if ch == '/' {
            if self.take_if('/') {
                Some(TokenKind::DoubleSlash)
            } else {
                Some(TokenKind::Slash)
            }
        } else if ch == '%' {
            Some(TokenKind::Percent)
        } else if ch == '@' {
            Some(TokenKind::At)
        } else if ch == '|' {
            Some(TokenKind::Pipe)
        } else if ch == '&' {
            Some(TokenKind::Ampersand)
        } else if ch == '^' {
            Some(TokenKind::Caret)
        } else if ch == '~' {
            Some(TokenKind::Tilde)
        } else if ch == '<' {
            if self.take_if('<') {
                Some(TokenKind::LeftShift)
            } else if self.take_if('=') {
                Some(TokenKind::LessEq)
            } else {
                Some(TokenKind::Less)
            }
        } else if ch == '>' {
            if self.take_if('>') {
                Some(TokenKind::RightShift)
            } else if self.take_if('=') {
                Some(TokenKind::GreaterEq)
            } else {
                Some(TokenKind::Greater)
            }
        } else if ch == ':' {
            if self.take_if('=') {
                Some(TokenKind::Walrus)
            } else {
                Some(TokenKind::Colon)
            }
        } else if ch == '=' {
            if self.take_if('=') {
                Some(TokenKind::EqEq)
            } else {
                Some(TokenKind::Assign)
            }
        } else if ch == '!' {
            if self.take_if('=') {
                Some(TokenKind::NotEq)
            } else {
                None
            }
        } else if ch == '?' {
            Some(TokenKind::Question)
        } else if ch == ',' {
            Some(TokenKind::Comma)
        } else if ch == '.' {
            Some(TokenKind::Dot)
        } else if ch == ';' {
            Some(TokenKind::Semicolon)
        } else if ch == '(' {
            Some(TokenKind::LParen)
        } else if ch == ')' {
            Some(TokenKind::RParen)
        } else if ch == '[' {
            Some(TokenKind::LBracket)
        } else if ch == ']' {
            Some(TokenKind::RBracket)
        } else if ch == '{' {
            Some(TokenKind::LBrace)
        } else if ch == '}' {
            Some(TokenKind::RBrace)
        } else {
            None
        };
        match kind {
            Some(k) => {
                if k == TokenKind::LParen || k == TokenKind::LBracket || k == TokenKind::LBrace {
                    self.nesting = self.nesting + 1;
                } else if k == TokenKind::RParen || k == TokenKind::RBracket || k
                    == TokenKind::RBrace {
                    self.nesting = self.nesting.saturating_sub(1);
                }
                self.push(k, start, self.idx);
            },
            None => {
                let mut message = owned("unexpected character `");
                push_char(&mut message, ch);
                push_char(&mut message, '`');
                self.report("RYL0004", message, start, self.idx);
            },
        }
    }

    /// Reads the lexical element at the current position.
    fn lex_element(&mut self)
        requires
            old(self).wf(),
            old(self).idx < old(self).chars.len(),
        ensures
            final(self).wf(),
            final(self).same_source(old(self)),
            final(self).state() == lex_element(old(self).file, old(self).chars@, old(self).state()),
    {
        let ch = self.chars[self.idx];
        if ch == ' ' || ch == '\x0c' {
            self.bump_char();
        } else if ch == '\t' {
            self.lex_tab();
        } else if ch == '#' {
            self.skip_comment();
        } else if ch == '\n' || ch == '\r' {
            self.lex_newline();
        } else if '0' <= ch && ch <= '9' {
            self.lex_number();
        } else if ch == '\'' || ch == '"' {
            self.lex_string();
        } else if is_identifier_start(ch) {
            self.lex_name();
        } else {
            self.lex_operator();
        }
    }
}

fn is_indentation(ch: char) -> (b: bool)
    ensures
        b == is_indentation_char(ch),
{
    ch == ' ' || ch == '\x0c' || ch == '\t'
}

fn is_line_break_char(ch: char) -> (b: bool)
    ensures
        b == is_line_break(ch),
{
    ch == '\n' || ch == '\r'
}

} // verus!
