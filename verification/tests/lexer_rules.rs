use rustype::{lex, FileId, LexOutput, Span, Token, TokenKind};

fn run(source: &str) -> LexOutput {
    lex(FileId(0), source)
}

fn kinds(source: &str) -> Vec<TokenKind> {
    run(source).tokens.into_iter().map(|token| token.kind).collect()
}

fn span(start: usize, end: usize) -> Span {
    Span::new(FileId(0), start, end)
}

fn count(tokens: &[Token], kind: TokenKind) -> usize {
    tokens.iter().filter(|token| token.kind == kind).count()
}

#[test]
fn empty_source_is_just_eof() {
    let output = run("");
    assert!(output.diagnostics.is_empty());
    assert_eq!(output.tokens, vec![Token::new(TokenKind::Eof, span(0, 0))]);
}

#[test]
fn unexpected_character() {
    let output = run("a $ b\n");
    assert_eq!(output.diagnostics.len(), 1);
    assert_eq!(output.diagnostics[0].code, "RYL0004");
    assert_eq!(output.diagnostics[0].message, "unexpected character `$`");
    assert_eq!(output.diagnostics[0].span, span(2, 3));
    assert_eq!(
        output.tokens,
        vec![
            Token::new(TokenKind::Name, span(0, 1)),
            Token::new(TokenKind::Name, span(4, 5)),
            Token::new(TokenKind::Newline, span(5, 6)),
            Token::new(TokenKind::Eof, span(6, 6)),
        ]
    );
}

#[test]
fn lone_bang_is_unexpected() {
    let output = run("a ! b\n");
    assert_eq!(output.diagnostics.len(), 1);
    assert_eq!(output.diagnostics[0].message, "unexpected character `!`");
}

#[test]
fn inconsistent_indentation() {
    let output = run("if x:\n        a\n    b\n");
    assert_eq!(output.diagnostics.len(), 1);
    assert_eq!(output.diagnostics[0].code, "RYL0002");
    assert_eq!(output.diagnostics[0].message, "inconsistent indentation");
    assert_eq!(output.diagnostics[0].span, span(16, 20));
    assert_eq!(
        kinds("if x:\n        a\n    b\n"),
        vec![
            TokenKind::If,
            TokenKind::Name,
            TokenKind::Colon,
            TokenKind::Newline,
            TokenKind::Indent,
            TokenKind::Name,
            TokenKind::Newline,
            TokenKind::Dedent,
            TokenKind::Name,
            TokenKind::Newline,
            TokenKind::Eof,
        ]
    );
    assert_eq!(output.tokens[7].span, span(16, 20));
}

#[test]
fn strings_with_escapes_and_triple_quotes() {
    let output = run("s = 'a\\'b'\n");
    assert!(output.diagnostics.is_empty());
    assert_eq!(output.tokens[2], Token::new(TokenKind::String, span(4, 10)));

    let output = run("\"\"\"x\ny\"\"\"\n");
    assert!(output.diagnostics.is_empty());
    assert_eq!(
        output.tokens,
        vec![
            Token::new(TokenKind::String, span(0, 9)),
            Token::new(TokenKind::Newline, span(9, 10)),
            Token::new(TokenKind::Eof, span(10, 10)),
        ]
    );
}

#[test]
fn unterminated_string_span() {
    let output = run("value = \"oops\n");
    assert_eq!(output.diagnostics.len(), 1);
    assert_eq!(output.diagnostics[0].message, "unterminated string literal");
    assert_eq!(output.diagnostics[0].span, span(8, 13));
    assert_eq!(
        kinds("value = \"oops\n"),
        vec![TokenKind::Name, TokenKind::Assign, TokenKind::Newline, TokenKind::Eof]
    );
}

#[test]
fn numbers_take_letters_underscores_and_dots() {
    let output = run("x = 1_000.5e3\n");
    assert_eq!(output.tokens[2], Token::new(TokenKind::Number, span(4, 13)));
}

#[test]
fn keywords() {
    assert_eq!(
        kinds("async fn def newtype None True and or not\n"),
        vec![
            TokenKind::Async,
            TokenKind::Fn,
            TokenKind::Def,
            TokenKind::Newtype,
            TokenKind::NoneKeyword,
            TokenKind::True,
            TokenKind::And,
            TokenKind::Or,
            TokenKind::Not,
            TokenKind::Newline,
            TokenKind::Eof,
        ]
    );
    assert_eq!(kinds("fnord"), vec![TokenKind::Name, TokenKind::Eof]);
}

#[test]
fn two_character_operators() {
    assert_eq!(
        kinds("-> ** // <= >= == != := << >> ? @ ~\n"),
        vec![
            TokenKind::Arrow,
            TokenKind::DoubleStar,
            TokenKind::DoubleSlash,
            TokenKind::LessEq,
            TokenKind::GreaterEq,
            TokenKind::EqEq,
            TokenKind::NotEq,
            TokenKind::Walrus,
            TokenKind::LeftShift,
            TokenKind::RightShift,
            TokenKind::Question,
            TokenKind::At,
            TokenKind::Tilde,
            TokenKind::Newline,
            TokenKind::Eof,
        ]
    );
}

#[test]
fn open_blocks_are_closed_at_the_end() {
    let output = run("if x:\n    y");
    assert_eq!(
        output.tokens.iter().map(|t| t.kind).collect::<Vec<_>>(),
        vec![
            TokenKind::If,
            TokenKind::Name,
            TokenKind::Colon,
            TokenKind::Newline,
            TokenKind::Indent,
            TokenKind::Name,
            TokenKind::Dedent,
            TokenKind::Eof,
        ]
    );
    assert_eq!(output.tokens[6].span, span(11, 11));
    assert_eq!(output.tokens[7].span, span(11, 11));
}

#[test]
fn indents_and_dedents_balance() {
    let output = run("if a:\n    if b:\n        c\nd\nif e:\n    f\n");
    assert_eq!(count(&output.tokens, TokenKind::Indent), 3);
    assert_eq!(count(&output.tokens, TokenKind::Dedent), 3);
    assert_eq!(output.tokens.last().unwrap().kind, TokenKind::Eof);
}

#[test]
fn token_spans_are_in_source_order() {
    let source = "fn f(a: int) -> int:\n    return [a, 2]  # c\n\nx = f(\n  1)\n";
    let output = run(source);
    assert!(output.diagnostics.is_empty());
    for pair in output.tokens.windows(2) {
        assert!(pair[0].span.start <= pair[1].span.start);
    }
    for token in &output.tokens {
        assert!(token.span.start <= token.span.end && token.span.end <= source.len());
    }
}

#[test]
fn newlines_inside_brackets_are_suppressed() {
    assert_eq!(
        kinds("f(\n  a\n)\nb\n"),
        vec![
            TokenKind::Name,
            TokenKind::LParen,
            TokenKind::Name,
            TokenKind::RParen,
            TokenKind::Newline,
            TokenKind::Name,
            TokenKind::Newline,
            TokenKind::Eof,
        ]
    );
}

#[test]
fn multibyte_names_and_crlf() {
    let output = run("été = 1\r\nb\n");
    assert_eq!(
        output.tokens,
        vec![
            Token::new(TokenKind::Name, span(0, 5)),
            Token::new(TokenKind::Assign, span(6, 7)),
            Token::new(TokenKind::Number, span(8, 9)),
            Token::new(TokenKind::Newline, span(9, 11)),
            Token::new(TokenKind::Name, span(11, 12)),
            Token::new(TokenKind::Newline, span(12, 13)),
            Token::new(TokenKind::Eof, span(13, 13)),
        ]
    );
}

#[test]
fn tabs_inside_a_line_and_in_indentation() {
    let output = run("a\tb\n");
    assert_eq!(output.diagnostics.len(), 1);
    assert_eq!(output.diagnostics[0].code, "RYL0001");
    assert_eq!(output.diagnostics[0].span, span(1, 2));

    let output = run("if x:\n\ty\n");
    assert_eq!(output.diagnostics.len(), 1);
    assert_eq!(output.diagnostics[0].span, span(6, 7));
    assert_eq!(output.tokens[4], Token::new(TokenKind::Indent, span(6, 7)));
}

#[test]
fn comment_and_blank_lines_still_end_with_newline() {
    assert_eq!(
        kinds("# c\n\nx # note\n"),
        vec![TokenKind::Newline, TokenKind::Newline, TokenKind::Name, TokenKind::Newline, TokenKind::Eof]
    );
}

#[test]
fn blocks_open_inside_brackets_close_at_the_end() {
    let output = run("if x:\n    f(\n");
    assert_eq!(
        output.tokens.iter().map(|t| t.kind).collect::<Vec<_>>(),
        vec![
            TokenKind::If,
            TokenKind::Name,
            TokenKind::Colon,
            TokenKind::Newline,
            TokenKind::Indent,
            TokenKind::Name,
            TokenKind::LParen,
            TokenKind::Dedent,
            TokenKind::Eof,
        ]
    );
    assert_eq!(output.tokens[7].span, span(13, 13));
}

#[test]
fn float_literals_with_signed_exponents() {
    let output = run("x = 1.5e-3\n");
    assert!(output.diagnostics.is_empty());
    assert_eq!(
        output.tokens,
        vec![
            Token::new(TokenKind::Name, span(0, 1)),
            Token::new(TokenKind::Assign, span(2, 3)),
            Token::new(TokenKind::Number, span(4, 10)),
            Token::new(TokenKind::Newline, span(10, 11)),
            Token::new(TokenKind::Eof, span(11, 11)),
        ]
    );
    assert_eq!(kinds("2E+10"), vec![TokenKind::Number, TokenKind::Eof]);
}

#[test]
fn a_sign_after_e_is_not_always_an_exponent() {
    assert_eq!(
        kinds("0xe-1"),
        vec![TokenKind::Number, TokenKind::Minus, TokenKind::Number, TokenKind::Eof]
    );
    assert_eq!(
        kinds("1e-x"),
        vec![TokenKind::Number, TokenKind::Minus, TokenKind::Name, TokenKind::Eof]
    );
}

#[test]
fn a_lone_identifier_is_one_token() {
    let output = run("user");
    assert!(output.diagnostics.is_empty());
    assert_eq!(
        output.tokens,
        vec![Token::new(TokenKind::Name, span(0, 4)), Token::new(TokenKind::Eof, span(4, 4))]
    );
    assert_eq!(kinds("while"), vec![TokenKind::While, TokenKind::Eof]);
}

#[test]
fn indents_follow_newlines_or_open_the_stream() {
    let output = run("  x\nif a:\n    b\n");
    for (k, token) in output.tokens.iter().enumerate() {
        if token.kind == TokenKind::Indent {
            assert!(k == 0 || output.tokens[k - 1].kind == TokenKind::Newline);
        }
    }
    assert_eq!(output.tokens[0].kind, TokenKind::Indent);
}

#[test]
fn no_prefix_closes_more_blocks_than_it_opened() {
    let output = run("if a:\n    if b:\n        c\nd\n  e\n");
    let mut open = 0i64;
    for token in &output.tokens {
        match token.kind {
            TokenKind::Indent => open += 1,
            TokenKind::Dedent => open -= 1,
            _ => {}
        }
        assert!(open >= 0);
    }
    assert_eq!(open, 0);
}

#[test]
fn tabs_in_strings_and_comments_are_not_reported() {
    assert!(run("x = '\t'\n").diagnostics.is_empty());
    assert!(run("x = \"a\tb\n").diagnostics.iter().all(|d| d.code != "RYL0001"));
    assert!(run("x  # a\tcomment\n").diagnostics.is_empty());
    let output = run("x = '\t' \t# \t\n");
    assert_eq!(output.diagnostics.len(), 1);
    assert_eq!(output.diagnostics[0].code, "RYL0001");
    assert_eq!(output.diagnostics[0].span, span(8, 9));
}

#[test]
fn consecutive_spans_do_not_overlap() {
    let source = "if é(a,\n  b):\n    x = 1.5e-3 ** 2\n        y\n";
    let output = run(source);
    for pair in output.tokens.windows(2) {
        let (a, b) = (&pair[0], &pair[1]);
        assert!(
            a.span.end <= b.span.start
                || (a.kind == TokenKind::Dedent && b.kind == TokenKind::Dedent && a.span == b.span)
        );
    }
    for token in &output.tokens {
        assert!(source.is_char_boundary(token.span.start));
        assert!(source.is_char_boundary(token.span.end));
    }
}

#[test]
fn dedents_inside_the_source_follow_line_breaks() {
    let source = "if a:\n    if b:\n        c\nd\n";
    let output = run(source);
    assert_eq!(count(&output.tokens, TokenKind::Dedent), 2);
    for (k, token) in output.tokens.iter().enumerate() {
        if token.kind == TokenKind::Dedent && token.span.start < source.len() {
            let before = output.tokens[k - 1].kind;
            assert!(before == TokenKind::Newline || before == TokenKind::Dedent);
        }
    }
}
