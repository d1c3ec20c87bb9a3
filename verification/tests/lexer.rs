use rustype::{lex, FileId, TokenKind};

fn kinds(source: &str) -> Vec<TokenKind> {
    lex(FileId(0), source)
        .tokens
        .into_iter()
        .map(|token| token.kind)
        .collect()
}

#[test]
fn emits_indentation_tokens() {
    assert_eq!(
        kinds("fn greet() -> str:\n    return \"hi\"\npass\n"),
        vec![
            TokenKind::Fn,
            TokenKind::Name,
            TokenKind::LParen,
            TokenKind::RParen,
            TokenKind::Arrow,
            TokenKind::Name,
            TokenKind::Colon,
            TokenKind::Newline,
            TokenKind::Indent,
            TokenKind::Return,
            TokenKind::String,
            TokenKind::Newline,
            TokenKind::Dedent,
            TokenKind::Pass,
            TokenKind::Newline,
            TokenKind::Eof,
        ]
    );
}

#[test]
fn recognizes_rustype_operators() {
    let output = lex(FileId(0), "value?\n");
    assert!(output.diagnostics.is_empty());
    assert!(output
        .tokens
        .iter()
        .any(|token| token.kind == TokenKind::Question));
}

#[test]
fn suppresses_newlines_inside_delimiters() {
    assert_eq!(
        kinds("fn f(\n    value: int,\n) -> int:\n    return value\n"),
        vec![
            TokenKind::Fn,
            TokenKind::Name,
            TokenKind::LParen,
            TokenKind::Name,
            TokenKind::Colon,
            TokenKind::Name,
            TokenKind::Comma,
            TokenKind::RParen,
            TokenKind::Arrow,
            TokenKind::Name,
            TokenKind::Colon,
            TokenKind::Newline,
            TokenKind::Indent,
            TokenKind::Return,
            TokenKind::Name,
            TokenKind::Newline,
            TokenKind::Dedent,
            TokenKind::Eof,
        ]
    );
}

#[test]
fn rejects_tabs() {
    let output = lex(FileId(0), "fn f() -> int:\n\treturn 1\n");
    assert!(output
        .diagnostics
        .iter()
        .any(|diagnostic| diagnostic.code == "RYL0001"));
}

#[test]
fn rejects_unterminated_strings() {
    let output = lex(FileId(0), "value = \"oops\n");
    assert!(output
        .diagnostics
        .iter()
        .any(|diagnostic| diagnostic.code == "RYL0003"));
}
