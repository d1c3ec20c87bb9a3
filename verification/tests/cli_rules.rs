use rustype::cli::{accept_rpy_path, check_arguments, check_source, usage};
use rustype::report::{decimal, diagnostic_line, failure_line, success_line};
use rustype::{Diagnostic, FileId, Span};
use rustype::LineIndex;

fn args(list: &[&str]) -> Vec<String> {
    list.iter().map(|a| a.to_string()).collect()
}

#[test]
fn usage_line() {
    assert_eq!(usage(), "usage: rustype check <file.rpy>");
}

#[test]
fn no_arguments_shows_usage() {
    assert_eq!(check_arguments(&args(&[])), Err("usage: rustype check <file.rpy>".to_string()));
}

#[test]
fn unknown_command() {
    assert_eq!(
        check_arguments(&args(&["build", "a.rpy"])),
        Err("unknown command `build`\n\nusage: rustype check <file.rpy>".to_string())
    );
}

#[test]
fn missing_file() {
    assert_eq!(
        check_arguments(&args(&["check"])),
        Err("missing .rpy file\n\nusage: rustype check <file.rpy>".to_string())
    );
}

#[test]
fn too_many_arguments() {
    assert_eq!(
        check_arguments(&args(&["check", "a.rpy", "b.rpy"])),
        Err("too many arguments\n\nusage: rustype check <file.rpy>".to_string())
    );
}

#[test]
fn file_must_have_the_rpy_extension() {
    assert_eq!(
        check_arguments(&args(&["check", "a.txt"])),
        Err("expected a .rpy file: a.txt".to_string())
    );
    assert_eq!(
        check_arguments(&args(&["check", "a.RPY"])),
        Err("expected a .rpy file: a.RPY".to_string())
    );
    assert_eq!(
        check_arguments(&args(&["check", ".rpy"])),
        Err("expected a .rpy file: .rpy".to_string())
    );
    assert_eq!(
        check_arguments(&args(&["check", "noext"])),
        Err("expected a .rpy file: noext".to_string())
    );
}

#[test]
fn accepts_an_rpy_file() {
    assert_eq!(check_arguments(&args(&["check", "a.rpy"])), Ok("a.rpy".to_string()));
    assert_eq!(
        check_arguments(&args(&["check", "src/app.test.rpy"])),
        Ok("src/app.test.rpy".to_string())
    );
}

#[test]
fn line_index_counts_bytes_and_lines() {
    let index = LineIndex::new("one\ntwo\n");
    assert_eq!(index.line_column(3), (1, 4));
    assert_eq!(index.line_column(5), (2, 2));
    assert_eq!(index.line_column(8), (3, 1));
    assert_eq!(index.line_column(100), (3, 93));
}

#[test]
fn line_index_of_empty_and_multibyte_sources() {
    assert_eq!(LineIndex::new("").line_column(0), (1, 1));
    let index = LineIndex::new("é\nx");
    assert_eq!(index.line_column(1), (1, 2));
    assert_eq!(index.line_column(3), (2, 1));
}

#[test]
fn each_byte_moves_one_column_and_newline_starts_a_line() {
    let index = LineIndex::new("ab\ncd");
    let expected = [(1, 1), (1, 2), (1, 3), (2, 1), (2, 2), (2, 3)];
    for (offset, location) in expected.iter().enumerate() {
        assert_eq!(index.line_column(offset), *location);
    }
}

#[test]
fn only_the_rpy_extension_is_accepted() {
    let path = "dir/file.rpy".to_string();
    assert_eq!(accept_rpy_path(&path, Some("rpy".to_string())), Ok(path.clone()));
    assert_eq!(
        accept_rpy_path(&path, Some("py".to_string())),
        Err("expected a .rpy file: dir/file.rpy".to_string())
    );
    assert_eq!(
        accept_rpy_path(&path, None),
        Err("expected a .rpy file: dir/file.rpy".to_string())
    );
}

#[test]
fn check_reports_lexer_diagnostics_before_parser_ones() {
    let output = check_source(FileId(0), "fn f() -> str:\n    return \"oops\nx\n");
    let codes: Vec<&str> = output.diagnostics.iter().map(|d| d.code).collect();
    assert_eq!(codes, vec!["RYL0003", "RYP0003"]);
    assert_eq!(output.module.items.len(), 1);
}

#[test]
fn check_of_a_clean_source_reports_nothing() {
    let output = check_source(FileId(0), "newtype A = int\n");
    assert!(output.diagnostics.is_empty());
    assert_eq!(output.module.items.len(), 1);
}

#[test]
fn report_lines() {
    assert_eq!(decimal(0), "0");
    assert_eq!(decimal(42), "42");
    assert_eq!(decimal(1000), "1000");
    assert_eq!(success_line("a.rpy", 2), "checked a.rpy: 2 top-level Rustype item(s)");
    let d = Diagnostic::error("RYP0003", "bad".to_string(), Span::new(FileId(0), 0, 1));
    assert_eq!(diagnostic_line("a.rpy", 3, 14, &d), "a.rpy:3:14: error[RYP0003]: bad");
    assert_eq!(failure_line(12, "a.rpy"), "12 error(s) found in a.rpy");
}

#[test]
fn white_space_is_the_unicode_property() {
    for code in 0u32..0x11_0000 {
        if let Some(c) = char::from_u32(code) {
            assert_eq!(rustype::text::char_is_whitespace(c), c.is_whitespace(), "{code:#x}");
        }
    }
}
