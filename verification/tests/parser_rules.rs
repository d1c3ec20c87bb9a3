use rustype::{parse_module, FileId, Item, NodeId, ParseOutput, Span};

fn parse(source: &str) -> ParseOutput {
    parse_module(FileId(0), source)
}

fn codes(output: &ParseOutput) -> Vec<&'static str> {
    output.diagnostics.iter().map(|d| d.code).collect()
}

fn span(start: usize, end: usize) -> Span {
    Span::new(FileId(0), start, end)
}

fn ids(output: &ParseOutput) -> Vec<u32> {
    let mut out = Vec::new();
    for item in &output.module.items {
        match item {
            Item::Newtype(d) => {
                out.extend([d.id.0, d.name.id.0, d.underlying.id.0]);
            }
            Item::Function(f) => {
                for p in &f.params {
                    out.extend([p.id.0, p.name.id.0, p.annotation.id.0]);
                }
                out.extend([f.id.0, f.name.id.0, f.return_type.id.0]);
            }
        }
    }
    out.push(output.module.id.0);
    out
}

#[test]
fn node_ids_follow_allocation_order() {
    let output = parse("newtype A = int\nfn f(a: int, b: str) -> int:\n");
    assert!(output.diagnostics.is_empty());
    assert_eq!(ids(&output), (0..13).collect::<Vec<u32>>());
    assert_eq!(output.module.id, NodeId(12));
}

#[test]
fn failed_parameter_still_uses_its_ids() {
    let output = parse("fn f(a: int, b) -> int:\nnewtype B = str\n");
    assert_eq!(codes(&output), vec!["RYP0206"]);
    assert_eq!(output.diagnostics[0].message, "parameter `b` requires a type annotation");
    assert_eq!(output.diagnostics[0].span, span(0, 23));
    assert_eq!(ids(&output), vec![3, 4, 5, 6]);
}

#[test]
fn spans_of_a_newtype() {
    let output = parse("newtype UserId = int\n");
    let Item::Newtype(d) = &output.module.items[0] else {
        panic!("expected a newtype");
    };
    assert_eq!(d.span, span(0, 20));
    assert_eq!(d.name.name, "UserId");
    assert_eq!(d.name.span, span(8, 14));
    assert_eq!(d.underlying.text, "int");
    assert_eq!(d.underlying.span, span(17, 20));
    assert_eq!(output.module.span, span(0, 21));
}

#[test]
fn spans_of_a_function_header() {
    let output = parse("newtype A = int\nfn f(a: int, b: str) -> int:\n");
    let Item::Function(f) = &output.module.items[1] else {
        panic!("expected a function");
    };
    assert!(!f.is_async);
    assert_eq!(f.span, span(16, 44));
    assert_eq!(f.name.name, "f");
    assert_eq!(f.name.span, span(19, 20));
    assert_eq!(f.params.len(), 2);
    assert_eq!(f.params[0].name.name, "a");
    assert_eq!(f.params[0].annotation.text, "int");
    assert_eq!(f.params[0].span, span(21, 27));
    assert_eq!(f.params[0].name.span, span(21, 22));
    assert_eq!(f.params[0].annotation.span, span(24, 27));
    assert_eq!(f.params[1].name.name, "b");
    assert_eq!(f.params[1].annotation.text, "str");
    assert_eq!(f.params[1].span, span(29, 35));
    assert_eq!(f.params[1].name.span, span(29, 30));
    assert_eq!(f.params[1].annotation.span, span(32, 35));
    assert_eq!(f.return_type.text, "int");
    assert_eq!(f.return_type.span, span(40, 43));
    assert_eq!(output.module.span, span(0, 45));
}

#[test]
fn async_function_header() {
    let output = parse("async fn fetch(url: str) -> Result[str, Error]:\n    pass\n");
    assert!(output.diagnostics.is_empty());
    let Item::Function(f) = &output.module.items[0] else {
        panic!("expected a function");
    };
    assert!(f.is_async);
    assert_eq!(f.name.name, "fetch");
    assert_eq!(f.name.span, span(9, 14));
    assert_eq!(f.return_type.text, "Result[str, Error]");
}

#[test]
fn function_without_parameters() {
    let output = parse("fn main() -> None:\n");
    assert!(output.diagnostics.is_empty());
    let Item::Function(f) = &output.module.items[0] else {
        panic!("expected a function");
    };
    assert!(f.params.is_empty());
    assert_eq!(f.return_type.text, "None");
}

#[test]
fn spans_count_bytes_of_multibyte_characters() {
    let output = parse("newtype Ä = int\n");
    assert!(output.diagnostics.is_empty());
    let Item::Newtype(d) = &output.module.items[0] else {
        panic!("expected a newtype");
    };
    assert_eq!(d.span, span(0, 16));
    assert_eq!(d.name.span, span(8, 10));
    assert_eq!(d.underlying.span, span(13, 16));
}

#[test]
fn unicode_letters_make_names() {
    let output = parse("fn été(ça: int) -> int:\n");
    assert!(output.diagnostics.is_empty());
    let Item::Function(f) = &output.module.items[0] else {
        panic!("expected a function");
    };
    assert_eq!(f.name.name, "été");
    assert_eq!(f.params[0].name.name, "ça");
}

#[test]
fn crlf_line_endings() {
    let output = parse("newtype A = int\r\nfn f() -> A:\r\n");
    assert!(output.diagnostics.is_empty());
    assert_eq!(output.module.items.len(), 2);
    let Item::Newtype(d) = &output.module.items[0] else {
        panic!("expected a newtype");
    };
    assert_eq!(d.span, span(0, 15));
    assert_eq!(output.module.span, span(0, 31));
}

#[test]
fn blank_comment_and_body_lines_are_skipped() {
    let output = parse("\n# a comment\n   \nfn f() -> int:\n    x = 1\n    return x\n");
    assert!(output.diagnostics.is_empty());
    assert_eq!(output.module.items.len(), 1);
    assert_eq!(output.module.id, NodeId(3));
}

#[test]
fn tab_is_reported_from_first_non_blank_character() {
    let output = parse("fn greet(name: str) -> str:\n\treturn name\n");
    assert_eq!(codes(&output), vec!["RYP0001"]);
    assert_eq!(output.diagnostics[0].message, "tabs are not allowed in Rustype v0 source");
    assert_eq!(output.diagnostics[0].span, span(29, 40));
    assert_eq!(output.module.items.len(), 1);
}

#[test]
fn async_def_is_rejected() {
    let output = parse("async def f():\n");
    assert_eq!(codes(&output), vec!["RYP0002"]);
    assert_eq!(
        output.diagnostics[0].message,
        "use `fn` or `async fn` in .rpy source; Python `def` is not valid Rustype v0 syntax"
    );
    assert_eq!(output.diagnostics[0].span, span(0, 14));
    assert!(output.module.items.is_empty());
    assert_eq!(output.module.id, NodeId(0));
}

#[test]
fn bare_def_is_unsupported_syntax() {
    let output = parse("def\n");
    assert_eq!(codes(&output), vec!["RYP0003"]);
}

#[test]
fn unsupported_top_level_statement() {
    let output = parse("x = 1\n");
    assert_eq!(codes(&output), vec!["RYP0003"]);
    assert_eq!(
        output.diagnostics[0].message,
        "unsupported top-level syntax in bootstrap parser: `x = 1`"
    );
    assert_eq!(output.diagnostics[0].span, span(0, 5));
}

#[test]
fn newtype_without_equals() {
    let output = parse("newtype A\n");
    assert_eq!(codes(&output), vec!["RYP0101"]);
    assert_eq!(output.diagnostics[0].message, "expected `newtype Name = Type`");
    assert_eq!(output.diagnostics[0].span, span(0, 9));
}

#[test]
fn newtype_with_bad_name_or_empty_type() {
    assert_eq!(codes(&parse("newtype 1 = int\n")), vec!["RYP0102"]);
    assert_eq!(codes(&parse("newtype A-B = int\n")), vec!["RYP0102"]);
    let output = parse("newtype A =\n");
    assert_eq!(codes(&output), vec!["RYP0102"]);
    assert_eq!(output.diagnostics[0].message, "invalid newtype declaration");
}

#[test]
fn function_header_errors() {
    let cases = [
        ("fn f():\n", "RYP0201", "Rustype functions require an explicit return type"),
        ("fn f() -> int\n", "RYP0202", "expected `:` after function signature"),
        ("fn f -> int:\n", "RYP0203", "expected `(` in function signature"),
        ("fn f( -> int:\n", "RYP0204", "expected `)` in function signature"),
        ("fn 1f() -> int:\n", "RYP0205", "invalid function name"),
        ("fn f(a:) -> int:\n", "RYP0207", "invalid function parameter"),
        ("fn f(1: int) -> int:\n", "RYP0207", "invalid function parameter"),
    ];
    for (source, code, message) in cases {
        let output = parse(source);
        assert_eq!(codes(&output), vec![code], "{source}");
        assert_eq!(output.diagnostics[0].message, message, "{source}");
        assert_eq!(output.diagnostics[0].span, span(0, source.len() - 1), "{source}");
        assert!(output.module.items.is_empty());
    }
}

#[test]
fn parentheses_in_wrong_order_are_reported() {
    let output = parse("fn f)( -> int:\n");
    assert_eq!(codes(&output), vec!["RYP0204"]);
    assert_eq!(output.diagnostics[0].message, "expected `)` in function signature");
    assert_eq!(output.diagnostics[0].span, span(0, 14));
    assert!(output.module.items.is_empty());
}

#[test]
fn empty_return_type_is_rejected() {
    let output = parse("fn f() ->:\n");
    assert_eq!(codes(&output), vec!["RYP0208"]);
    assert_eq!(output.diagnostics[0].message, "expected a return type after `->`");
    assert_eq!(output.diagnostics[0].span, span(0, 10));
    assert!(output.module.items.is_empty());
}

#[test]
fn reserved_words_are_not_names() {
    assert_eq!(codes(&parse("newtype fn = int\n")), vec!["RYP0102"]);
    assert_eq!(codes(&parse("newtype None = int\n")), vec!["RYP0102"]);
    assert_eq!(codes(&parse("fn class() -> int:\n")), vec!["RYP0205"]);
    assert_eq!(codes(&parse("fn f(def: int) -> int:\n")), vec!["RYP0207"]);
}

#[test]
fn names_are_found_after_the_keyword() {
    let output = parse("fn n() -> int:\nnewtype n = int\n");
    assert!(output.diagnostics.is_empty());
    let Item::Function(f) = &output.module.items[0] else {
        panic!("expected a function");
    };
    assert_eq!(f.name.span, span(3, 4));
    assert_eq!(f.return_type.span, span(10, 13));
    let Item::Newtype(d) = &output.module.items[1] else {
        panic!("expected a newtype");
    };
    assert_eq!(d.name.span, span(23, 24));
    assert_eq!(d.underlying.span, span(27, 30));
}

#[test]
fn parameter_annotation_span_is_its_own_text() {
    let output = parse("fn f(a: int) -> int:\n");
    let Item::Function(f) = &output.module.items[0] else {
        panic!("expected a function");
    };
    assert_eq!(f.params[0].span, span(5, 11));
    assert_eq!(f.params[0].name.span, span(5, 6));
    assert_eq!(f.params[0].annotation.text, "int");
    assert_eq!(f.params[0].annotation.span, span(8, 11));
}

#[test]
fn every_top_level_line_yields_one_result() {
    let source = "newtype A = int\nfn f)( -> int:\nfn g() -> A:\nx\nfn h(a) -> int:\n";
    let output = parse(source);
    assert_eq!(output.module.items.len() + output.diagnostics.len(), 5);
    assert_eq!(codes(&output), vec!["RYP0204", "RYP0003", "RYP0206"]);
}

#[test]
fn empty_parameter_pieces_are_ignored() {
    let output = parse("fn f(a: int, , b: str,) -> int:\n");
    assert!(output.diagnostics.is_empty());
    let Item::Function(f) = &output.module.items[0] else {
        panic!("expected a function");
    };
    assert_eq!(f.params.len(), 2);
}

#[test]
fn diagnostics_stay_inside_the_source() {
    let source = "x\n  \tbody\nnewtype\nfn g(\n";
    let output = parse(source);
    assert_eq!(codes(&output), vec!["RYP0003", "RYP0001", "RYP0003", "RYP0201"]);
    for d in &output.diagnostics {
        assert!(d.span.start <= d.span.end && d.span.end <= source.len());
    }
}

#[test]
fn empty_source() {
    let output = parse("");
    assert!(output.diagnostics.is_empty());
    assert!(output.module.items.is_empty());
    assert_eq!(output.module.id, NodeId(0));
    assert_eq!(output.module.span, span(0, 0));
}

#[test]
fn trailing_comments_are_not_part_of_a_line() {
    let output = parse("fn f() -> int:  # the answer\nnewtype A = int # note\nx = 1 # c\n");
    assert_eq!(codes(&output), vec!["RYP0003"]);
    assert_eq!(
        output.diagnostics[0].message,
        "unsupported top-level syntax in bootstrap parser: `x = 1`"
    );
    assert_eq!(output.module.items.len(), 2);
    let Item::Newtype(d) = &output.module.items[1] else {
        panic!("expected a newtype");
    };
    assert_eq!(d.underlying.text, "int");
}

#[test]
fn a_hash_inside_a_string_is_not_a_comment() {
    let output = parse("newtype S = Literal[\"#\"]\nnewtype T = Literal['a\\'#']  # c\n");
    assert!(output.diagnostics.is_empty());
    let Item::Newtype(d) = &output.module.items[0] else {
        panic!("expected a newtype");
    };
    assert_eq!(d.underlying.text, "Literal[\"#\"]");
    let Item::Newtype(e) = &output.module.items[1] else {
        panic!("expected a newtype");
    };
    assert_eq!(e.underlying.text, "Literal['a\\'#']");
}

#[test]
fn a_tab_in_a_comment_is_not_reported_by_the_parser() {
    let output = parse("fn f() -> int: #\tnote\n");
    assert!(output.diagnostics.is_empty());
    assert_eq!(output.module.items.len(), 1);
}

#[test]
fn commas_inside_brackets_do_not_split_parameters() {
    let output = parse("fn f(a: dict[str, int], b: Result[User, Error]) -> tuple[int, str]:\n");
    assert!(output.diagnostics.is_empty());
    let Item::Function(f) = &output.module.items[0] else {
        panic!("expected a function");
    };
    assert_eq!(f.params.len(), 2);
    assert_eq!(f.params[0].annotation.text, "dict[str, int]");
    assert_eq!(f.params[1].annotation.text, "Result[User, Error]");
    assert_eq!(f.return_type.text, "tuple[int, str]");
}

fn item_start(item: &Item) -> usize {
    match item {
        Item::Newtype(d) => d.span.start,
        Item::Function(f) => f.span.start,
    }
}

#[test]
fn every_top_level_line_yields_a_result_at_its_first_byte() {
    let source = "newtype A = int\n\n# note\nfn f(x: int) -> int:\n    body\ndef g():\nnewtype = int\n";
    let output = parse(source);
    let items: Vec<usize> = output.module.items.iter().map(item_start).collect();
    let diags: Vec<usize> = output.diagnostics.iter().map(|d| d.span.start).collect();
    assert_eq!(items, vec![0, 24]);
    assert_eq!(diags, vec![54, 63]);
    for pair in items.windows(2).chain(diags.windows(2)) {
        assert!(pair[0] < pair[1]);
    }
}

#[test]
fn annotations_are_trimmed() {
    let output = parse("fn f( a :  int  , b:  list[ int ] ) ->  str  :\n");
    assert!(output.diagnostics.is_empty());
    let Item::Function(f) = &output.module.items[0] else {
        panic!("expected a function");
    };
    assert_eq!(f.params[0].annotation.text, "int");
    assert_eq!(f.params[1].annotation.text, "list[ int ]");
    assert_eq!(f.return_type.text, "str");
    for p in &f.params {
        assert_eq!(p.annotation.text, p.annotation.text.trim());
    }
}
