use rustype::{parse_module, FileId, Item};

#[test]
fn parses_first_vertical_slice() {
    let source = "newtype UserId = int\n\nfn greet(id: UserId, name: str) -> str:\n    return f\"{id}: {name}\"\n";
    let output = parse_module(FileId(0), source);
    assert!(output.diagnostics.is_empty(), "{:?}", output.diagnostics);
    assert_eq!(output.module.items.len(), 2);
    assert!(matches!(output.module.items[0], Item::Newtype(_)));
    assert!(matches!(output.module.items[1], Item::Function(_)));
}

#[test]
fn rejects_python_def() {
    let output = parse_module(FileId(0), "def greet(name: str) -> str:\n    return name\n");
    assert_eq!(output.diagnostics.len(), 1);
    assert_eq!(output.diagnostics[0].code, "RYP0002");
}

#[test]
fn lib_rejects_tabs() {
    let output = parse_module(FileId(0), "fn greet(name: str) -> str:\n\treturn name\n");
    assert_eq!(output.diagnostics.len(), 1);
    assert_eq!(output.diagnostics[0].code, "RYP0001");
}
