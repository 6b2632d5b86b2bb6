use agentlens::lang;
use agentlens::lang::{
    find_brace_end, line_number_at_offset, parse_visibility, trim, CSharpParser, JavaParser, SwiftParser,
};
use agentlens::types::{SymbolKind, Visibility};

#[test]
fn line_numbers_count_newlines() {
    let text = "a\nb\nc";
    assert_eq!(line_number_at_offset(text, 0), 1);
    assert_eq!(line_number_at_offset(text, 2), 2);
    assert_eq!(line_number_at_offset(text, 5), 3);
}

#[test]
fn brace_end_skips_strings() {
    let text = "class A { s = \"}\"; c = '}'; { } }";
    let end = find_brace_end(text, 0, true).unwrap();
    assert_eq!(end, text.len() - 1);
    assert_eq!(find_brace_end("no braces", 0, true), None);
    assert_eq!(find_brace_end("{ open", 0, true), None);
    // without single quotes as delimiters the quoted brace closes the block
    assert_eq!(find_brace_end("{ '}' }", 0, false), Some(3));
}

#[test]
fn visibility_words() {
    assert_eq!(parse_visibility("public", Visibility::Private), Visibility::Public);
    assert_eq!(parse_visibility("internal", Visibility::Private), Visibility::Internal);
    assert_eq!(parse_visibility("package", Visibility::Internal), Visibility::Internal);
    assert_eq!(parse_visibility("weird", Visibility::Private), Visibility::Private);
    assert_eq!(trim("  x y \n"), "x y");
}

#[test]
fn java_symbols() {
    let src = "public class Foo {\n    public void bar(int x) {\n        if (x) { }\n    }\n}\n";
    let symbols = JavaParser.parse_symbols(src);
    let class = symbols.iter().find(|s| s.name == "Foo").unwrap();
    assert_eq!(class.kind, SymbolKind::Class);
    assert_eq!(class.visibility, Visibility::Public);
    assert_eq!((class.line_range.start, class.line_range.end), (1, 5));
    let method = symbols.iter().find(|s| s.name == "bar").unwrap();
    assert_eq!(method.kind, SymbolKind::Method);
    assert_eq!((method.line_range.start, method.line_range.end), (2, 4));
    assert_eq!(method.signature.as_deref(), Some("public void bar(...)"));
    assert!(symbols.iter().all(|s| s.name != "if"));
    assert!(symbols.windows(2).all(|w| w[0].line_range.start <= w[1].line_range.start));
}

#[test]
fn csharp_symbols() {
    let src = "namespace App.Core {\n  public record Point {\n    public int X { get; set; }\n  }\n}\n";
    let symbols = CSharpParser.parse_symbols(src);
    let ns = symbols.iter().find(|s| s.kind == SymbolKind::Module).unwrap();
    assert_eq!(ns.name, "App.Core");
    assert_eq!(ns.signature.as_deref(), Some("namespace App.Core"));
    assert_eq!((ns.line_range.start, ns.line_range.end), (1, 5));
    let point = symbols.iter().find(|s| s.name == "Point").unwrap();
    assert_eq!(point.kind, SymbolKind::Struct);
    let prop = symbols.iter().find(|s| s.kind == SymbolKind::Const).unwrap();
    assert_eq!(prop.name, "X");
    assert_eq!(prop.line, 3);
}

#[test]
fn swift_symbols() {
    let src = "public struct Item: Codable {\n    init(x: Int) {\n    }\n    func go() -> Int {\n        return 1\n    }\n}\n";
    let symbols = SwiftParser.parse_symbols(src);
    let item = symbols.iter().find(|s| s.name == "Item").unwrap();
    assert_eq!(item.kind, SymbolKind::Struct);
    assert_eq!(item.visibility, Visibility::Public);
    assert_eq!((item.line_range.start, item.line_range.end), (1, 7));
    assert_eq!(item.signature.as_deref(), Some("struct Item"));
    let init = symbols.iter().find(|s| s.name == "init").unwrap();
    assert_eq!(init.kind, SymbolKind::Method);
    let go = symbols.iter().find(|s| s.name == "go").unwrap();
    assert_eq!(go.kind, SymbolKind::Function);
    assert_eq!((go.line_range.start, go.line_range.end), (4, 6));
    assert_eq!(go.signature.as_deref(), Some("func go() -> Int"));
}

fn group(start: usize, end: usize, text: &str) -> Option<(usize, usize, String)> {
    Some((start, end, text.to_string()))
}

#[test]
fn java_symbols_from_given_matches() {
    let content = "x\nclass A {\n}\n";
    let types = vec![vec![group(2, 9, "class A"), None, None, group(2, 7, "class"), group(8, 9, "A")]];
    let methods = vec![vec![group(2, 12, "  x if ("), None, None, None, None, group(4, 5, "x"), group(6, 8, "if")]];
    let symbols = lang::java_symbols(content, &types, &methods, &vec![]);
    assert_eq!(symbols.len(), 1);
    assert_eq!(symbols[0].name, "A");
    assert_eq!(symbols[0].kind, SymbolKind::Class);
    assert_eq!((symbols[0].line_range.start, symbols[0].line_range.end), (2, 3));
    assert_eq!(symbols[0].visibility, Visibility::Internal);
    assert_eq!(symbols[0].signature.as_deref(), Some("class A"));
}

#[test]
fn csharp_symbols_from_given_matches() {
    let content = "namespace N {\n}\n";
    let namespaces = vec![vec![group(0, 11, "namespace N"), group(10, 11, "N")]];
    let symbols = lang::csharp_symbols(content, &namespaces, &vec![], &vec![], &vec![]);
    assert_eq!(symbols.len(), 1);
    assert_eq!(symbols[0].kind, SymbolKind::Module);
    assert_eq!(symbols[0].signature.as_deref(), Some("namespace N"));
    assert_eq!((symbols[0].line_range.start, symbols[0].line_range.end), (1, 2));
}

#[test]
fn swift_symbols_drop_repeats() {
    let content = "func f() {\n}\n";
    let f = vec![group(0, 10, "func f() {"), None, group(5, 6, "f")];
    let mut groups = vec![vec![]; 8];
    groups[6] = vec![f.clone(), f];
    let symbols = lang::swift_symbols(content, &groups);
    assert_eq!(symbols.len(), 1);
    assert_eq!(symbols[0].kind, SymbolKind::Function);
    assert_eq!(symbols[0].signature.as_deref(), Some("func f()"));
    assert_eq!((symbols[0].line_range.start, symbols[0].line_range.end), (1, 2));
}
