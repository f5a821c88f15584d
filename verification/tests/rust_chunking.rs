use search_semantically::text_chunker::ChunkKind;
use search_semantically::ts_chunker::{chunk_rust, chunk_syntax_nodes, rust_target_types, SyntaxNode};

#[test]
fn rust_function_extraction() {
    let code = r#"fn main() {
    println!("hello");
}

fn helper(x: i32) -> i32 {
    x + 1
}
"#;
    let chunks = chunk_rust(code, "main.rs");
    assert!(chunks.len() >= 2, "Should extract at least 2 functions, got: {:?}", chunks);

    let names: Vec<&str> = chunks.iter().filter_map(|c| c.name.as_deref()).collect();
    assert!(names.contains(&"main"));
    assert!(names.contains(&"helper"));
}

#[test]
fn rust_struct_and_enum_extraction() {
    let code = r#"struct Config {
    port: u16,
    host: String,
}

enum Error {
    Io(std::io::Error),
    Parse(String),
}
"#;
    let chunks = chunk_rust(code, "types.rs");
    assert!(chunks.len() >= 2);

    let names: Vec<&str> = chunks.iter().filter_map(|c| c.name.as_deref()).collect();
    assert!(names.contains(&"Config"));
    assert!(names.contains(&"Error"));
}

#[test]
fn rust_impl_extraction() {
    let code = r#"impl Config {
    fn new() -> Self {
        Self { port: 8080, host: "localhost".into() }
    }
}
"#;
    let chunks = chunk_rust(code, "config.rs");
    assert!(!chunks.is_empty());

    let names: Vec<&str> = chunks.iter().filter_map(|c| c.name.as_deref()).collect();
    assert!(names.contains(&"Config"));
}

#[test]
fn empty_rust_file_returns_single_chunk() {
    let code = "";
    let chunks = chunk_rust(code, "empty.rs");
    assert_eq!(chunks.len(), 1);
    assert_eq!(chunks[0].kind, ChunkKind::File);
}

#[test]
fn rust_file_with_only_comments() {
    let code = "// just a comment\n// another comment\n";
    let chunks = chunk_rust(code, "comment.rs");
    assert!(!chunks.is_empty());
}

#[test]
fn rust_chunks_keep_item_lines_and_kinds() {
    let code = "fn a() {\n    1;\n}\n\nstruct S;\n";
    let chunks = chunk_rust(code, "lib.rs");
    assert_eq!(chunks.len(), 2);
    assert_eq!(chunks[0].kind, ChunkKind::Function);
    assert_eq!(chunks[0].name.as_deref(), Some("a"));
    assert_eq!((chunks[0].start_line, chunks[0].end_line), (1, 3));
    assert_eq!(chunks[0].content, "fn a() {\n    1;\n}\n");
    assert_eq!(chunks[1].kind, ChunkKind::Struct);
    assert_eq!(chunks[1].name.as_deref(), Some("S"));
    assert_eq!((chunks[1].start_line, chunks[1].end_line), (5, 5));
}

#[test]
fn rust_gap_with_enough_lines_becomes_a_chunk() {
    let code = "use a::b;\nuse c::d;\nconst X: u8 = 1;\nconst Y: u8 = 2;\n\nfn f() {}\n";
    let chunks = chunk_rust(code, "g.rs");
    assert_eq!(chunks.len(), 2);
    assert_eq!(chunks[0].kind, ChunkKind::File);
    assert_eq!((chunks[0].start_line, chunks[0].end_line), (1, 5));
    assert_eq!(chunks[0].content, "use a::b;\nuse c::d;\nconst X: u8 = 1;\nconst Y: u8 = 2;\n");
    assert_eq!(chunks[1].name.as_deref(), Some("f"));
}

fn node(kind: &str, start_row: usize, end_row: usize, size: usize, name: Option<&str>) -> SyntaxNode {
    SyntaxNode {
        kind: kind.to_string(),
        start_row,
        end_row,
        size,
        name: name.map(String::from),
        type_field: None,
    }
}

#[test]
fn outer_item_hides_nested_items_and_overlaps_drop() {
    let content = "mod m {\nfn outer() {\n    fn inner() {}\n}\n}\nfn last() {}\n";
    let nodes = vec![
        node("source_file", 0, 6, 6, None),
        node("mod_item", 0, 4, 3, Some("m")),
        node("function_item", 1, 3, 2, Some("outer")),
        node("function_item", 2, 2, 1, Some("inner")),
        node("function_item", 1, 2, 1, Some("overlap")),
        node("function_item", 5, 5, 1, Some("last")),
    ];
    let chunks = chunk_syntax_nodes(content, "m.rs", &nodes);
    let names: Vec<&str> = chunks.iter().filter_map(|c| c.name.as_deref()).collect();
    assert_eq!(names, vec!["outer", "last"]);
}

#[test]
fn rust_targets_are_the_item_kinds() {
    let t = rust_target_types();
    assert_eq!(t, vec!["function_item", "impl_item", "struct_item", "enum_item", "trait_item"]);
}
