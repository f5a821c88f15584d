use search_semantically::db::StoredChunk;
use search_semantically::engine::{
    extract_go_imports, extract_imports, extract_java_imports, extract_python_imports, extract_rust_imports,
    extract_ts_imports, plan_index, resolve_rust_path, restrict_to_dir, select_results, SearchEngine,
};
use search_semantically::scanner::FileType;
use std::path::PathBuf;

#[test]
fn extract_rust_imports_simple() {
    let code = "use std::collections::HashMap;\nuse crate::tools::search::db;\n";
    let imports = extract_rust_imports(code);
    assert!(imports.contains(&"lib/std/collections/HashMap".to_string()));
    assert!(imports.contains(&"tools/search/db".to_string()));
}

#[test]
fn extract_rust_imports_grouped() {
    let code = "use std::collections::{HashMap, BTreeMap};\n";
    let imports = extract_rust_imports(code);
    assert!(imports.contains(&"lib/std/collections/HashMap".to_string()));
    assert!(imports.contains(&"lib/std/collections/BTreeMap".to_string()));
}

#[test]
fn extract_rust_imports_ignores_non_use_lines() {
    let code = "fn main() {}\n// use something\nconst X: i32 = 1;\n";
    let imports = extract_rust_imports(code);
    assert!(imports.is_empty());
}

#[test]
fn extract_rust_imports_super_path() {
    let code = "use super::engine::SearchEngine;\n";
    let imports = extract_rust_imports(code);
    assert!(imports.contains(&"engine/SearchEngine".to_string()));
}

#[test]
fn extract_rust_imports_crate_self() {
    let code = "use crate::config::SearchConfig;\n";
    let imports = extract_rust_imports(code);
    assert!(imports.contains(&"config/SearchConfig".to_string()));
}

#[test]
fn extract_rust_imports_empty() {
    let imports = extract_rust_imports("");
    assert!(imports.is_empty());
}

#[test]
fn extract_rust_imports_multiline_grouped() {
    let code = "use std::collections::{\n    HashMap,\n    BTreeMap,\n};\n";
    let imports = extract_rust_imports(code);
    assert!(imports.contains(&"lib/std/collections/HashMap".to_string()));
    assert!(imports.contains(&"lib/std/collections/BTreeMap".to_string()));
}

#[test]
fn extract_rust_imports_multiline_crate_path() {
    let code = "use crate::upnp::{\n    browse,\n    browse_recursively,\n    Container,\n};\n";
    let imports = extract_rust_imports(code);
    assert!(imports.contains(&"upnp/browse".to_string()));
    assert!(imports.contains(&"upnp/browse_recursively".to_string()));
    assert!(imports.contains(&"upnp/Container".to_string()));
}

#[test]
fn extract_rust_imports_open_brace_only_no_panic() {
    let code = "use foo::{\n";
    let imports = extract_rust_imports(code);
    assert!(imports.is_empty());
}

#[test]
fn extract_rust_imports_trailing_comma_multiline() {
    let code = "use std::io::{Read, Write,};\n";
    let imports = extract_rust_imports(code);
    assert!(imports.contains(&"lib/std/io/Read".to_string()));
    assert!(imports.contains(&"lib/std/io/Write".to_string()));
    assert_eq!(imports.len(), 2);
}

#[test]
fn extract_rust_imports_mixed_single_and_multiline() {
    let code = "use std::fs;\nuse crate::engine::{\n    SearchEngine,\n    MetricScores,\n};\nuse super::db::SearchDb;\n";
    let imports = extract_rust_imports(code);
    assert!(imports.contains(&"lib/std/fs".to_string()));
    assert!(imports.contains(&"engine/SearchEngine".to_string()));
    assert!(imports.contains(&"engine/MetricScores".to_string()));
    assert!(imports.contains(&"db/SearchDb".to_string()));
    assert_eq!(imports.len(), 4);
}

#[test]
fn resolve_rust_path_cases() {
    assert_eq!(resolve_rust_path("crate/super/x/Y"), "x/Y");
    assert_eq!(resolve_rust_path("crate/a/b"), "a/b");
    assert_eq!(resolve_rust_path("self/a"), "a");
    assert_eq!(resolve_rust_path("core/fmt"), "lib/core/fmt");
    assert_eq!(resolve_rust_path("alloc/vec/Vec"), "lib/alloc/vec/Vec");
    assert_eq!(resolve_rust_path("serde/Deserialize"), "serde/Deserialize");
    assert_eq!(resolve_rust_path("single"), "single");
    assert_eq!(resolve_rust_path("crate"), "crate");
}

#[test]
fn imports_of_other_types_are_empty() {
    assert!(extract_imports("use a::b;", &FileType::Markdown).is_empty());
    assert_eq!(extract_imports("use a::b;", &FileType::Rust), vec!["a/b".to_string()]);
}

#[test]
fn group_without_close_brace_gives_nothing() {
    assert!(extract_rust_imports("use a::{b, c").is_empty());
    assert_eq!(extract_rust_imports("use a::{ , b };"), vec!["a/b".to_string()]);
}

fn chunk(id: i64, file_id: i64, path: &str) -> StoredChunk {
    StoredChunk {
        id,
        file_id,
        file_path: path.to_string(),
        start_line: 1,
        end_line: 1,
        kind: "file".to_string(),
        name: None,
        content: String::new(),
        file_type: "rust".to_string(),
    }
}

#[test]
fn file_chunk_map_groups_ids_in_order() {
    let engine: SearchEngine<()> = SearchEngine::new(PathBuf::from("/project"));
    let chunks = vec![chunk(1, 10, "a.rs"), chunk(2, 20, "b.rs"), chunk(3, 10, "a.rs")];
    let map = engine.build_file_chunk_map(&chunks);
    assert_eq!(map.len(), 2);
    assert_eq!(map[&10], vec![1, 3]);
    assert_eq!(map[&20], vec![2]);
}

#[test]
fn engine_keeps_root_and_callback() {
    let engine: SearchEngine<u8> = SearchEngine::new(PathBuf::from("/project"));
    assert!(engine.download_callback().is_none());
    assert_eq!(engine.project_root(), &PathBuf::from("/project"));
    assert!(engine.embedder_cache_dir().ends_with("search-semantically/models"));
    let mut engine = engine.with_download_callback(7);
    assert_eq!(engine.download_callback(), &Some(7));
    engine.set_download_callback(9);
    assert_eq!(engine.download_callback(), &Some(9));
}

#[test]
fn index_plan_sorts_files_into_new_checked_and_gone() {
    let scanned = vec!["a.rs".to_string(), "b.rs".to_string(), "c.rs".to_string()];
    let existing = vec!["b.rs".to_string(), "d.rs".to_string(), "a.rs".to_string()];
    let plan = plan_index(&scanned, &existing);
    assert_eq!(plan.to_add, vec![2]);
    assert_eq!(plan.to_check, vec![(0, 2), (1, 0)]);
    assert_eq!(plan.to_remove, vec![1]);
}

#[test]
fn restrict_keeps_chunks_under_dir() {
    let chunks = vec![chunk(1, 1, "src/a.rs"), chunk(2, 2, "tests/b.rs"), chunk(3, 3, "src/c.rs")];
    let kept = restrict_to_dir(chunks, "src");
    let ids: Vec<i64> = kept.iter().map(|c| c.id).collect();
    assert_eq!(ids, vec![1, 3]);
}

#[test]
fn select_results_takes_limit_and_skips_unknown_ids() {
    let chunks = vec![chunk(5, 1, "a.rs"), chunk(6, 1, "a.rs"), chunk(7, 2, "b.rs")];
    assert_eq!(select_results(&vec![7, 99, 5, 6], &chunks, 3), vec![2, 0]);
    assert_eq!(select_results(&vec![6], &chunks, 10), vec![1]);
}

#[test]
fn python_imports_name_modules() {
    let code = "import os.path as p\nfrom a.b import c\nimportant = 1\n";
    assert_eq!(extract_python_imports(code), vec!["os/path".to_string(), "a/b".to_string()]);
}

#[test]
fn java_imports_name_classes() {
    let code = "import java.util.List;\nimport static x.y;\nclass A {}\n";
    assert_eq!(extract_java_imports(code), vec!["java/util/List".to_string(), "static x/y".to_string()]);
}

#[test]
fn ts_imports_name_modules() {
    let code = "import { a } from \"./a\";\nimport type { T } from './t'\nfrom pkg import x\nrequire(\"fs\")\nconst x = 1;\n";
    assert_eq!(
        extract_ts_imports(code),
        vec!["./a".to_string(), "./t".to_string(), "pkg".to_string(), "fs".to_string()]
    );
}

#[test]
fn go_imports_single_and_block() {
    let code = "import \"fmt\"\nimport (\n    \"os\"\n    \"strings\" // text\n)\nfunc main() {}\n";
    assert_eq!(
        extract_go_imports(code),
        vec!["fmt".to_string(), "os".to_string(), "strings\"".to_string()]
    );
}

#[test]
fn file_chunk_lists_hold_every_chunk_once() {
    let engine: SearchEngine<()> = SearchEngine::new(PathBuf::from("/project"));
    let chunks = vec![chunk(1, 10, "a.rs"), chunk(2, 20, "b.rs"), chunk(3, 10, "a.rs"), chunk(4, 30, "c.rs")];
    let map = engine.build_file_chunk_map(&chunks);
    let total: usize = map.values().map(|v| v.len()).sum();
    assert_eq!(total, chunks.len());
}
