use search_semantically::chunker::chunk_file;
use search_semantically::scanner::FileType;
use search_semantically::text_chunker::chunk_json_keys;
use search_semantically::text_chunker::{
    chunk_json, chunk_text_file, enforce_max_size, extract_paragraph_name, ChunkKind, TextChunk,
    MAX_CHUNK_SIZE,
};

#[test]
fn markdown_dispatches_to_text_chunker() {
    let content = "# Title\n\nSome content that is long enough to be split into chunks by the text chunker module";
    let chunks = chunk_file(content, "test.md", &FileType::Markdown);
    assert!(!chunks.is_empty());
}

#[test]
fn yaml_dispatches_to_text_chunker() {
    let content = "server:\n  port: 8080\n  host: localhost\ndatabase:\n  url: postgres://localhost\n  pool_size: 10";
    let chunks = chunk_file(content, "config.yaml", &FileType::Yaml);
    assert!(!chunks.is_empty());
}

#[test]
fn rust_dispatches_to_ts_chunker() {
    let code = "fn main() { println!(\"hello\"); }";
    let chunks = chunk_file(code, "main.rs", &FileType::Rust);
    assert!(!chunks.is_empty());
}

#[test]
fn small_file_returns_single_chunk() {
    let content = "short file";
    let chunks = chunk_text_file(content, "test.txt", "plaintext");
    assert_eq!(chunks.len(), 1);
    assert_eq!(chunks[0].kind, ChunkKind::File);
}

#[test]
fn markdown_splits_by_headings() {
    let mut content = String::from("# Title\n\n");
    content.push_str("Some intro text that is long enough to make this file exceed the minimum split size threshold for our text chunker implementation. We need at least five hundred characters in total for the chunker to activate its format-specific splitting logic rather than returning the entire file as a single chunk.\n\n");
    content.push_str("## Section 1\n\n");
    content.push_str("Content 1 that is long enough to be significant and meaningful and contains enough text to meet size requirements for chunking.\n\n");
    content.push_str("## Section 2\n\n");
    content.push_str("Content 2 that is long enough to be significant and meaningful and contains enough text to meet size requirements for chunking purposes.\n\n");
    let chunks = chunk_text_file(&content, "test.md", "markdown");
    assert!(
        chunks.len() >= 2,
        "Should have at least 2 heading sections, got: {:?}",
        chunks
    );

    let names: Vec<&str> = chunks.iter().filter_map(|c| c.name.as_deref()).collect();
    assert!(names.contains(&"Title"), "Should contain Title, got: {:?}", names);
    assert!(names.contains(&"Section 1"), "Should contain Section 1, got: {:?}", names);
    assert!(names.contains(&"Section 2"), "Should contain Section 2, got: {:?}", names);
}

#[test]
fn markdown_no_headings_falls_back_to_plaintext() {
    let content =
        "Line 1\n\nLine 2\n\nLine 3\n\nLine 4 is longer and has more content to be meaningful";
    let chunks = chunk_text_file(content, "test.md", "markdown");
    assert!(!chunks.is_empty());
}

#[test]
fn yaml_splits_by_top_level_keys() {
    let mut content = String::new();
    content.push_str("server:\n  port: 8080\n  host: localhost\n  timeout: 30\n");
    content.push_str("  max_connections: 100\n  enable_tls: true\n  cert_path: /etc/ssl/cert.pem\n");
    content.push_str("  key_path: /etc/ssl/key.pem\n  worker_threads: 4\n  max_body_size: 10485760\n");
    content.push_str("  keep_alive_timeout: 75\n  client_header_timeout: 60\n");
    content.push_str("  client_body_timeout: 60\n  send_timeout: 30\n");
    content.push_str("  access_log: /var/log/nginx/access.log\n  error_log: /var/log/nginx/error.log\n\n");
    content.push_str("database:\n  url: postgres://localhost:5432/mydb\n  pool_size: 10\n");
    content.push_str("  timeout: 30\n  max_retries: 3\n  enable_ssl: true\n  ssl_mode: require\n");
    content.push_str("  connection_timeout: 5\n  statement_timeout: 30000\n  idle_timeout: 600\n");
    content.push_str("  max_lifetime: 1800\n");
    let chunks = chunk_text_file(&content, "config.yaml", "yaml");
    assert!(chunks.len() >= 2, "Should split on top-level keys, got: {:?}", chunks.len());

    let names: Vec<&str> = chunks.iter().filter_map(|c| c.name.as_deref()).collect();
    assert!(names.contains(&"server"), "Should contain server, got: {:?}", names);
    assert!(names.contains(&"database"), "Should contain database, got: {:?}", names);
}

#[test]
fn json_splits_by_top_level_keys() {
    let content = r#"{
  "name": "test-project-with-a-long-name-for-testing",
  "version": "1.0.0",
  "description": "A test project with enough content to exceed the minimum split size threshold for our text chunker to activate format-specific splitting logic for JSON files in the test suite",
  "main": "src/main.rs",
  "license": "MIT",
  "repository": "https://github.com/example/test-project",
  "dependencies": {
    "serde": "1.0",
    "anyhow": "1.0",
    "tokio": "1.0"
  },
  "devDependencies": {
    "tempfile": "3.0",
    "insta": "1.0"
  }
}"#;
    let chunks = chunk_text_file(content, "package.json", "json");
    assert!(chunks.len() >= 2, "Should split on top-level keys, got: {:?}", chunks.len());
}

#[test]
fn toml_splits_by_sections_and_kv_pairs() {
    let mut content = String::new();
    content.push_str("name = \"test-project-with-long-name\"\n");
    content.push_str("version = \"1.0.0\"\n");
    content.push_str("edition = \"2024\"\n");
    content.push_str("description = \"A test project with enough content to exceed the minimum split size threshold for our text chunker implementation so that format-specific splitting is activated\"\n");
    content.push_str("license = \"MIT\"\n");
    content.push_str("repository = \"https://github.com/example/test-project\"\n");
    content.push_str("readme = \"README.md\"\n");
    content.push_str("keywords = [\"test\", \"project\", \"example\"]\n");
    content.push_str("categories = [\"development-tools\"]\n\n");
    content.push_str("[dependencies]\n");
    content.push_str("serde = \"1.0\"\n");
    content.push_str("anyhow = \"1.0\"\n");
    content.push_str("tokio = \"1.0\"\n");
    content.push_str("turso = \"0.5\"\n");
    content.push_str("reqwest = \"0.13\"\n");
    content.push_str("clap = \"4.6\"\n\n");
    content.push_str("[dev-dependencies]\n");
    content.push_str("tempfile = \"3.0\"\n");
    content.push_str("insta = \"1.0\"\n");
    let chunks = chunk_text_file(&content, "Cargo.toml", "toml");
    assert!(chunks.len() >= 2, "Should split on sections and KV pairs, got: {:?}", chunks.len());
}

#[test]
fn plaintext_splits_by_double_newlines() {
    let mut content = String::new();
    for i in 0..10 {
        content.push_str(&format!("This is paragraph {i} with enough text to be meaningful and exceed minimum size requirements for chunking in our system.\n\n"));
    }
    let chunks = chunk_text_file(&content, "test.txt", "plaintext");
    assert!(!chunks.is_empty());
    for chunk in &chunks {
        assert!(!chunk.content.trim().is_empty());
    }
}

#[test]
fn chunk_kind_display_roundtrips() {
    let kinds = vec![
        ChunkKind::Function,
        ChunkKind::HeadingSection,
        ChunkKind::TopLevelKey,
        ChunkKind::File,
    ];
    for kind in kinds {
        let s = kind.to_string();
        let parsed: ChunkKind = s.parse().expect("should parse");
        assert_eq!(kind, parsed);
    }
}

#[test]
fn oversized_chunk_is_split() {
    let mut content = String::new();
    for i in 0..500 {
        content.push_str(&format!("Line {i}: this is a somewhat long line of text\n"));
    }
    let chunk = TextChunk {
        file_path: "test.txt".to_string(),
        start_line: 1,
        end_line: 500,
        kind: ChunkKind::File,
        name: None,
        content: content.clone(),
    };
    let result = enforce_max_size(chunk);
    assert!(result.len() > 1, "Oversized chunk should be split");
    for sub in &result {
        assert!(sub.content.len() <= MAX_CHUNK_SIZE);
    }
}

#[test]
fn invalid_json_returns_empty() {
    let content = "{not valid json at all";
    let chunks = chunk_json(content, "bad.json");
    assert!(chunks.is_empty());
}

#[test]
fn json_array_returns_empty() {
    let content = "[1, 2, 3]";
    let chunks = chunk_json(content, "arr.json");
    assert!(chunks.is_empty());
}

#[test]
fn extract_paragraph_name_multibyte_does_not_panic() {
    let prefix = "a".repeat(56);
    let content = format!("{prefix}\u{2019}rest of a very long first line that exceeds sixty bytes");
    let name = extract_paragraph_name(&content);
    assert!(name.is_some());
    let name = name.expect("should have name");
    assert!(std::str::from_utf8(name.as_bytes()).is_ok());
    assert!(name.len() <= 60);
}

#[test]
fn split_parts_cover_the_lines_in_order() {
    let mut content = String::new();
    for i in 0..400 {
        content.push_str(&format!("entry {i} holds some text to fill the line up\n"));
    }
    let chunk = TextChunk {
        file_path: "big.txt".to_string(),
        start_line: 10,
        end_line: 409,
        kind: ChunkKind::Paragraph,
        name: Some("big".to_string()),
        content: content.clone(),
    };
    let parts = enforce_max_size(chunk);
    assert!(parts.len() > 1);
    assert_eq!(parts[0].start_line, 10);
    assert_eq!(parts[0].name.as_deref(), Some("big"));
    assert_eq!(parts[1].name.as_deref(), Some("big (cont.)"));
    for w in parts.windows(2) {
        assert_eq!(w[1].start_line, w[0].end_line + 1);
    }
    assert_eq!(parts.last().unwrap().end_line, 409);
    let joined: Vec<String> = parts.iter().map(|p| p.content.clone()).collect();
    assert_eq!(joined.join("\n"), content.trim_end_matches('\n'));
}

#[test]
fn json_single_line_gives_one_chunk_per_key() {
    let mut content = String::from("{\"alpha\": 1, \"beta\": [1, 2], \"gamma\": \"");
    content.push_str(&"x".repeat(520));
    content.push_str("\"}");
    let chunks = chunk_json(&content, "one.json");
    let names: Vec<&str> = chunks.iter().filter_map(|c| c.name.as_deref()).collect();
    assert_eq!(names, vec!["alpha", "beta", "gamma"]);
    assert_eq!(chunks[0].content, "{\n  \"alpha\": 1\n}");
    assert!(chunks.iter().all(|c| c.start_line == 1 && c.end_line == 1));
}

#[test]
fn json_multi_line_chunks_follow_key_lines() {
    let content = "{\n  \"a\": 1,\n\n  \"b\": {\n    \"c\": 2\n  }\n}";
    let chunks = chunk_json(content, "x.json");
    assert_eq!(chunks.len(), 2);
    assert_eq!(chunks[0].name.as_deref(), Some("a"));
    assert_eq!((chunks[0].start_line, chunks[0].end_line), (2, 2));
    assert_eq!(chunks[0].content, "  \"a\": 1,");
    assert_eq!(chunks[1].name.as_deref(), Some("b"));
    assert_eq!((chunks[1].start_line, chunks[1].end_line), (4, 7));
}

#[test]
fn unknown_type_is_one_whole_file_chunk() {
    let content = "z".repeat(600);
    let chunks = chunk_text_file(&content, "data.bin", "binary");
    assert_eq!(chunks.len(), 1);
    assert_eq!(chunks[0].kind, ChunkKind::File);
    assert_eq!(chunks[0].content, content);
    assert_eq!((chunks[0].start_line, chunks[0].end_line), (1, 1));
}

#[test]
fn paragraph_name_is_first_line_trimmed() {
    assert_eq!(extract_paragraph_name("  First line here  \nsecond").as_deref(), Some("First line here"));
    assert_eq!(extract_paragraph_name("   \n"), None);
}

#[test]
fn split_parts_keep_file_kind_and_name() {
    let mut content = String::new();
    for i in 0..500 {
        content.push_str(&format!("Line {i}: this is a somewhat long line of text\n"));
    }
    let chunk = TextChunk {
        file_path: "notes.txt".to_string(),
        start_line: 1,
        end_line: 500,
        kind: ChunkKind::Paragraph,
        name: Some("Intro".to_string()),
        content,
    };
    let result = enforce_max_size(chunk);
    assert!(result.len() > 1);
    assert_eq!(result[0].name.as_deref(), Some("Intro"));
    for part in &result[1..] {
        assert_eq!(part.name.as_deref(), Some("Intro (cont.)"));
    }
    for part in &result {
        assert_eq!(part.file_path, "notes.txt");
        assert_eq!(part.kind, ChunkKind::Paragraph);
    }
}

#[test]
fn text_file_chunks_carry_the_path() {
    let mut content = String::new();
    for i in 0..40 {
        content.push_str(&format!("key{i}:\n  value: {i}\n"));
    }
    for chunk in chunk_text_file(&content, "conf/app.yaml", "yaml") {
        assert_eq!(chunk.file_path, "conf/app.yaml");
    }
}

#[test]
fn json_chunks_from_given_keys() {
    let content = "{\n  \"b\": 1,\n  \"a\": {\n    \"x\": 2\n  }\n}";
    let keys = vec!["a".to_string(), "b".to_string()];
    let chunks = chunk_json_keys(content, "c.json", &keys, &vec![]);
    assert_eq!(chunks.len(), 2);
    assert_eq!(chunks[0].name.as_deref(), Some("b"));
    assert_eq!(chunks[0].start_line, 2);
    assert_eq!(chunks[1].name.as_deref(), Some("a"));
    assert_eq!(chunks[1].start_line, 3);
    let one_line = "{\"k\": 1}";
    let chunks = chunk_json_keys(one_line, "o.json", &vec!["k".to_string()], &vec!["{\n  \"k\": 1\n}".to_string()]);
    assert_eq!(chunks.len(), 1);
    assert_eq!(chunks[0].content, "{\n  \"k\": 1\n}");
    assert!(chunk_json_keys(content, "c.json", &vec![], &vec![]).is_empty());
}
