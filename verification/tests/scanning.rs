use search_semantically::scanner::{detect_file_type, scanned_type, FileType, MAX_FILE_SIZE};
use search_semantically::util::truncate_with_ellipsis;

#[test]
fn detect_rust_file() {
    assert_eq!(detect_file_type("src/main.rs"), Some(FileType::Rust));
}

#[test]
fn detect_markdown_file() {
    assert_eq!(detect_file_type("README.md"), Some(FileType::Markdown));
}

#[test]
fn detect_yaml_file() {
    assert_eq!(detect_file_type("config.yaml"), Some(FileType::Yaml));
    assert_eq!(detect_file_type("config.yml"), Some(FileType::Yaml));
}

#[test]
fn detect_json_file() {
    assert_eq!(detect_file_type("package.json"), Some(FileType::Json));
}

#[test]
fn detect_toml_file() {
    assert_eq!(detect_file_type("Cargo.toml"), Some(FileType::Toml));
}

#[test]
fn detect_unknown_extension_returns_none() {
    assert_eq!(detect_file_type("image.png"), None);
}

#[test]
fn detect_no_extension_returns_none() {
    assert_eq!(detect_file_type("Makefile"), None);
}

#[test]
fn file_type_display_roundtrips() {
    let ft = FileType::Rust;
    let s = ft.to_string();
    let parsed: FileType = s.parse().expect("should parse");
    assert_eq!(ft, parsed);
}

#[test]
fn every_file_type_roundtrips_and_unknown_names_fail() {
    for ft in [FileType::Rust, FileType::Markdown, FileType::Yaml, FileType::Json, FileType::Toml, FileType::Plaintext] {
        let parsed: FileType = ft.to_string().parse().expect("should parse");
        assert_eq!(ft, parsed);
    }
    let bad: Result<FileType, String> = "cobol".parse();
    assert_eq!(bad, Err("Unknown file type: cobol".to_string()));
}

#[test]
fn detect_is_case_insensitive_and_knows_text() {
    assert_eq!(detect_file_type("NOTES.TXT"), Some(FileType::Plaintext));
    assert_eq!(detect_file_type("docs/page.MDX"), Some(FileType::Markdown));
}

#[test]
fn short_string_unchanged() {
    assert_eq!(truncate_with_ellipsis("hello", 10), "hello");
}

#[test]
fn exact_length_unchanged() {
    assert_eq!(truncate_with_ellipsis("hello", 5), "hello");
}

#[test]
fn long_ascii_truncated() {
    let s = "a".repeat(200);
    let result = truncate_with_ellipsis(&s, 120);
    assert_eq!(result.len(), 120);
    assert!(result.ends_with("..."));
}

#[test]
fn multibyte_at_cut_is_valid_utf8() {
    let prefix = "a".repeat(115);
    let s = format!("{prefix}\u{2019}trailing text to make it long enough");
    let result = truncate_with_ellipsis(&s, 120);
    assert!(std::str::from_utf8(result.as_bytes()).is_ok());
    assert!(result.len() <= 120);
    assert!(result.ends_with("..."));
}

#[test]
fn emoji_at_cut_is_valid_utf8() {
    let prefix = "b".repeat(118);
    let s = format!("{prefix}\u{1F600}more text here");
    let result = truncate_with_ellipsis(&s, 120);
    assert!(std::str::from_utf8(result.as_bytes()).is_ok());
    assert!(result.len() <= 120);
    assert!(result.ends_with("..."));
}

#[test]
fn max_bytes_less_than_or_equal_3_no_ellipsis() {
    let s = "hello world";
    let result = truncate_with_ellipsis(s, 2);
    assert!(result.len() <= 2);
    assert!(std::str::from_utf8(result.as_bytes()).is_ok());
}

#[test]
fn max_bytes_zero() {
    let result = truncate_with_ellipsis("hello", 0);
    assert_eq!(result, "");
}

#[test]
fn truncation_keeps_whole_characters() {
    assert_eq!(truncate_with_ellipsis("ab\u{2019}cdefgh", 6), "ab...");
    assert_eq!(truncate_with_ellipsis("abcdefgh", 3), "abc");
}

#[test]
fn scan_admits_sized_known_files() {
    assert_eq!(scanned_type(10, "src/main.rs"), Some(FileType::Rust));
    assert_eq!(scanned_type(MAX_FILE_SIZE, "notes.md"), Some(FileType::Markdown));
    assert_eq!(scanned_type(0, "src/main.rs"), None);
    assert_eq!(scanned_type(MAX_FILE_SIZE + 1, "src/main.rs"), None);
    assert_eq!(scanned_type(10, "image.png"), None);
}
