use search_semantically::db::StoredChunk;
use search_semantically::format::{format_results, ResultEntry, ShownScores};

fn make_result(
    file_path: &str,
    start_line: i64,
    end_line: i64,
    kind: &str,
    name: Option<&str>,
    content: &str,
) -> ResultEntry {
    ResultEntry {
        chunk: StoredChunk {
            id: 1,
            file_id: 1,
            file_path: file_path.to_string(),
            start_line,
            end_line,
            kind: kind.to_string(),
            name: name.map(String::from),
            content: content.to_string(),
            file_type: "rust".to_string(),
        },
        scores: ShownScores {
            bm25: Some("0.80".to_string()),
            cosine: Some("0.50".to_string()),
            path_match: None,
            symbol_match: Some("0.30".to_string()),
            import_graph: None,
            git_recency: Some("0.70".to_string()),
        },
    }
}

fn no_scores() -> ShownScores {
    ShownScores { bm25: None, cosine: None, path_match: None, symbol_match: None, import_graph: None, git_recency: None }
}

#[test]
fn empty_results_returns_no_results() {
    let output = format_results(&[]);
    assert_eq!(output, "No results found.");
}

#[test]
fn single_result_formats_correctly() {
    let result = make_result("src/main.rs", 1, 5, "function", Some("main"), "fn main() {}");
    let output = format_results(&[result]);

    assert!(output.contains("src/main.rs:L1-5"));
    assert!(output.contains("function main"));
    assert!(output.contains("scores:"));
    assert!(output.contains("bm25="));
}

#[test]
fn single_line_result_shows_l_prefix() {
    let result = make_result("test.rs", 42, 42, "function", Some("helper"), "fn helper() {}");
    let output = format_results(&[result]);
    assert!(output.contains("L42"));
    assert!(!output.contains("L42-"));
}

#[test]
fn result_without_name_shows_kind_only() {
    let result = make_result("test.rs", 1, 10, "file", None, "some content");
    let output = format_results(&[result]);
    assert!(output.contains("(file)"));
}

#[test]
fn long_content_preview_truncated() {
    let long_line: String = "x".repeat(200);
    let result = make_result("test.rs", 1, 1, "file", None, &long_line);
    let output = format_results(&[result]);
    assert!(output.contains("..."));
}

#[test]
fn multi_line_content_shows_more_lines_indicator() {
    let content = "line1\nline2\nline3\nline4\nline5";
    let result = make_result("test.rs", 1, 5, "file", None, content);
    let output = format_results(&[result]);
    assert!(output.contains("2 more lines"));
}

#[test]
fn zero_scores_are_omitted() {
    let mut result = make_result("test.rs", 1, 1, "file", None, "code");
    result.scores.path_match = None;
    result.scores.import_graph = None;
    let output = format_results(&[result]);
    assert!(!output.contains("pathMatch="));
    assert!(!output.contains("importGraph="));
}

#[test]
fn long_line_with_multibyte_char_does_not_panic() {
    let prefix = "x".repeat(115);
    let long_line = format!("{prefix}\u{2019}some more trailing text here");
    let result = make_result("test.rs", 1, 1, "file", None, &long_line);
    let output = format_results(&[result]);
    assert!(output.contains("..."));
    for line in output.lines() {
        let content = line.trim_start();
        assert!(content.len() <= 120, "preview line exceeded 120 bytes");
    }
}

#[test]
fn whole_output_for_two_results() {
    let mut a = make_result("a.rs", 3, 4, "function", Some("f"), "fn f() {\n}");
    a.scores = no_scores();
    a.scores.bm25 = Some("1.00".to_string());
    let mut b = make_result("b.md", 7, 7, "paragraph", None, "text");
    b.scores = no_scores();
    let output = format_results(&[a, b]);
    assert_eq!(
        output,
        "1. a.rs:L3-4 (function f)\n   scores: bm25=1.00\n   fn f() {\n   }\n\n2. b.md:L7 (paragraph)\n   text"
    );
}

#[test]
fn negative_line_numbers_print_with_sign() {
    let mut a = make_result("a.rs", -2, 10, "file", None, "");
    a.scores = no_scores();
    assert_eq!(format_results(&[a]), "1. a.rs:L-2-10 (file)");
}

#[test]
fn shown_scores_follow_metric_order() {
    let result = make_result("test.rs", 1, 1, "file", None, "code");
    let output = format_results(&[result]);
    assert!(output.contains("   scores: bm25=0.80 cosine=0.50 symbolMatch=0.30 gitRecency=0.70\n"));
}
