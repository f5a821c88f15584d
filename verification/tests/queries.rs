use search_semantically::metrics::tokenize::tokenize;
use search_semantically::metrics::{path_match_count, sanitize_fts_query, symbol_match};
use search_semantically::query_classifier::{classify_query, QueryType};

#[test]
fn sanitize_fts_removes_special_chars() {
    let result = sanitize_fts_query("find the search_engine");
    assert!(!result.contains("the"));
    assert!(result.contains("find"));
    assert!(result.contains("search_engine"));
}

#[test]
fn sanitize_fts_joins_with_or() {
    let result = sanitize_fts_query("search engine tool");
    assert!(result.contains("OR"));
}

#[test]
fn sanitize_fts_empty_query_returns_empty() {
    assert!(sanitize_fts_query("").is_empty());
}

#[test]
fn sanitize_fts_stopwords_only_returns_empty() {
    assert!(sanitize_fts_query("the a an").is_empty());
}

#[test]
fn sanitize_fts_exact_output() {
    assert_eq!(sanitize_fts_query("Find the --search-engine!"), "Find OR search OR engine");
}

#[test]
fn splits_snake_case() {
    let tokens = tokenize("my_function_name");
    assert!(tokens.contains(&"my".to_string()));
    assert!(tokens.contains(&"function".to_string()));
    assert!(tokens.contains(&"name".to_string()));
}

#[test]
fn splits_camel_case() {
    let tokens = tokenize("myFunctionName");
    assert!(tokens.contains(&"my".to_string()));
    assert!(tokens.contains(&"function".to_string()));
    assert!(tokens.contains(&"name".to_string()));
}

#[test]
fn splits_path_separators() {
    let tokens = tokenize("src/tools/search/mod.rs");
    assert!(tokens.contains(&"src".to_string()));
    assert!(tokens.contains(&"tools".to_string()));
    assert!(tokens.contains(&"search".to_string()));
}

#[test]
fn normalizes_to_lowercase() {
    let tokens = tokenize("SearchEngine");
    assert!(tokens.iter().any(|t| t == "search"));
}

#[test]
fn filters_short_tokens() {
    let tokens = tokenize("a b cd");
    assert!(!tokens.iter().any(|t| t == "a" || t == "b"));
    assert!(tokens.contains(&"cd".to_string()));
}

#[test]
fn deduplicates() {
    let tokens = tokenize("foo foo foo");
    let count = tokens.iter().filter(|t| **t == "foo").count();
    assert_eq!(count, 1);
}

#[test]
fn empty_input_returns_empty() {
    assert!(tokenize("").is_empty());
}

#[test]
fn splits_on_dots() {
    let tokens = tokenize("config.yaml");
    assert!(tokens.contains(&"config".to_string()));
    assert!(tokens.contains(&"yaml".to_string()));
}

#[test]
fn tokenize_exact_order() {
    assert_eq!(tokenize("parseHTTP-request.rs foo Foo"), vec!["parse", "http", "request", "rs", "foo"]);
}

#[test]
fn empty_query_classified_as_natural_language() {
    assert_eq!(classify_query(""), QueryType::NaturalLanguage);
}

#[test]
fn whitespace_only_query_classified_as_natural_language() {
    assert_eq!(classify_query("   "), QueryType::NaturalLanguage);
}

#[test]
fn single_camel_case_word_is_identifier() {
    assert_eq!(classify_query("myFunction"), QueryType::Identifier);
}

#[test]
fn single_snake_case_word_is_identifier() {
    assert_eq!(classify_query("my_function"), QueryType::Identifier);
}

#[test]
fn single_lowercase_word_is_identifier() {
    assert_eq!(classify_query("search"), QueryType::Identifier);
}

#[test]
fn single_uppercase_word_is_identifier() {
    assert_eq!(classify_query("Search"), QueryType::Identifier);
}

#[test]
fn path_with_slash_is_path_like() {
    assert_eq!(classify_query("src/tools/mod.rs"), QueryType::PathLike);
}

#[test]
fn path_with_backslash_is_path_like() {
    assert_eq!(classify_query("src\\tools\\mod.rs"), QueryType::PathLike);
}

#[test]
fn dotted_path_three_segments_is_path_like() {
    assert_eq!(classify_query("foo.bar.baz"), QueryType::PathLike);
}

#[test]
fn filename_with_extension_is_path_like() {
    assert_eq!(classify_query("config.yaml"), QueryType::PathLike);
}

#[test]
fn screaming_snake_case_is_identifier() {
    assert_eq!(classify_query("MAX_SIZE DEFAULT"), QueryType::Identifier);
}

#[test]
fn short_camel_case_phrase_is_identifier() {
    assert_eq!(classify_query("myFunction handles input"), QueryType::Identifier);
}

#[test]
fn natural_language_sentence_is_natural_language() {
    assert_eq!(
        classify_query("find all places where database connections are established"),
        QueryType::NaturalLanguage
    );
}

#[test]
fn short_mixed_words_without_code_patterns_is_natural_language() {
    assert_eq!(classify_query("how does this work"), QueryType::NaturalLanguage);
}

#[test]
fn four_words_without_code_patterns_is_natural_language() {
    assert_eq!(classify_query("find the error handler function"), QueryType::NaturalLanguage);
}

#[test]
fn path_match_counts_shared_tokens() {
    let q = tokenize("search mod");
    assert_eq!(path_match_count(&q, "src/tools/search/mod.rs"), 2);
    assert_eq!(path_match_count(&q, "src/lib.rs"), 0);
}

#[test]
fn symbol_match_reports_tokens_and_containment() {
    let q = tokenize("search");
    let m = symbol_match(&q, "search", "SearchEngine");
    assert_eq!(m.shared, 1);
    assert!(m.symbol_holds_query);
    assert!(!m.query_holds_symbol);
    let q2 = tokenize("find the handler");
    let m2 = symbol_match(&q2, "find the handler", "handler");
    assert_eq!(m2.shared, 1);
    assert!(!m2.symbol_holds_query);
    assert!(m2.query_holds_symbol);
    let m3 = symbol_match(&q2, "find the handler", "he");
    assert!(!m3.query_holds_symbol);
}

#[test]
fn long_queries_are_natural_language() {
    assert_eq!(classify_query("find the user_id parser quickly"), QueryType::NaturalLanguage);
    assert_eq!(classify_query("a.b c.d e.f g.h"), QueryType::NaturalLanguage);
    assert_eq!(classify_query("   "), QueryType::NaturalLanguage);
    assert_eq!(classify_query("src\\main rs"), QueryType::PathLike);
}

#[test]
fn fts_terms_are_word_characters() {
    let q = sanitize_fts_query("fn parse-header(); rate_limit // x");
    for term in q.split(" OR ") {
        assert!(term.chars().all(|c| c.is_alphanumeric() || c == '_'), "{term}");
    }
    assert_eq!(q, "fn OR parse OR header OR rate_limit");
}

#[test]
fn tokens_hold_no_delimiter() {
    for t in tokenize("Some-Path/to_the.File\\name  ÄrgerlichWORD") {
        assert!(!t.chars().any(|c| c.is_whitespace() || "/\\.-_".contains(c)), "{t}");
    }
}

#[test]
fn sanitized_query_splits_back_into_terms() {
    let q = sanitize_fts_query("Parse the HTTP header quickly");
    let terms: Vec<&str> = q.split(" OR ").collect();
    assert_eq!(terms, vec!["Parse", "HTTP", "header", "quickly"]);
    assert_eq!(sanitize_fts_query("a the"), "");
}

#[test]
fn ascii_tokens_are_lowercase() {
    for t in tokenize("ParseHTTPHeader some_Mixed.CASE") {
        assert_eq!(t, t.to_lowercase());
    }
}
