use fresh::bridge::{AsyncMessage, SearchResults};
use fresh::search::{
    collect_grep_matches, contains_chars, file_name_of, filter_files, fuzzy_match, parse_git_grep_line,
    parse_usize, trim_chars, GitGrepMatch,
};

fn chars(s: &str) -> Vec<char> {
    s.chars().collect()
}

fn grep_match(file: &str) -> GitGrepMatch {
    GitGrepMatch { file: file.to_string(), line: 1, column: 1, content: String::new() }
}

#[test]
fn test_parse_git_grep_line() {
    let line = "src/main.rs:10:5:fn main() {";
    let result = parse_git_grep_line(line).unwrap();

    assert_eq!(result.file, "src/main.rs");
    assert_eq!(result.line, 10);
    assert_eq!(result.column, 5);
    assert_eq!(result.content, "fn main() {");
}

#[test]
fn test_parse_git_grep_line_with_colons_in_content() {
    let line = "config.json:5:10:  \"port\": 8080,";
    let result = parse_git_grep_line(line).unwrap();

    assert_eq!(result.file, "config.json");
    assert_eq!(result.line, 5);
    assert_eq!(result.column, 10);
    assert_eq!(result.content, "\"port\": 8080,");
}

#[test]
fn grep_line_with_too_few_fields_is_skipped() {
    assert!(parse_git_grep_line("src/main.rs:10").is_none());
    assert!(parse_git_grep_line("src/main.rs:x:5:text").is_none());
    assert!(parse_git_grep_line("").is_none());
}

#[test]
fn numbers_read_as_std_does() {
    assert_eq!(parse_usize(&chars("42")), Some(42));
    assert_eq!(parse_usize(&chars("+7")), Some(7));
    assert_eq!(parse_usize(&chars("")), None);
    assert_eq!(parse_usize(&chars("+")), None);
    assert_eq!(parse_usize(&chars("-1")), None);
    assert_eq!(parse_usize(&chars("1a")), None);
    assert_eq!(parse_usize(&chars("99999999999999999999999")), None);
    assert_eq!(parse_usize(&chars(&usize::MAX.to_string())), Some(usize::MAX));
}

#[test]
fn trimming_drops_white_space_at_both_ends() {
    assert_eq!(trim_chars(&chars("  a b \t\n")), chars("a b"));
    assert_eq!(trim_chars(&chars("   ")), chars(""));
}

#[test]
fn grep_results_are_capped() {
    let lines: Vec<String> = (0..150).map(|i| format!("f.rs:{}:1:line {}", i + 1, i)).collect();
    let mut with_noise = vec!["not a match".to_string()];
    with_noise.extend(lines);
    let r = collect_grep_matches(&with_noise);
    assert_eq!(r.len(), 100);
    assert_eq!(r[0].line, 1);
    assert_eq!(r[99].content, "line 99");
}

#[test]
fn fuzzy_match_needs_characters_in_order() {
    assert!(fuzzy_match(&chars("mrs"), &chars("src/main.rs")));
    assert!(!fuzzy_match(&chars("rsm"), &chars("src/main.rs")));
    assert!(fuzzy_match(&chars(""), &chars("x")));
}

#[test]
fn runs_and_file_names() {
    assert!(contains_chars(&chars("main.rs"), &chars("in.r")));
    assert!(!contains_chars(&chars("main.rs"), &chars("mr")));
    assert!(contains_chars(&chars("ab"), &chars("")));
    assert_eq!(file_name_of(&chars("src/bin/main.rs")), chars("main.rs"));
    assert_eq!(file_name_of(&chars("main.rs")), chars("main.rs"));
    assert_eq!(file_name_of(&chars("src/")), chars(""));
}

#[test]
fn files_are_filtered_and_names_first() {
    let files: Vec<String> = vec![
        "main/lib.rs".to_string(),
        "src/Main.rs".to_string(),
        "README.md".to_string(),
        "tests/domain.rs".to_string(),
    ];
    let r = filter_files(&files, "MAIN");
    assert_eq!(r, vec!["src/Main.rs".to_string(), "tests/domain.rs".to_string(), "main/lib.rs".to_string()]);
}

#[test]
fn blank_query_keeps_all_files() {
    let files: Vec<String> = vec!["b".to_string(), "a".to_string()];
    assert_eq!(filter_files(&files, "  "), files);
}

#[test]
fn file_results_are_capped() {
    let files: Vec<String> = (0..120).map(|i| format!("f{}.rs", i)).collect();
    let r = filter_files(&files, "f");
    assert_eq!(r.len(), 100);
    assert_eq!(r[99], "f99.rs");
}

#[test]
fn stale_search_result_is_dropped() {
    let mut results = SearchResults::new();
    results.start_grep("foo");
    results.start_grep("bar");
    let taken = results.receive(AsyncMessage::GitGrepResults {
        query: "foo".to_string(),
        results: vec![grep_match("foo.rs")],
    });
    assert!(!taken);
    assert!(results.grep_results().is_empty());
    let taken = results.receive(AsyncMessage::GitGrepResults {
        query: "bar".to_string(),
        results: vec![grep_match("bar.rs")],
    });
    assert!(taken);
    assert_eq!(results.grep_results().len(), 1);
    assert_eq!(results.grep_results()[0].file, "bar.rs");
    let taken = results.receive(AsyncMessage::GitGrepResults {
        query: "foo".to_string(),
        results: vec![grep_match("late.rs")],
    });
    assert!(!taken);
    assert_eq!(results.grep_results()[0].file, "bar.rs");
}

#[test]
fn file_search_results_follow_their_query() {
    let mut results = SearchResults::new();
    assert!(!results.receive(AsyncMessage::GitLsFilesResults { query: "a".to_string(), files: vec!["a".to_string()] }));
    results.start_file_search("a");
    let files: Vec<String> = (0..130).map(|i| format!("a{}", i)).collect();
    assert!(results.receive(AsyncMessage::GitLsFilesResults { query: "a".to_string(), files }));
    assert_eq!(results.file_results().len(), 100);
    assert!(results.grep_results().is_empty());
}

#[test]
fn white_space_matches_std() {
    for c in (0u32..0x3100).filter_map(char::from_u32) {
        assert_eq!(fresh::search::is_white_space(c), c.is_whitespace(), "{:?}", c);
    }
}
