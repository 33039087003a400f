use minigrep::search;
use minigrep::SearchSettings;

const CONTENT: &str = "\
Rust:
safe, fast, productive.
Pick three.
Trust me.
Duct.";

#[test]
fn case_sensitive() {
    let query = "duct";

    assert_eq!(
        vec!["safe, fast, productive."],
        search(query, CONTENT, &SearchSettings::CaseSensitive)
    );
}

#[test]
fn case_insensitive() {
    let query = "rUsT";

    assert_eq!(
        vec!["Rust:", "Trust me."],
        search(query, CONTENT, &SearchSettings::CaseInsensitive)
    );
}

#[test]
fn empty_query_returns_all_lines() {
    let all: Vec<&str> = vec![
        "Rust:",
        "safe, fast, productive.",
        "Pick three.",
        "Trust me.",
        "Duct.",
    ];
    assert_eq!(all, search("", CONTENT, &SearchSettings::CaseSensitive));
}

#[test]
fn empty_content_yields_no_lines() {
    let empty: Vec<&str> = Vec::new();
    assert_eq!(empty, search("x", "", &SearchSettings::CaseSensitive));
    assert_eq!(empty, search("", "", &SearchSettings::CaseSensitive));
}

#[test]
fn no_match_yields_empty_result() {
    let empty: Vec<&str> = Vec::new();
    assert_eq!(
        empty,
        search("carbon", CONTENT, &SearchSettings::CaseSensitive)
    );
}

#[test]
fn returned_lines_are_lines_of_content_in_order() {
    let lines: Vec<&str> = CONTENT.lines().collect();
    let found = search("t", CONTENT, &SearchSettings::CaseSensitive);
    let mut previous_pos: Option<usize> = None;
    for line in &found {
        let pos = lines.iter().position(|l| l == line);
        assert!(pos.is_some(), "returned line not present in content");
        if let (Some(prev), Some(cur)) = (previous_pos, pos) {
            assert!(prev < cur, "returned lines out of order");
        }
        previous_pos = pos;
    }
}

#[test]
fn case_sensitive_search_is_idempotent_on_its_output() {
    let first = search("t", CONTENT, &SearchSettings::CaseSensitive);
    let rejoined = first.join("\n");
    let second = search("t", &rejoined, &SearchSettings::CaseSensitive);
    assert_eq!(first, second);
}

#[test]
fn insensitive_result_is_superset_of_sensitive_result() {
    let sensitive = search("Trust", CONTENT, &SearchSettings::CaseSensitive);
    let insensitive = search("Trust", CONTENT, &SearchSettings::CaseInsensitive);
    for line in &sensitive {
        assert!(insensitive.contains(line));
    }
}

#[test]
fn trailing_newline_yields_no_extra_empty_line() {
    let content = "one\ntwo\n";
    assert_eq!(
        vec!["one", "two"],
        search("", content, &SearchSettings::CaseSensitive)
    );
}

#[test]
fn carriage_return_newline_breaks_lines() {
    let content = "alpha\r\nbeta\r\ngamma";
    assert_eq!(
        vec!["alpha", "beta", "gamma"],
        search("a", content, &SearchSettings::CaseSensitive)
    );
}

#[test]
fn lone_carriage_return_stays_inside_a_line() {
    let content = "one\rtwo\nthree";
    assert_eq!(
        vec!["one\rtwo"],
        search("one", content, &SearchSettings::CaseSensitive)
    );
}

#[test]
fn final_line_keeps_trailing_carriage_return() {
    let content = "one\ntwo\r";
    assert_eq!(
        vec!["two\r"],
        search("two", content, &SearchSettings::CaseSensitive)
    );
}

#[test]
fn folding_matches_across_ascii_cases() {
    let content = "WIDE\nnarrow";
    assert_eq!(
        vec!["WIDE"],
        search("wide", content, &SearchSettings::CaseInsensitive)
    );
    assert_eq!(
        vec!["WIDE", "narrow"],
        search("W", content, &SearchSettings::CaseInsensitive)
    );
}
