use mdbook_git_info::date::UtcDate;
use mdbook_git_info::git_history::{
    extract_from_output, parse_line, parse_log, ExtractError, GitHistoryEntry,
};
use mdbook_git_info::preprocessor::GitInfoPreprocessor;
use mdbook_git_info::render::{enrich_content, render_fragment};
use mdbook_git_info::summary::aggregate;

fn entry(author: &str, year: i32, month: u8, day: u8) -> GitHistoryEntry {
    GitHistoryEntry {
        author: author.to_string(),
        timestamp: UtcDate { year, month, day },
    }
}

fn fragment_head() -> String {
    let mut s = String::new();
    s.push_str("\n\n<br>\n\n---\n\n<br>\n\n");
    s.push_str("| Created on | Created by | Last edit on | Last edit by | Other contributors |\n");
    s.push_str("| :---: | :---: | :---: | :---: | --- |\n");
    s
}

#[test]
fn parse_line_accepts_record_line() {
    let e = parse_line("\"Alice\t2024-03-05T10:00:00+00:00\"").expect("line should parse");
    assert_eq!(e.author, "Alice");
    assert_eq!(
        e.timestamp,
        UtcDate {
            year: 2024,
            month: 3,
            day: 5
        }
    );
}

#[test]
fn parse_line_accepts_unquoted_line() {
    let e = parse_line("Bob\t2020-01-02T03:04:05Z").expect("line should parse");
    assert_eq!(e.author, "Bob");
    assert_eq!(
        e.timestamp,
        UtcDate {
            year: 2020,
            month: 1,
            day: 2
        }
    );
}

#[test]
fn parse_line_normalizes_to_utc() {
    let e = parse_line("\"Alice\t2024-03-05T01:30:00+03:00\"").expect("line should parse");
    assert_eq!(
        e.timestamp,
        UtcDate {
            year: 2024,
            month: 3,
            day: 4
        }
    );
}

#[test]
fn parse_line_rejects_missing_tab() {
    assert!(parse_line("\"Alice 2024-03-05T10:00:00+00:00\"").is_none());
}

#[test]
fn parse_line_rejects_extra_field() {
    assert!(parse_line("\"Alice\t2024-03-05T10:00:00+00:00\textra\"").is_none());
}

#[test]
fn parse_line_rejects_bad_timestamp() {
    assert!(parse_line("\"Alice\tyesterday\"").is_none());
    assert!(parse_line("\"Alice\t2024-03-05\"").is_none());
}

#[test]
fn parse_line_rejects_empty_author() {
    assert!(parse_line("\"\t2024-03-05T10:00:00+00:00\"").is_none());
}

#[test]
fn parse_log_collects_lines_in_order() {
    let text = "\"B\t2024-03-05T00:00:00+00:00\"\n\"A\t2024-01-01T00:00:00+00:00\"\n";
    let log = parse_log(text).expect("log should parse");
    assert_eq!(log.len(), 2);
    assert_eq!(log[0].author, "B");
    assert_eq!(log[1].author, "A");
}

#[test]
fn parse_log_handles_crlf_line_breaks() {
    let text = "\"B\t2024-03-05T00:00:00+00:00\"\r\n\"A\t2024-01-01T00:00:00+00:00\"\r\n";
    let log = parse_log(text).expect("log should parse");
    assert_eq!(log.len(), 2);
    assert_eq!(log[1].author, "A");
}

#[test]
fn parse_log_rejects_any_bad_line() {
    let text = "\"B\t2024-03-05T00:00:00+00:00\"\nnonsense\n";
    assert!(parse_log(text).is_none());
}

#[test]
fn parse_log_empty_text_is_empty_history() {
    let log = parse_log("").expect("empty text should parse");
    assert_eq!(log.len(), 0);
}

#[test]
fn aggregate_scenario_two_commits() {
    let history = vec![entry("B", 2024, 3, 5), entry("A", 2024, 1, 1)];
    let s = aggregate(&history);
    let first = s.first_commit.as_ref().expect("first commit");
    let last = s.last_commit.as_ref().expect("last commit");
    assert_eq!(first.author, "A");
    assert_eq!(
        first.timestamp,
        UtcDate {
            year: 2024,
            month: 1,
            day: 1
        }
    );
    assert_eq!(last.author, "B");
    assert_eq!(
        last.timestamp,
        UtcDate {
            year: 2024,
            month: 3,
            day: 5
        }
    );
    assert!(s.other_contributors.is_empty());
}

#[test]
fn aggregate_scenario_three_commits() {
    let history = vec![
        entry("C", 2024, 3, 5),
        entry("B", 2024, 2, 1),
        entry("A", 2024, 1, 1),
    ];
    let s = aggregate(&history);
    assert_eq!(s.other_contributors, vec!["B".to_string()]);
}

#[test]
fn aggregate_excludes_last_commit_author() {
    let history = vec![
        entry("A", 2024, 3, 5),
        entry("A", 2024, 2, 1),
        entry("B", 2024, 1, 1),
    ];
    let s = aggregate(&history);
    assert!(s.other_contributors.is_empty());
}

#[test]
fn aggregate_empty_history() {
    let history: Vec<GitHistoryEntry> = Vec::new();
    let s = aggregate(&history);
    assert!(s.first_commit.is_none());
    assert!(s.last_commit.is_none());
    assert!(s.other_contributors.is_empty());
}

#[test]
fn aggregate_single_commit() {
    let history = vec![entry("A", 2024, 1, 1)];
    let s = aggregate(&history);
    assert_eq!(s.first_commit.as_ref().expect("first").author, "A");
    assert_eq!(s.last_commit.as_ref().expect("last").author, "A");
    assert!(s.other_contributors.is_empty());
}

#[test]
fn aggregate_sorts_and_dedups_contributors() {
    let history = vec![
        entry("Z", 2024, 6, 1),
        entry("c", 2024, 5, 1),
        entry("a", 2024, 4, 1),
        entry("c", 2024, 3, 1),
        entry("b", 2024, 2, 1),
        entry("A", 2024, 1, 1),
    ];
    let s = aggregate(&history);
    assert_eq!(
        s.other_contributors,
        vec!["a".to_string(), "b".to_string(), "c".to_string()]
    );
}

#[test]
fn render_empty_history_row_is_all_na() {
    let history: Vec<GitHistoryEntry> = Vec::new();
    let s = aggregate(&history);
    let mut expected = fragment_head();
    expected.push_str("| **n/a** | **n/a** | **n/a** | **n/a** |  |\n");
    assert_eq!(render_fragment(&s), expected);
}

#[test]
fn render_two_commit_history() {
    let history = vec![entry("B", 2024, 3, 5), entry("A", 2024, 1, 1)];
    let s = aggregate(&history);
    let mut expected = fragment_head();
    expected.push_str("| **01 Jan 2024** | **A** | **05 Mar 2024** | **B** |  |\n");
    assert_eq!(render_fragment(&s), expected);
}

#[test]
fn render_joins_contributors_with_line_breaks() {
    let history = vec![
        entry("D", 2024, 4, 1),
        entry("C", 2024, 3, 1),
        entry("B", 2024, 2, 1),
        entry("A", 2024, 1, 1),
    ];
    let s = aggregate(&history);
    let rendered = render_fragment(&s);
    assert!(rendered.ends_with("| **01 Jan 2024** | **A** | **01 Apr 2024** | **D** | B<br>C |\n"));
}

#[test]
fn enrich_appends_fragment_to_content() {
    let history = vec![entry("B", 2024, 3, 5), entry("A", 2024, 1, 1)];
    let mut content = String::from("# Chapter\n\nBody.\n");
    enrich_content(&mut content, &history);
    assert!(content.starts_with("# Chapter\n\nBody.\n"));
    assert!(content.ends_with("| **01 Jan 2024** | **A** | **05 Mar 2024** | **B** |  |\n"));
}

#[test]
fn date_format_fixed_layout() {
    let d = UtcDate {
        year: 2024,
        month: 3,
        day: 5,
    };
    assert_eq!(d.format(), "05 Mar 2024");
}

#[test]
fn date_format_pads_year_to_four_digits() {
    let d = UtcDate {
        year: 33,
        month: 12,
        day: 31,
    };
    assert_eq!(d.format(), "31 Dec 0033");
}

#[test]
fn failed_query_reports_exit_code_and_streams() {
    let r = extract_from_output(false, 1, b"boom".to_vec(), b"bad".to_vec());
    match r {
        Err(ExtractError::QueryFailed {
            code,
            stdout,
            stderr,
        }) => {
            assert_eq!(code, 1);
            assert_eq!(stdout, b"boom".to_vec());
            assert_eq!(stderr, b"bad".to_vec());
        }
        _ => panic!("expected a failed-query error"),
    }
}

#[test]
fn failed_query_description_is_exact() {
    let e = ExtractError::QueryFailed {
        code: 1,
        stdout: b"boom".to_vec(),
        stderr: b"bad".to_vec(),
    };
    assert_eq!(
        e.describe(),
        "Git log failed. Exit code: 1.\nSTDOUT: boom\nSTDERR: bad"
    );
}

#[test]
fn tool_unavailable_description() {
    assert_eq!(
        ExtractError::ToolUnavailable.describe(),
        "Failed to launch `git log`. Is git installed and available in $PATH?"
    );
}

#[test]
fn invalid_utf8_output_is_malformed() {
    let r = extract_from_output(true, 0, vec![0xff, 0xfe], Vec::new());
    assert!(matches!(r, Err(ExtractError::MalformedOutput)));
}

#[test]
fn bad_line_in_output_is_malformed() {
    let text = b"\"B\t2024-03-05T00:00:00+00:00\"\nnot a record\n".to_vec();
    let r = extract_from_output(true, 0, text, Vec::new());
    assert!(matches!(r, Err(ExtractError::MalformedOutput)));
}

#[test]
fn successful_query_parses_records() {
    let text = b"\"B\t2024-03-05T00:00:00+00:00\"\n\"A\t2024-01-01T00:00:00+00:00\"\n".to_vec();
    let log = extract_from_output(true, 0, text, Vec::new()).expect("output should parse");
    assert_eq!(log.len(), 2);
    assert_eq!(log[0].author, "B");
    assert_eq!(log[1].author, "A");
}

#[test]
fn empty_output_is_empty_history_not_error() {
    let log = extract_from_output(true, 0, Vec::new(), Vec::new()).expect("empty output is fine");
    assert_eq!(log.len(), 0);
}

#[test]
fn preprocessor_name_is_git_info() {
    let p = GitInfoPreprocessor::new();
    assert_eq!(p.name(), "git-info");
}

#[test]
fn only_html_renderer_is_supported() {
    let p = GitInfoPreprocessor::new();
    assert!(p.supports_renderer("html"));
    assert!(!p.supports_renderer("markdown"));
    assert!(!p.supports_renderer(""));
    assert!(!p.supports_renderer("html5"));
}
