use log_classifier::classify::{classify_content, classify_source, placeholder_data, LogEvent};
use log_classifier::text::{contains_str, split_lines, split_tokens};

fn event(line_number: usize, time: &str, level: &str, message: &str) -> LogEvent {
    LogEvent {
        line_number,
        time: time.to_owned(),
        level: level.to_owned(),
        message: message.to_owned(),
    }
}

#[test]
fn error_line_becomes_event() {
    let data = classify_content("2023-10-27 10:00:01 ERROR Database connection failed");
    assert_eq!(data.total_lines, 1);
    assert_eq!(data.events.len(), 1);
    assert_eq!(
        data.events[0],
        event(1, "10:00:01", "ERROR", "ERROR Database connection failed")
    );
}

#[test]
fn line_without_keyword_is_dropped() {
    let data = classify_content("2023-10-27 10:00:02 OK All good");
    assert_eq!(data.total_lines, 1);
    assert!(data.events.is_empty());
}

#[test]
fn missing_source_yields_placeholder() {
    let data = classify_source(None);
    assert_eq!(data.total_lines, 2);
    assert_eq!(data.events.len(), 2);
    assert_eq!(data.events[0], event(1, "00:00:00", "INFO", "No log file loaded."));
    assert_eq!(
        data.events[1],
        event(2, "00:00:01", "INFO", "Click 'Open Log...' to select a file.")
    );
}

#[test]
fn placeholder_data_matches_classify_source_none() {
    assert_eq!(placeholder_data(), classify_source(None));
}

#[test]
fn classify_twice_is_idempotent() {
    let content = "2023-10-27 10:00:01 ERROR first\n2023-10-27 10:00:02 fine\nx y Warning z";
    let first = classify_content(content);
    let second = classify_content(content);
    assert_eq!(first, second);
}

#[test]
fn loaded_source_matches_classify_content() {
    let content = "2023-10-27 10:00:01 ERR boom";
    assert_eq!(classify_source(Some(content)), classify_content(content));
}

#[test]
fn events_keep_file_order() {
    let content = "\
2023-10-27 10:00:01 ERROR one\n\
2023-10-27 10:00:02 nothing here\n\
2023-10-27 10:00:03 Warning two\n\
2023-10-27 10:00:04 still nothing\n\
2023-10-27 10:00:05 MEDIA_TIMEOUT three";
    let data = classify_content(content);
    assert_eq!(data.total_lines, 5);
    let numbers: Vec<usize> = data.events.iter().map(|e| e.line_number).collect();
    assert_eq!(numbers, vec![1, 3, 5]);
    let levels: Vec<&str> = data.events.iter().map(|e| e.level.as_str()).collect();
    assert_eq!(levels, vec!["ERROR", "Warning", "MEDIA_TIMEOUT"]);
}

#[test]
fn total_lines_counts_unmatched_lines() {
    let content = "a b c\nd e f\n2023-10-27 10:00:01 AbandonedCall dropped\ng h i";
    let data = classify_content(content);
    assert_eq!(data.total_lines, 4);
    assert_eq!(data.events.len(), 1);
    assert_eq!(data.events[0], event(3, "10:00:01", "AbandonedCall", "AbandonedCall dropped"));
}

#[test]
fn short_line_with_keyword_is_skipped() {
    let data = classify_content("2023-10-27 ERROR");
    assert_eq!(data.total_lines, 1);
    assert!(data.events.is_empty());
}

#[test]
fn keyword_priority_error_before_err() {
    let data = classify_content("2023-10-27 10:00:04 ERROR is also ERR");
    assert_eq!(data.events.len(), 1);
    assert_eq!(data.events[0].level, "ERROR");
}

#[test]
fn keyword_priority_err_before_warning() {
    let data = classify_content("2023-10-27 10:00:03 Warning and then ERR came");
    assert_eq!(data.events.len(), 1);
    assert_eq!(data.events[0].level, "ERR");
}

#[test]
fn err_inside_longer_word_still_matches() {
    let data = classify_content("2023-10-27 10:00:06 ERRxyz happened");
    assert_eq!(data.events.len(), 1);
    assert_eq!(data.events[0].level, "ERR");
    assert_eq!(data.events[0].message, "ERRxyz happened");
}

#[test]
fn keyword_outside_message_tokens_still_matches() {
    let data = classify_content("ERROR 10:00:05 foo bar");
    assert_eq!(data.events.len(), 1);
    assert_eq!(data.events[0], event(1, "10:00:05", "ERROR", "foo bar"));
}

#[test]
fn message_whitespace_is_normalized() {
    let data = classify_content("2023-10-27  10:00:01\tERROR   Database   connection\tfailed");
    assert_eq!(data.events.len(), 1);
    assert_eq!(data.events[0], event(1, "10:00:01", "ERROR", "ERROR Database connection failed"));
}

#[test]
fn empty_content_has_no_lines() {
    let data = classify_content("");
    assert_eq!(data.total_lines, 0);
    assert!(data.events.is_empty());
}

#[test]
fn trailing_newline_adds_no_line() {
    let data = classify_content("a b ERROR x\n");
    assert_eq!(data.total_lines, 1);
    assert_eq!(data.events.len(), 1);
    assert_eq!(data.events[0], event(1, "b", "ERROR", "ERROR x"));
}

#[test]
fn crlf_terminator_is_stripped() {
    let data = classify_content("2023-10-27 10:00:01 ERROR boom\r\n2023-10-27 10:00:02 fine\r\n");
    assert_eq!(data.total_lines, 2);
    assert_eq!(data.events.len(), 1);
    assert_eq!(data.events[0], event(1, "10:00:01", "ERROR", "ERROR boom"));
}

#[test]
fn split_lines_follows_str_lines() {
    for content in [
        "",
        "one line",
        "a\nb",
        "a\nb\n",
        "a\r\nb\r",
        "\n\n",
        "first\r\nsecond\nthird",
    ] {
        let expected: Vec<String> = content.lines().map(|l| l.to_owned()).collect();
        assert_eq!(split_lines(content), expected, "content {:?}", content);
    }
}

#[test]
fn split_tokens_follows_split_whitespace() {
    for line in [
        "",
        "   ",
        "a",
        " a  bb\tccc ",
        "2023-10-27 10:00:01 ERROR Database connection failed",
        "x\u{A0}y\u{3000}z",
    ] {
        let expected: Vec<String> = line.split_whitespace().map(|t| t.to_owned()).collect();
        assert_eq!(split_tokens(line), expected, "line {:?}", line);
    }
}

#[test]
fn contains_str_follows_str_contains() {
    let cases = [
        ("hello world", "world"),
        ("hello world", "worlds"),
        ("", ""),
        ("abc", ""),
        ("", "a"),
        ("aaab", "aab"),
        ("ERROR", "ERR"),
        ("ERR", "ERROR"),
    ];
    for (hay, needle) in cases {
        assert_eq!(contains_str(hay, needle), hay.contains(needle), "{:?} {:?}", hay, needle);
    }
}

#[test]
fn every_keyword_is_recognized() {
    for kw in ["ERROR", "ERR", "MEDIA_TIMEOUT", "AbandonedCall", "Warning"] {
        let content = format!("2023-10-27 10:00:07 {} details follow", kw);
        let data = classify_content(&content);
        assert_eq!(data.events.len(), 1, "keyword {}", kw);
        assert_eq!(data.events[0].level, kw);
        assert_eq!(data.events[0].message, format!("{} details follow", kw));
    }
}
