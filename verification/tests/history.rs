use std::path::PathBuf;

use dw::history::{text_lines, History, HistoryItem};
use dw::types::Query;

#[test]
fn history_reads_its_file_text() {
    let mut h = History::new(PathBuf::from("/tmp/dw.history"));
    h.load_text("2021-01-01T08:00:00+08:00 en hello world\n2022-02-02T00:00:00Z zh 你好\n");
    assert_eq!(
        h.dump_text(),
        "2021-01-01T00:00:00+00:00 en hello world\n2022-02-02T00:00:00+00:00 zh 你好\n"
    );
    assert_eq!(h.file(), &PathBuf::from("/tmp/dw.history"));
}

#[test]
fn history_adds_items_at_the_end() {
    let mut h = History::new(PathBuf::from("/tmp/dw.history"));
    h.load_text("2021-01-01T00:00:00+00:00 en first\n");
    assert!(h.add("second word", "en"));
    let text = h.dump_text();
    let lines: Vec<&str> = text.split_terminator('\n').collect();
    assert_eq!(lines.len(), 2);
    assert_eq!(lines[0], "2021-01-01T00:00:00+00:00 en first");
    assert!(lines[1].ends_with(" en second word"));
    // what was written reads back
    let mut again = History::new(PathBuf::from("/tmp/dw.history"));
    again.load_text(&text);
    assert_eq!(again.dump_text(), text);
}

#[test]
fn an_empty_history_writes_nothing() {
    let mut h = History::new(PathBuf::from("x"));
    assert_eq!(h.dump_text(), "");
    h.load_text("");
    assert_eq!(h.dump_text(), "");
}

#[test]
fn history_lines_split_like_split_terminator() {
    let cases = ["", "a", "a\n", "a\nb", "a\n\nb\n", "\n", "\n\n"];
    for case in cases {
        let expected: Vec<Vec<char>> = case.split_terminator('\n').map(|l| l.chars().collect()).collect();
        assert_eq!(text_lines(case), expected, "{:?}", case);
    }
}

#[test]
fn a_new_item_holds_its_text() {
    assert!(HistoryItem::new("word", "en").is_some());
}

#[test]
fn unreadable_history_texts_are_told_apart() {
    assert!(History::text_is_readable(""));
    assert!(History::text_is_readable("2021-01-01T00:00:00Z en hello\n"));
    assert!(!History::text_is_readable("2021-01-01T00:00:00Z en\n"));
    assert!(!History::text_is_readable("yesterday en hello\n"));
    assert!(History::text_is_readable("2021-01-01T00:00:00Z en hello world\n"));
}

#[test]
fn only_short_queries_are_recorded() {
    use_record();
}

fn use_record() {
    let mut h = History::new(PathBuf::from("x"));
    assert!(h.record_query(&Query::new("a long sentence of many words", "en", "zh", false)));
    assert_eq!(h.dump_text(), "");
    assert!(h.record_query(&Query::new("word", "en", "zh", false)));
    assert!(h.dump_text().ends_with(" en word\n"));
}
