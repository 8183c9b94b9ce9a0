use cpdetect::config::{DEFAULT_MIN_CHAR_COUNT, DEFAULT_MIN_LINE_COUNT, DEFAULT_TOP_RESULT};
use cpdetect::scan::{parse, ScanState};
use cpdetect::span::CPLocation;
use cpdetect::trie::RepetitionIndex;

fn lines_of(text: &str) -> Vec<String> {
    text.split_inclusive('\n').map(|line| line.to_string()).collect()
}

fn spans_of(found: &[CPLocation]) -> Vec<(String, usize, usize)> {
    found.iter().map(|span| (span.filepath().to_string(), span.start(), span.end())).collect()
}

fn block(n: usize) -> String {
    let mut text = String::new();
    for i in 0..n {
        text.push_str(&format!("    call_{:02}(ab);\n", i));
    }
    text
}

#[test]
fn defaults() {
    assert_eq!(DEFAULT_MIN_LINE_COUNT, 6);
    assert_eq!(DEFAULT_MIN_CHAR_COUNT, 80);
    assert_eq!(DEFAULT_TOP_RESULT, 30);
}

#[test]
fn same_eight_lines_in_two_files() {
    let text = block(8);
    assert_eq!(lines_of(&text)[0].trim().len(), 12);
    let mut index = RepetitionIndex::new();
    let mut found = Vec::new();
    parse(
        "a.java",
        &lines_of(&text),
        &mut index,
        &mut found,
        DEFAULT_MIN_LINE_COUNT,
        DEFAULT_MIN_CHAR_COUNT,
    );
    assert_eq!(spans_of(&found), vec![]);
    parse(
        "b.java",
        &lines_of(&text),
        &mut index,
        &mut found,
        DEFAULT_MIN_LINE_COUNT,
        DEFAULT_MIN_CHAR_COUNT,
    );
    assert_eq!(spans_of(&found), vec![("b.java".to_string(), 1, 8)]);
    assert_eq!(index.len(), 16);
}

#[test]
fn eight_copies_of_one_line_in_two_files() {
    let text = "    call_00(ab);\n".repeat(8);
    let mut index = RepetitionIndex::new();
    let mut found = Vec::new();
    parse(
        "a.java",
        &lines_of(&text),
        &mut index,
        &mut found,
        DEFAULT_MIN_LINE_COUNT,
        DEFAULT_MIN_CHAR_COUNT,
    );
    assert_eq!(spans_of(&found), vec![("a.java".to_string(), 2, 8)]);
    parse(
        "b.java",
        &lines_of(&text),
        &mut index,
        &mut found,
        DEFAULT_MIN_LINE_COUNT,
        DEFAULT_MIN_CHAR_COUNT,
    );
    assert_eq!(
        spans_of(&found),
        vec![("a.java".to_string(), 2, 8), ("b.java".to_string(), 1, 8)]
    );
}

#[test]
fn same_eight_lines_in_three_files() {
    let text = block(8);
    let mut index = RepetitionIndex::new();
    let mut found = Vec::new();
    parse("a.java", &lines_of(&text), &mut index, &mut found, 6, 80);
    parse("b.java", &lines_of(&text), &mut index, &mut found, 6, 80);
    parse("c.java", &lines_of(&text), &mut index, &mut found, 6, 80);
    assert_eq!(
        spans_of(&found),
        vec![("b.java".to_string(), 1, 8), ("c.java".to_string(), 1, 8)]
    );
}

#[test]
fn five_line_block_is_below_the_default() {
    let text = format!("{}int middle;\n{}int last;\n", block(5), block(5));
    let mut index = RepetitionIndex::new();
    let mut found = Vec::new();
    parse(
        "a.java",
        &lines_of(&text),
        &mut index,
        &mut found,
        DEFAULT_MIN_LINE_COUNT,
        DEFAULT_MIN_CHAR_COUNT,
    );
    assert_eq!(spans_of(&found), vec![]);
    let mut index = RepetitionIndex::new();
    parse("a.java", &lines_of(&text), &mut index, &mut found, 5, 60);
    assert_eq!(spans_of(&found), vec![("a.java".to_string(), 7, 11)]);
}

#[test]
fn block_repeated_within_one_file() {
    let text = format!("{}int middle;\n{}int last;\n", block(6), block(6));
    let mut index = RepetitionIndex::new();
    let mut found = Vec::new();
    parse("a.java", &lines_of(&text), &mut index, &mut found, 6, 72);
    assert_eq!(spans_of(&found), vec![("a.java".to_string(), 8, 13)]);
}

#[test]
fn block_at_end_of_file_without_newline() {
    let first = block(6);
    let mut second = block(6);
    second.pop();
    let mut index = RepetitionIndex::new();
    let mut found = Vec::new();
    parse("a.java", &lines_of(&first), &mut index, &mut found, 6, 72);
    parse("b.java", &lines_of(&second), &mut index, &mut found, 6, 72);
    assert_eq!(spans_of(&found), vec![("b.java".to_string(), 1, 6)]);
}

#[test]
fn blank_line_splits_a_block() {
    let first = block(12);
    let second = format!("{}\n{}", block(6), &block(12)[block(6).len()..]);
    let mut index = RepetitionIndex::new();
    let mut found = Vec::new();
    parse("a.java", &lines_of(&first), &mut index, &mut found, 6, 72);
    parse("b.java", &lines_of(&second), &mut index, &mut found, 6, 72);
    assert_eq!(
        spans_of(&found),
        vec![("b.java".to_string(), 1, 6), ("b.java".to_string(), 8, 13)]
    );
}

#[test]
fn block_comment_splits_a_block() {
    let first = block(12);
    let second = format!("{}/* why */\n{}", block(6), &block(12)[block(6).len()..]);
    let mut index = RepetitionIndex::new();
    let mut found = Vec::new();
    parse("a.java", &lines_of(&first), &mut index, &mut found, 6, 72);
    parse("b.java", &lines_of(&second), &mut index, &mut found, 6, 72);
    assert_eq!(
        spans_of(&found),
        vec![("b.java".to_string(), 1, 6), ("b.java".to_string(), 8, 13)]
    );
}

#[test]
fn blank_line_splits_a_block_into_parts_too_short() {
    let first = block(10);
    let second = format!("{}\n{}", block(5), &block(10)[block(5).len()..]);
    let mut index = RepetitionIndex::new();
    let mut found = Vec::new();
    parse("a.java", &lines_of(&first), &mut index, &mut found, 6, 0);
    parse("b.java", &lines_of(&second), &mut index, &mut found, 6, 0);
    assert_eq!(spans_of(&found), vec![]);
}

#[test]
fn lines_after_a_line_comment_are_not_counted() {
    let first = block(8);
    let second = format!("// copied\n{}", block(8));
    let mut index = RepetitionIndex::new();
    let mut found = Vec::new();
    parse("a.java", &lines_of(&first), &mut index, &mut found, 6, 80);
    parse("b.java", &lines_of(&second), &mut index, &mut found, 6, 80);
    assert_eq!(spans_of(&found), vec![]);
    assert_eq!(index.len(), 8);
}

#[test]
fn comment_mode_starts_off_in_every_file() {
    let first = format!("{}// the end\n", block(8));
    let second = block(8);
    let mut index = RepetitionIndex::new();
    let mut found = Vec::new();
    parse("a.java", &lines_of(&first), &mut index, &mut found, 6, 80);
    parse("b.java", &lines_of(&second), &mut index, &mut found, 6, 80);
    assert_eq!(spans_of(&found), vec![("b.java".to_string(), 1, 8)]);
}

#[test]
fn lines_in_a_block_comment_are_not_counted() {
    let first = block(8);
    let second = format!("/*\n{}*/\n", block(8));
    let mut index = RepetitionIndex::new();
    let mut found = Vec::new();
    parse("a.java", &lines_of(&first), &mut index, &mut found, 6, 80);
    parse("b.java", &lines_of(&second), &mut index, &mut found, 6, 80);
    assert_eq!(spans_of(&found), vec![]);
    assert_eq!(index.len(), 9);
}

#[test]
fn lines_are_compared_after_trimming() {
    let first = block(8);
    let second = block(8).replace("    call", "\t\tcall").replace(";\n", ";   \r\n");
    let mut index = RepetitionIndex::new();
    let mut found = Vec::new();
    parse("a.java", &lines_of(&first), &mut index, &mut found, 6, 80);
    parse("b.java", &lines_of(&second), &mut index, &mut found, 6, 80);
    assert_eq!(spans_of(&found), vec![("b.java".to_string(), 1, 8)]);
}

#[test]
fn characters_are_counted_after_trimming() {
    let first = block(8);
    let second = block(8).replace("    call", "                    call");
    let mut index = RepetitionIndex::new();
    let mut found = Vec::new();
    parse("a.java", &lines_of(&first), &mut index, &mut found, 6, 96);
    parse("b.java", &lines_of(&second), &mut index, &mut found, 6, 97);
    assert_eq!(spans_of(&found), vec![]);
    parse("c.java", &lines_of(&second), &mut index, &mut found, 6, 96);
    assert_eq!(spans_of(&found), vec![("c.java".to_string(), 1, 8)]);
}

#[test]
fn line_numbers_count_blank_and_comment_lines() {
    let first = block(6);
    let second = format!("\n\n/* head\n   more */\nint x;\n{}int y;\n", block(6));
    let mut index = RepetitionIndex::new();
    let mut found = Vec::new();
    parse("a.java", &lines_of(&first), &mut index, &mut found, 6, 72);
    parse("b.java", &lines_of(&second), &mut index, &mut found, 6, 72);
    assert_eq!(spans_of(&found), vec![("b.java".to_string(), 6, 11)]);
}

#[test]
fn empty_file_reports_nothing() {
    let mut index = RepetitionIndex::new();
    let mut found = Vec::new();
    parse("a.java", &Vec::new(), &mut index, &mut found, 0, 0);
    assert_eq!(spans_of(&found), vec![]);
    assert_eq!(index.len(), 0);
}

#[test]
fn earlier_spans_are_kept() {
    let text = block(8);
    let mut index = RepetitionIndex::new();
    let mut found = vec![CPLocation::new("z.java".to_string(), 3, 9).unwrap()];
    parse("a.java", &lines_of(&text), &mut index, &mut found, 6, 80);
    parse("b.java", &lines_of(&text), &mut index, &mut found, 6, 80);
    assert_eq!(
        spans_of(&found),
        vec![("z.java".to_string(), 3, 9), ("b.java".to_string(), 1, 8)]
    );
}

#[test]
fn feed_reports_when_the_run_closes() {
    let mut index = RepetitionIndex::new();
    let mut state = ScanState::new();
    assert_eq!(state.feed("a();\n", &mut index, 2, 8), None);
    assert_eq!(state.feed("b();\n", &mut index, 2, 8), None);
    assert_eq!(state.feed("a();\n", &mut index, 2, 8), None);
    assert!(state.in_run());
    assert_eq!(state.feed("  b();\n", &mut index, 2, 8), None);
    assert_eq!(state.feed("c();\n", &mut index, 2, 8), Some((3, 4)));
    assert!(!state.in_run());
    assert_eq!(state.lines_read(), 5);
    assert_eq!(index.len(), 5);
    assert_eq!(state.finish(2, 8), None);
}

#[test]
fn feed_measures_lines_in_bytes() {
    let mut index = RepetitionIndex::new();
    let mut state = ScanState::new();
    assert_eq!(state.feed("ä\n", &mut index, 1, 2), None);
    assert_eq!(state.feed("ä\n", &mut index, 1, 2), None);
    assert_eq!(state.finish(1, 3), None);
    let mut state = ScanState::new();
    assert_eq!(state.feed("ä\n", &mut index, 1, 2), None);
    assert_eq!(state.finish(1, 2), Some((1, 1)));
}
