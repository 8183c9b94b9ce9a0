use cpdetect::scan::ScanState;

fn run(flags: &[(bool, usize)], min_lines: usize, min_chars: usize) -> Vec<(usize, usize)> {
    let mut state = ScanState::new();
    let mut spans = Vec::new();
    for &(duplicate, len) in flags {
        if let Some(span) = state.advance(duplicate, len, min_lines, min_chars) {
            spans.push(span);
        }
    }
    if let Some(span) = state.finish(min_lines, min_chars) {
        spans.push(span);
    }
    spans
}

#[test]
fn fresh_state_is_idle() {
    let state = ScanState::new();
    assert_eq!(state.lines_read(), 0);
    assert!(!state.in_run());
    assert!(!state.in_comment());
    assert_eq!(state.finish(0, 0), None);
}

#[test]
fn run_between_unflagged_lines_is_reported_once() {
    let lines = [
        (false, 10),
        (true, 20),
        (true, 20),
        (true, 20),
        (true, 20),
        (true, 20),
        (true, 20),
        (false, 10),
        (false, 10),
    ];
    assert_eq!(run(&lines, 6, 80), vec![(2, 7)]);
}

#[test]
fn run_one_line_short_is_not_reported() {
    let lines = [(false, 1), (true, 50), (true, 50), (true, 50), (true, 50), (true, 50), (false, 1)];
    assert_eq!(run(&lines, 6, 80), vec![]);
    assert_eq!(run(&lines, 5, 80), vec![(2, 6)]);
}

#[test]
fn run_one_character_short_is_not_reported() {
    let lines = [(true, 13), (true, 13), (true, 13), (true, 13), (true, 13), (true, 14), (false, 0)];
    assert_eq!(run(&lines, 6, 80), vec![]);
    assert_eq!(run(&lines, 6, 79), vec![(1, 6)]);
}

#[test]
fn both_thresholds_are_inclusive() {
    let lines = [(true, 40), (true, 40), (false, 0)];
    assert_eq!(run(&lines, 2, 80), vec![(1, 2)]);
    assert_eq!(run(&lines, 3, 80), vec![]);
    assert_eq!(run(&lines, 2, 81), vec![]);
}

#[test]
fn run_at_end_of_file_is_reported() {
    let lines = [(false, 5), (true, 30), (true, 30), (true, 30)];
    assert_eq!(run(&lines, 3, 90), vec![(2, 4)]);
}

#[test]
fn whole_file_in_one_run_is_reported() {
    let lines = [(true, 12); 8];
    assert_eq!(run(&lines, 6, 80), vec![(1, 8)]);
}

#[test]
fn short_run_at_end_of_file_is_dropped() {
    let lines = [(false, 5), (true, 30), (true, 30)];
    assert_eq!(run(&lines, 3, 0), vec![]);
}

#[test]
fn unflagged_line_splits_a_run() {
    let mut lines = vec![(true, 20); 13];
    lines[6] = (false, 0);
    assert_eq!(run(&lines, 6, 80), vec![(1, 6), (8, 13)]);
    assert_eq!(run(&lines, 7, 80), vec![]);
}

#[test]
fn split_runs_are_judged_apart() {
    let mut lines = vec![(true, 20); 10];
    lines[6] = (false, 0);
    assert_eq!(run(&lines, 6, 80), vec![(1, 6)]);
    assert_eq!(run(&lines, 3, 60), vec![(1, 6), (8, 10)]);
}

#[test]
fn characters_of_a_closed_run_do_not_carry_over() {
    let lines = [(true, 100), (false, 0), (true, 1), (true, 1), (false, 0)];
    assert_eq!(run(&lines, 2, 3), vec![]);
    assert_eq!(run(&lines, 2, 2), vec![(3, 4)]);
}

#[test]
fn no_lines_no_spans() {
    assert_eq!(run(&[], 0, 0), vec![]);
    assert_eq!(run(&[(false, 9), (false, 9)], 0, 0), vec![]);
}

#[test]
fn zero_thresholds_report_every_run() {
    let lines = [(true, 0), (false, 0), (true, 0), (true, 0)];
    assert_eq!(run(&lines, 0, 0), vec![(1, 1), (3, 4)]);
}

#[test]
fn advance_counts_every_line() {
    let mut state = ScanState::new();
    assert_eq!(state.advance(false, 3, 1, 1), None);
    assert_eq!(state.lines_read(), 1);
    assert!(!state.in_run());
    assert_eq!(state.advance(true, 3, 1, 1), None);
    assert_eq!(state.lines_read(), 2);
    assert!(state.in_run());
    assert_eq!(state.advance(false, 3, 1, 1), Some((2, 2)));
    assert_eq!(state.lines_read(), 3);
    assert!(!state.in_run());
}

#[test]
fn lengths_beyond_the_machine_word_still_meet_the_threshold() {
    let lines = [(true, usize::MAX), (true, usize::MAX), (false, 0)];
    assert_eq!(run(&lines, 1, usize::MAX), vec![(1, 2)]);
}
