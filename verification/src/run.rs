//! The span accumulator as a state machine over numbers: what it holds
//! between two lines, how one line changes it, and what it reports.

use vstd::prelude::*;

verus! {

/// What the accumulator learns of one physical line: whether the line is
/// flagged as a duplicate, and the length of its trimmed text.
pub struct LineEvent {
    pub duplicate: bool,
    pub len: nat,
}

/// The state of the accumulator between two lines of a file.
pub struct Run {
    /// Whether the last line read was flagged, so that a run is open.
    pub open: bool,
    /// The number of the first line of the run that was opened last.
    pub start: nat,
    /// The number of the last flagged line.
    pub end: nat,
    /// The summed lengths of the lines of the open run.
    pub chars: nat,
    /// The number of lines read so far. The next line has this number plus one.
    pub lines: nat,
}

impl Run {
    /// The state before the first line of a file.
    pub open spec fn idle() -> Run {
        Run { open: false, start: 0, end: 0, chars: 0, lines: 0 }
    }

    /// The state after one more line. A flagged line opens a run or extends
    /// the open one; any other line closes it.
    pub open spec fn step(self, duplicate: bool, len: nat) -> Run {
        let line = self.lines + 1;
        if duplicate {
            Run {
                open: true,
                start: if self.open {
                    self.start
                } else {
                    line
                },
                end: line,
                chars: if self.open {
                    self.chars + len
                } else {
                    len
                },
                lines: line,
            }
        } else {
            Run { open: false, start: self.start, end: self.end, chars: 0, lines: line }
        }
    }

    /// What is reported when the open run, if there is one, is closed: its
    /// first and last line, if it has at least `min_line_count` lines and
    /// their lengths sum to at least `min_char_count`.
    pub open spec fn closing(self, min_line_count: nat, min_char_count: nat) -> Option<(nat, nat)> {
        if self.open && self.end - self.start + 1 >= min_line_count && self.chars
            >= min_char_count {
            Some((self.start, self.end))
        } else {
            None
        }
    }

    /// What is reported when one more line is read: a flagged line reports
    /// nothing, any other line closes the open run.
    pub open spec fn reporting(
        self,
        duplicate: bool,
        min_line_count: nat,
        min_char_count: nat,
    ) -> Option<(nat, nat)> {
        if duplicate {
            None
        } else {
            self.closing(min_line_count, min_char_count)
        }
    }
}

/// The state after the first `n` lines of a file.
pub open spec fn run_after(events: Seq<LineEvent>, n: nat) -> Run
    decreases n,
{
    if n == 0 {
        Run::idle()
    } else {
        run_after(events, (n - 1) as nat).step(events[n - 1].duplicate, events[n - 1].len)
    }
}

/// The spans reported while the first `n` lines of a file are read, in the
/// order in which they are reported.
pub open spec fn spans_after(
    events: Seq<LineEvent>,
    n: nat,
    min_line_count: nat,
    min_char_count: nat,
) -> Seq<(nat, nat)>
    decreases n,
{
    if n == 0 {
        Seq::empty()
    } else {
        let before = spans_after(events, (n - 1) as nat, min_line_count, min_char_count);
        match run_after(events, (n - 1) as nat).reporting(
            events[n - 1].duplicate,
            min_line_count,
            min_char_count,
        ) {
            Some(span) => before.push(span),
            None => before,
        }
    }
}

/// The spans reported for a whole file: those reported while its lines are
/// read, and the one that the end of the file closes.
pub open spec fn file_spans(
    events: Seq<LineEvent>,
    min_line_count: nat,
    min_char_count: nat,
) -> Seq<(nat, nat)> {
    let before = spans_after(events, events.len(), min_line_count, min_char_count);
    match run_after(events, events.len()).closing(min_line_count, min_char_count) {
        Some(span) => before.push(span),
        None => before,
    }
}

/// Whether the lines from `start` to `end`, counted from 1, are all flagged.
pub open spec fn all_flagged(events: Seq<LineEvent>, start: nat, end: nat) -> bool {
    forall|i: int| start - 1 <= i < end ==> (#[trigger] events[i]).duplicate
}

/// Whether the lines from `start` to `end`, counted from 1, are a run: a
/// stretch of flagged lines of the file that cannot be made longer, as the
/// line before it and the line after it are not flagged or do not exist.
pub open spec fn is_run(events: Seq<LineEvent>, start: nat, end: nat) -> bool {
    &&& 1 <= start <= end <= events.len()
    &&& all_flagged(events, start, end)
    &&& (start == 1 || !events[start - 2].duplicate)
    &&& (end == events.len() || !events[end as int].duplicate)
}

/// The summed lengths of the lines from `start` to `end`, counted from 1.
pub open spec fn run_chars(events: Seq<LineEvent>, start: nat, end: nat) -> nat
    decreases end,
{
    if end < start || end == 0 {
        0
    } else {
        run_chars(events, start, (end - 1) as nat) + events[end - 1].len
    }
}

/// Whether the lines from `start` to `end` meet both thresholds.
pub open spec fn meets_thresholds(
    events: Seq<LineEvent>,
    start: nat,
    end: nat,
    min_line_count: nat,
    min_char_count: nat,
) -> bool {
    end - start + 1 >= min_line_count && run_chars(events, start, end) >= min_char_count
}

/// Whether the spans stand in the order of their lines, each ending before
/// the next begins. No span occurs twice in such a sequence.
pub open spec fn in_line_order(spans: Seq<(nat, nat)>) -> bool {
    forall|j: int, k: int| 0 <= j < k < spans.len() ==> (#[trigger] spans[j]).1 < (#[trigger] spans[k]).0
}

proof fn lemma_contains_push(spans: Seq<(nat, nat)>, last: (nat, nat), span: (nat, nat))
    ensures
        spans.push(last).contains(span) <==> spans.contains(span) || last == span,
{
    let pushed = spans.push(last);
    if spans.contains(span) {
        let i = choose|i: int| 0 <= i < spans.len() && spans[i] == span;
        assert(pushed[i] == span);
    }
    if last == span {
        assert(pushed[spans.len() as int] == span);
    }
    if pushed.contains(span) && last != span {
        let i = choose|i: int| 0 <= i < pushed.len() && pushed[i] == span;
        assert(spans[i] == span);
    }
}

/// A stretch of flagged lines that ends at a given line and cannot be made
/// longer at its start has one start only.
proof fn lemma_one_start(events: Seq<LineEvent>, a: nat, b: nat, end: nat)
    requires
        1 <= a <= end <= events.len(),
        1 <= b <= end,
        all_flagged(events, a, end),
        all_flagged(events, b, end),
        a == 1 || !events[a - 2].duplicate,
        b == 1 || !events[b - 2].duplicate,
    ensures
        a == b,
{
    if a < b {
        assert(events[b - 2].duplicate);
    }
    if b < a {
        assert(events[a - 2].duplicate);
    }
}

/// Spans in the order of their lines stay so when a stretch of flagged lines
/// that ends after all of them is put behind them: each of them is a run, so
/// it ends before that stretch begins.
proof fn lemma_later_run_in_line_order(
    events: Seq<LineEvent>,
    spans: Seq<(nat, nat)>,
    start: nat,
    end: nat,
)
    requires
        in_line_order(spans),
        forall|span: (nat, nat)|
            #[trigger] spans.contains(span) ==> is_run(events, span.0, span.1) && span.1 < end,
        1 <= start <= end <= events.len(),
        all_flagged(events, start, end),
    ensures
        in_line_order(spans.push((start, end))),
{
    let pushed = spans.push((start, end));
    assert forall|j: int, k: int| 0 <= j < k < pushed.len() implies (#[trigger] pushed[j]).1 < (
    #[trigger] pushed[k]).0 by {
        if k == spans.len() {
            let last = spans[j].1;
            assert(spans.contains(spans[j]));
            if last >= start {
                assert(events[last as int].duplicate);
            }
        }
    }
}

/// Between two lines the accumulator has a run open if and only if the last
/// line was flagged, and it then holds the start, the end and the summed
/// lengths of the stretch of flagged lines that ends there.
pub proof fn lemma_run_after(events: Seq<LineEvent>, n: nat)
    requires
        n <= events.len(),
    ensures
        run_after(events, n).lines == n,
        run_after(events, n).open <==> n > 0 && events[n - 1].duplicate,
        run_after(events, n).open ==> {
            let run = run_after(events, n);
            &&& 1 <= run.start <= n
            &&& run.end == n
            &&& all_flagged(events, run.start, n)
            &&& (run.start == 1 || !events[run.start - 2].duplicate)
            &&& run.chars == run_chars(events, run.start, n)
        },
    decreases n,
{
    if n > 0 {
        lemma_run_after(events, (n - 1) as nat);
        let before = run_after(events, (n - 1) as nat);
        let run = run_after(events, n);
        if events[n - 1].duplicate && !before.open {
            assert(run_chars(events, n, (n - 1) as nat) == 0);
        }
    }
}

proof fn lemma_spans_after(
    events: Seq<LineEvent>,
    n: nat,
    min_line_count: nat,
    min_char_count: nat,
)
    requires
        n <= events.len(),
    ensures
        forall|span: (nat, nat)|
            #[trigger] spans_after(events, n, min_line_count, min_char_count).contains(span) <==> {
                &&& is_run(events, span.0, span.1)
                &&& span.1 < n
                &&& meets_thresholds(events, span.0, span.1, min_line_count, min_char_count)
            },
        in_line_order(spans_after(events, n, min_line_count, min_char_count)),
    decreases n,
{
    let spans = spans_after(events, n, min_line_count, min_char_count);
    if n == 0 {
        assert forall|span: (nat, nat)| #[trigger] spans.contains(span) <==> {
            &&& is_run(events, span.0, span.1)
            &&& span.1 < n
            &&& meets_thresholds(events, span.0, span.1, min_line_count, min_char_count)
        } by {}
    } else {
        let m = (n - 1) as nat;
        lemma_spans_after(events, m, min_line_count, min_char_count);
        lemma_run_after(events, m);
        let before = spans_after(events, m, min_line_count, min_char_count);
        let run = run_after(events, m);
        let reported = run.reporting(events[n - 1].duplicate, min_line_count, min_char_count);
        assert forall|span: (nat, nat)| #[trigger] spans.contains(span) <==> {
            &&& is_run(events, span.0, span.1)
            &&& span.1 < n
            &&& meets_thresholds(events, span.0, span.1, min_line_count, min_char_count)
        } by {
            if reported is Some {
                lemma_contains_push(before, reported->0, span);
            }
            if is_run(events, span.0, span.1) && span.1 == m {
                lemma_one_start(events, span.0, run.start, m);
            }
        }
        if reported is Some {
            lemma_later_run_in_line_order(events, before, run.start, m);
        }
    }
}

/// The spans reported for a file are its runs that meet both thresholds:
/// every such run is reported, nothing else is, and the spans stand in the
/// order of their lines, so that none is reported twice. A run that ends with
/// the file is a run like any other.
pub proof fn lemma_file_spans_are_the_runs(
    events: Seq<LineEvent>,
    min_line_count: nat,
    min_char_count: nat,
)
    ensures
        forall|span: (nat, nat)|
            #[trigger] file_spans(events, min_line_count, min_char_count).contains(span) <==> {
                &&& is_run(events, span.0, span.1)
                &&& meets_thresholds(events, span.0, span.1, min_line_count, min_char_count)
            },
        in_line_order(file_spans(events, min_line_count, min_char_count)),
{
    let n = events.len();
    let spans = file_spans(events, min_line_count, min_char_count);
    let before = spans_after(events, n, min_line_count, min_char_count);
    let run = run_after(events, n);
    let reported = run.closing(min_line_count, min_char_count);
    lemma_spans_after(events, n, min_line_count, min_char_count);
    lemma_run_after(events, n);
    assert forall|span: (nat, nat)| #[trigger] spans.contains(span) <==> {
        &&& is_run(events, span.0, span.1)
        &&& meets_thresholds(events, span.0, span.1, min_line_count, min_char_count)
    } by {
        if reported is Some {
            lemma_contains_push(before, reported->0, span);
        }
        if is_run(events, span.0, span.1) && span.1 == n {
            lemma_one_start(events, span.0, run.start, n);
        }
    }
    if reported is Some {
        lemma_later_run_in_line_order(events, before, run.start, n);
    }
}

/// A run of `end - start + 1` flagged lines, with no flagged line next to
/// it, is reported as one span of that many lines if it meets both
/// thresholds, and not at all if it does not. No other span that is reported
/// holds a line of the run.
pub proof fn lemma_run_reported_once(
    events: Seq<LineEvent>,
    start: nat,
    end: nat,
    min_line_count: nat,
    min_char_count: nat,
)
    requires
        is_run(events, start, end),
    ensures
        file_spans(events, min_line_count, min_char_count).contains((start, end))
            <==> meets_thresholds(events, start, end, min_line_count, min_char_count),
        forall|j: int, k: int|
            #![trigger file_spans(events, min_line_count, min_char_count)[j], file_spans(events, min_line_count, min_char_count)[k]]
            0 <= j < file_spans(events, min_line_count, min_char_count).len() && 0 <= k
                < file_spans(events, min_line_count, min_char_count).len() && file_spans(
                events,
                min_line_count,
                min_char_count,
            )[j] == (start, end) && file_spans(events, min_line_count, min_char_count)[k] == (
                start,
                end,
            ) ==> j == k,
        forall|span: (nat, nat)|
            #[trigger] file_spans(events, min_line_count, min_char_count).contains(span)
                && span.0 <= end && start <= span.1 ==> span == (start, end),
{
    lemma_file_spans_are_the_runs(events, min_line_count, min_char_count);
    let spans = file_spans(events, min_line_count, min_char_count);
    assert forall|j: int, k: int|
        #![trigger spans[j], spans[k]]
        0 <= j < spans.len() && 0 <= k < spans.len() && spans[j] == (start, end) && spans[k] == (
            start,
            end,
        ) implies j == k by {
        if j < k {
            assert(spans[j].1 < spans[k].0);
        }
        if k < j {
            assert(spans[k].1 < spans[j].0);
        }
    }
    assert forall|span: (nat, nat)|
        #[trigger] spans.contains(span) && span.0 <= end && start <= span.1 implies span == (
            start,
            end,
        ) by {
        lemma_runs_that_meet_are_one(events, start, end, span.0, span.1);
    }
}

/// Two runs that have a line in common are one run.
pub proof fn lemma_runs_that_meet_are_one(
    events: Seq<LineEvent>,
    start: nat,
    end: nat,
    other_start: nat,
    other_end: nat,
)
    requires
        is_run(events, start, end),
        is_run(events, other_start, other_end),
        other_start <= end,
        start <= other_end,
    ensures
        other_start == start,
        other_end == end,
{
    if other_start < start {
        assert(events[start - 2].duplicate);
    }
    if start < other_start {
        assert(events[other_start - 2].duplicate);
    }
    if end < other_end {
        assert(events[end as int].duplicate);
    }
    if other_end < end {
        assert(events[other_end as int].duplicate);
    }
}

/// A file that ends while a run is open reports that run, as its last span,
/// if the run meets both thresholds.
pub proof fn lemma_run_at_end_of_file_reported(
    events: Seq<LineEvent>,
    start: nat,
    min_line_count: nat,
    min_char_count: nat,
)
    requires
        is_run(events, start, events.len()),
        meets_thresholds(events, start, events.len(), min_line_count, min_char_count),
    ensures
        file_spans(events, min_line_count, min_char_count).len() > 0,
        file_spans(events, min_line_count, min_char_count).last() == (start, events.len()),
{
    let n = events.len();
    lemma_run_after(events, n);
    lemma_one_start(events, start, run_after(events, n).start, n);
}

/// A line that is not flagged lies in no reported span.
pub proof fn lemma_unflagged_line_in_no_span(
    events: Seq<LineEvent>,
    line: nat,
    min_line_count: nat,
    min_char_count: nat,
)
    requires
        1 <= line <= events.len(),
        !events[line - 1].duplicate,
    ensures
        forall|span: (nat, nat)|
            #[trigger] file_spans(events, min_line_count, min_char_count).contains(span) ==> !(
            span.0 <= line <= span.1),
{
    lemma_file_spans_are_the_runs(events, min_line_count, min_char_count);
    assert forall|span: (nat, nat)| #[trigger]
        file_spans(events, min_line_count, min_char_count).contains(span) implies !(span.0 <= line
        <= span.1) by {
        if span.0 <= line <= span.1 {
            assert(all_flagged(events, span.0, span.1));
            assert(events[line - 1].duplicate);
        }
    }
}

/// A line that is not flagged, with flagged lines on both sides, splits them
/// into two runs. Each is reported or not by its own lines and lengths, and
/// the lines of both are never reported as one span.
pub proof fn lemma_unflagged_line_splits(
    events: Seq<LineEvent>,
    start: nat,
    line: nat,
    end: nat,
    min_line_count: nat,
    min_char_count: nat,
)
    requires
        start < line < end,
        is_run(events, start, (line - 1) as nat),
        is_run(events, line + 1, end),
    ensures
        !events[line - 1].duplicate,
        !file_spans(events, min_line_count, min_char_count).contains((start, end)),
        file_spans(events, min_line_count, min_char_count).contains((start, (line - 1) as nat))
            <==> meets_thresholds(
            events,
            start,
            (line - 1) as nat,
            min_line_count,
            min_char_count,
        ),
        file_spans(events, min_line_count, min_char_count).contains((line + 1, end))
            <==> meets_thresholds(events, line + 1, end, min_line_count, min_char_count),
{
    lemma_file_spans_are_the_runs(events, min_line_count, min_char_count);
    if file_spans(events, min_line_count, min_char_count).contains((start, end)) {
        assert(all_flagged(events, start, end));
        assert(events[line - 1].duplicate);
    }
}

} // verus!
