//! The scan of one file: line by line through the normalizer, the repetition
//! index and the span accumulator.

use crate::line::{comment_mode_after, counted, normalize};
use crate::run::{
    file_spans, is_run, lemma_run_reported_once, lemma_unflagged_line_in_no_span,
    meets_thresholds, run_after, spans_after, LineEvent, Run,
};
use crate::span::{located, CPLocation, SpanView};
use crate::text::{byte_len, trimmed};
use crate::trie::{bump, Counts, RepetitionIndex};
use vstd::prelude::*;

verus! {

/// What a [`ScanState`] stands for: the comment mode, and the state of the
/// span accumulator.
pub struct ScanView {
    pub comments: bool,
    pub run: Run,
}

/// The state of the scan of one file between two of its lines. Every file is
/// scanned with a state of its own.
pub struct ScanState {
    comments: bool,
    cp_found: bool,
    start: usize,
    end: usize,
    lines_read: usize,
    char_count: usize,
    chars: Ghost<nat>,
}

impl View for ScanState {
    type V = ScanView;

    closed spec fn view(&self) -> ScanView {
        ScanView {
            comments: self.comments,
            run: Run {
                open: self.cp_found,
                start: self.start as nat,
                end: self.end as nat,
                chars: self.chars@,
                lines: self.lines_read as nat,
            },
        }
    }
}

/// The comment mode before line `i` of a file, the first line being line 0:
/// off before the first line, and carried from line to line.
pub open spec fn comment_mode_before(lines: Seq<Seq<char>>, i: nat) -> bool
    decreases i,
{
    if i == 0 {
        false
    } else {
        comment_mode_after(trimmed(lines[i - 1]), comment_mode_before(lines, (i - 1) as nat))
    }
}

/// Whether line `i` of a file is counted in the index.
pub open spec fn line_counted(lines: Seq<Seq<char>>, i: int) -> bool {
    counted(trimmed(lines[i]), comment_mode_before(lines, i as nat))
}

/// The number of the first `n` lines of a file that are counted.
pub open spec fn counted_lines(lines: Seq<Seq<char>>, n: nat) -> nat
    decreases n,
{
    if n == 0 {
        0
    } else if line_counted(lines, n - 1) {
        counted_lines(lines, (n - 1) as nat) + 1
    } else {
        counted_lines(lines, (n - 1) as nat)
    }
}

/// The table of the index after the first `n` lines of a file, where
/// `counts` was the table before the file.
pub open spec fn counts_before(counts: Counts, lines: Seq<Seq<char>>, n: nat) -> Counts
    decreases n,
{
    if n == 0 {
        counts
    } else if line_counted(lines, n - 1) {
        bump(counts_before(counts, lines, (n - 1) as nat), trimmed(lines[n - 1]))
    } else {
        counts_before(counts, lines, (n - 1) as nat)
    }
}

/// Whether line `i` of a file is flagged as a duplicate: it is counted, and
/// its trimmed text has been counted before, in this file or in an earlier one.
pub open spec fn line_flagged(counts: Counts, lines: Seq<Seq<char>>, i: int) -> bool {
    line_counted(lines, i) && counts_before(counts, lines, i as nat)[trimmed(lines[i])] >= 1
}

/// What the accumulator learns of each line of a file.
pub open spec fn file_events(counts: Counts, lines: Seq<Seq<char>>) -> Seq<LineEvent> {
    Seq::new(
        lines.len(),
        |i: int|
            LineEvent {
                duplicate: line_flagged(counts, lines, i),
                len: byte_len(trimmed(lines[i])),
            },
    )
}

/// How many of the first `n` lines of a file are counted with the trimmed
/// text `text`.
pub open spec fn seen_before(lines: Seq<Seq<char>>, n: nat, text: Seq<char>) -> nat
    decreases n,
{
    if n == 0 {
        0
    } else if line_counted(lines, n - 1) && trimmed(lines[n - 1]) == text {
        seen_before(lines, (n - 1) as nat, text) + 1
    } else {
        seen_before(lines, (n - 1) as nat, text)
    }
}

/// After the first `n` lines of a file a text has the count that it had
/// before the file, and one more for every counted line with that text.
pub proof fn lemma_counts_before(counts: Counts, lines: Seq<Seq<char>>, n: nat, text: Seq<char>)
    requires
        counts.dom().contains(text),
    ensures
        counts_before(counts, lines, n).dom().contains(text),
        counts_before(counts, lines, n)[text] == counts[text] + seen_before(lines, n, text),
    decreases n,
{
    if n > 0 {
        lemma_counts_before(counts, lines, (n - 1) as nat, text);
    }
}

/// A text has been seen among the first `n` lines of a file if and only if
/// one of them is counted with that text.
pub proof fn lemma_seen_before(lines: Seq<Seq<char>>, n: nat, text: Seq<char>)
    ensures
        seen_before(lines, n, text) >= 1 <==> exists|j: int|
            0 <= j < n && #[trigger] line_counted(lines, j) && trimmed(lines[j]) == text,
    decreases n,
{
    if n > 0 {
        lemma_seen_before(lines, (n - 1) as nat, text);
        if seen_before(lines, n, text) >= 1 {
            if line_counted(lines, n - 1) && trimmed(lines[n - 1]) == text {
                assert(line_counted(lines, n - 1));
            } else {
                let j = choose|j: int|
                    0 <= j < n - 1 && #[trigger] line_counted(lines, j) && trimmed(lines[j])
                        == text;
                assert(line_counted(lines, j));
            }
        }
    }
}

/// A line is flagged if and only if it is counted and its trimmed text was
/// counted before: before this file, or on an earlier line of it.
pub proof fn lemma_flagged_means_seen_before(counts: Counts, lines: Seq<Seq<char>>, i: int)
    requires
        0 <= i < lines.len(),
        counts.dom().contains(trimmed(lines[i])),
    ensures
        line_flagged(counts, lines, i) <==> line_counted(lines, i) && (counts[trimmed(lines[i])]
            >= 1 || exists|j: int|
            0 <= j < i && #[trigger] line_counted(lines, j) && trimmed(lines[j]) == trimmed(
                lines[i],
            )),
{
    lemma_counts_before(counts, lines, i as nat, trimmed(lines[i]));
    lemma_seen_before(lines, i as nat, trimmed(lines[i]));
}

/// Duplicates are found across files: a counted line is flagged if an earlier
/// file, scanned with the same index, holds a counted line with the same
/// trimmed text. The lines of the earlier file are not flagged on that
/// account: a line is compared with what was counted before it, never with
/// what comes after.
pub proof fn lemma_line_of_earlier_file_is_flagged(
    counts: Counts,
    earlier: Seq<Seq<char>>,
    lines: Seq<Seq<char>>,
    i: int,
    j: int,
)
    requires
        0 <= i < earlier.len(),
        0 <= j < lines.len(),
        counts.dom().contains(trimmed(lines[j])),
        line_counted(earlier, i),
        line_counted(lines, j),
        trimmed(earlier[i]) == trimmed(lines[j]),
    ensures
        line_flagged(counts_before(counts, earlier, earlier.len()), lines, j),
{
    let text = trimmed(lines[j]);
    let between = counts_before(counts, earlier, earlier.len());
    lemma_counts_before(counts, earlier, earlier.len(), text);
    lemma_seen_before(earlier, earlier.len(), text);
    lemma_counts_before(between, lines, j as nat, text);
}

/// Where the lines from `start` to `end` of a file, counted from 1, are all
/// flagged, and the line before them and the line after them are not flagged
/// or are not there, the scan of the file reports the span from `start` to
/// `end`, once, if it has at least `min_line_count` lines and the lengths of
/// their trimmed texts sum to at least `min_char_count`. If not, it reports
/// no span for them. No other span that it reports holds one of these lines.
pub proof fn lemma_run_of_lines_reported_once(
    counts: Counts,
    lines: Seq<Seq<char>>,
    start: nat,
    end: nat,
    min_line_count: nat,
    min_char_count: nat,
)
    requires
        1 <= start <= end <= lines.len(),
        forall|i: int| start - 1 <= i < end ==> #[trigger] line_flagged(counts, lines, i),
        start == 1 || !line_flagged(counts, lines, start - 2),
        end == lines.len() || !line_flagged(counts, lines, end as int),
    ensures
        is_run(file_events(counts, lines), start, end),
        file_spans(file_events(counts, lines), min_line_count, min_char_count).contains(
            (start, end),
        ) <==> meets_thresholds(
            file_events(counts, lines),
            start,
            end,
            min_line_count,
            min_char_count,
        ),
        forall|j: int, k: int|
            #![trigger file_spans(file_events(counts, lines), min_line_count, min_char_count)[j], file_spans(file_events(counts, lines), min_line_count, min_char_count)[k]]
            0 <= j < file_spans(file_events(counts, lines), min_line_count, min_char_count).len()
                && 0 <= k < file_spans(
                file_events(counts, lines),
                min_line_count,
                min_char_count,
            ).len() && file_spans(file_events(counts, lines), min_line_count, min_char_count)[j]
                == (start, end) && file_spans(
                file_events(counts, lines),
                min_line_count,
                min_char_count,
            )[k] == (start, end) ==> j == k,
        forall|span: (nat, nat)|
            #[trigger] file_spans(
                file_events(counts, lines),
                min_line_count,
                min_char_count,
            ).contains(span) && span.0 <= end && start <= span.1 ==> span == (start, end),
{
    let events = file_events(counts, lines);
    assert forall|i: int| start - 1 <= i < end implies (#[trigger] events[i]).duplicate by {
        assert(line_flagged(counts, lines, i));
    }
    lemma_run_reported_once(events, start, end, min_line_count, min_char_count);
}

/// A blank line and a line in a comment are not counted, so not flagged, and
/// lie in no span that is reported for the file. The flagged lines before
/// and after such a line are runs of their own.
pub proof fn lemma_uncounted_line_in_no_span(
    counts: Counts,
    lines: Seq<Seq<char>>,
    i: int,
    min_line_count: nat,
    min_char_count: nat,
)
    requires
        0 <= i < lines.len(),
        trimmed(lines[i]).len() == 0 || comment_mode_before(lines, (i + 1) as nat),
    ensures
        !line_counted(lines, i),
        !line_flagged(counts, lines, i),
        forall|span: (nat, nat)|
            #[trigger] file_spans(
                file_events(counts, lines),
                min_line_count,
                min_char_count,
            ).contains(span) ==> !(span.0 <= i + 1 <= span.1),
{
    lemma_unflagged_line_in_no_span(
        file_events(counts, lines),
        (i + 1) as nat,
        min_line_count,
        min_char_count,
    );
}

/// A reported pair of line numbers as numbers without bound.
pub open spec fn as_lines(span: Option<(usize, usize)>) -> Option<(nat, nat)> {
    match span {
        Some((start, end)) => Some((start as nat, end as nat)),
        None => None,
    }
}

impl ScanState {
    /// An open run lies within the lines read, and the character count is
    /// the sum of the run's lengths as far as it can be held.
    #[verifier::type_invariant]
    spec fn inv(&self) -> bool {
        &&& self.cp_found ==> 1 <= self.start <= self.end <= self.lines_read
        &&& self.char_count == if self.chars@ > usize::MAX {
            usize::MAX as nat
        } else {
            self.chars@
        }
    }

    /// The state before the first line of a file.
    pub fn new() -> (state: ScanState)
        ensures
            state@ == (ScanView { comments: false, run: Run::idle() }),
    {
        ScanState {
            comments: false,
            cp_found: false,
            start: 0,
            end: 0,
            lines_read: 0,
            char_count: 0,
            chars: Ghost(0),
        }
    }

    /// The number of lines read so far.
    pub fn lines_read(&self) -> (n: usize)
        ensures
            n == self@.run.lines,
    {
        self.lines_read
    }

    /// Whether the last line read was flagged.
    pub fn in_run(&self) -> (open: bool)
        ensures
            open == self@.run.open,
    {
        self.cp_found
    }

    /// The comment mode after the last line read.
    pub fn in_comment(&self) -> (comments: bool)
        ensures
            comments == self@.comments,
    {
        self.comments
    }

    /// The accumulator's step for one physical line, flagged or not, whose
    /// trimmed text has length `len`. Returns the span that the line closes,
    /// if it closes one that meets both thresholds.
    pub fn advance(
        &mut self,
        is_duplicate: bool,
        len: usize,
        min_line_count: usize,
        min_char_count: usize,
    ) -> (span: Option<(usize, usize)>)
        requires
            old(self)@.run.lines < usize::MAX,
        ensures
            final(self)@.comments == old(self)@.comments,
            final(self)@.run == old(self)@.run.step(is_duplicate, len as nat),
            as_lines(span) == old(self)@.run.reporting(
                is_duplicate,
                min_line_count as nat,
                min_char_count as nat,
            ),
            span matches Some((start, end)) ==> 1 <= start <= end,
    {
        proof {
            use_type_invariant(&*self);
        }
        let line = self.lines_read + 1;
        if is_duplicate {
            let start = if self.cp_found {
                self.start
            } else {
                line
            };
            let char_count = if self.cp_found {
                self.char_count.saturating_add(len)
            } else {
                len
            };
            let ghost chars = if self.cp_found {
                self.chars@ + len as nat
            } else {
                len as nat
            };
            *self = ScanState {
                comments: self.comments,
                cp_found: true,
                start,
                end: line,
                lines_read: line,
                char_count,
                chars: Ghost(chars),
            };
            None
        } else {
            let span = self.close(min_line_count, min_char_count);
            *self = ScanState {
                comments: self.comments,
                cp_found: false,
                start: self.start,
                end: self.end,
                lines_read: line,
                char_count: 0,
                chars: Ghost(0),
            };
            span
        }
    }

    /// The span that closing the open run reports.
    fn close(&self, min_line_count: usize, min_char_count: usize) -> (span: Option<(usize, usize)>)
        ensures
            as_lines(span) == self@.run.closing(min_line_count as nat, min_char_count as nat),
            span matches Some((start, end)) ==> 1 <= start <= end,
    {
        proof {
            use_type_invariant(self);
        }
        if self.cp_found {
            let range = self.end - self.start + 1;
            if range >= min_line_count && self.char_count >= min_char_count {
                return Some((self.start, self.end));
            }
        }
        None
    }

    /// The end of the file: closes the run that is still open, and returns
    /// its span if it meets both thresholds.
    pub fn finish(self, min_line_count: usize, min_char_count: usize) -> (span: Option<
        (usize, usize),
    >)
        ensures
            as_lines(span) == self@.run.closing(min_line_count as nat, min_char_count as nat),
            span matches Some((start, end)) ==> 1 <= start <= end,
    {
        self.close(min_line_count, min_char_count)
    }

    /// One physical line of the file: the line is normalized, counted in
    /// `index` if it is neither blank nor in a comment, flagged if its text
    /// had been counted before, and handed to the accumulator. Returns the
    /// span that the line closes, if it closes one that meets both
    /// thresholds.
    pub fn feed(
        &mut self,
        line: &str,
        index: &mut RepetitionIndex,
        min_line_count: usize,
        min_char_count: usize,
    ) -> (span: Option<(usize, usize)>)
        requires
            old(self)@.run.lines < usize::MAX,
            old(index).wf(),
            old(index).total() < usize::MAX,
        ensures
            final(index).wf(),
            ({
                let text = trimmed(line@);
                let is_counted = counted(text, old(self)@.comments);
                let is_duplicate = is_counted && old(index)@[text] >= 1;
                &&& final(self)@.comments == comment_mode_after(text, old(self)@.comments)
                &&& final(index)@ == if is_counted {
                    bump(old(index)@, text)
                } else {
                    old(index)@
                }
                &&& final(index).total() == if is_counted {
                    old(index).total() + 1
                } else {
                    old(index).total()
                }
                &&& final(self)@.run == old(self)@.run.step(is_duplicate, byte_len(text))
                &&& as_lines(span) == old(self)@.run.reporting(
                    is_duplicate,
                    min_line_count as nat,
                    min_char_count as nat,
                )
            }),
            span matches Some((start, end)) ==> 1 <= start <= end,
    {
        proof {
            use_type_invariant(&*self);
        }
        let (text, comments, should_index) = normalize(line, self.comments);
        let is_duplicate = if should_index {
            index.insert(text) > 1
        } else {
            false
        };
        self.comments = comments;
        self.advance(is_duplicate, text.as_bytes().len(), min_line_count, min_char_count)
    }
}

/// What each location stands for.
pub open spec fn views(locations: Seq<CPLocation>) -> Seq<SpanView> {
    locations.map_values(|location: CPLocation| location@)
}

/// Scans the lines of the file `filepath`, in order, and appends the spans
/// found to `cp_locations`. Every counted line of the file is counted in
/// `root`, so that later files are compared with it too.
///
/// A span is reported for every run of flagged lines that is closed, by a
/// line that is not flagged or by the end of the file, if it has at least
/// `min_line_count` lines and their trimmed lengths sum to at least
/// `min_char_count`.
pub fn parse(
    filepath: &str,
    lines: &Vec<String>,
    root: &mut RepetitionIndex,
    cp_locations: &mut Vec<CPLocation>,
    min_line_count: usize,
    min_char_count: usize,
)
    requires
        old(root).wf(),
        old(root).total() + lines.len() <= usize::MAX,
    ensures
        final(root).wf(),
        final(root)@ == counts_before(old(root)@, lines.deep_view(), lines.len() as nat),
        final(root).total() == old(root).total() + counted_lines(
            lines.deep_view(),
            lines.len() as nat,
        ),
        old(cp_locations)@.is_prefix_of(final(cp_locations)@),
        views(final(cp_locations)@.skip(old(cp_locations)@.len() as int)) == located(
            filepath@,
            file_spans(
                file_events(old(root)@, lines.deep_view()),
                min_line_count as nat,
                min_char_count as nat,
            ),
        ),
{
    let ghost texts = lines.deep_view();
    let ghost events = file_events(old(root)@, texts);
    let ghost found = old(cp_locations)@.len() as int;
    let mut state = ScanState::new();
    let mut i: usize = 0;
    assert(views(cp_locations@.skip(found)) =~= located(
        filepath@,
        spans_after(events, 0, min_line_count as nat, min_char_count as nat),
    ));
    while i < lines.len()
        invariant
            i <= lines.len(),
            texts == lines.deep_view(),
            events == file_events(old(root)@, texts),
            found == old(cp_locations)@.len(),
            old(root).total() + lines.len() <= usize::MAX,
            root.wf(),
            root@ == counts_before(old(root)@, texts, i as nat),
            root.total() == old(root).total() + counted_lines(texts, i as nat),
            root.total() <= old(root).total() + i,
            state@.comments == comment_mode_before(texts, i as nat),
            state@.run == run_after(events, i as nat),
            state@.run.lines == i,
            old(cp_locations)@.is_prefix_of(cp_locations@),
            views(cp_locations@.skip(found)) == located(
                filepath@,
                spans_after(events, i as nat, min_line_count as nat, min_char_count as nat),
            ),
        decreases lines.len() - i,
    {
        let span = state.feed(lines[i].as_str(), root, min_line_count, min_char_count);
        push_span(filepath, span, cp_locations, Ghost(found));
        i = i + 1;
    }
    let span = state.finish(min_line_count, min_char_count);
    push_span(filepath, span, cp_locations, Ghost(found));
}

/// Appends the span at the line numbers `span` of `filepath`, if there is one.
fn push_span(
    filepath: &str,
    span: Option<(usize, usize)>,
    cp_locations: &mut Vec<CPLocation>,
    Ghost(found): Ghost<int>,
)
    requires
        0 <= found <= old(cp_locations)@.len(),
        span matches Some((start, end)) ==> 1 <= start <= end,
    ensures
        old(cp_locations)@.is_prefix_of(final(cp_locations)@),
        views(final(cp_locations)@.skip(found)) == match as_lines(span) {
            Some(lines) => views(old(cp_locations)@.skip(found)).push(
                SpanView { filepath: filepath@, start: lines.0, end: lines.1 },
            ),
            None => views(old(cp_locations)@.skip(found)),
        },
{
    if let Some((start, end)) = span {
        if let Some(location) = CPLocation::new(filepath.to_string(), start, end) {
            cp_locations.push(location);
            assert(views(cp_locations@.skip(found)) =~= views(old(cp_locations)@.skip(found)).push(
                location@,
            ));
        }
    }
}

} // verus!
