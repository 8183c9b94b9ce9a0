//! Reported spans of duplicated lines.

use vstd::prelude::*;

verus! {

/// What a [`CPLocation`] stands for: a file and the numbers of the first
/// and the last line of the span, counted from 1.
pub struct SpanView {
    pub filepath: Seq<char>,
    pub start: nat,
    pub end: nat,
}

impl SpanView {
    /// The number of lines of the span.
    pub open spec fn lines(self) -> nat {
        (self.end - self.start + 1) as nat
    }
}

/// A span of duplicated lines in one file. It is never changed after it was made.
pub struct CPLocation {
    filepath: String,
    start: usize,
    end: usize,
}

impl View for CPLocation {
    type V = SpanView;

    closed spec fn view(&self) -> SpanView {
        SpanView { filepath: self.filepath@, start: self.start as nat, end: self.end as nat }
    }
}

impl DeepView for CPLocation {
    type V = SpanView;

    open spec fn deep_view(&self) -> SpanView {
        self@
    }
}

/// The spans at the line numbers `lines` of the file `filepath`.
pub open spec fn located(filepath: Seq<char>, lines: Seq<(nat, nat)>) -> Seq<SpanView> {
    lines.map_values(|span: (nat, nat)| SpanView { filepath, start: span.0, end: span.1 })
}

impl CPLocation {
    /// Lines are counted from 1, and a span ends no earlier than it starts.
    #[verifier::type_invariant]
    spec fn ordered(&self) -> bool {
        1 <= self.start <= self.end
    }

    /// The span from line `start` to line `end` of `filepath`, if that is a
    /// span: lines are counted from 1 and `start` is not after `end`.
    pub fn new(filepath: String, start: usize, end: usize) -> (span: Option<CPLocation>)
        ensures
            span is Some <==> 1 <= start <= end,
            span matches Some(s) ==> s@ == (SpanView {
                filepath: filepath@,
                start: start as nat,
                end: end as nat,
            }),
    {
        if 1 <= start && start <= end {
            Some(CPLocation { filepath, start, end })
        } else {
            None
        }
    }

    /// The path of the file.
    pub fn filepath(&self) -> (path: &str)
        ensures
            path@ == self@.filepath,
    {
        self.filepath.as_str()
    }

    /// The number of the first line.
    pub fn start(&self) -> (line: usize)
        ensures
            line == self@.start,
            1 <= line <= self@.end,
    {
        proof {
            use_type_invariant(self);
        }
        self.start
    }

    /// The number of the last line.
    pub fn end(&self) -> (line: usize)
        ensures
            line == self@.end,
            1 <= self@.start <= line,
    {
        proof {
            use_type_invariant(self);
        }
        self.end
    }

    /// The number of lines of the span.
    pub fn line_count(&self) -> (count: usize)
        ensures
            count == self@.lines(),
            count >= 1,
    {
        proof {
            use_type_invariant(self);
        }
        self.end - self.start + 1
    }
}

} // verus!
