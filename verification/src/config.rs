//! The settings of a scan where none are given.

use vstd::prelude::*;

verus! {

/// The least number of lines of a span that is reported.
pub const DEFAULT_MIN_LINE_COUNT: usize = 6;

/// The least summed length of the trimmed lines of a span that is reported.
pub const DEFAULT_MIN_CHAR_COUNT: usize = 80;

/// The number of spans that are listed.
pub const DEFAULT_TOP_RESULT: usize = 30;

} // verus!
