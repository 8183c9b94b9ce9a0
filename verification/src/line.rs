//! The line normalizer: trims a physical line and decides whether it is
//! counted. Only the markers `/*`, `*/` and `//` are known, whatever the
//! language of the file.

use crate::text::{ends_with, starts_with, trim, trimmed};
use vstd::prelude::*;

verus! {

/// The marker that opens a block comment.
pub open spec fn block_open() -> Seq<char> {
    seq!['/', '*']
}

/// The marker that closes a block comment.
pub open spec fn block_close() -> Seq<char> {
    seq!['*', '/']
}

/// The marker that starts a line comment.
pub open spec fn line_comment() -> Seq<char> {
    seq!['/', '/']
}

/// The comment mode after the trimmed line `text`, where `comments` was the
/// mode before it. An opening marker at the start sets the mode, then a
/// closing marker at the end clears it, then a line comment marker at the
/// start sets it.
///
/// So a line that opens a block comment and closes it again leaves the mode
/// off. And nothing but a closing marker clears the mode: it stays set after
/// a line comment, and the lines that follow are taken for comments until one
/// ends with a closing marker.
pub open spec fn comment_mode_after(text: Seq<char>, comments: bool) -> bool {
    if line_comment().is_prefix_of(text) {
        true
    } else if block_close().is_suffix_of(text) {
        false
    } else if block_open().is_prefix_of(text) {
        true
    } else {
        comments
    }
}

/// Whether the trimmed line `text` is counted, where `comments` was the mode
/// before it: it is not blank, and the mode after it is off. The line that
/// closes a block comment is counted, and so is a block comment on one line.
pub open spec fn counted(text: Seq<char>, comments: bool) -> bool {
    !comment_mode_after(text, comments) && text.len() > 0
}

/// The comment mode after the trimmed line `text`.
pub fn next_comment_mode(text: &str, comments: bool) -> (mode: bool)
    ensures
        mode == comment_mode_after(text@, comments),
{
    proof {
        reveal_strlit("/*");
        reveal_strlit("*/");
        reveal_strlit("//");
    }
    let mut mode = comments;
    if starts_with(text, "/*") {
        mode = true;
    }
    if ends_with(text, "*/") {
        mode = false;
    }
    if starts_with(text, "//") {
        mode = true;
    }
    mode
}

/// Normalizes one physical line. Returns the trimmed text, the comment mode
/// after the line, and whether the line is counted.
pub fn normalize<'a>(line: &'a str, comments: bool) -> (r: (&'a str, bool, bool))
    ensures
        r.0@ == trimmed(line@),
        r.1 == comment_mode_after(r.0@, comments),
        r.2 == counted(r.0@, comments),
{
    let text = trim(line);
    let mode = next_comment_mode(text, comments);
    let should_index = !mode && !text.is_empty();
    (text, mode, should_index)
}

} // verus!
