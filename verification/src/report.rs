//! The report: how the heading and each span are written out.

use crate::span::CPLocation;
use colored::Colorize;
use vstd::prelude::*;

verus! {

/// The decimal digits.
pub open spec fn digits() -> Seq<char> {
    seq!['0', '1', '2', '3', '4', '5', '6', '7', '8', '9']
}

/// `n` in decimal, without leading zeros.
pub open spec fn decimal(n: nat) -> Seq<char>
    decreases n,
{
    if n < 10 {
        seq![digits()[n as int]]
    } else {
        decimal(n / 10).push(digits()[(n % 10) as int])
    }
}

/// The line of the report for a span, from the path of the file and the
/// numbers of the first and the last line as they are to be shown: the path,
/// `: line `, the first line, `~`, and the last line.
pub open spec fn line_text(filepath: Seq<char>, start: Seq<char>, end: Seq<char>) -> Seq<char> {
    filepath + seq![':', ' ', 'l', 'i', 'n', 'e', ' '] + start + seq!['~'] + end
}

/// The heading of the report, from the number of spans asked for as it is
/// to be shown.
pub open spec fn heading_text(top: Seq<char>) -> Seq<char> {
    seq!['t', 'o', 'p', ' '] + top + seq![' ', 'r', 'e', 's', 'u', 'l', 't', ':']
}

/// The digit `d` as text.
fn digit_text(d: usize) -> (text: &'static str)
    requires
        d < 10,
    ensures
        text@ == seq![digits()[d as int]],
{
    proof {
        reveal_strlit("0");
        reveal_strlit("1");
        reveal_strlit("2");
        reveal_strlit("3");
        reveal_strlit("4");
        reveal_strlit("5");
        reveal_strlit("6");
        reveal_strlit("7");
        reveal_strlit("8");
        reveal_strlit("9");
    }
    let text = match d {
        0 => "0",
        1 => "1",
        2 => "2",
        3 => "3",
        4 => "4",
        5 => "5",
        6 => "6",
        7 => "7",
        8 => "8",
        _ => "9",
    };
    text
}

/// `n` in decimal.
pub fn to_decimal(n: usize) -> (text: String)
    ensures
        text@ == decimal(n as nat),
    decreases n,
{
    if n < 10 {
        digit_text(n).to_string()
    } else {
        let mut text = to_decimal(n / 10);
        text.append(digit_text(n % 10));
        text
    }
}

/// The line of the report for a span, from its three parts as they are to be
/// shown.
pub fn span_line(filepath: &str, start: &str, end: &str) -> (line: String)
    ensures
        line@ == line_text(filepath@, start@, end@),
{
    proof {
        reveal_strlit(": line ");
        reveal_strlit("~");
    }
    let mut line = filepath.to_string();
    line.append(": line ");
    line.append(start);
    line.append("~");
    line.append(end);
    line
}

/// The heading of the report, from the number of spans asked for as it is to
/// be shown.
pub fn heading(top: &str) -> (line: String)
    ensures
        line@ == heading_text(top@),
{
    proof {
        reveal_strlit("top ");
        reveal_strlit(" result:");
    }
    let mut line = "top ".to_string();
    line.append(top);
    line.append(" result:");
    line
}

/// The line of the report for `span`, without colors.
pub fn plain_line(span: &CPLocation) -> (line: String)
    ensures
        line@ == line_text(span@.filepath, decimal(span@.start), decimal(span@.end)),
{
    let start = to_decimal(span.start());
    let end = to_decimal(span.end());
    span_line(span.filepath(), start.as_str(), end.as_str())
}

/// The character with which every escape sequence of a terminal begins.
pub open spec fn escape() -> char {
    '\u{1b}'
}

/// Whether `shown` holds `text` in one piece: `text` as it is, or `text`
/// with something before and something after it.
pub open spec fn shows(shown: Seq<char>, text: Seq<char>) -> bool {
    exists|before: Seq<char>, after: Seq<char>| shown == before + text + after
}

/// A number in decimal holds digits and nothing else, so no escape character.
pub proof fn lemma_decimal_is_digits(n: nat)
    ensures
        decimal(n).len() >= 1,
        forall|i: int| 0 <= i < decimal(n).len() ==> '0' <= #[trigger] decimal(n)[i] <= '9',
        !decimal(n).contains(escape()),
    decreases n,
{
    if n >= 10 {
        lemma_decimal_is_digits(n / 10);
    }
    assert forall|i: int| 0 <= i < decimal(n).len() implies '0' <= #[trigger] decimal(n)[i]
        <= '9' by {
        if n >= 10 && i < decimal(n / 10).len() {
            assert(decimal(n)[i] == decimal(n / 10)[i]);
        }
    }
}

/// `colored::Colorize::red` on a string slice, written out: `text` as it is
/// shown in red. That is `text` itself where colors are off, and `text`
/// between the sequence that sets the color and the one that resets it where
/// they are on; which of the two depends on the terminal and the
/// environment. A reset sequence inside `text` has the color set again
/// behind it, so only a text without an escape character is sure to be
/// shown in one piece. Trusted, not proved.
#[verifier::external_body]
fn red(text: &str) -> (shown: String)
    ensures
        !text@.contains(escape()) ==> shows(shown@, text@),
{
    text.red().to_string()
}

/// `colored::Colorize::purple` on a string slice, written out: `text` as it
/// is shown in purple, in one piece where it holds no escape character.
/// Trusted, not proved.
#[verifier::external_body]
fn purple(text: &str) -> (shown: String)
    ensures
        !text@.contains(escape()) ==> shows(shown@, text@),
{
    text.purple().to_string()
}

/// `colored::Colorize::blue` on a string slice, written out: `text` as it is
/// shown in blue, in one piece where it holds no escape character. Trusted,
/// not proved.
#[verifier::external_body]
fn blue(text: &str) -> (shown: String)
    ensures
        !text@.contains(escape()) ==> shows(shown@, text@),
{
    text.blue().to_string()
}

/// The line of the report for `span`, for a terminal: the path in red and
/// the line numbers in purple, where the terminal shows colors. Whatever the
/// terminal, the line has the parts of every line of the report, its two
/// numbers are those of the span, and its path is that of the span unless
/// the path itself holds an escape character.
pub fn colored_line(span: &CPLocation) -> (line: String)
    ensures
        exists|filepath: Seq<char>, start: Seq<char>, end: Seq<char>|
            {
                &&& line@ == #[trigger] line_text(filepath, start, end)
                &&& shows(start, decimal(span@.start))
                &&& shows(end, decimal(span@.end))
                &&& !span@.filepath.contains(escape()) ==> shows(filepath, span@.filepath)
            },
{
    proof {
        lemma_decimal_is_digits(span@.start);
        lemma_decimal_is_digits(span@.end);
    }
    let filepath = red(span.filepath());
    let start = purple(to_decimal(span.start()).as_str());
    let end = purple(to_decimal(span.end()).as_str());
    let line = span_line(filepath.as_str(), start.as_str(), end.as_str());
    assert(line@ == line_text(filepath@, start@, end@));
    line
}

/// The heading of the report for a terminal: the number of spans asked for
/// in blue, where the terminal shows colors. Whatever the terminal, the
/// heading has the parts of the plain heading, and its number is `top`.
pub fn colored_heading(top: usize) -> (line: String)
    ensures
        exists|shown: Seq<char>|
            line@ == #[trigger] heading_text(shown) && shows(shown, decimal(top as nat)),
{
    proof {
        lemma_decimal_is_digits(top as nat);
    }
    let shown = blue(to_decimal(top).as_str());
    let line = heading(shown.as_str());
    assert(line@ == heading_text(shown@));
    line
}

} // verus!
