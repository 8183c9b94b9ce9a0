//! What the scanner needs of `str` and `char`.

use vstd::prelude::*;
use vstd::std_specs::iter::IteratorSpec;

verus! {

/// Whether a character is white space: the characters with Unicode's
/// `White_Space` property, which are those that `char::is_whitespace` tells
/// and `str::trim` removes. They are the tab, the line feed, the vertical
/// tab, the form feed and the carriage return, the space, the next line
/// character, the no-break space, the Ogham space mark, the spaces of fixed
/// widths, the line and the paragraph separator, the narrow no-break space,
/// the medium mathematical space and the ideographic space.
pub open spec fn white_space(c: char) -> bool {
    let code = c as u32;
    ||| 0x09 <= code <= 0x0d
    ||| code == 0x20
    ||| code == 0x85
    ||| code == 0xa0
    ||| code == 0x1680
    ||| 0x2000 <= code <= 0x200a
    ||| code == 0x2028
    ||| code == 0x2029
    ||| code == 0x202f
    ||| code == 0x205f
    ||| code == 0x3000
}

/// `s` without its leading white space.
pub open spec fn trimmed_start(s: Seq<char>) -> Seq<char>
    decreases s.len(),
{
    if s.len() > 0 && white_space(s.first()) {
        trimmed_start(s.drop_first())
    } else {
        s
    }
}

/// `s` without its trailing white space.
pub open spec fn trimmed_end(s: Seq<char>) -> Seq<char>
    decreases s.len(),
{
    if s.len() > 0 && white_space(s.last()) {
        trimmed_end(s.drop_last())
    } else {
        s
    }
}

/// `s` without its leading and trailing white space.
pub open spec fn trimmed(s: Seq<char>) -> Seq<char> {
    trimmed_end(trimmed_start(s))
}

/// The length of `s` in bytes, which is what `str::len` returns: each
/// character counts with the length of its UTF-8 encoding.
pub open spec fn byte_len(s: Seq<char>) -> nat {
    vstd::utf8::encode_utf8(s).len()
}

/// Whether `c` is white space, as `char::is_whitespace` tells.
pub fn is_white_space(c: char) -> (r: bool)
    ensures
        r == white_space(c),
{
    let code = c as u32;
    (0x09 <= code && code <= 0x0d) || code == 0x20 || code == 0x85 || code == 0xa0 || code
        == 0x1680 || (0x2000 <= code && code <= 0x200a) || code == 0x2028 || code == 0x2029
        || code == 0x202f || code == 0x205f || code == 0x3000
}

/// Where the first `k` characters of `s` are white space and the next one is
/// not, `s` without its leading white space is `s` without those `k`.
proof fn lemma_trimmed_start(s: Seq<char>, k: int)
    requires
        0 <= k <= s.len(),
        forall|j: int| 0 <= j < k ==> white_space(#[trigger] s[j]),
        k == s.len() || !white_space(s[k]),
    ensures
        trimmed_start(s) == s.skip(k),
    decreases k,
{
    if k > 0 {
        let rest = s.drop_first();
        assert forall|j: int| 0 <= j < k - 1 implies white_space(#[trigger] rest[j]) by {
            assert(rest[j] == s[j + 1]);
        }
        lemma_trimmed_start(rest, k - 1);
    }
}

/// Where the characters of `s` from the `k`-th on are white space and the one
/// before is not, `s` without its trailing white space is its first `k`
/// characters.
proof fn lemma_trimmed_end(s: Seq<char>, k: int)
    requires
        0 <= k <= s.len(),
        forall|j: int| k <= j < s.len() ==> white_space(#[trigger] s[j]),
        k == 0 || !white_space(s[k - 1]),
    ensures
        trimmed_end(s) == s.take(k),
    decreases s.len() - k,
{
    if k < s.len() {
        let rest = s.drop_last();
        assert forall|j: int| k <= j < rest.len() implies white_space(#[trigger] rest[j]) by {
            assert(rest[j] == s[j]);
        }
        lemma_trimmed_end(rest, k);
    }
}

/// `s` without its leading and trailing white space, as `str::trim` gives it.
pub fn trim<'a>(s: &'a str) -> (r: &'a str)
    ensures
        r@ == trimmed(s@),
{
    let n = s.unicode_len();
    let mut from: usize = 0;
    let mut to: usize = 0;
    let mut i: usize = 0;
    for c in it: s.chars()
        invariant
            n == s@.len(),
            it.seq() == s@,
            i == it.index(),
            from <= i,
            forall|j: int| 0 <= j < from ==> white_space(#[trigger] s@[j]),
            from < i ==> !white_space(s@[from as int]) && from < to,
            to == 0 || from < to <= i,
            to > 0 ==> !white_space(s@[to - 1]),
            forall|j: int| to <= j < i ==> white_space(#[trigger] s@[j]),
    {
        if !is_white_space(c) {
            to = i + 1;
        } else if from == i {
            from = i + 1;
        }
        i = i + 1;
    }
    proof {
        lemma_trimmed_start(s@, from as int);
        if to == 0 {
            lemma_trimmed_end(s@.skip(n as int), 0);
        } else {
            let rest = s@.skip(from as int);
            assert forall|j: int| to - from <= j < rest.len() implies white_space(
                #[trigger] rest[j],
            ) by {
                assert(rest[j] == s@[j + from]);
            }
            lemma_trimmed_end(rest, to - from);
        }
    }
    if to == 0 {
        s.substring_char(n, n)
    } else {
        s.substring_char(from, to)
    }
}

/// Whether `s` begins with the characters of `prefix`, as `str::starts_with`
/// tells for a string pattern.
pub fn starts_with(s: &str, prefix: &str) -> (r: bool)
    ensures
        r == prefix@.is_prefix_of(s@),
{
    broadcast use vstd::string::group_string_axioms;

    let mut rest = s.chars();
    for p in it: prefix.chars()
        invariant
            it.seq() == prefix@,
            rest.obeys_prophetic_iter_laws(),
            it.index() <= s@.len(),
            rest.remaining() == s@.skip(it.index()),
            prefix@.take(it.index()) == s@.take(it.index()),
    {
        let ghost i = it.index();
        match rest.next() {
            Some(c) => {
                if c != p {
                    assert(prefix@[i] != s@[i]);
                    return false;
                }
            },
            None => {
                return false;
            },
        }
    }
    true
}

/// Whether `s` ends with the characters of `suffix`, as `str::ends_with`
/// tells for a string pattern.
pub fn ends_with(s: &str, suffix: &str) -> (r: bool)
    ensures
        r == suffix@.is_suffix_of(s@),
{
    let n = s.unicode_len();
    let m = suffix.unicode_len();
    if m > n {
        return false;
    }
    let tail = s.substring_char(n - m, n);
    starts_with(tail, suffix)
}

} // verus!
