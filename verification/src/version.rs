//! The version that the engine's client reports of itself.

use vstd::prelude::*;
use vstd::string::*;

verus! {

/// Whether `c` is white space: one of the characters that Unicode marks as
/// such.
pub open spec fn is_space(c: char) -> bool {
    let code = c as int;
    ||| 0x09 <= code <= 0x0D
    ||| code == 0x20
    ||| code == 0x85
    ||| code == 0xA0
    ||| code == 0x1680
    ||| 0x2000 <= code <= 0x200A
    ||| code == 0x2028
    ||| code == 0x2029
    ||| code == 0x202F
    ||| code == 0x205F
    ||| code == 0x3000
}

/// The length of `text` without the white space at its end.
pub open spec fn trimmed_len(text: Seq<char>) -> nat
    decreases text.len(),
{
    if text.len() > 0 && is_space(text.last()) {
        trimmed_len(text.drop_last())
    } else {
        text.len()
    }
}

/// Where the last word of `text` begins: just after the last space
/// character, or at the start where there is none.
pub open spec fn word_start(text: Seq<char>) -> nat
    decreases text.len(),
{
    if text.len() > 0 && text.last() != ' ' {
        word_start(text.drop_last())
    } else {
        text.len()
    }
}

/// The version in what the client prints when asked for it: the output
/// without the white space at its end, from after its last space character
/// to the end.
pub open spec fn version_word(output: Seq<char>) -> Seq<char> {
    let kept = output.take(trimmed_len(output) as int);
    kept.skip(word_start(kept) as int)
}

/// Whether `version` names one of the four early versions, `v1` to `v4`,
/// which reported on the error stream.
pub open spec fn early_version(version: Seq<char>) -> bool {
    version.len() == 2 && version[0] == 'v' && '1' <= version[1] <= '4'
}

fn is_space_char(c: char) -> (b: bool)
    ensures
        b == is_space(c),
{
    let code = c as u32;
    (0x09 <= code && code <= 0x0D) || code == 0x20 || code == 0x85 || code == 0xA0 || code
        == 0x1680 || (0x2000 <= code && code <= 0x200A) || code == 0x2028 || code == 0x2029
        || code == 0x202F || code == 0x205F || code == 0x3000
}

/// Reads the version out of what the client prints when asked for it.
pub fn version_of(output: &str) -> (word: String)
    ensures
        word@ == version_word(output@),
        !word@.contains(' '),
{
    let ghost text = output@;
    let len = output.unicode_len();
    let mut end = len;
    let mut trimming = true;
    assert(text.take(len as int) =~= text);
    while trimming && end > 0
        invariant
            text == output@,
            len == text.len(),
            end <= len,
            trimmed_len(text) == trimmed_len(text.take(end as int)),
            !trimming ==> end > 0 && !is_space(text[end - 1]),
        decreases
                end + if trimming {
                    1int
                } else {
                    0int
                },
    {
        if is_space_char(output.get_char(end - 1)) {
            assert(text.take(end as int).drop_last() =~= text.take(end - 1));
            end -= 1;
        } else {
            trimming = false;
        }
    }
    assert(trimmed_len(text) == end);
    let ghost kept = text.take(end as int);
    let mut start = end;
    let mut scanning = true;
    assert(kept.take(start as int) =~= kept);
    while scanning && start > 0
        invariant
            text == output@,
            len == text.len(),
            start <= end <= len,
            kept == text.take(end as int),
            word_start(kept) == word_start(kept.take(start as int)),
            forall|i: int| start <= i < end ==> text[i] != ' ',
            !scanning ==> start > 0 && text[start - 1] == ' ',
        decreases
                start + if scanning {
                    1int
                } else {
                    0int
                },
    {
        if output.get_char(start - 1) != ' ' {
            assert(kept.take(start as int).drop_last() =~= kept.take(start - 1));
            start -= 1;
        } else {
            scanning = false;
        }
    }
    assert(word_start(kept) == start);
    let word = String::from_str(output.substring_char(start, end));
    assert(word@ =~= kept.skip(start as int));
    word
}

/// Whether the client of this version reports on the error stream.
pub fn is_early_version(version: &str) -> (b: bool)
    ensures
        b == early_version(version@),
{
    if version.unicode_len() != 2 {
        return false;
    }
    let digit = version.get_char(1) as u32;
    version.get_char(0) == 'v' && 0x31 <= digit && digit <= 0x34
}

} // verus!
