//! Text as a sequence of characters, one per column, with the operations
//! on it that the `widestring` crate supplies.

use vstd::prelude::*;
use widestring::{Utf32Str, Utf32String};

verus! {

/// The number of characters left of `text` once the white space at its end
/// is taken away, as `Utf32Str::trim_end` leaves it.
pub uninterp spec fn trim_end_len(text: Seq<char>) -> nat;

/// The largest number of characters that the library asks a buffer to
/// hold at once.
pub open spec fn max_text_len() -> int {
    (usize::MAX / 8) as int
}

/// `n` blanks.
pub open spec fn blanks(n: int) -> Seq<char> {
    Seq::new(n as nat, |i: int| ' ')
}

/// Calls `Utf32String::from_str`, which collects the characters of a
/// string slice in order, and hands them out as a vector. Claims that the
/// vector holds exactly the characters of `code`.
#[verifier::external_body]
pub(crate) fn utf32_chars(code: &str) -> (chars: Vec<char>)
    ensures
        chars@ == code@,
{
    Utf32String::from_str(code).into_char_vec()
}

/// Calls `Utf32Str::trim_end`, which returns the part of the text before
/// its trailing white space, a prefix of the text. Claims that its length
/// is the named length and is no more than the length of the text.
#[verifier::external_body]
pub(crate) fn trimmed_len(text: &Vec<char>) -> (n: usize)
    ensures
        n == trim_end_len(text@),
        n <= text@.len(),
{
    Utf32Str::from_char_slice(text.as_slice()).trim_end().len()
}

/// Calls `Utf32Str::repeat` on a single blank. Claims that the result is
/// `n` blanks. The call panics when the buffer's size in bytes would not
/// fit, so `n` is bounded.
#[verifier::external_body]
pub(crate) fn blank_run(n: usize) -> (run: Vec<char>)
    requires
        n <= max_text_len(),
    ensures
        run@ == blanks(n as int),
{
    Utf32String::from(" ").repeat(n).into_char_vec()
}

/// Calls the `+` of a `Utf32String` and a `Utf32Str`, which appends the
/// second to the first. Claims that the result is `head` followed by
/// `tail`. The call panics when the buffer's size in bytes would not
/// fit, so the joint length is bounded.
#[verifier::external_body]
pub(crate) fn joined(head: Vec<char>, tail: &Vec<char>) -> (all: Vec<char>)
    requires
        head@.len() + tail@.len() <= max_text_len(),
    ensures
        all@ == head@ + tail@,
{
    (Utf32String::from_chars(head) + Utf32Str::from_char_slice(tail.as_slice())).into_char_vec()
}

} // verus!
