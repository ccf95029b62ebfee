//! Bytes as text.
use vstd::prelude::*;
use vstd::utf8::{decode_utf8, valid_utf8};

verus! {

/// The text that bytes which are no UTF-8 are read as, with replacement characters.
pub uninterp spec fn replaced(bytes: Seq<u8>) -> Seq<char>;

/// The text that bytes are read as when what is no UTF-8 is replaced.
pub open spec fn lossy(bytes: Seq<u8>) -> Seq<char> {
    if valid_utf8(bytes) {
        decode_utf8(bytes)
    } else {
        replaced(bytes)
    }
}

/// `String::from_utf8_lossy`: bytes that are UTF-8 are read as what they encode. What
/// other bytes are read as depends on them alone. How many replacement characters
/// stand in it is not stated.
#[verifier::external_body]
pub(crate) fn read_lossy(bytes: &[u8]) -> (r: String)
    ensures
        valid_utf8(bytes@) ==> r@ == decode_utf8(bytes@),
        !valid_utf8(bytes@) ==> r@ == replaced(bytes@),
{
    String::from_utf8_lossy(bytes).into_owned()
}

/// `String::from_utf8`: the text that the bytes encode, if and only if they are
/// UTF-8.
#[verifier::external_body]
pub(crate) fn read_utf8(bytes: Vec<u8>) -> (r: Option<String>)
    ensures
        r is Some == valid_utf8(bytes@),
        r matches Some(s) ==> s@ == decode_utf8(bytes@),
{
    String::from_utf8(bytes).ok()
}

/// A text with its ASCII letters in lower case.
pub open spec fn ascii_lower(s: Seq<char>) -> Seq<char> {
    s.map_values(
        |c: char|
            if 'A' <= c <= 'Z' {
                (c as u32 + 32) as char
            } else {
                c
            },
    )
}

/// Whether a text holds ASCII characters alone.
pub open spec fn all_ascii(s: Seq<char>) -> bool {
    forall|i: int| 0 <= i < s.len() ==> (#[trigger] s[i]) as u32 <= 127
}

/// A text with other characters than those of ASCII in lower case.
pub uninterp spec fn unicode_lower(s: Seq<char>) -> Seq<char>;

/// A text in lower case.
pub open spec fn lower(s: Seq<char>) -> Seq<char> {
    if all_ascii(s) {
        ascii_lower(s)
    } else {
        unicode_lower(s)
    }
}

/// `str::to_lowercase`: of an ASCII text the letters `A` to `Z` become `a` to `z`. What
/// another text becomes depends on it alone. Which of its characters have a lower case
/// is Unicode's to say and is not stated.
#[verifier::external_body]
pub(crate) fn lowercase(s: &str) -> (r: String)
    ensures
        all_ascii(s@) ==> r@ == ascii_lower(s@),
        !all_ascii(s@) ==> r@ == unicode_lower(s@),
{
    s.to_lowercase()
}

/// A text with its ASCII letters in upper case.
pub open spec fn ascii_upper(s: Seq<char>) -> Seq<char> {
    s.map_values(
        |c: char|
            if 'a' <= c <= 'z' {
                (c as u32 - 32) as char
            } else {
                c
            },
    )
}

/// A text with other characters than those of ASCII in upper case.
pub uninterp spec fn unicode_upper(s: Seq<char>) -> Seq<char>;

/// A text in upper case.
pub open spec fn upper(s: Seq<char>) -> Seq<char> {
    if all_ascii(s) {
        ascii_upper(s)
    } else {
        unicode_upper(s)
    }
}

/// `str::to_uppercase`: of an ASCII text the letters `a` to `z` become `A` to `Z`. What
/// another text becomes depends on it alone. Which of its characters have an upper case
/// is Unicode's to say and is not stated.
#[verifier::external_body]
pub(crate) fn uppercase(s: &str) -> (r: String)
    ensures
        all_ascii(s@) ==> r@ == ascii_upper(s@),
        !all_ascii(s@) ==> r@ == unicode_upper(s@),
{
    s.to_uppercase()
}

/// In lower case a letter from A to Z is the one from a to z, in upper case the other way
/// round, and any other ASCII character stays.
pub proof fn law_ascii_case(s: Seq<char>, k: int)
    requires
        all_ascii(s),
        0 <= k < s.len(),
    ensures
        lower(s).len() == s.len() && upper(s).len() == s.len(),
        'A' <= s[k] <= 'Z' ==> lower(s)[k] as int - 'a' as int == s[k] as int - 'A' as int,
        !('A' <= s[k] <= 'Z') ==> lower(s)[k] == s[k],
        'a' <= s[k] <= 'z' ==> upper(s)[k] as int - 'A' as int == s[k] as int - 'a' as int,
        !('a' <= s[k] <= 'z') ==> upper(s)[k] == s[k],
{
}

} // verus!
