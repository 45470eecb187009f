//! What the tables of the Unicode standard decide: the lower case of a text, and
//! which of its characters are escaped where it is shown in quotes.

use vstd::prelude::*;
use vstd::string::*;
use crate::text::one_line;

verus! {

/// The text that `str::to_lowercase` of std gives.
pub uninterp spec fn lower_text(s: Seq<char>) -> Seq<char>;

/// Whether a text is made of ASCII characters.
pub open spec fn ascii_text(s: Seq<char>) -> bool {
    forall|i: int| 0 <= i < s.len() ==> (#[trigger] s[i] as u32) < 0x80
}

/// The lower case of an ASCII character.
pub open spec fn ascii_lower(c: char) -> char {
    if 0x41 <= c as u32 && c as u32 <= 0x5a {
        ((c as u32) + 0x20) as char
    } else {
        c
    }
}

/// `str::to_lowercase` of std. What it gives depends on the text alone; of a text
/// of ASCII characters it turns the letters `A` to `Z` into `a` to `z` and keeps
/// the rest.
#[verifier::external_body]
pub(crate) fn lowercase(s: &str) -> (r: String)
    ensures
        r@ == lower_text(s@),
        ascii_text(s@) ==> r@ == s@.map_values(|c: char| ascii_lower(c)),
{
    s.to_lowercase()
}

/// The text that the `Debug` form of a string of std is.
pub uninterp spec fn quoted_text(s: Seq<char>) -> Seq<char>;

/// `Debug` of std's `str`, through `format!`. What it gives depends on the text
/// alone, and a line feed in the text is shown by its escape, so that the result
/// holds none.
#[verifier::external_body]
pub(crate) fn quoted(s: &str) -> (r: String)
    ensures
        r@ == quoted_text(s@),
        one_line(r@),
{
    format!("{:?}", s)
}

/// The lower case of the `k`-th capital letter is the `k`-th small one, and no other
/// character changes.
pub proof fn law_lower_case_of_ascii(k: int, c: char)
    requires
        0 <= k < 26,
    ensures
        ascii_lower((0x41 + k) as char) == (0x61 + k) as char,
        (c as u32) < 0x41 || (c as u32) > 0x5a ==> ascii_lower(c) == c,
{
}

} // verus!
