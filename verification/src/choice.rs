//! The choice of one entry from a numbered list, as the user types it.

use vstd::prelude::*;
use vstd::string::*;
use crate::number::{dec, is_digit, law_unsigned_roundtrip, lemma_dec, parse_unsigned, parse_usize};
use crate::text::{chars_of, is_white, law_trim_takes_white_space_away, trim, trim_text};

verus! {

/// Why an answer chooses nothing.
#[derive(Debug, Clone, Copy, PartialEq, Eq, Structural)]
pub enum ChoiceError {
    /// The answer is not a number.
    Invalid,
    /// The numbers start at one.
    Zero,
    /// The list has no entry with that number.
    OutOfRange,
}

/// What an answer chooses from a list of `n` entries: the position of the entry
/// whose number, counted from one, it is.
pub open spec fn chosen(answer: Seq<char>, n: nat) -> Result<nat, ChoiceError> {
    match parse_unsigned(trim_text(answer), usize::MAX as nat) {
        Some(k) => if k == 0 {
            Err(ChoiceError::Zero)
        } else if k <= n {
            Ok((k - 1) as nat)
        } else {
            Err(ChoiceError::OutOfRange)
        },
        None => Err(ChoiceError::Invalid),
    }
}

/// What each error says.
pub open spec fn choice_error_text(e: ChoiceError) -> Seq<char> {
    match e {
        ChoiceError::Invalid => "无效序号"@,
        ChoiceError::Zero => "序号需从 1 起"@,
        ChoiceError::OutOfRange => "序号超出范围"@,
    }
}

impl ChoiceError {
    pub fn message(self) -> (r: &'static str)
        ensures
            r@ == choice_error_text(self),
    {
        match self {
            ChoiceError::Invalid => "无效序号",
            ChoiceError::Zero => "序号需从 1 起",
            ChoiceError::OutOfRange => "序号超出范围",
        }
    }
}

/// The position that an answer chooses from a list of `n` entries.
pub fn choose_index(answer: &str, n: usize) -> (r: Result<usize, ChoiceError>)
    ensures
        match r {
            Ok(i) => chosen(answer@, n as nat) == Ok::<nat, ChoiceError>(i as nat) && i < n,
            Err(e) => chosen(answer@, n as nat) == Err::<nat, ChoiceError>(e),
        },
{
    let cs = chars_of(answer);
    match parse_usize(trim(&cs)) {
        Some(k) => if k == 0 {
            Err(ChoiceError::Zero)
        } else if k <= n {
            Ok(k - 1)
        } else {
            Err(ChoiceError::OutOfRange)
        },
        None => Err(ChoiceError::Invalid),
    }
}

/// Typing the number that an entry is shown with chooses that entry, with white space
/// around it or without; zero, a number beyond the list and what is no number choose
/// nothing, and each is told.
pub proof fn law_number_chooses_its_entry(a: Seq<char>, b: Seq<char>, k: nat, n: nat)
    requires
        forall|i: int| 0 <= i < a.len() ==> is_white(#[trigger] a[i]),
        forall|i: int| 0 <= i < b.len() ==> is_white(#[trigger] b[i]),
        k <= usize::MAX,
    ensures
        k == 0 ==> chosen(a + dec(k) + b, n) == Err::<nat, ChoiceError>(ChoiceError::Zero),
        1 <= k <= n ==> chosen(a + dec(k) + b, n) == Ok::<nat, ChoiceError>((k - 1) as nat),
        k > n && k > 0 ==> chosen(a + dec(k) + b, n) == Err::<nat, ChoiceError>(
            ChoiceError::OutOfRange,
        ),
{
    let d = dec(k);
    lemma_dec(k);
    assert(is_digit(d[0]) && is_digit(d[d.len() - 1]));
    law_trim_takes_white_space_away(a, d, b);
    law_unsigned_roundtrip(k, usize::MAX as nat);
}

/// An answer that holds a character which is neither a digit nor a sign before it, or no
/// character at all, is no number.
pub proof fn law_text_chooses_nothing(a: Seq<char>, s: Seq<char>, b: Seq<char>, n: nat, i: int)
    requires
        forall|i: int| 0 <= i < a.len() ==> is_white(#[trigger] a[i]),
        forall|i: int| 0 <= i < b.len() ==> is_white(#[trigger] b[i]),
        s.len() > 0 ==> !is_white(s[0]) && !is_white(s.last()) && 0 <= i < s.len() && !('0' <= s[i]
            <= '9') && s[i] != '+',
    ensures
        chosen(a + s + b, n) == Err::<nat, ChoiceError>(ChoiceError::Invalid),
{
    law_trim_takes_white_space_away(a, s, b);
    if s.len() > 0 {
        assert(!is_digit(s[i]));
        if s[0] == '+' {
            assert(s.skip(1)[i - 1] == s[i]);
        }
    }
}


/// A number that no position can have is no number that can be chosen.
pub proof fn law_number_beyond_positions_is_invalid(a: Seq<char>, b: Seq<char>, k: nat, n: nat)
    requires
        forall|i: int| 0 <= i < a.len() ==> is_white(#[trigger] a[i]),
        forall|i: int| 0 <= i < b.len() ==> is_white(#[trigger] b[i]),
        k > usize::MAX,
    ensures
        chosen(a + dec(k) + b, n) == Err::<nat, ChoiceError>(ChoiceError::Invalid),
{
    let d = dec(k);
    lemma_dec(k);
    assert(is_digit(d[0]) && is_digit(d[d.len() - 1]));
    law_trim_takes_white_space_away(a, d, b);
}

/// Each error is told in its own words.
pub proof fn law_errors_are_told_in_words(e: ChoiceError)
    ensures
        choice_error_text(e) == match e {
            ChoiceError::Invalid => seq!['无', '效', '序', '号'],
            ChoiceError::Zero => seq!['序', '号', '需', '从', ' ', '1', ' ', '起'],
            ChoiceError::OutOfRange => seq!['序', '号', '超', '出', '范', '围'],
        },
{
    reveal_strlit("无效序号");
    reveal_strlit("序号需从 1 起");
    reveal_strlit("序号超出范围");
    assert("无效序号"@ =~= seq!['无', '效', '序', '号']);
    assert("序号需从 1 起"@ =~= seq!['序', '号', '需', '从', ' ', '1', ' ', '起']);
    assert("序号超出范围"@ =~= seq!['序', '号', '超', '出', '范', '围']);
}

} // verus!
