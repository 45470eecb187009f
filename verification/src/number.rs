//! Integers in decimal notation: how they are written and how they are read.

use vstd::prelude::*;
use vstd::slice::slice_subrange;
use vstd::string::*;
use crate::text::chars_of;

verus! {

/// The character of a decimal digit.
pub open spec fn digit_char(d: int) -> char {
    (48 + d) as char
}

/// Whether `c` is an ASCII decimal digit.
pub open spec fn is_digit(c: char) -> bool {
    '0' <= c <= '9'
}

/// The value of a decimal digit.
pub open spec fn digit_value(c: char) -> int {
    c as int - 48
}

/// A natural number in decimal notation, without leading zeros.
pub open spec fn dec(n: nat) -> Seq<char>
    decreases n,
{
    if n < 10 {
        seq![digit_char(n as int)]
    } else {
        dec(n / 10).push(digit_char((n % 10) as int))
    }
}

/// An integer in decimal notation.
pub open spec fn dec_int(n: int) -> Seq<char> {
    if n < 0 {
        seq!['-'] + dec((-n) as nat)
    } else {
        dec(n as nat)
    }
}

/// A text filled up on the left to a width, counted in characters.
pub open spec fn pad_left(s: Seq<char>, width: nat, fill: char) -> Seq<char> {
    if s.len() < width {
        Seq::new((width - s.len()) as nat, |i: int| fill) + s
    } else {
        s
    }
}

/// A text filled up on the right to a width, counted in characters.
pub open spec fn pad_right(s: Seq<char>, width: nat, fill: char) -> Seq<char> {
    if s.len() < width {
        s + Seq::new((width - s.len()) as nat, |i: int| fill)
    } else {
        s
    }
}

/// Whether a text is made of decimal digits only.
pub open spec fn all_digits(s: Seq<char>) -> bool {
    forall|i: int| 0 <= i < s.len() ==> is_digit(#[trigger] s[i])
}

/// The number that a sequence of decimal digits stands for.
pub open spec fn digits_value(s: Seq<char>) -> nat
    decreases s.len(),
{
    if s.len() == 0 {
        0
    } else {
        (digits_value(s.drop_last()) * 10 + digit_value(s.last())) as nat
    }
}

/// The number that one or more digits stand for, where it is at most `max`.
pub open spec fn parse_digits(s: Seq<char>, max: nat) -> Option<nat> {
    if s.len() > 0 && all_digits(s) && digits_value(s) <= max {
        Some(digits_value(s))
    } else {
        None
    }
}

/// An unsigned number: digits, with or without a plus sign before them.
pub open spec fn parse_unsigned(s: Seq<char>, max: nat) -> Option<nat> {
    if s.len() > 0 && s[0] == '+' {
        parse_digits(s.skip(1), max)
    } else {
        parse_digits(s, max)
    }
}

/// A signed 64-bit number: digits, with or without a sign before them.
pub open spec fn parse_signed(s: Seq<char>) -> Option<int> {
    if s.len() > 0 && s[0] == '-' {
        match parse_digits(s.skip(1), 0x8000_0000_0000_0000) {
            Some(n) => Some(-(n as int)),
            None => None,
        }
    } else {
        match parse_unsigned(s, i64::MAX as nat) {
            Some(n) => Some(n as int),
            None => None,
        }
    }
}

/// Decimal notation is made of digits and stands for the number written.
pub proof fn lemma_dec(n: nat)
    ensures
        dec(n).len() > 0,
        all_digits(dec(n)),
        digits_value(dec(n)) == n,
    decreases n,
{
    if n < 10 {
        let s = dec(n);
        assert(s.drop_last() == Seq::<char>::empty());
        assert(digits_value(s.drop_last()) == 0);
    } else {
        lemma_dec(n / 10);
        let s = dec(n);
        assert(s.drop_last() == dec(n / 10));
    }
}

/// Reading back an unsigned number that was written gives the number.
pub proof fn law_unsigned_roundtrip(n: nat, max: nat)
    requires
        n <= max,
    ensures
        parse_unsigned(dec(n), max) == Some(n),
{
    lemma_dec(n);
    assert(is_digit(dec(n)[0]));
}

/// Reading back a signed number that was written gives the number.
pub proof fn law_signed_roundtrip(n: i64)
    ensures
        parse_signed(dec_int(n as int)) == Some(n as int),
{
    if n < 0 {
        lemma_dec((-n) as nat);
        assert(dec_int(n as int).skip(1) == dec((-n) as nat));
    } else {
        lemma_dec(n as nat);
        assert(is_digit(dec(n as nat)[0]));
    }
}

/// The character of a digit below ten.
pub fn digit_of(d: u64) -> (r: char)
    requires
        d < 10,
    ensures
        r == digit_char(d as int),
{
    let b: u8 = 48 + d as u8;
    b as char
}

/// Appends the decimal notation of `n`.
pub fn push_dec(out: &mut String, n: u64)
    ensures
        final(out)@ == old(out)@ + dec(n as nat),
    decreases n,
{
    if n >= 10 {
        push_dec(out, n / 10);
    }
    let ghost mid = out@;
    out.push(digit_of(n % 10));
    proof {
        if n < 10 {
            assert(out@ == old(out)@ + dec(n as nat));
        } else {
            assert(mid == old(out)@ + dec((n / 10) as nat));
            assert(out@ == old(out)@ + dec((n / 10) as nat).push(digit_char((n % 10) as int)));
        }
    }
}

/// The decimal notation of `n`.
pub fn dec_text(n: u64) -> (r: String)
    ensures
        r@ == dec(n as nat),
{
    let mut out = String::new();
    push_dec(&mut out, n);
    assert(Seq::<char>::empty() + dec(n as nat) == dec(n as nat));
    out
}

/// Appends the decimal notation of `n`, with its sign where it is negative.
pub fn push_dec_int(out: &mut String, n: i64)
    ensures
        final(out)@ == old(out)@ + dec_int(n as int),
{
    if n < 0 {
        out.push('-');
        let m: u64 = if n == i64::MIN {
            0x8000_0000_0000_0000
        } else {
            (-n) as u64
        };
        push_dec(out, m);
        assert(out@ == old(out)@ + (seq!['-'] + dec(m as nat)));
    } else {
        push_dec(out, n as u64);
    }
}

/// The number of characters that the decimal notation of `n` has.
pub fn dec_len(n: u64) -> (r: usize)
    ensures
        r == dec(n as nat).len(),
        1 <= r <= 20,
    decreases n,
{
    proof {
        assert(vstd::arithmetic::power::pow(10, 20) == 100_000_000_000_000_000_000) by {
            reveal_with_fuel(vstd::arithmetic::power::pow, 21);
        }
        lemma_dec_len(n as nat, 20);
    }
    if n < 10 {
        1
    } else {
        dec_len(n / 10) + 1
    }
}

proof fn lemma_dec_len(n: nat, k: nat)
    requires
        k > 0,
        n < vstd::arithmetic::power::pow(10, k),
    ensures
        dec(n).len() <= k,
    decreases k,
{
    reveal(vstd::arithmetic::power::pow);
    if n >= 10 {
        assert(n / 10 < vstd::arithmetic::power::pow(10, (k - 1) as nat));
        if k == 1 {
            assert(vstd::arithmetic::power::pow(10, 1) == 10 * vstd::arithmetic::power::pow(10, 0));
        }
        lemma_dec_len(n / 10, (k - 1) as nat);
    }
}

/// Appends the decimal notation of `n`, filled up with zeros to `width`.
pub fn push_dec_padded(out: &mut String, n: u64, width: usize)
    ensures
        final(out)@ == old(out)@ + pad_left(dec(n as nat), width as nat, '0'),
{
    let len: usize = dec_len(n);
    let mut k: usize = len;
    while k < width
        invariant
            len <= k,
            k <= width || k == len,
            out@ == old(out)@ + Seq::new((k - len) as nat, |i: int| '0'),
        decreases width - k,
    {
        out.push('0');
        k += 1;
        assert(Seq::new((k - len) as nat, |i: int| '0') == Seq::new((k - 1 - len) as nat, |i: int| '0').push('0'));
    }
    let ghost mid = out@;
    push_dec(out, n);
    assert(out@ == old(out)@ + pad_left(dec(n as nat), width as nat, '0'));
}

/// Whether a character is an ASCII decimal digit.
pub fn is_digit_char(c: char) -> (r: bool)
    ensures
        r == is_digit(c),
{
    '0' <= c && c <= '9'
}

proof fn lemma_value_prefix(s: Seq<char>, i: int)
    requires
        all_digits(s),
        0 <= i <= s.len(),
    ensures
        digits_value(s.take(i)) <= digits_value(s),
    decreases s.len() - i,
{
    if i < s.len() {
        lemma_value_prefix(s, i + 1);
        assert(s.take(i + 1).drop_last() == s.take(i));
        assert(is_digit(s[i]));
    } else {
        assert(s.take(i) == s);
    }
}

/// The number that one or more digits stand for, where 64 bits hold it.
pub fn digits_u64(s: &[char]) -> (r: Option<u64>)
    ensures
        r is Some == (parse_digits(s@, u64::MAX as nat) is Some),
        r matches Some(n) ==> parse_digits(s@, u64::MAX as nat) == Some(n as nat),
{
    if s.len() == 0 {
        return None;
    }
    let mut i: usize = 0;
    while i < s.len()
        invariant
            i <= s@.len(),
            forall|k: int| 0 <= k < i ==> is_digit(#[trigger] s@[k]),
        decreases s@.len() - i,
    {
        if !is_digit_char(s[i]) {
            return None;
        }
        i += 1;
    }
    let mut v: u64 = 0;
    let mut j: usize = 0;
    while j < s.len()
        invariant
            j <= s@.len(),
            all_digits(s@),
            v as nat == digits_value(s@.take(j as int)),
        decreases s@.len() - j,
    {
        let d: u64 = (s[j] as u32 - 48) as u64;
        proof {
            assert(is_digit(s@[j as int]));
            assert(s@.take(j + 1).drop_last() == s@.take(j as int));
            lemma_value_prefix(s@, j + 1);
        }
        if v > (u64::MAX - d) / 10 {
            assert(v * 10 + d > u64::MAX);
            return None;
        }
        v = v * 10 + d;
        j += 1;
    }
    assert(s@.take(j as int) == s@);
    Some(v)
}

/// Reads an unsigned 64-bit number.
pub fn parse_u64(s: &[char]) -> (r: Option<u64>)
    ensures
        r is Some == (parse_unsigned(s@, u64::MAX as nat) is Some),
        r matches Some(n) ==> parse_unsigned(s@, u64::MAX as nat) == Some(n as nat),
{
    if s.len() > 0 && s[0] == '+' {
        digits_u64(slice_subrange(s, 1, s.len()))
    } else {
        digits_u64(s)
    }
}

/// Reads an unsigned 32-bit number.
pub fn parse_u32(s: &[char]) -> (r: Option<u32>)
    ensures
        r is Some == (parse_unsigned(s@, u32::MAX as nat) is Some),
        r matches Some(n) ==> parse_unsigned(s@, u32::MAX as nat) == Some(n as nat),
{
    match parse_u64(s) {
        Some(n) => if n <= u32::MAX as u64 {
            Some(n as u32)
        } else {
            None
        },
        None => None,
    }
}

/// Reads a machine-sized unsigned number.
pub fn parse_usize(s: &[char]) -> (r: Option<usize>)
    ensures
        r is Some == (parse_unsigned(s@, usize::MAX as nat) is Some),
        r matches Some(n) ==> parse_unsigned(s@, usize::MAX as nat) == Some(n as nat),
{
    match parse_u64(s) {
        Some(n) => if n <= usize::MAX as u64 {
            Some(n as usize)
        } else {
            None
        },
        None => None,
    }
}

/// Reads a signed 64-bit number.
pub fn parse_i64(s: &[char]) -> (r: Option<i64>)
    ensures
        r is Some == (parse_signed(s@) is Some),
        r matches Some(n) ==> parse_signed(s@) == Some(n as int),
{
    if s.len() > 0 && s[0] == '-' {
        match digits_u64(slice_subrange(s, 1, s.len())) {
            Some(n) => if n < 0x8000_0000_0000_0000 {
                Some(-(n as i64))
            } else if n == 0x8000_0000_0000_0000 {
                Some(i64::MIN)
            } else {
                None
            },
            None => None,
        }
    } else {
        match parse_u64(s) {
            Some(n) => if n <= i64::MAX as u64 {
                Some(n as i64)
            } else {
                None
            },
            None => None,
        }
    }
}

/// Appends a text, filled up with spaces to a width.
pub fn push_padded(out: &mut String, s: &str, width: usize)
    ensures
        final(out)@ == old(out)@ + pad_right(s@, width as nat, ' '),
{
    let ghost start = out@;
    out.append(s);
    let mut k: usize = chars_of(s).len();
    let ghost len = k as int;
    assert(start + s@ + Seq::new(0, |i: int| ' ') == start + s@);
    while k < width
        invariant
            len <= k,
            len == s@.len(),
            k <= width || k == len,
            out@ == start + s@ + Seq::new((k - len) as nat, |i: int| ' '),
        decreases width - k,
    {
        out.push(' ');
        k += 1;
        assert(out@ == start + s@ + Seq::new((k - len) as nat, |i: int| ' '));
    }
    assert(out@ == start + pad_right(s@, width as nat, ' '));
}

/// The digits of decimal notation: the last one is the remainder by ten, by its
/// character, and the others are the notation of the quotient.
pub proof fn law_last_digit_is_the_remainder(n: nat)
    ensures
        dec(n).last() == seq!['0', '1', '2', '3', '4', '5', '6', '7', '8', '9'][(n % 10) as int],
        n >= 10 ==> dec(n).drop_last() == dec(n / 10),
        n < 10 ==> dec(n).len() == 1,
{
    if n >= 10 {
        assert(dec(n).drop_last() =~= dec(n / 10));
    }
}

/// Leading zeros do not change a number, and digits without them are the decimal
/// notation of the number that they stand for.
pub proof fn law_digits_are_the_notation_of_their_value(s: Seq<char>)
    requires
        s.len() > 0,
        forall|i: int| 0 <= i < s.len() ==> '0' <= #[trigger] s[i] <= '9',
    ensures
        digits_value(seq!['0'] + s) == digits_value(s),
        s[0] != '0' || s.len() == 1 ==> dec(digits_value(s)) == s,
        s[0] != '0' ==> digits_value(s) > 0,
    decreases s.len(),
{
    let t = s.drop_last();
    let z = seq!['0'] + s;
    assert('0' <= s[s.len() - 1] <= '9');
    assert('0' <= s[0] <= '9');
    assert(z.drop_last() =~= seq!['0'] + t);
    assert(z.last() == s.last());
    if s.len() == 1 {
        assert(t =~= Seq::<char>::empty());
        let o = seq!['0'];
        assert(seq!['0'] + t =~= o);
        assert(o.drop_last() =~= Seq::<char>::empty());
        assert(digits_value(o.drop_last()) == 0);
        assert(digits_value(o) == 0);
        assert(digits_value(t) == 0);
        assert(dec(digits_value(s)) =~= s);
    } else {
        assert forall|i: int| 0 <= i < t.len() implies '0' <= #[trigger] t[i] <= '9' by {
            assert(t[i] == s[i]);
        }
        law_digits_are_the_notation_of_their_value(t);
        let v = digits_value(s);
        assert(v / 10 == digits_value(t));
        assert(v % 10 == digit_value(s.last()));
        assert(t[0] == s[0]);
        if s[0] != '0' {
            assert(dec(v) =~= s);
        }
    }
}

/// A text is read as an unsigned number exactly where it is one or more digits, with or
/// without a plus sign before them, that stand for a number within the limit.
pub proof fn law_only_digits_are_read(s: Seq<char>, ds: Seq<char>, max: nat)
    ensures
        (s == ds || s == seq!['+'] + ds) && ds.len() > 0 && (forall|i: int|
            0 <= i < ds.len() ==> '0' <= #[trigger] ds[i] <= '9') ==> parse_unsigned(s, max) == (
        if digits_value(ds) <= max {
            Some(digits_value(ds))
        } else {
            None
        }),
        parse_unsigned(s, max) is Some ==> s.len() > 0 && (s[0] == '+' && s.len() > 1 || '0' <= s[0]
            <= '9') && forall|i: int| 1 <= i < s.len() ==> '0' <= #[trigger] s[i] <= '9',
{
    if (s == ds || s == seq!['+'] + ds) && ds.len() > 0 && (forall|i: int|
        0 <= i < ds.len() ==> '0' <= #[trigger] ds[i] <= '9') {
        assert('0' <= ds[0] <= '9');
        assert(all_digits(ds)) by {
            assert forall|i: int| 0 <= i < ds.len() implies is_digit(#[trigger] ds[i]) by {
                assert('0' <= ds[i] <= '9');
            }
        }
        assert((seq!['+'] + ds).skip(1) =~= ds);
    }
    if parse_unsigned(s, max) is Some {
        if s[0] == '+' {
            assert forall|i: int| 1 <= i < s.len() implies '0' <= #[trigger] s[i] <= '9' by {
                assert(is_digit(s.skip(1)[i - 1]));
            }
        } else {
            assert forall|i: int| 0 <= i < s.len() implies '0' <= #[trigger] s[i] <= '9' by {
                assert(is_digit(s[i]));
            }
            assert('0' <= s[0] <= '9');
        }
    }
}

/// A text that is filled up has the width asked for, or its own where that is larger,
/// and keeps its characters at the other end.
pub proof fn law_filled_text_keeps_its_characters(s: Seq<char>, width: nat, c: char)
    ensures
        pad_left(s, width, c).len() == if s.len() < width {
            width
        } else {
            s.len()
        },
        pad_right(s, width, c).len() == pad_left(s, width, c).len(),
        forall|i: int|
            0 <= i < pad_left(s, width, c).len() ==> #[trigger] pad_left(s, width, c)[i] == if i
                < pad_left(s, width, c).len() - s.len() {
                c
            } else {
                s[i - (pad_left(s, width, c).len() - s.len())]
            },
        forall|i: int|
            0 <= i < pad_right(s, width, c).len() ==> #[trigger] pad_right(s, width, c)[i] == if i
                < s.len() {
                s[i]
            } else {
                c
            },
{
}

/// A text is read as a signed number only where it is digits with or without a sign before
/// them; a minus makes the number that the digits stand for negative.
pub proof fn law_signed_numbers_are_digits(s: Seq<char>)
    ensures
        parse_signed(s) is Some ==> s.len() > 0 && ('0' <= s[0] <= '9' || (s[0] == '-' || s[0]
            == '+') && s.len() > 1) && forall|i: int|
            1 <= i < s.len() ==> '0' <= #[trigger] s[i] <= '9',
        parse_signed(s) is Some && s[0] == '-' ==> parse_signed(s)->0 == -(digits_value(
            s.skip(1),
        ) as int),
        parse_signed(s) is Some && s[0] == '+' ==> parse_signed(s)->0 == digits_value(s.skip(1)),
        parse_signed(s) is Some && '0' <= s[0] <= '9' ==> parse_signed(s)->0 == digits_value(s),
{
    if parse_signed(s) is Some {
        if s[0] == '-' {
            let d = s.skip(1);
            assert forall|i: int| 1 <= i < s.len() implies '0' <= #[trigger] s[i] <= '9' by {
                assert(is_digit(d[i - 1]));
            }
        } else {
            law_only_digits_are_read(s, s, i64::MAX as nat);
        }
    }
}

} // verus!
