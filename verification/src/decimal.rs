//! Decimal numerals with a fraction and an exponent, and the double-precision
//! numbers that they stand for, in exact integer arithmetic.

use vstd::prelude::*;
use vstd::slice::slice_subrange;
use vstd::string::*;
use crate::number::{digit_value, digits_value, all_digits, is_digit, is_digit_char};
use crate::text::{chars_of, lemma_run_end, run_end};
use crate::util::{
    double_step, law_double_step_leaves_53_places, law_rounding_is_to_the_nearest, round_half_even,
    step_of,
};
use vstd::arithmetic::div_mod::lemma_fundamental_div_mod_converse;

verus! {

/// A power of ten.
pub open spec fn ten(n: nat) -> nat
    decreases n,
{
    if n == 0 {
        1
    } else {
        10 * ten((n - 1) as nat)
    }
}

/// A power of two.
pub open spec fn two(n: nat) -> nat
    decreases n,
{
    if n == 0 {
        1
    } else {
        2 * two((n - 1) as nat)
    }
}

/// The predicate "is a decimal digit".
pub open spec fn digit() -> spec_fn(char) -> bool {
    |c: char| is_digit(c)
}

/// What a numeral stands for: the digits, taken as a whole number, times a power of ten.
pub enum Amount {
    NotANumber,
    Infinite,
    Finite { digits: Seq<char>, scale: int },
}

/// The exponent behind position `b` of a text, which has to reach its end.
pub open spec fn exponent(t: Seq<char>, b: int) -> Option<int> {
    if b == t.len() {
        Some(0)
    } else if t[b] == 'e' || t[b] == 'E' {
        let signed = b + 1 < t.len() && (t[b + 1] == '+' || t[b + 1] == '-');
        let c = if signed {
            b + 2
        } else {
            b + 1
        };
        if c < t.len() && run_end(t, digit(), c) == t.len() {
            let v = digits_value(t.skip(c)) as int;
            Some(
                if signed && t[b + 1] == '-' {
                    -v
                } else {
                    v
                },
            )
        } else {
            None
        }
    } else {
        None
    }
}

/// Digits with or without a decimal point, at least one, and an optional exponent.
pub open spec fn plain_decimal(t: Seq<char>) -> Option<Amount> {
    let a = run_end(t, digit(), 0);
    let point = a < t.len() && t[a] == '.';
    let b = if point {
        run_end(t, digit(), a + 1)
    } else {
        a
    };
    let fraction = if point {
        t.subrange(a + 1, b)
    } else {
        Seq::empty()
    };
    let digits = t.take(a) + fraction;
    match exponent(t, b) {
        Some(e) => if digits.len() > 0 {
            Some(Amount::Finite { digits, scale: e - fraction.len() })
        } else {
            None
        },
        None => None,
    }
}

/// Whether a text is a word in lower-case ASCII letters, in either case.
pub open spec fn same_letters(t: Seq<char>, word: Seq<char>) -> bool {
    t.len() == word.len() && forall|i: int|
        0 <= i < t.len() ==> #[trigger] t[i] == word[i] || (65 <= t[i] as u32 <= 90 && t[i] as u32
            + 32 == word[i] as u32)
}

/// Whether a text starts with a sign.
pub open spec fn has_sign(s: Seq<char>) -> bool {
    s.len() > 0 && (s[0] == '-' || s[0] == '+')
}

/// Whether a numeral is negative.
pub open spec fn is_negative(s: Seq<char>) -> bool {
    s.len() > 0 && s[0] == '-'
}

/// What a numeral stands for, apart from its sign.
pub open spec fn amount(s: Seq<char>) -> Option<Amount> {
    let t = if has_sign(s) {
        s.skip(1)
    } else {
        s
    };
    match plain_decimal(t) {
        Some(v) => Some(v),
        None => if same_letters(t, "inf"@) || same_letters(t, "infinity"@) {
            Some(Amount::Infinite)
        } else if same_letters(t, "nan"@) {
            Some(Amount::NotANumber)
        } else {
            None
        },
    }
}

/// The number of binary digits that a double-precision number has behind the
/// point, where the whole part is `q`.
pub open spec fn fraction_bits(q: nat) -> nat
    decreases 0x20_0000_0000_0000 - q,
{
    if q == 0 {
        53
    } else if q >= 0x10_0000_0000_0000 {
        0
    } else {
        1 + fraction_bits(2 * q)
    }
}

/// The whole part of the double-precision number nearest to `num / den`.
pub open spec fn double_floor(num: nat, den: nat) -> nat {
    let q = num / den;
    if q >= 0x20_0000_0000_0000 {
        round_half_even(num, den * double_step(q)) * double_step(q)
    } else {
        round_half_even(num * two(fraction_bits(q)), den) / two(fraction_bits(q))
    }
}

/// The double-precision number nearest to `num / den`, cut to a whole number of 64 bits.
pub open spec fn double_to_u64(num: nat, den: nat) -> nat {
    if num / den > u64::MAX || double_floor(num, den) > u64::MAX {
        u64::MAX as nat
    } else {
        double_floor(num, den)
    }
}

/// What digits times a power of ten and a power of two are in double precision,
/// cut to a whole number of 64 bits.
pub open spec fn finite_value(n: nat, scale: int, shift: nat) -> nat {
    if scale >= 0 {
        double_to_u64(n * ten(scale as nat) * two(shift), 1)
    } else {
        double_to_u64(n * two(shift), ten((-scale) as nat))
    }
}

/// What a numeral times `2^shift` is in double precision, cut to a whole number of
/// 64 bits: nothing that is negative or not a number is more than zero.
pub open spec fn scaled_value(s: Seq<char>, shift: nat) -> Option<nat> {
    match amount(s) {
        Some(Amount::NotANumber) => Some(0),
        Some(Amount::Infinite) => Some(
            if is_negative(s) {
                0
            } else {
                u64::MAX as nat
            },
        ),
        Some(Amount::Finite { digits, scale }) => Some(
            if is_negative(s) {
                0
            } else {
                finite_value(digits_value(digits), scale, shift)
            },
        ),
        None => None,
    }
}

/// The number that a sequence of digit values stands for.
pub open spec fn number(d: Seq<u8>) -> nat
    decreases d.len(),
{
    if d.len() == 0 {
        0
    } else {
        number(d.drop_last()) * 10 + d.last() as nat
    }
}

/// Whether all values are below ten.
pub open spec fn digits_ok(d: Seq<u8>) -> bool {
    forall|i: int| 0 <= i < d.len() ==> #[trigger] d[i] < 10
}

proof fn lemma_ten_pos(n: nat)
    ensures
        ten(n) > 0,
    decreases n,
{
    if n > 0 {
        lemma_ten_pos((n - 1) as nat);
    }
}

proof fn lemma_two_pos(n: nat)
    ensures
        two(n) > 0,
    decreases n,
{
    if n > 0 {
        lemma_two_pos((n - 1) as nat);
    }
}

proof fn lemma_number_bound(d: Seq<u8>)
    requires
        digits_ok(d),
    ensures
        number(d) < ten(d.len()),
    decreases d.len(),
{
    if d.len() > 0 {
        assert forall|i: int| 0 <= i < d.drop_last().len() implies #[trigger] d.drop_last()[i] < 10 by {
            assert(d[i] < 10);
        }
        lemma_number_bound(d.drop_last());
        assert(d[d.len() - 1] < 10);
    }
}

proof fn lemma_number_split(d: Seq<u8>, i: int)
    requires
        0 <= i <= d.len(),
    ensures
        number(d) == number(d.take(i)) * ten((d.len() - i) as nat) + number(d.skip(i)),
    decreases d.len() - i,
{
    if i == d.len() {
        assert(d.take(i) == d);
        assert(d.skip(i) == Seq::<u8>::empty());
        assert(ten(0) == 1);
        assert(number(d.skip(i)) == 0);
        assert(number(d) * 1 == number(d));
    } else {
        let e = d.drop_last();
        lemma_number_split(e, i);
        assert(e.take(i) == d.take(i));
        assert(d.skip(i).drop_last() == e.skip(i));
        assert(d.skip(i).last() == d.last());
        let h = number(d.take(i));
        let t = ten((e.len() - i) as nat);
        assert(number(d) == number(e) * 10 + d.last());
        assert(number(d.skip(i)) == number(e.skip(i)) * 10 + d.last());
        assert(ten((d.len() - i) as nat) == 10 * t);
        assert((h * t) * 10 == h * (10 * t)) by (nonlinear_arith);
    }
}

/// Doubles the number that the digits from `from` on stand for, in place, and
/// returns what does not fit.
fn double_digits(d: &mut Vec<u8>, from: usize) -> (carry: u8)
    requires
        from <= old(d)@.len(),
        digits_ok(old(d)@),
    ensures
        carry <= 1,
        final(d)@.len() == old(d)@.len(),
        digits_ok(final(d)@),
        final(d)@.take(from as int) == old(d)@.take(from as int),
        2 * number(old(d)@.skip(from as int)) == carry * ten((old(d)@.len() - from) as nat)
            + number(final(d)@.skip(from as int)),
{
    let n: usize = d.len();
    let ghost before = d@;
    let mut i: usize = n;
    let mut carry: u8 = 0;
    proof {
        assert(before.skip(n as int) == Seq::<u8>::empty());
    }
    while i > from
        invariant
            from <= i <= n,
            n == before.len(),
            d@.len() == n,
            carry <= 1,
            digits_ok(d@),
            digits_ok(before),
            forall|k: int| 0 <= k < i ==> #[trigger] d@[k] == before[k],
            2 * number(before.skip(i as int)) == carry * ten((n - i) as nat) + number(
                d@.skip(i as int),
            ),
        decreases i,
    {
        let ghost held = d@;
        let old_carry: u8 = carry;
        i -= 1;
        assert(d@[i as int] < 10);
        let v: u8 = 2 * d[i] + carry;
        let low: u8 = v % 10;
        carry = v / 10;
        d.set(i, low);
        proof {
            let w = (n - i) as nat;
            let b = before.skip(i as int);
            let a = d@.skip(i as int);
            lemma_number_split(b, 1);
            lemma_number_split(a, 1);
            assert(b.skip(1) == before.skip(i + 1));
            assert(a.skip(1) == held.skip(i + 1));
            assert(b.take(1).drop_last() == Seq::<u8>::empty());
            assert(a.take(1).drop_last() == Seq::<u8>::empty());
            assert(number(Seq::<u8>::empty()) == 0);
            assert(b.take(1).last() == before[i as int]);
            assert(a.take(1).last() == low);
            assert(number(b.take(1)) == before[i as int]);
            assert(number(a.take(1)) == low);
            let p = ten((w - 1) as nat);
            assert(ten(w) == 10 * p);
            let x = before[i as int];
            assert(2 * (x * p) + old_carry * p == carry * (10 * p) + low * p) by (nonlinear_arith)
                requires
                    2 * x + old_carry == 10 * carry + low,
            ;
        }
    }
    assert(d@.take(from as int) == before.take(from as int));
    carry
}

proof fn lemma_round(num: nat, den: nat, q: nat, r: nat)
    requires
        den > 0,
        r < den,
        num == q * den + r,
    ensures
        round_half_even(num, den) == (if 2 * r < den || (2 * r == den && q % 2 == 0) {
            q
        } else {
            q + 1
        }),
{
    lemma_divides(num, den, q, r);
}

proof fn lemma_divides(x: nat, d: nat, q: nat, r: nat)
    requires
        d > 0,
        r < d,
        x == q * d + r,
    ensures
        x / d == q,
        x % d == r,
{
    assert(q * d == d * q) by (nonlinear_arith);
    lemma_fundamental_div_mod_converse(x as int, d as int, q as int, r as int);
}

proof fn lemma_digits_take(d: Seq<u8>, i: int)
    requires
        digits_ok(d),
        0 <= i <= d.len(),
    ensures
        digits_ok(d.take(i)),
        digits_ok(d.skip(i)),
{
    assert forall|k: int| 0 <= k < d.take(i).len() implies #[trigger] d.take(i)[k] < 10 by {
        assert(d[k] < 10);
    }
    assert forall|k: int| 0 <= k < d.skip(i).len() implies #[trigger] d.skip(i)[k] < 10 by {
        assert(d[i + k] < 10);
    }
}

proof fn lemma_number_grows(d: Seq<u8>, i: int)
    requires
        0 <= i <= d.len(),
    ensures
        number(d.take(i)) <= number(d),
{
    lemma_number_split(d, i);
    lemma_ten_pos((d.len() - i) as nat);
    let h = number(d.take(i));
    let t = ten((d.len() - i) as nat);
    assert(h <= h * t) by (nonlinear_arith)
        requires
            t > 0,
    ;
}

proof fn lemma_number_zero(d: Seq<u8>)
    requires
        forall|i: int| 0 <= i < d.len() ==> #[trigger] d[i] == 0,
    ensures
        number(d) == 0,
    decreases d.len(),
{
    if d.len() > 0 {
        assert forall|i: int| 0 <= i < d.drop_last().len() implies #[trigger] d.drop_last()[i] == 0 by {
            assert(d[i] == 0);
        }
        lemma_number_zero(d.drop_last());
        assert(d[d.len() - 1] == 0);
    }
}

proof fn lemma_number_positive(d: Seq<u8>, i: int)
    requires
        0 <= i < d.len(),
        d[i] > 0,
    ensures
        number(d) > 0,
{
    lemma_number_grows(d, i + 1);
    assert(d.take(i + 1).last() == d[i]);
}

/// Whether the digits from `from` on are all zero.
fn all_zero(d: &Vec<u8>, from: usize) -> (r: bool)
    requires
        from <= d@.len(),
    ensures
        r == (number(d@.skip(from as int)) == 0),
{
    let mut i: usize = from;
    while i < d.len()
        invariant
            from <= i <= d@.len(),
            forall|k: int| from <= k < i ==> #[trigger] d@[k] == 0,
        decreases d@.len() - i,
    {
        if d[i] != 0 {
            proof {
                assert(d@.skip(from as int)[i - from] == d@[i as int]);
                lemma_number_positive(d@.skip(from as int), i - from);
            }
            return false;
        }
        i += 1;
    }
    proof {
        assert forall|k: int| 0 <= k < d@.skip(from as int).len() implies #[trigger] d@.skip(
            from as int,
        )[k] == 0 by {
            assert(d@[from + k] == 0);
        }
        lemma_number_zero(d@.skip(from as int));
    }
    true
}

/// The number of binary digits behind the point.
fn bits_of(q: u64) -> (r: u64)
    requires
        q < 0x20_0000_0000_0000,
    ensures
        r == fraction_bits(q as nat),
        r <= 53,
        q * two(r as nat) < 0x20_0000_0000_0000,
    decreases 0x20_0000_0000_0000 - q,
{
    if q == 0 {
        53
    } else if q >= 0x10_0000_0000_0000 {
        assert(two(0) == 1);
        assert(q * 1 == q);
        0
    } else {
        let r: u64 = bits_of(2 * q);
        proof {
            lemma_bits_count(2 * q as nat);
            lemma_bits_count(q as nat);
            let t = two(r as nat);
            assert(two((r + 1) as nat) == 2 * t);
            assert(q * (2 * t) == (2 * q) * t) by (nonlinear_arith);
        }
        r + 1
    }
}

proof fn lemma_bits_count(q: nat)
    ensures
        q > 0 ==> fraction_bits(q) <= 52,
{
    lemma_bits_bound(q, 52);
    assert(two(52) == 0x10_0000_0000_0000) by {
        reveal_with_fuel(two, 53);
    }
}

/// A whole part of at least `2^(52 - k)` leaves at most `k` binary digits.
proof fn lemma_bits_bound(q: nat, k: nat)
    requires
        k <= 52,
    ensures
        q * two(k) >= 0x10_0000_0000_0000 ==> fraction_bits(q) <= k,
    decreases k,
{
    if q * two(k) >= 0x10_0000_0000_0000 {
        if k == 0 {
            assert(two(0) == 1);
            assert(q * 1 == q);
        } else if 0 < q < 0x10_0000_0000_0000 {
            let t = two((k - 1) as nat);
            assert((2 * q) * t == q * (2 * t)) by (nonlinear_arith);
            lemma_bits_bound(2 * q, (k - 1) as nat);
        } else if q == 0 {
            assert(0 * two(k) == 0);
        }
    }
}

/// Where `b` and a proper fraction stand against a half.
proof fn lemma_half(b: nat, half: nat, den: nat, rest: nat)
    requires
        rest < den,
    ensures
        2 * (b * den + rest) < 2 * (half * den) <==> b < half,
        2 * (b * den + rest) == 2 * (half * den) <==> b == half && rest == 0,
{
    if b < half {
        assert(b * den + den <= half * den) by (nonlinear_arith)
            requires
                b + 1 <= half,
        ;
    } else if b > half {
        assert(half * den + den <= b * den) by (nonlinear_arith)
            requires
                half + 1 <= b,
        ;
    }
}

/// The double-precision number nearest to the digits with the last `f` of them
/// behind the point, cut to a whole number of 64 bits.
fn cut_double(d: Vec<u8>, f: usize) -> (r: u64)
    requires
        digits_ok(d@),
        f <= d@.len(),
    ensures
        r == double_to_u64(number(d@), ten(f as nat)),
{
    let mut d = d;
    let ghost all = d@;
    let w: usize = d.len() - f;
    let ghost num = number(all);
    let ghost den = ten(f as nat);
    let ghost whole = number(all.take(w as int));
    let ghost rest = number(all.skip(w as int));
    proof {
        lemma_number_split(all, w as int);
        lemma_digits_take(all, w as int);
        lemma_number_bound(all.skip(w as int));
        lemma_ten_pos(f as nat);
        lemma_divides(num, den, whole, rest);
    }
    let mut q: u64 = 0;
    let mut i: usize = 0;
    #[verifier::loop_isolation(false)]
    while i < w
        invariant
            i <= w,
            d@ == all,
            q as nat == number(all.take(i as int)),
        decreases w - i,
    {
        proof {
            assert(all.take(i + 1).drop_last() == all.take(i as int));
            assert(all.take(i + 1).last() == all[i as int]);
            assert(all.take(w as int).take(i + 1) == all.take(i + 1));
            lemma_number_grows(all.take(w as int), i + 1);
            assert(all[i as int] < 10);
        }
        let v: u64 = d[i] as u64;
        if q > (u64::MAX - v) / 10 {
            return u64::MAX;
        }
        q = q * 10 + v;
        i += 1;
    }
    if q >= 0x20_0000_0000_0000 {
        let step: u64 = step_of(q);
        let a: u64 = q / step;
        let b: u64 = q % step;
        let exact = all_zero(&d, w);
        let half: u64 = step / 2;
        proof {
            assert(step as nat == 2 * double_step((q / 2) as nat));
            let dd = den * step as nat;
            let r = b as nat * den + rest;
            assert(q as int == a * step + b) by (nonlinear_arith)
                requires
                    a == q / step,
                    b == q % step,
                    step > 0,
            ;
            assert(r < dd && dd > 0) by (nonlinear_arith)
                requires
                    r == b as nat * den + rest,
                    dd == den * step as nat,
                    rest < den,
                    b < step,
            ;
            assert(num == a as nat * dd + r) by (nonlinear_arith)
                requires
                    num == q as nat * den + rest,
                    q as int == a * step + b,
                    dd == den * step as nat,
                    r == b as nat * den + rest,
            ;
            lemma_round(num, dd, a as nat, r);
            assert(a <= q / 2 && (a + 1) * step <= q + step) by (nonlinear_arith)
                requires
                    q as int == a * step + b,
                    b >= 0,
                    step >= 2,
            ;
            lemma_half(b as nat, half as nat, den, rest);
            assert(dd == 2 * (half as nat * den)) by (nonlinear_arith)
                requires
                    dd == den * step as nat,
                    step == 2 * half,
            ;
        }
        let up: u64 = if b < half || (b == half && exact && a % 2 == 0) {
            a
        } else {
            a + 1
        };
        let v: u128 = up as u128 * step as u128;
        return if v > u64::MAX as u128 {
            u64::MAX
        } else {
            v as u64
        };
    }
    let s: u64 = bits_of(q);
    let mut bits: u64 = 0;
    let mut t: u64 = 0;
    let ghost mut r = rest;
    proof {
        assert(two(0) == 1);
        assert(rest * 1 == rest);
        assert(0 * den == 0);
    }
    while t < s
        invariant
            t <= s <= 53,
            w <= d@.len(),
            d@.len() - w == f,
            digits_ok(d@),
            den == ten(f as nat),
            r == number(d@.skip(w as int)),
            r < den,
            rest * two(t as nat) == bits * den + r,
            bits < two(t as nat),
            two(t as nat) <= 0x20_0000_0000_0000,
        decreases s - t,
    {
        let ghost r0 = r;
        let c: u8 = double_digits(&mut d, w);
        proof {
            r = number(d@.skip(w as int));
            lemma_digits_take(d@, w as int);
            lemma_number_bound(d@.skip(w as int));
            let p = two(t as nat);
            assert(two((t + 1) as nat) == 2 * p);
            lemma_two_small(t as nat);
            assert(rest * (2 * p) == (2 * bits + c) * den + r) by (nonlinear_arith)
                requires
                    rest * p == bits * den + r0,
                    2 * r0 == c * den + r,
            ;
            lemma_two_small((t + 1) as nat);
        }
        bits = 2 * bits + c as u64;
        t += 1;
    }
    let ghost r_last = r;
    let c: u8 = double_digits(&mut d, w);
    let exact = all_zero(&d, w);
    let ghost p = two(s as nat);
    let ghost r_next = number(d@.skip(w as int));
    proof {
        lemma_two_pos(s as nat);
        lemma_two_small(s as nat);
        lemma_digits_take(d@, w as int);
        lemma_number_bound(d@.skip(w as int));
    }
    let mut power: u64 = 1;
    let mut k: u64 = 0;
    while k < s
        invariant
            k <= s <= 53,
            power == two(k as nat),
        decreases s - k,
    {
        proof {
            lemma_two_small(k as nat);
            assert(two((k + 1) as nat) == 2 * two(k as nat));
        }
        power = 2 * power;
        k += 1;
    }
    proof {
        assert(num * p == (q * p + bits) * den + r_last) by (nonlinear_arith)
            requires
                num == q as nat * den + rest,
                rest * p == bits * den + r_last,
        ;
        lemma_round(num * p, den, (q * p + bits) as nat, r_last);
        assert(2 * r_last < den <==> c == 0) by (nonlinear_arith)
            requires
                2 * r_last == c * den + r_next,
                r_next < den,
                c == 0 || c == 1,
        ;
        assert(2 * r_last == den <==> c == 1 && r_next == 0) by (nonlinear_arith)
            requires
                2 * r_last == c * den + r_next,
                r_next < den,
                c == 0 || c == 1,
        ;
    }
    let m: u64 = q * power + bits;
    let rounded: u64 = if c == 0 || (exact && m % 2 == 0) {
        m
    } else {
        m + 1
    };
    proof {
        assert(rounded as nat == round_half_even(num * p, den));
        assert(rounded / power <= rounded) by (nonlinear_arith)
            requires
                power > 0,
        ;
    }
    rounded / power
}

/// Powers of two up to the precision of a double.
proof fn lemma_two_small(n: nat)
    requires
        n <= 54,
    ensures
        two(n) <= 0x40_0000_0000_0000,
        n <= 53 ==> two(n) <= 0x20_0000_0000_0000,
{
    assert(two(54) == 0x40_0000_0000_0000 && two(53) == 0x20_0000_0000_0000) by {
        reveal_with_fuel(two, 55);
    }
    lemma_two_grows(n, 54);
    if n <= 53 {
        lemma_two_grows(n, 53);
    }
}

proof fn lemma_two_grows(n: nat, m: nat)
    requires
        n <= m,
    ensures
        two(n) <= two(m),
    decreases m,
{
    if n < m {
        lemma_two_grows(n, (m - 1) as nat);
    }
}

proof fn lemma_ten_sum(a: nat, b: nat)
    ensures
        ten(a + b) == ten(a) * ten(b),
    decreases a,
{
    if a == 0 {
        assert(1 * ten(b) == ten(b));
    } else {
        lemma_ten_sum((a - 1) as nat, b);
        let x = ten((a - 1) as nat);
        let y = ten(b);
        assert(10 * (x * y) == (10 * x) * y) by (nonlinear_arith);
    }
}

/// Less than a half is nothing, cut to a whole number.
proof fn lemma_small_is_zero(num: nat, den: nat)
    requires
        2 * num < den,
    ensures
        double_to_u64(num, den) == 0,
{
    let p = two(53);
    assert(p == 0x20_0000_0000_0000) by {
        reveal_with_fuel(two, 54);
    }
    lemma_divides(num, den, 0, num);
    let x = num * p;
    assert(x / den < 0x10_0000_0000_0000) by (nonlinear_arith)
        requires
            x == num * 0x20_0000_0000_0000,
            2 * num < den,
    ;
    assert(round_half_even(x, den) < p);
    assert(round_half_even(x, den) / p == 0);
}

/// Doubles a number of digits, which grows by a digit where it has to.
fn double_whole(d: &mut Vec<u8>)
    requires
        digits_ok(old(d)@),
    ensures
        digits_ok(final(d)@),
        final(d)@.len() >= old(d)@.len(),
        number(final(d)@) == 2 * number(old(d)@),
{
    let ghost before = d@;
    let c: u8 = double_digits(d, 0);
    assert(before.skip(0) == before && d@.skip(0) == d@);
    if c > 0 {
        let ghost mid = d@;
        d.insert(0, c);
        proof {
            lemma_number_front(mid, c);
            assert(d@ == seq![c] + mid);
            assert forall|i: int| 0 <= i < d@.len() implies #[trigger] d@[i] < 10 by {
                if i > 0 {
                    assert(mid[i - 1] < 10);
                }
            }
        }
    }
}

proof fn lemma_number_front(d: Seq<u8>, c: u8)
    ensures
        number(seq![c] + d) == c * ten(d.len()) + number(d),
{
    let e = seq![c] + d;
    lemma_number_split(e, 1);
    assert(e.skip(1) == d);
    assert(e.take(1).drop_last() == Seq::<u8>::empty());
    assert(number(Seq::<u8>::empty()) == 0);
    assert(e.take(1).last() == c);
    assert(number(e.take(1)) == c);
}

fn finite(digits: Vec<u8>, scale: i128, shift: u64) -> (r: u64)
    requires
        digits_ok(digits@),
        shift <= 30,
        scale > i128::MIN,
    ensures
        r == finite_value(number(digits@), scale as int, shift as nat),
{
    let ghost n = number(digits@);
    let mut d = digits;
    assert(d@.skip(0) == d@);
    proof {
        lemma_number_bound(d@);
        lemma_far(n, d.len() as nat, scale as int, shift as nat);
    }
    if all_zero(&d, 0) {
        return 0;
    }
    if scale > 20 {
        return u64::MAX;
    }
    let ghost mut want = n;
    if scale >= 0 {
        let mut k: i128 = 0;
        assert(ten(0) == 1);
        assert(n * 1 == n);
        while k < scale
            invariant
                0 <= k <= scale <= 20,
                digits_ok(d@),
                number(d@) == n * ten(k as nat),
            decreases scale - k,
        {
            let ghost before = d@;
            d.push(0);
            proof {
                assert(d@.drop_last() == before);
                let t = ten(k as nat);
                assert(ten((k + 1) as nat) == 10 * t);
                assert(n * (10 * t) == (n * t) * 10) by (nonlinear_arith);
                assert forall|i: int| 0 <= i < d@.len() implies #[trigger] d@[i] < 10 by {
                    if i < before.len() {
                        assert(before[i] < 10);
                    }
                }
            }
            k += 1;
        }
        proof {
            want = n * ten(scale as nat);
        }
    }
    let mut k: u64 = 0;
    assert(two(0) == 1);
    assert(want * 1 == want);
    while k < shift
        invariant
            k <= shift,
            digits_ok(d@),
            number(d@) == want * two(k as nat),
        decreases shift - k,
    {
        double_whole(&mut d);
        proof {
            let t = two(k as nat);
            assert(two((k + 1) as nat) == 2 * t);
            assert(want * (2 * t) == 2 * (want * t)) by (nonlinear_arith);
        }
        k += 1;
    }
    if scale >= 0 {
        assert(ten(0) == 1);
        return cut_double(d, 0);
    }
    let places: i128 = -scale;
    if places > d.len() as i128 {
        proof {
            let l = d@.len();
            let extra = (places - l) as nat;
            lemma_number_bound(d@);
            lemma_ten_sum(l, extra);
            lemma_ten_pos((extra - 1) as nat);
            let x = ten(l);
            let y = ten((extra - 1) as nat);
            assert(2 * number(d@) < x * (10 * y)) by (nonlinear_arith)
                requires
                    number(d@) < x,
                    y >= 1,
            ;
            lemma_small_is_zero(number(d@), ten(places as nat));
        }
        return 0;
    }
    cut_double(d, places as usize)
}

/// The values of decimal digits.
spec fn values(s: Seq<char>) -> Seq<u8> {
    Seq::new(s.len(), |i: int| digit_value(s[i]) as u8)
}

proof fn lemma_values(s: Seq<char>)
    requires
        all_digits(s),
    ensures
        digits_ok(values(s)),
        number(values(s)) == digits_value(s),
    decreases s.len(),
{
    assert forall|i: int| 0 <= i < s.len() implies #[trigger] values(s)[i] < 10 by {
        assert(is_digit(s[i]));
    }
    if s.len() > 0 {
        assert forall|i: int| 0 <= i < s.drop_last().len() implies is_digit(
            #[trigger] s.drop_last()[i],
        ) by {
            assert(is_digit(s[i]));
        }
        lemma_values(s.drop_last());
        assert(values(s).drop_last() == values(s.drop_last()));
        assert(is_digit(s[s.len() - 1]));
    }
}

fn push_values(out: &mut Vec<u8>, s: &[char])
    requires
        all_digits(s@),
    ensures
        final(out)@ == old(out)@ + values(s@),
{
    let mut i: usize = 0;
    while i < s.len()
        invariant
            i <= s@.len(),
            all_digits(s@),
            out@ == old(out)@ + values(s@).take(i as int),
        decreases s@.len() - i,
    {
        assert(is_digit(s@[i as int]));
        out.push((s[i] as u32 - 48) as u8);
        i += 1;
        assert(values(s@).take(i as int) == values(s@).take(i - 1).push(values(s@)[i - 1]));
    }
    assert(values(s@).take(i as int) == values(s@));
}

/// The position after the digits that start at `i`.
fn digits_end(s: &[char], i: usize) -> (r: usize)
    requires
        i <= s@.len(),
    ensures
        i <= r <= s@.len(),
        r == run_end(s@, digit(), i as int),
        all_digits(s@.subrange(i as int, r as int)),
{
    let mut j: usize = i;
    while j < s.len() && is_digit_char(s[j])
        invariant
            i <= j <= s@.len(),
            forall|k: int| i <= k < j ==> digit()(#[trigger] s@[k]),
        decreases s@.len() - j,
    {
        j += 1;
    }
    proof {
        lemma_run_end(s@, digit(), i as int, j as int);
        assert forall|k: int| 0 <= k < j - i implies is_digit(
            #[trigger] s@.subrange(i as int, j as int)[k],
        ) by {
            assert(digit()(s@[i + k]));
        }
    }
    j
}

/// The bound from which on an exponent leaves nothing or everything.
const FAR: i128 = 0x10_0000_0000_0000_0000_0000_0000;

/// A number of digits, or its excess over a bound that no text is as long as.
fn far_number(s: &[char]) -> (r: Option<i128>)
    requires
        all_digits(s@),
    ensures
        r matches Some(v) ==> v as int == digits_value(s@) && 0 <= v <= FAR,
        r is None ==> digits_value(s@) > FAR,
{
    let mut v: i128 = 0;
    let mut far = false;
    let mut i: usize = 0;
    while i < s.len()
        invariant
            i <= s@.len(),
            all_digits(s@),
            0 <= v <= FAR,
            !far ==> v as int == digits_value(s@.take(i as int)),
            far ==> digits_value(s@.take(i as int)) > FAR,
        decreases s@.len() - i,
    {
        assert(is_digit(s@[i as int]));
        assert(s@.take(i + 1).drop_last() == s@.take(i as int));
        let d: i128 = (s[i] as u32 - 48) as i128;
        let w: i128 = v * 10 + d;
        if far || w > FAR {
            far = true;
        } else {
            v = w;
        }
        i += 1;
    }
    assert(s@.take(i as int) == s@);
    if far {
        None
    } else {
        Some(v)
    }
}

/// An exponent that is far off leaves all or nothing.
proof fn lemma_far(n: nat, len: nat, scale: int, shift: nat)
    requires
        n < ten(len),
        len <= usize::MAX,
        shift <= 30,
    ensures
        n == 0 ==> finite_value(n, scale, shift) == 0,
        n > 0 && scale > 20 ==> finite_value(n, scale, shift) == u64::MAX,
        scale < -0x2_0000_0000_0000_0000 ==> finite_value(n, scale, shift) == 0,
{
    lemma_two_pos(shift);
    lemma_two_grows(shift, 30);
    let z = two(shift);
    if n == 0 {
        if scale >= 0 {
            assert(n * ten(scale as nat) * z == 0) by (nonlinear_arith)
                requires
                    n == 0,
            ;
            lemma_small_is_zero(0, 1);
        } else {
            lemma_ten_pos((-scale) as nat);
            assert(n * z == 0) by (nonlinear_arith)
                requires
                    n == 0,
            ;
            lemma_small_is_zero(0, ten((-scale) as nat));
        }
    } else if scale > 20 {
        let e = (scale - 20) as nat;
        lemma_ten_sum(20, e);
        lemma_ten_pos(e);
        assert(ten(20) == 100_000_000_000_000_000_000) by {
            reveal_with_fuel(ten, 21);
        }
        let x = ten(20);
        let y = ten(e);
        assert(n * (x * y) * z >= x) by (nonlinear_arith)
            requires
                n >= 1,
                y >= 1,
                z >= 1,
        ;
        assert(n * ten(scale as nat) * z / 1 > u64::MAX);
    }
    if scale < -0x2_0000_0000_0000_0000 {
        let extra = (-scale - len - 10) as nat;
        lemma_ten_sum(len, 10);
        lemma_ten_sum(len + 10, extra);
        lemma_ten_pos(extra);
        assert(two(30) == 0x4000_0000) by {
            reveal_with_fuel(two, 31);
        }
        assert(ten(10) == 10_000_000_000) by {
            reveal_with_fuel(ten, 11);
        }
        let tl = ten(len);
        let te = ten(extra);
        let den = ten((-scale) as nat);
        assert(len + 10 + extra == -scale);
        assert(2 * (n * z) < den) by (nonlinear_arith)
            requires
                n < tl,
                z <= 0x4000_0000,
                den == (tl * 10_000_000_000) * te,
                te >= 1,
        ;
        lemma_small_is_zero(n * z, den);
    }
}

/// Whether a slice is a word in lower-case ASCII letters, in either case.
fn is_word(t: &[char], word: &str) -> (r: bool)
    ensures
        r == same_letters(t@, word@),
{
    let w = chars_of(word);
    if w.len() != t.len() {
        return false;
    }
    let mut i: usize = 0;
    while i < t.len()
        invariant
            w@ == word@,
            w@.len() == t@.len(),
            i <= t@.len(),
            forall|k: int|
                0 <= k < i ==> #[trigger] t@[k] == word@[k] || (65 <= t@[k] as u32 <= 90
                    && t@[k] as u32 + 32 == word@[k] as u32),
        decreases t@.len() - i,
    {
        let c: u32 = t[i] as u32;
        if t[i] != w[i] && !(65 <= c && c <= 90 && c + 32 == w[i] as u32) {
            return false;
        }
        i += 1;
    }
    true
}

/// Digits, a decimal point and an exponent, times a power of two.
fn plain_value(t: &[char], shift: u64) -> (r: Option<u64>)
    requires
        shift <= 30,
    ensures
        match plain_decimal(t@) {
            Some(Amount::Finite { digits, scale }) => r matches Some(v) && v as nat
                == finite_value(digits_value(digits), scale, shift as nat),
            _ => r is None,
        },
{
    let n: usize = t.len();
    let a: usize = digits_end(t, 0);
    let point = a < n && t[a] == '.';
    let b: usize = if point {
        digits_end(t, a + 1)
    } else {
        a
    };
    let head = slice_subrange(t, 0, a);
    let tail = if point {
        slice_subrange(t, a + 1, b)
    } else {
        slice_subrange(t, a, a)
    };
    let ghost digits = t@.take(a as int) + tail@;
    assert(head@ == t@.subrange(0, a as int));
    let mut d: Vec<u8> = Vec::new();
    push_values(&mut d, head);
    push_values(&mut d, tail);
    proof {
        assert(values(head@) + values(tail@) == values(digits));
        assert(d@ == values(digits));
        assert forall|i: int| 0 <= i < digits.len() implies is_digit(#[trigger] digits[i]) by {
            if i < a {
                assert(head@[i] == digits[i]);
            } else {
                assert(tail@[i - a] == digits[i]);
            }
        }
        lemma_values(digits);
        lemma_number_bound(d@);
    }
    let fraction: i128 = tail.len() as i128;
    if d.len() == 0 {
        return None;
    }
    if b == n {
        return Some(finite(d, -fraction, shift));
    }
    if t[b] != 'e' && t[b] != 'E' {
        return None;
    }
    let signed = b + 1 < n && (t[b + 1] == '+' || t[b + 1] == '-');
    let negative = b + 1 < n && t[b + 1] == '-';
    let c: usize = if signed {
        b + 2
    } else {
        b + 1
    };
    if c >= n {
        return None;
    }
    let e: usize = digits_end(t, c);
    if e != n {
        return None;
    }
    let power = slice_subrange(t, c, n);
    assert(power@ == t@.skip(c as int));
    match far_number(power) {
        Some(p) => {
            let scale: i128 = if negative {
                -p - fraction
            } else {
                p - fraction
            };
            Some(finite(d, scale, shift))
        },
        None => {
            let ghost v = digits_value(power@) as int;
            proof {
                let scale = (if negative {
                    -v
                } else {
                    v
                }) - fraction;
                lemma_far(number(d@), d@.len(), scale, shift as nat);
                assert(d@.skip(0) == d@);
            }
            if negative || all_zero(&d, 0) {
                Some(0)
            } else {
                Some(u64::MAX)
            }
        },
    }
}

/// What a numeral times `2^shift` is in double precision, cut to a whole number of 64 bits.
pub fn scaled(s: &[char], shift: u64) -> (r: Option<u64>)
    requires
        shift <= 30,
    ensures
        r is Some == (scaled_value(s@, shift as nat) is Some),
        r matches Some(v) ==> scaled_value(s@, shift as nat) == Some(v as nat),
{
    let negative = s.len() > 0 && s[0] == '-';
    let t = if s.len() > 0 && (s[0] == '-' || s[0] == '+') {
        slice_subrange(s, 1, s.len())
    } else {
        slice_subrange(s, 0, s.len())
    };
    assert(s@.subrange(0, s@.len() as int) == s@);
    match plain_value(t, shift) {
        Some(v) => if negative {
            Some(0)
        } else {
            Some(v)
        },
        None => if is_word(t, "inf") || is_word(t, "infinity") {
            if negative {
                Some(0)
            } else {
                Some(u64::MAX)
            }
        } else if is_word(t, "nan") {
            Some(0)
        } else {
            None
        },
    }
}

/// A whole number that 53 binary places hold is its own double-precision number.
proof fn lemma_whole_is_exact(n: nat, den: nat)
    requires
        den > 0,
        n < 0x20_0000_0000_0000,
    ensures
        double_to_u64(n * den, den) == n,
{
    lemma_fundamental_div_mod_converse((n * den) as int, den as int, n as int, 0);
    let b = fraction_bits(n);
    let t = two(b);
    lemma_two_pos(b);
    let m = n * t;
    assert(n * den * t == m * den) by (nonlinear_arith)
        requires
            m == n * t,
    ;
    lemma_fundamental_div_mod_converse((n * den * t) as int, den as int, m as int, 0);
    lemma_fundamental_div_mod_converse(m as int, t as int, n as int, 0);
}

/// What a quotient below 2^53 is cut to is its whole part, or the next number where the
/// nearest double-precision number is that.
proof fn lemma_cut_is_near(num: nat, den: nat)
    requires
        den > 0,
        num / den < 0x20_0000_0000_0000,
    ensures
        num / den <= double_to_u64(num, den) <= num / den + 1,
{
    let q = num / den;
    let r = num % den;
    assert(num == q * den + r && r < den) by (nonlinear_arith)
        requires
            q == num / den,
            r == num % den,
            den > 0,
    ;
    let b = fraction_bits(q);
    let t = two(b);
    lemma_two_pos(b);
    let x = num * t;
    let y = x / den;
    assert(q * t <= y < (q + 1) * t) by (nonlinear_arith)
        requires
            x == num * t,
            num == q * den + r,
            0 <= r < den,
            y == x / den,
            t > 0,
            den > 0,
    {
        assert(x == (q * t) * den + r * t);
        assert(x < ((q + 1) * t) * den);
        assert(y * den <= x < (y + 1) * den);
    }
    let z = round_half_even(x, den);
    assert(y <= z <= y + 1);
    assert(q <= z / t <= q + 1) by (nonlinear_arith)
        requires
            q * t <= z <= (q + 1) * t,
            t > 0,
    ;
}

proof fn lemma_numeral(ip: Seq<char>, point: bool, fp: Seq<char>)
    requires
        ip.len() + fp.len() > 0,
        forall|i: int| 0 <= i < ip.len() ==> '0' <= #[trigger] ip[i] <= '9',
        forall|i: int| 0 <= i < fp.len() ==> '0' <= #[trigger] fp[i] <= '9',
        !point ==> fp.len() == 0,
    ensures
        amount(numeral(ip, point, fp)) == Some(
            Amount::Finite { digits: ip + fp, scale: -(fp.len() as int) },
        ),
        !is_negative(numeral(ip, point, fp)),
{
    let t = numeral(ip, point, fp);
    if ip.len() > 0 {
        assert(t[0] == ip[0]);
    } else {
        assert(t[0] == '.');
    }
    assert(!has_sign(t));
    assert forall|k: int| 0 <= k < ip.len() implies digit()(#[trigger] t[k]) by {
        assert(t[k] == ip[k]);
    }
    let a = ip.len() as int;
    if point {
        assert(t[a] == '.');
    }
    lemma_run_end(t, digit(), 0, a);
    if point {
        assert forall|k: int| a + 1 <= k < t.len() implies digit()(#[trigger] t[k]) by {
            assert(t[k] == fp[k - a - 1]);
        }
        lemma_run_end(t, digit(), a + 1, t.len() as int);
        assert(t.subrange(a + 1, t.len() as int) =~= fp);
    } else {
        assert(fp =~= Seq::<char>::empty());
    }
    assert(t.take(a) =~= ip);
}

/// Digits with a decimal point among them, or without one.
pub open spec fn numeral(ip: Seq<char>, point: bool, fp: Seq<char>) -> Seq<char> {
    if point {
        ip + seq!['.'] + fp
    } else {
        ip
    }
}

/// A numeral times a power of two is read exactly where that is a whole number below
/// 2^53: `n`, where the digits of the numeral times the power are `n` times the power
/// of ten that the places behind the point stand for. Else what is read is the whole part,
/// or the number next to it where that is nearer in double precision.
pub proof fn law_numeral_is_scaled(
    ip: Seq<char>,
    point: bool,
    fp: Seq<char>,
    shift: nat,
    n: nat,
)
    requires
        ip.len() + fp.len() > 0,
        forall|i: int| 0 <= i < ip.len() ==> '0' <= #[trigger] ip[i] <= '9',
        forall|i: int| 0 <= i < fp.len() ==> '0' <= #[trigger] fp[i] <= '9',
        !point ==> fp.len() == 0,
        n < 0x20_0000_0000_0000,
        n == digits_value(ip + fp) * two(shift) / ten(fp.len()),
    ensures
        digits_value(ip + fp) * two(shift) == n * ten(fp.len()) ==> scaled_value(
            numeral(ip, point, fp),
            shift,
        ) == Some(n),
        scaled_value(numeral(ip, point, fp), shift) matches Some(v) && n <= v <= n + 1,
        scaled_value(seq!['-'] + numeral(ip, point, fp), shift) == Some(0nat),
{
    lemma_numeral(ip, point, fp);
    let k = fp.len();
    lemma_ten_pos(k);
    let x = digits_value(ip + fp) * two(shift);
    let d = digits_value(ip + fp);
    assert(d * ten(0) * two(shift) == d * two(shift));
    assert(k == 0 ==> ten(k) == 1);
    lemma_cut_is_near(x, ten(k));
    if x == n * ten(k) {
        lemma_whole_is_exact(n, ten(k));
    }
    let t = numeral(ip, point, fp);
    let m = seq!['-'] + t;
    assert(m.skip(1) =~= t);
    if ip.len() > 0 {
        assert(t[0] == ip[0]);
    } else {
        assert(t[0] == '.');
    }
}

/// What is not a number counts as nothing, and an infinite number as much as 64 bits hold.
pub proof fn law_words_for_numbers(shift: nat)
    ensures
        scaled_value(seq!['n', 'a', 'n'], shift) == Some(0nat),
        scaled_value(seq!['N', 'a', 'N'], shift) == Some(0nat),
        scaled_value(seq!['i', 'n', 'f'], shift) == Some(u64::MAX as nat),
        scaled_value(seq!['-', 'i', 'n', 'f'], shift) == Some(0nat),
{
    reveal_strlit("inf");
    reveal_strlit("infinity");
    reveal_strlit("nan");
    let a = seq!['n', 'a', 'n'];
    let b = seq!['N', 'a', 'N'];
    let c = seq!['i', 'n', 'f'];
    let d = seq!['-', 'i', 'n', 'f'];
    lemma_run_end(a, digit(), 0, 0);
    lemma_run_end(b, digit(), 0, 0);
    lemma_run_end(c, digit(), 0, 0);
    assert(d.skip(1) =~= c);
    assert(a[0] == 'n' && b[0] == 'N' && c[0] == 'i');
    assert(same_letters(a, "nan"@));
    assert(same_letters(b, "nan"@));
    assert(same_letters(c, "inf"@));
    assert(!same_letters(a, "inf"@)) by {
        assert(a[0] != "inf"@[0]);
    }
    assert(!same_letters(b, "inf"@)) by {
        assert(b[0] != "inf"@[0]);
    }
}

/// The powers of two and of ten, step by step.
pub proof fn law_powers(n: nat)
    ensures
        two(0) == 1,
        two(n + 1) == two(n) + two(n),
        ten(0) == 1,
        ten(n + 1) == 10 * ten(n),
        two(10) == 1024,
        two(20) == 1024 * 1024,
        two(30) == 1024 * 1024 * 1024,
{
    reveal_with_fuel(two, 31);
}

/// A numeral that is too large counts as much as 64 bits hold.
pub proof fn law_too_large_is_the_largest(ip: Seq<char>, point: bool, fp: Seq<char>, shift: nat)
    requires
        ip.len() + fp.len() > 0,
        forall|i: int| 0 <= i < ip.len() ==> '0' <= #[trigger] ip[i] <= '9',
        forall|i: int| 0 <= i < fp.len() ==> '0' <= #[trigger] fp[i] <= '9',
        !point ==> fp.len() == 0,
        digits_value(ip + fp) * two(shift) / ten(fp.len()) > u64::MAX,
    ensures
        scaled_value(numeral(ip, point, fp), shift) == Some(u64::MAX as nat),
{
    lemma_numeral(ip, point, fp);
    let d = digits_value(ip + fp);
    assert(d * ten(0) * two(shift) == d * two(shift));
}

/// What starts neither as digits do nor as a word for a number is no numeral.
pub proof fn law_other_texts_are_no_numerals(s: Seq<char>, shift: nat)
    requires
        s.len() > 0 ==> !('0' <= s[0] <= '9') && s[0] != '.' && s[0] != '+' && s[0] != '-' && s[0]
            != 'i' && s[0] != 'I' && s[0] != 'n' && s[0] != 'N',
    ensures
        scaled_value(s, shift) is None,
{
    reveal_strlit("inf");
    reveal_strlit("infinity");
    reveal_strlit("nan");
    lemma_run_end(s, digit(), 0, 0);
    assert(s.take(0) =~= Seq::<char>::empty());
    if s.len() > 0 {
        assert("inf"@[0] == 'i' && "infinity"@[0] == 'i' && "nan"@[0] == 'n');
        lemma_other_letter(s[0]);
        assert(!same_letters(s, "inf"@)) by {
            if same_letters(s, "inf"@) {
                assert(s[0] != "inf"@[0]);
            }
        }
        assert(!same_letters(s, "infinity"@)) by {
            if same_letters(s, "infinity"@) {
                assert(s[0] != "infinity"@[0]);
            }
        }
        assert(!same_letters(s, "nan"@)) by {
            if same_letters(s, "nan"@) {
                assert(s[0] != "nan"@[0]);
            }
        }
    }
}

proof fn lemma_other_letter(c: char)
    requires
        c != 'I' && c != 'N',
    ensures
        !(65 <= c as u32 <= 90 && c as u32 + 32 == 'i' as u32),
        !(65 <= c as u32 <= 90 && c as u32 + 32 == 'n' as u32),
{
}

/// An exponent moves the decimal point: to the right where it has no sign or a plus, to the
/// left where it has a minus.
pub proof fn law_exponent_moves_the_point(
    ip: Seq<char>,
    point: bool,
    fp: Seq<char>,
    e: char,
    sign: Seq<char>,
    ds: Seq<char>,
)
    requires
        ip.len() + fp.len() > 0,
        forall|i: int| 0 <= i < ip.len() ==> '0' <= #[trigger] ip[i] <= '9',
        forall|i: int| 0 <= i < fp.len() ==> '0' <= #[trigger] fp[i] <= '9',
        !point ==> fp.len() == 0,
        e == 'e' || e == 'E',
        sign == seq!['+'] || sign == seq!['-'] || sign.len() == 0,
        ds.len() > 0,
        forall|i: int| 0 <= i < ds.len() ==> '0' <= #[trigger] ds[i] <= '9',
    ensures
        amount(numeral(ip, point, fp) + (seq![e] + sign + ds)) == Some(
            Amount::Finite {
                digits: ip + fp,
                scale: (if sign == seq!['-'] {
                    -(digits_value(ds) as int)
                } else {
                    digits_value(ds) as int
                }) - fp.len(),
            },
        ),
{
    let h = numeral(ip, point, fp);
    let x = seq![e] + sign + ds;
    let t = h + x;
    if ip.len() > 0 {
        assert(t[0] == ip[0]);
    } else {
        assert(t[0] == '.');
    }
    assert(!has_sign(t));
    let a = ip.len() as int;
    assert forall|k: int| 0 <= k < a implies digit()(#[trigger] t[k]) by {
        assert(t[k] == ip[k]);
    }
    let b = h.len() as int;
    assert(t[b] == e);
    if point {
        assert(t[a] == '.');
    }
    lemma_run_end(t, digit(), 0, a);
    if point {
        assert forall|k: int| a + 1 <= k < b implies digit()(#[trigger] t[k]) by {
            assert(t[k] == fp[k - a - 1]);
        }
        lemma_run_end(t, digit(), a + 1, b);
        assert(t.subrange(a + 1, b) =~= fp);
    } else {
        assert(fp =~= Seq::<char>::empty());
    }
    assert(t.take(a) =~= ip);
    let c = b + 1 + sign.len();
    if sign.len() > 0 {
        assert(t[b + 1] == sign[0]);
    } else {
        assert(t[b + 1] == ds[0]);
    }
    assert forall|k: int| c <= k < t.len() implies digit()(#[trigger] t[k]) by {
        assert(t[k] == ds[k - c]);
    }
    lemma_run_end(t, digit(), c, t.len() as int);
    assert(t.skip(c) =~= ds);
    if sign.len() > 0 {
        assert(sign[0] == '+' || sign[0] == '-');
        if sign == seq!['-'] {
            assert(sign[0] == '-');
        } else {
            assert(sign[0] == '+');
        }
    } else {
        assert(sign != seq!['-']) by {
            assert(seq!['-'].len() == 1);
        }
    }
}


/// A numeral times a power of two that is 2^53 or more is read as a double-precision number
/// no more than half a step away, or as much as 64 bits hold where that is more.
pub proof fn law_large_numeral_is_near(
    ip: Seq<char>,
    point: bool,
    fp: Seq<char>,
    shift: nat,
    n: nat,
    v: nat,
)
    requires
        ip.len() + fp.len() > 0,
        forall|i: int| 0 <= i < ip.len() ==> '0' <= #[trigger] ip[i] <= '9',
        forall|i: int| 0 <= i < fp.len() ==> '0' <= #[trigger] fp[i] <= '9',
        !point ==> fp.len() == 0,
        n == digits_value(ip + fp) * two(shift) / ten(fp.len()),
        n >= 0x20_0000_0000_0000,
        scaled_value(numeral(ip, point, fp), shift) == Some(v),
        v < u64::MAX,
    ensures
        ({
            let num = digits_value(ip + fp) * two(shift);
            let den = ten(fp.len());
            &&& n <= u64::MAX
            &&& -(den * double_step(n)) <= 2 * (num - v * den) <= den * double_step(n)
        }),
{
    lemma_numeral(ip, point, fp);
    let d = digits_value(ip + fp);
    let num = d * two(shift);
    let den = ten(fp.len());
    lemma_ten_pos(fp.len());
    assert(ten(0) == 1);
    assert(d * 1 == d);
    assert(d * ten(0) * two(shift) == d * two(shift));
    assert(fp.len() == 0 ==> den == 1);
    let step = double_step(n);
    law_double_step_leaves_53_places(n);
    assert(v == double_floor(num, den));
    let r = round_half_even(num, den * step);
    assert(den * step > 0) by (nonlinear_arith)
        requires
            den > 0,
            step > 0,
    ;
    law_rounding_is_to_the_nearest(num, den * step);
    assert(v * den == r * (den * step)) by (nonlinear_arith)
        requires
            v == r * step,
    ;
}

} // verus!
