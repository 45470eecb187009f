//! Readable forms of byte counts, durations and timestamps.

use vstd::prelude::*;
use vstd::string::*;
use crate::clock::{
    datable, law_calendar_is_made_of_whole_days, law_notations_are_spelled_out, machine_offset,
    time_text, LocalTime, LINE_TIME,
};
use crate::number::{
    dec, dec_int, digit_char, pad_left, push_dec, push_dec_int, push_dec_padded,
};

verus! {

/// The integer nearest to `num / den`, and the even one of two equally near.
pub open spec fn round_half_even(num: nat, den: nat) -> nat {
    let q = num / den;
    let r = num % den;
    if 2 * r < den || (2 * r == den && q % 2 == 0) {
        q
    } else {
        q + 1
    }
}

/// The distance of neighbouring double-precision numbers around `n`.
pub open spec fn double_step(n: nat) -> nat
    decreases n,
{
    if n < 0x20_0000_0000_0000 {
        1
    } else {
        2 * double_step(n / 2)
    }
}

/// The double-precision number nearest to `n`.
pub open spec fn nearest_double(n: nat) -> nat {
    round_half_even(n, double_step(n)) * double_step(n)
}

/// A number of hundredths with two decimals.
pub open spec fn two_decimals(hundredths: nat) -> Seq<char> {
    dec(hundredths / 100) + "."@ + pad_left(dec(hundredths % 100), 2, '0')
}

/// The unit of a byte count and its size: the largest that the count reaches.
pub open spec fn byte_unit(n: nat) -> (nat, Seq<char>) {
    if n < 0x10_0000 {
        (0x400, "KiB"@)
    } else if n < 0x4000_0000 {
        (0x10_0000, "MiB"@)
    } else if n < 0x100_0000_0000 {
        (0x4000_0000, "GiB"@)
    } else {
        (0x100_0000_0000, "TiB"@)
    }
}

/// A byte count: whole bytes below 1024, else the double-precision count in its
/// unit, rounded to two decimals.
pub open spec fn bytes_text(bytes: nat) -> Seq<char> {
    let v = nearest_double(bytes);
    if v < 1024 {
        dec(bytes) + " B"@
    } else {
        two_decimals(round_half_even(v * 100, byte_unit(v).0)) + " "@ + byte_unit(v).1
    }
}

/// A byte count in units of 2^30 bytes, rounded to two decimals.
pub open spec fn gib_text(bytes: nat) -> Seq<char> {
    two_decimals(round_half_even(nearest_double(bytes) * 100, 0x4000_0000)) + "G"@
}

/// A duration in hours, minutes and seconds, from its largest unit on.
pub open spec fn duration_text(secs: nat) -> Seq<char> {
    let h = secs / 3600;
    let m = secs % 3600 / 60;
    let s = secs % 60;
    if h > 0 {
        dec(h) + "h"@ + pad_left(dec(m), 2, '0') + "m"@ + pad_left(dec(s), 2, '0') + "s"@
    } else if m > 0 {
        dec(m) + "m"@ + pad_left(dec(s), 2, '0') + "s"@
    } else {
        dec(s) + "s"@
    }
}

/// A timestamp in milliseconds as whole seconds, a full stop and three digits.
pub open spec fn epoch_text(ms: int) -> Seq<char> {
    dec_int(ms / 1000) + "."@ + pad_left(dec((ms % 1000) as nat), 3, '0')
}

fn half_even(num: u128, den: u128) -> (r: u128)
    requires
        0 < den < 0x1_0000_0000_0000_0000,
    ensures
        r == round_half_even(num as nat, den as nat),
{
    let q: u128 = num / den;
    let rest: u128 = num % den;
    if 2 * rest < den || (2 * rest == den && q % 2 == 0) {
        q
    } else {
        assert(q + 1 <= u128::MAX) by (nonlinear_arith)
            requires
                q == num / den,
                rest == num % den,
                2 * rest >= den,
                den > 0,
                num <= u128::MAX,
        {
            assert(q * den + rest == num);
            assert(q <= num);
        }
        q + 1
    }
}

pub(crate) fn step_of(n: u64) -> (r: u64)
    ensures
        r == double_step(n as nat),
        1 <= r,
        r == 1 || 0x10_0000_0000_0000 * r <= n,
    decreases n,
{
    if n < 0x20_0000_0000_0000 {
        1
    } else {
        let s: u64 = step_of(n / 2);
        2 * s
    }
}

/// The double-precision number nearest to `n`.
fn as_double(n: u64) -> (r: u128)
    ensures
        r == nearest_double(n as nat),
        r < 0x2_0000_0000_0000_0000,
{
    let step: u64 = step_of(n);
    let q: u128 = half_even(n as u128, step as u128);
    assert(q * step <= n + step) by (nonlinear_arith)
        requires
            step > 0,
            q <= n / step + 1,
    {
        assert(n / step * step <= n);
    }
    q * step as u128
}

fn push_two_decimals(out: &mut String, hundredths: u128)
    requires
        hundredths < 0x1_0000_0000_0000_0000,
    ensures
        final(out)@ == old(out)@ + two_decimals(hundredths as nat),
{
    push_dec(out, (hundredths / 100) as u64);
    out.append(".");
    push_dec_padded(out, (hundredths % 100) as u64, 2);
    assert(out@ == old(out)@ + two_decimals(hundredths as nat));
}

proof fn lemma_rounded_small(v: nat, den: nat)
    requires
        v < 0x2_0000_0000_0000_0000,
        den >= 0x400,
    ensures
        round_half_even(v * 100, den) < 0x1_0000_0000_0000_0000,
{
    assert(v * 100 / den <= v * 100 / 0x400) by (nonlinear_arith)
        requires
            den >= 0x400,
    ;
}

/// A readable byte count.
pub fn human_bytes(bytes: u64) -> (r: String)
    ensures
        r@ == bytes_text(bytes as nat),
{
    let v: u128 = as_double(bytes);
    let mut out = String::new();
    if v < 1024 {
        push_dec(&mut out, bytes);
        out.append(" B");
        assert(out@ == bytes_text(bytes as nat));
        return out;
    }
    let (size, unit): (u128, &str) = if v < 0x10_0000 {
        (0x400, "KiB")
    } else if v < 0x4000_0000 {
        (0x10_0000, "MiB")
    } else if v < 0x100_0000_0000 {
        (0x4000_0000, "GiB")
    } else {
        (0x100_0000_0000, "TiB")
    };
    proof {
        lemma_rounded_small(v as nat, size as nat);
    }
    push_two_decimals(&mut out, half_even(v * 100, size));
    out.append(" ");
    out.append(unit);
    assert(out@ == bytes_text(bytes as nat));
    out
}

/// A byte count in units of 2^30 bytes.
pub fn gib(bytes: u64) -> (r: String)
    ensures
        r@ == gib_text(bytes as nat),
{
    let v: u128 = as_double(bytes);
    proof {
        lemma_rounded_small(v as nat, 0x4000_0000);
    }
    let mut out = String::new();
    push_two_decimals(&mut out, half_even(v * 100, 0x4000_0000));
    out.append("G");
    assert(out@ == gib_text(bytes as nat));
    out
}

/// A readable duration, given in whole seconds.
pub fn human_duration(secs: u64) -> (r: String)
    ensures
        r@ == duration_text(secs as nat),
{
    let h: u64 = secs / 3600;
    let m: u64 = secs % 3600 / 60;
    let s: u64 = secs % 60;
    let mut out = String::new();
    if h > 0 {
        push_dec(&mut out, h);
        out.append("h");
        push_dec_padded(&mut out, m, 2);
        out.append("m");
        push_dec_padded(&mut out, s, 2);
    } else if m > 0 {
        push_dec(&mut out, m);
        out.append("m");
        push_dec_padded(&mut out, s, 2);
    } else {
        push_dec(&mut out, s);
    }
    out.append("s");
    assert(out@ == duration_text(secs as nat));
    out
}

/// The point in time `ms` as the log reader takes it. The full stop tells a time
/// from a number of lines.
pub fn ms_to_logcat_arg(ms: i64) -> (r: String)
    ensures
        r@ == epoch_text(ms as int),
{
    let mut sec: i64 = ms / 1000;
    let mut millis: i64 = ms % 1000;
    if millis < 0 {
        sec -= 1;
        millis += 1000;
    }
    assert(sec == ms as int / 1000 && millis == ms as int % 1000);
    let mut out = String::new();
    push_dec_int(&mut out, sec);
    out.append(".");
    push_dec_padded(&mut out, millis as u64, 3);
    assert(out@ == epoch_text(ms as int));
    out
}

/// The point in time `ms` as it is shown in status lines and events.
pub fn ms_to_epoch_str(ms: i64) -> (r: String)
    ensures
        r@ == epoch_text(ms as int),
{
    ms_to_logcat_arg(ms)
}

/// What a point in time can be written as at the start of a log line: its local
/// time in the machine's time zone, or its bare number where it is off the calendar.
pub open spec fn line_stamp(ms: int, text: Seq<char>) -> bool {
    if datable(ms) {
        exists|o: i32| #[trigger]
            machine_offset(ms as i64, o) && text == time_text(ms, o as int, LINE_TIME@)
    } else {
        text == epoch_text(ms)
    }
}

/// The point in time `ms` in the machine's time zone, as log lines carry it.
pub fn ms_to_local(ms: i64) -> (r: String)
    ensures
        line_stamp(ms as int, r@),
{
    match LocalTime::local(ms) {
        Some(t) => {
            let r = t.line_time();
            proof {
                let o = choose|o: i32| #[trigger] machine_offset(ms, o) && t.offset() == o;
                assert(machine_offset((ms as int) as i64, o));
            }
            r
        },
        None => ms_to_epoch_str(ms),
    }
}

/// Rounding gives an integer that is no more than a half away, and of two that are a
/// half away the even one.
pub proof fn law_rounding_is_to_the_nearest(num: nat, den: nat)
    requires
        den > 0,
    ensures
        ({
            let off = num - round_half_even(num, den) * den;
            -den <= 2 * off <= den && (2 * off == den || 2 * off == -den ==> round_half_even(num, den)
                % 2 == 0)
        }),
{
    let q = num / den;
    let r = num % den;
    assert(num == q * den + r && 0 <= r < den) by (nonlinear_arith)
        requires
            q == num / den,
            r == num % den,
            den > 0,
    ;
    assert((q + 1) * den == q * den + den) by (nonlinear_arith);
}

/// Double-precision numbers around a count are as far apart as its size has it: a
/// count has 53 binary places at most in steps of their distance.
pub proof fn law_double_step_leaves_53_places(n: nat)
    ensures
        double_step(n) > 0,
        n < 0x20_0000_0000_0000 * double_step(n),
        n < 0x20_0000_0000_0000 ==> double_step(n) == 1,
        n >= 0x20_0000_0000_0000 ==> n >= 0x10_0000_0000_0000 * double_step(n),
        double_step(2 * n) == double_step(n) || double_step(2 * n) == 2 * double_step(n),
    decreases n,
{
    if n >= 0x20_0000_0000_0000 {
        law_double_step_leaves_53_places(n / 2);
    }
}

/// The double-precision number nearest to a count is the count itself below 2^53, and
/// never more than half a step away from it.
pub proof fn law_nearest_double_is_near(n: nat)
    ensures
        n < 0x20_0000_0000_0000 ==> nearest_double(n) == n,
        n >= 1024 ==> nearest_double(n) >= 1024,
        -double_step(n) <= 2 * (n - nearest_double(n)) <= double_step(n),
        nearest_double(n) % double_step(n) == 0,
{
    law_double_step_leaves_53_places(n);
    law_rounding_is_to_the_nearest(n, double_step(n));
    vstd::arithmetic::div_mod::lemma_mod_multiples_basic(
        round_half_even(n, double_step(n)) as int,
        double_step(n) as int,
    );
}

proof fn lemma_two_decimals(h: nat)
    ensures
        two_decimals(h) == dec(h / 100) + seq![
            '.',
            digit_char((h / 10 % 10) as int),
            digit_char((h % 10) as int),
        ],
{
    reveal_strlit(".");
    let r = h % 100;
    let d = dec(r);
    if r < 10 {
        assert(h / 10 % 10 == 0);
        assert(pad_left(d, 2, '0') =~= seq!['0', digit_char(r as int)]);
    } else {
        assert(r / 10 < 10);
        assert(dec(r / 10) == seq![digit_char((r / 10) as int)]);
        assert(d =~= seq![digit_char((r / 10) as int), digit_char((r % 10) as int)]);
        assert(r / 10 == h / 10 % 10);
    }
    assert(r % 10 == h % 10);
    assert(two_decimals(h) =~= dec(h / 100) + seq![
        '.',
        digit_char((h / 10 % 10) as int),
        digit_char((h % 10) as int),
    ]);
}

/// Whether a count is shown as `q` and two more decimal places in a unit: the number
/// shown is no more than half a hundredth of the unit away from the count.
pub open spec fn shows(n: nat, q: nat, tenths: nat, hundredths: nat, unit: nat) -> bool {
    let off = 100 * n - (100 * q + 10 * tenths + hundredths) * unit;
    tenths < 10 && hundredths < 10 && -unit <= 2 * off <= unit
}

#[verifier::spinoff_prover]
proof fn lemma_shows(n: nat, unit: nat)
    requires
        unit > 0,
    ensures
        ({
            let x = round_half_even(n * 100, unit);
            shows(n, x / 100, x / 10 % 10, x % 10, unit)
        }),
{
    let x = round_half_even(n * 100, unit);
    law_rounding_is_to_the_nearest(n * 100, unit);
    let q = x / 100;
    let t = x / 10 % 10;
    let h = x % 10;
    assert(100 * q + 10 * t + h == x);
}

/// A number of bytes is shown in bytes below 1024, and from there on in the largest unit
/// that its double-precision number reaches, each 1024 times the one before, with two
/// decimals that are right to the nearest hundredth of it. Below 2^53 that number is the
/// count itself.
#[verifier::spinoff_prover]
pub proof fn law_byte_count_is_shown_in_its_unit(n: nat, v: nat, unit: nat, name: Seq<char>)
    requires
        v == nearest_double(n),
        v < 1024 || (v < 1024 * 1024 && unit == 1024 && name == seq!['K', 'i', 'B']) || (1024 * 1024
            <= v < 1024 * 1024 * 1024 && unit == 1024 * 1024 && name == seq!['M', 'i', 'B']) || (1024
            * 1024 * 1024 <= v < 1024 * 1024 * 1024 * 1024 && unit == 1024 * 1024 * 1024 && name
            == seq!['G', 'i', 'B']) || (1024 * 1024 * 1024 * 1024 <= v && unit == 1024 * 1024 * 1024
            * 1024 && name == seq!['T', 'i', 'B']),
    ensures
        n < 1024 ==> bytes_text(n) == dec(n) + seq![' ', 'B'],
        n >= 1024 ==> exists|q: nat, t: nat, h: nat| #[trigger]
            shows(v, q, t, h, unit) && bytes_text(n) == dec(q) + seq![
                '.',
                digit_char(t as int),
                digit_char(h as int),
            ] + seq![' '] + name,
{
    reveal_strlit(" B");
    reveal_strlit(" ");
    reveal_strlit("KiB");
    reveal_strlit("MiB");
    reveal_strlit("GiB");
    reveal_strlit("TiB");
    law_nearest_double_is_near(n);
    if n < 1024 {
        assert(bytes_text(n) =~= dec(n) + seq![' ', 'B']);
    } else {
        assert("KiB"@ =~= seq!['K', 'i', 'B']);
        assert("MiB"@ =~= seq!['M', 'i', 'B']);
        assert("GiB"@ =~= seq!['G', 'i', 'B']);
        assert("TiB"@ =~= seq!['T', 'i', 'B']);
        assert(" "@ =~= seq![' ']);
        assert(byte_unit(v) == (unit, name));
        let x = round_half_even(v * 100, unit);
        lemma_two_decimals(x);
        lemma_shows(v, unit);
    }
}

/// A number of bytes is shown in units of 2^30 with two decimals that are right to the
/// nearest hundredth of its double-precision number.
#[verifier::spinoff_prover]
pub proof fn law_gib_count_is_right_to_a_hundredth(n: nat, unit: nat)
    requires
        unit == 1024 * 1024 * 1024,
    ensures
        exists|q: nat, t: nat, h: nat| #[trigger]
            shows(nearest_double(n), q, t, h, unit) && gib_text(n) == dec(q) + seq![
                '.',
                digit_char(t as int),
                digit_char(h as int),
                'G',
            ],
{
    reveal_strlit("G");
    let v = nearest_double(n);
    let x = round_half_even(v * 100, unit);
    lemma_two_decimals(x);
    lemma_shows(v, unit);
    let q = x / 100;
    let t = x / 10 % 10;
    let h = x % 10;
    assert(gib_text(n) =~= dec(q) + seq!['.', digit_char(t as int), digit_char(h as int), 'G']);
}

proof fn lemma_two_places(n: nat)
    requires
        n < 60,
    ensures
        pad_left(dec(n), 2, '0') == seq![digit_char((n / 10) as int), digit_char((n % 10) as int)],
{
    if n < 10 {
        assert(pad_left(dec(n), 2, '0') =~= seq!['0', digit_char(n as int)]);
    } else {
        assert(dec(n / 10) == seq![digit_char((n / 10) as int)]);
        assert(dec(n) =~= seq![digit_char((n / 10) as int), digit_char((n % 10) as int)]);
    }
}

/// A duration of `h` hours, `m` minutes and `s` seconds is shown as that, from the
/// largest unit on that is not zero, the smaller ones with two digits.
pub proof fn law_duration_is_shown_by_its_units(h: nat, m: nat, s: nat)
    requires
        m < 60,
        s < 60,
    ensures
        duration_text(3600 * h + 60 * m + s) == if h > 0 {
            dec(h) + seq![
                'h',
                digit_char((m / 10) as int),
                digit_char((m % 10) as int),
                'm',
                digit_char((s / 10) as int),
                digit_char((s % 10) as int),
                's',
            ]
        } else if m > 0 {
            dec(m) + seq!['m', digit_char((s / 10) as int), digit_char((s % 10) as int), 's']
        } else {
            dec(s) + seq!['s']
        },
{
    reveal_strlit("h");
    reveal_strlit("m");
    reveal_strlit("s");
    let n = 3600 * h + 60 * m + s;
    assert(n / 3600 == h);
    assert(n % 3600 / 60 == m);
    assert(n % 60 == s);
    lemma_two_places(m);
    lemma_two_places(s);
    if h > 0 {
        assert(duration_text(n) =~= dec(h) + seq![
            'h',
            digit_char((m / 10) as int),
            digit_char((m % 10) as int),
            'm',
            digit_char((s / 10) as int),
            digit_char((s % 10) as int),
            's',
        ]);
    } else if m > 0 {
        assert(duration_text(n) =~= dec(m) + seq![
            'm',
            digit_char((s / 10) as int),
            digit_char((s % 10) as int),
            's',
        ]);
    } else {
        assert(duration_text(n) =~= dec(s) + seq!['s']);
    }
}

/// A point in time is shown as its seconds, a full stop and the three digits of its
/// milliseconds.
pub proof fn law_time_is_shown_with_its_milliseconds(sec: int, a: nat, b: nat, c: nat)
    requires
        a < 10,
        b < 10,
        c < 10,
    ensures
        epoch_text(1000 * sec + 100 * a + 10 * b + c) == dec_int(sec) + seq![
            '.',
            digit_char(a as int),
            digit_char(b as int),
            digit_char(c as int),
        ],
{
    reveal_strlit(".");
    let ms = 1000 * sec + 100 * a + 10 * b + c;
    let r = 100 * a + 10 * b + c;
    assert(ms / 1000 == sec);
    assert(ms % 1000 == r);
    assert(dec(a) == seq![digit_char(a as int)]);
    assert(dec(b) == seq![digit_char(b as int)]);
    if a > 0 {
        assert(r / 10 == 10 * a + b && r % 10 == c);
        assert((10 * a + b) / 10 == a && (10 * a + b) % 10 == b);
        assert(dec((10 * a + b) as nat) =~= seq![digit_char(a as int), digit_char(b as int)]);
    } else if b > 0 {
        assert(r / 10 == b && r % 10 == c);
        assert(dec(r as nat) =~= seq![digit_char(b as int), digit_char(c as int)]);
    } else {
        assert(dec(r as nat) =~= seq![digit_char(c as int)]);
    }
    assert(pad_left(dec(r as nat), 3, '0') =~= seq![
        digit_char(a as int),
        digit_char(b as int),
        digit_char(c as int),
    ]);
    assert(epoch_text(ms) =~= dec_int(sec) + seq![
        '.',
        digit_char(a as int),
        digit_char(b as int),
        digit_char(c as int),
    ]);
}

/// What a number of bytes is shown as ends with the letter of its unit.
pub proof fn lemma_bytes_text_ends(n: nat)
    ensures
        bytes_text(n).len() > 0,
        bytes_text(n).last() == 'B',
{
    reveal_strlit(" B");
    reveal_strlit("KiB");
    reveal_strlit("MiB");
    reveal_strlit("GiB");
    reveal_strlit("TiB");
}

/// A point in time that falls on a day of the calendar is written at the start of a line
/// in the machine's time zone, with its milliseconds; any other is written as its number.
pub proof fn law_line_stamp_is_local_time(ms: int, text: Seq<char>)
    requires
        line_stamp(ms, text),
        i64::MIN <= ms <= i64::MAX,
    ensures
        -96_465_292 <= ms / 86_400_000 <= 95_026_236 ==> exists|o: i32| #[trigger]
            machine_offset(ms as i64, o) && text == time_text(
                ms,
                o as int,
                "%Y-%m-%d %H:%M:%S%.3f"@,
            ),
        !(-96_465_292 <= ms / 86_400_000 <= 95_026_236) ==> text == epoch_text(ms),
{
    law_calendar_is_made_of_whole_days(ms, 0);
    law_notations_are_spelled_out();
}

} // verus!
