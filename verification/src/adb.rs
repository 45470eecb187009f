//! The commands that are given to `adb`, and the reading of what it prints.

use vstd::prelude::*;
use vstd::slice::slice_subrange;
use vstd::string::*;
use crate::decimal::{law_numeral_is_scaled, law_powers, numeral, scaled, scaled_value, ten};
use crate::number::{
    all_digits, dec, dec_int, dec_text, digit_char, digit_value, digits_value, is_digit,
    is_digit_char, law_signed_numbers_are_digits, law_signed_roundtrip, lemma_dec, pad_left, parse_i64, parse_signed,
};
use crate::text::{
    chars_of, find_text, is_text, is_white, join, joined, law_first_occurrence_is_found,
    law_line_feed_ends_a_line, law_text_is_split_at_a_character,
    law_text_without_line_feed_is_a_line, law_text_without_white_space_is_a_word,
    law_trim_takes_white_space_away, law_white_space_separates_words, lemma_find_from,
    lemma_run_end, lines, lines_of, other_than, second_part, split_first, split_once, split_second,
    string_of, string_texts, texts, trim, trim_text, white, words, words_of,
};
use crate::unicode::{quoted, quoted_text};
use crate::util::epoch_text;

verus! {

/// The value of the digit at position `i` of a fraction, zero behind its end.
pub open spec fn fraction_digit(frac: Seq<char>, i: int) -> int {
    if i < frac.len() {
        digit_value(frac[i])
    } else {
        0
    }
}

/// The milliseconds that the digits after the full stop stand for: the first
/// three count, and missing ones are zero.
pub open spec fn fraction_millis(frac: Seq<char>) -> int {
    fraction_digit(frac, 0) * 100 + fraction_digit(frac, 1) * 10 + fraction_digit(frac, 2)
}

/// Whether the first three places of a fraction hold digits.
pub open spec fn fraction_ok(frac: Seq<char>) -> bool {
    forall|i: int| 0 <= i < 3 && i < frac.len() ==> is_digit(#[trigger] frac[i])
}

/// The milliseconds that the device's clock shows as `sec` or `sec.mmm`.
pub open spec fn clock_ms(raw: Seq<char>) -> Option<int> {
    let t = trim_text(raw);
    let (sec, frac) = match split_first(t, '.') {
        Some((s, f)) => (s, f),
        None => (t, Seq::empty()),
    };
    match parse_signed(sec) {
        Some(s) => {
            let ms = s * 1000 + fraction_millis(frac);
            if fraction_ok(frac) && i64::MIN <= ms <= i64::MAX {
                Some(ms)
            } else {
                None
            }
        },
        None => None,
    }
}

fn fraction_of(frac: &[char]) -> (r: Option<i64>)
    ensures
        r is Some == fraction_ok(frac@),
        r matches Some(ms) ==> ms == fraction_millis(frac@) && 0 <= ms < 1000,
{
    let mut ms: i64 = 0;
    if frac.len() > 0 {
        if !is_digit_char(frac[0]) {
            assert(!is_digit(frac@[0]));
            return None;
        }
        ms = (frac[0] as u32 - 48) as i64 * 100;
    }
    if frac.len() > 1 {
        if !is_digit_char(frac[1]) {
            assert(!is_digit(frac@[1]));
            return None;
        }
        ms += (frac[1] as u32 - 48) as i64 * 10;
    }
    if frac.len() > 2 {
        if !is_digit_char(frac[2]) {
            assert(!is_digit(frac@[2]));
            return None;
        }
        ms += (frac[2] as u32 - 48) as i64;
    }
    Some(ms)
}

/// The milliseconds that the device's clock shows.
pub fn parse_epoch_ms(raw: &str) -> (r: Option<i64>)
    ensures
        r is Some == (clock_ms(raw@) is Some),
        r matches Some(ms) ==> clock_ms(raw@) == Some(ms as int),
{
    let cs = chars_of(raw);
    let t = trim(&cs);
    let (sec, frac) = match split_once(t, '.') {
        Some((s, f)) => (s, f),
        None => (t, slice_subrange(t, 0, 0)),
    };
    assert(t@.subrange(0, 0) == Seq::<char>::empty());
    match (parse_i64(sec), fraction_of(frac)) {
        (Some(s), Some(millis)) => {
            let ms: i128 = s as i128 * 1000 + millis as i128;
            if i64::MIN as i128 <= ms && ms <= i64::MAX as i128 {
                Some(ms as i64)
            } else {
                None
            }
        },
        _ => None,
    }
}

proof fn lemma_trim_nothing(s: Seq<char>)
    requires
        s.len() > 0,
        !is_white(s[0]),
        !is_white(s.last()),
    ensures
        trim_text(s) == s,
{
    lemma_run_end(s, white(), 0, 0);
    assert(s.skip(0) == s);
}

/// Three digits, filled up with zeros, stand for the number as a fraction.
proof fn lemma_three_digits(r: nat)
    requires
        r < 1000,
    ensures
        ({
            let t = pad_left(dec(r), 3, '0');
            &&& t.len() == 3
            &&& all_digits(t)
            &&& fraction_millis(t) == r
        }),
{
    reveal_with_fuel(dec, 3);
    let t = pad_left(dec(r), 3, '0');
    if r < 10 {
        assert(t =~= seq!['0', '0', digit_char(r as int)]);
    } else if r < 100 {
        assert(t =~= seq![
            '0',
            digit_char((r / 10) as int),
            digit_char((r % 10) as int),
        ]);
    } else {
        assert(t =~= seq![
            digit_char((r / 100) as int),
            digit_char((r / 10 % 10) as int),
            digit_char((r % 10) as int),
        ]);
    }
}

/// A point in time that is written for the log reader is read back as it was.
pub proof fn law_epoch_roundtrip(ms: i64)
    ensures
        clock_ms(epoch_text(ms as int)) == Some(ms as int),
{
    reveal_strlit(".");
    let k = ms as int / 1000;
    let r = (ms as int % 1000) as nat;
    let head = dec_int(k);
    let tail = pad_left(dec(r), 3, '0');
    let s = epoch_text(ms as int);
    lemma_three_digits(r);
    law_signed_roundtrip(k as i64);
    lemma_dec(if k < 0 {
        (-k) as nat
    } else {
        k as nat
    });
    assert forall|i: int| 0 <= i < head.len() implies is_digit(#[trigger] head[i]) || head[i]
        == '-' by {
        if k < 0 {
            if i > 0 {
                assert(head[i] == dec((-k) as nat)[i - 1]);
                assert(is_digit(dec((-k) as nat)[i - 1]));
            }
        } else {
            assert(is_digit(dec(k as nat)[i]));
        }
    }
    assert("."@ =~= seq!['.']);
    assert(s == head + seq!['.'] + tail);
    assert(s[0] == head[0]);
    assert(is_digit(head[0]) || head[0] == '-');
    assert(s.last() == tail[2]);
    assert(is_digit(tail[2]));
    lemma_trim_nothing(s);
    assert forall|i: int| 0 <= i < head.len() implies other_than('.')(#[trigger] s[i]) by {
        assert(s[i] == head[i]);
    }
    lemma_run_end(s, other_than('.'), 0, head.len() as int);
    assert(s.take(head.len() as int) == head);
    assert(s.skip(head.len() as int + 1) == tail);
}

/// The number of doublings that a unit of size stands for.
pub open spec fn unit_shift(unit: Seq<char>) -> Option<nat> {
    if unit == "B"@ {
        Some(0)
    } else if unit == "KiB"@ {
        Some(10)
    } else if unit == "MiB"@ {
        Some(20)
    } else if unit == "GiB"@ {
        Some(30)
    } else {
        None
    }
}

/// The bytes that a text starting with a numeral and a unit stands for, in double
/// precision.
pub open spec fn size_of(s: Seq<char>) -> Option<nat> {
    let ws = words_of(s);
    if ws.len() < 2 {
        None
    } else {
        match unit_shift(ws[1]) {
            Some(shift) => scaled_value(ws[0], shift),
            None => None,
        }
    }
}

/// The bytes that a text like `8 MiB (...` stands for.
pub fn parse_size(s: &[char]) -> (r: Option<u64>)
    ensures
        r is Some == (size_of(s@) is Some),
        r matches Some(n) ==> size_of(s@) == Some(n as nat),
{
    let ws = words(s);
    if ws.len() < 2 {
        assert(texts(ws@).len() == ws@.len());
        return None;
    }
    assert(texts(ws@)[0] == ws@[0]@ && texts(ws@)[1] == ws@[1]@);
    let unit = ws[1];
    let shift: u64 = if is_text(unit, "B") {
        0
    } else if is_text(unit, "KiB") {
        10
    } else if is_text(unit, "MiB") {
        20
    } else if is_text(unit, "GiB") {
        30
    } else {
        return None;
    };
    scaled(ws[0], shift)
}

/// The size of the ring buffer that a line reports.
pub open spec fn ring_size(line: Seq<char>) -> Option<nat> {
    match second_part(line, "ring buffer is "@) {
        Some(t) => size_of(t),
        None => None,
    }
}

/// The smallest size that some lines report.
pub open spec fn min_ring_size(ls: Seq<Seq<char>>) -> Option<nat>
    decreases ls.len(),
{
    if ls.len() == 0 {
        None
    } else {
        let before = min_ring_size(ls.drop_last());
        match ring_size(ls.last()) {
            Some(n) => match before {
                Some(m) => Some(
                    if m < n {
                        m
                    } else {
                        n
                    },
                ),
                None => Some(n),
            },
            None => before,
        }
    }
}

/// The size in bytes of the smallest ring buffer that `logcat -g` reports.
pub fn parse_min_ring_buffer_bytes(g: &str) -> (r: Option<u64>)
    ensures
        r is Some == (min_ring_size(lines_of(g@)) is Some),
        r matches Some(n) ==> min_ring_size(lines_of(g@)) == Some(n as nat),
{
    let cs = chars_of(g);
    let ls = lines(&cs);
    let ghost all = lines_of(g@);
    let mut min: Option<u64> = None;
    let mut i: usize = 0;
    while i < ls.len()
        invariant
            texts(ls@) == all,
            i <= ls@.len(),
            min is Some == (min_ring_size(all.take(i as int)) is Some),
            min matches Some(n) ==> min_ring_size(all.take(i as int)) == Some(n as nat),
        decreases ls@.len() - i,
    {
        assert(ls@[i as int]@ == texts(ls@)[i as int]);
        assert(all.take(i + 1).drop_last() == all.take(i as int));
        assert(all.take(i + 1).last() == all[i as int]);
        if let Some(t) = split_second(ls[i], "ring buffer is ") {
            if let Some(n) = parse_size(t) {
                min = match min {
                    Some(m) => Some(
                        if m < n {
                            m
                        } else {
                            n
                        },
                    ),
                    None => Some(n),
                };
            }
        }
        i += 1;
    }
    assert(all.take(i as int) == all);
    min
}

/// No ring buffer that is reported is smaller than the smallest.
pub proof fn law_min_ring_size(ls: Seq<Seq<char>>)
    ensures
        forall|i: int|
            0 <= i < ls.len() && ring_size(#[trigger] ls[i]) is Some ==> min_ring_size(ls) is Some
                && min_ring_size(ls)->0 <= ring_size(ls[i])->0,
        min_ring_size(ls) is Some ==> exists|i: int|
            0 <= i < ls.len() && #[trigger] ring_size(ls[i]) == min_ring_size(ls),
    decreases ls.len(),
{
    if ls.len() > 0 {
        let front = ls.drop_last();
        law_min_ring_size(front);
        assert forall|i: int|
            0 <= i < ls.len() && ring_size(#[trigger] ls[i]) is Some implies min_ring_size(
            ls,
        ) is Some && min_ring_size(ls)->0 <= ring_size(ls[i])->0 by {
            if i < front.len() {
                assert(front[i] == ls[i]);
            }
        }
        if min_ring_size(ls) is Some {
            if ring_size(ls.last()) == min_ring_size(ls) {
                assert(ring_size(ls[ls.len() - 1]) == min_ring_size(ls));
            } else {
                let i = choose|i: int|
                    0 <= i < front.len() && #[trigger] ring_size(front[i]) == min_ring_size(front);
                assert(ring_size(ls[i]) == min_ring_size(ls));
            }
        }
    }
}

/// The texts of a list of string slices.
pub open spec fn str_texts(v: Seq<&str>) -> Seq<Seq<char>> {
    Seq::new(v.len(), |i: int| v[i]@)
}

/// The arguments of a command, as strings.
fn args_of(parts: &[&str]) -> (r: Vec<String>)
    ensures
        string_texts(r@) == str_texts(parts@),
{
    let mut out: Vec<String> = Vec::new();
    let mut i: usize = 0;
    while i < parts.len()
        invariant
            i <= parts@.len(),
            string_texts(out@) == str_texts(parts@).take(i as int),
        decreases parts@.len() - i,
    {
        let ghost before = string_texts(out@);
        out.push(parts[i].to_string());
        assert(string_texts(out@) == before.push(parts@[i as int]@));
        assert(str_texts(parts@).take(i + 1) == str_texts(parts@).take(i as int).push(
            str_texts(parts@)[i as int],
        ));
        i += 1;
    }
    assert(str_texts(parts@).take(i as int) == str_texts(parts@));
    out
}

/// The arguments that ask for the state of a device.
pub fn get_state_args(serial: &str) -> (r: Vec<String>)
    ensures
        string_texts(r@) == seq!["-s"@, serial@, "get-state"@],
{
    let r = args_of(&["-s", serial, "get-state"]);
    assert(string_texts(r@) == seq!["-s"@, serial@, "get-state"@]);
    r
}

/// The arguments that ask for the version of `adb`.
pub fn version_args() -> (r: Vec<String>)
    ensures
        string_texts(r@) == seq!["version"@],
{
    let r = args_of(&["version"]);
    assert(string_texts(r@) == seq!["version"@]);
    r
}

/// The arguments that ask for the list of devices.
pub fn devices_args() -> (r: Vec<String>)
    ensures
        string_texts(r@) == seq!["devices"@, "-l"@],
{
    let r = args_of(&["devices", "-l"]);
    assert(string_texts(r@) == seq!["devices"@, "-l"@]);
    r
}

/// The arguments that run a script on a device.
pub fn shell_args(serial: &str, script: &str) -> (r: Vec<String>)
    ensures
        string_texts(r@) == seq!["-s"@, serial@, "shell"@, script@],
{
    let r = args_of(&["-s", serial, "shell", script]);
    assert(string_texts(r@) == seq!["-s"@, serial@, "shell"@, script@]);
    r
}

/// The arguments that take a picture of the screen.
pub fn screencap_args(serial: &str) -> (r: Vec<String>)
    ensures
        string_texts(r@) == seq!["-s"@, serial@, "exec-out"@, "screencap"@, "-p"@],
{
    let r = args_of(&["-s", serial, "exec-out", "screencap", "-p"]);
    assert(string_texts(r@) == seq!["-s"@, serial@, "exec-out"@, "screencap"@, "-p"@]);
    r
}

/// The arguments that set the size of every log buffer to `mib` MiB.
pub fn set_buffer_size_args(serial: &str, mib: u32) -> (r: Vec<String>)
    ensures
        string_texts(r@) == seq!["-s"@, serial@, "logcat"@, "-b"@, "all"@, "-G"@, dec(mib as nat) + "M"@],
{
    let mut size = dec_text(mib as u64);
    size.append("M");
    let r = args_of(&["-s", serial, "logcat", "-b", "all", "-G", size.as_str()]);
    assert(string_texts(r@) == seq!["-s"@, serial@, "logcat"@, "-b"@, "all"@, "-G"@, dec(mib as nat) + "M"@]);
    r
}

/// The arguments that ask for the sizes of the log buffers.
pub fn buffer_sizes_args(serial: &str) -> (r: Vec<String>)
    ensures
        string_texts(r@) == seq!["-s"@, serial@, "logcat"@, "-b"@, "all"@, "-g"@],
{
    let r = args_of(&["-s", serial, "logcat", "-b", "all", "-g"]);
    assert(string_texts(r@) == seq!["-s"@, serial@, "logcat"@, "-b"@, "all"@, "-g"@]);
    r
}

/// The arguments that stream every log buffer from the point in time `since` on,
/// with times as seconds since 1970.
pub fn logcat_args(serial: &str, since: &str) -> (r: Vec<String>)
    ensures
        string_texts(r@) == seq!["-s"@, serial@, "logcat"@, "-b"@, "all"@, "-v"@, "epoch"@, "-T"@, since@],
{
    let r = args_of(&["-s", serial, "logcat", "-b", "all", "-v", "epoch", "-T", since]);
    assert(string_texts(r@) == seq!["-s"@, serial@, "logcat"@, "-b"@, "all"@, "-v"@, "epoch"@, "-T"@, since@]);
    r
}

/// The script that reads a system property.
pub fn getprop_script(key: &str) -> (r: String)
    ensures
        r@ == "getprop "@ + key@,
{
    let mut out = "getprop ".to_string();
    out.append(key);
    out
}

/// The script that asks for the space of a mount point.
pub fn df_script(mount: &str) -> (r: String)
    ensures
        r@ == "df "@ + mount@ + " | tail -1"@,
{
    let mut out = "df ".to_string();
    out.append(mount);
    out.append(" | tail -1");
    out
}

/// What is said where `adb` could not be run.
pub fn missing_message(args: &Vec<String>) -> (r: String)
    ensures
        r@ == "无法执行 adb "@ + joined(string_texts(args@), " "@) + "（本机是否已安装 adb？）"@,
{
    let mut out = "无法执行 adb ".to_string();
    out.append(join(args, " ").as_str());
    out.append("（本机是否已安装 adb？）");
    out
}

/// What is said where `adb` failed.
pub open spec fn failure_text(args: Seq<Seq<char>>, stderr: Seq<char>) -> Seq<char> {
    "adb "@ + joined(args, " "@) + " 失败: "@ + trim_text(stderr)
}

/// What a finished command comes to: its output without white space around it
/// where it succeeded, else what is said of its failure.
pub fn outcome(args: &Vec<String>, success: bool, stdout: &str, stderr: &str) -> (r: Result<
    String,
    String,
>)
    ensures
        r is Ok == success,
        r matches Ok(out) ==> out@ == trim_text(stdout@),
        r matches Err(e) ==> e@ == failure_text(string_texts(args@), stderr@),
{
    if success {
        let cs = chars_of(stdout);
        Ok(string_of(trim(&cs)))
    } else {
        let cs = chars_of(stderr);
        let reason = string_of(trim(&cs));
        let mut out = "adb ".to_string();
        out.append(join(args, " ").as_str());
        out.append(" 失败: ");
        out.append(reason.as_str());
        Err(out)
    }
}

/// The first line of a text without white space around it, empty where there is none.
pub open spec fn first_line_text(s: Seq<char>) -> Seq<char> {
    let ls = lines_of(s);
    if ls.len() == 0 {
        Seq::empty()
    } else {
        trim_text(ls[0])
    }
}

/// The version of `adb`: the first line that it prints.
pub fn version_line(out: &str) -> (r: String)
    ensures
        r@ == first_line_text(out@),
{
    let cs = chars_of(out);
    let ls = lines(&cs);
    if ls.len() == 0 {
        assert(texts(ls@).len() == 0);
        String::new()
    } else {
        assert(texts(ls@)[0] == ls@[0]@);
        string_of(trim(ls[0]))
    }
}

/// An answer that is not empty.
pub fn non_empty(answer: Option<String>) -> (r: Option<String>)
    ensures
        r is Some == (answer is Some && answer->0@.len() > 0),
        r is Some ==> r == answer,
{
    match answer {
        Some(s) => {
            if s.as_str().is_empty() {
                None
            } else {
                Some(s)
            }
        },
        None => None,
    }
}

/// What is said of a clock that cannot be read.
pub fn clock_message(raw: &str) -> (r: String)
    ensures
        r@ == "无法解析设备时钟输出: "@ + quoted_text(raw@),
{
    let mut out = "无法解析设备时钟输出: ".to_string();
    out.append(quoted(raw).as_str());
    out
}

/// What the device's clock shows: the reading in milliseconds, or the reading in
/// seconds where the device has no milliseconds to give.
pub fn clock_reading(precise: &str, coarse: Option<&str>) -> (r: Option<i64>)
    ensures
        r is Some == (clock_ms(precise@) is Some || coarse is Some && clock_ms(
            coarse->0@,
        ) is Some),
        r matches Some(ms) ==> Some(ms as int) == if clock_ms(precise@) is Some {
            clock_ms(precise@)
        } else {
            clock_ms(coarse->0@)
        },
{
    match parse_epoch_ms(precise) {
        Some(ms) => Some(ms),
        None => match coarse {
            Some(s) => parse_epoch_ms(s),
            None => None,
        },
    }
}

/// A clock shows milliseconds: the seconds, and behind a full stop a fraction of which
/// three places count, missing ones as zeros. White space around it does not matter, and
/// a sign goes with the seconds.
pub proof fn law_clock_is_read(
    a: Seq<char>,
    minus: bool,
    sec: Seq<char>,
    dot: bool,
    frac: Seq<char>,
    b: Seq<char>,
)
    requires
        forall|i: int| 0 <= i < a.len() ==> is_white(#[trigger] a[i]),
        forall|i: int| 0 <= i < b.len() ==> is_white(#[trigger] b[i]),
        sec.len() > 0,
        forall|i: int| 0 <= i < sec.len() ==> '0' <= #[trigger] sec[i] <= '9',
        forall|i: int| 0 <= i < frac.len() ==> '0' <= #[trigger] frac[i] <= '9',
        !dot ==> frac.len() == 0,
        digits_value(sec) * 1000 + 1000 <= i64::MAX,
    ensures
        ({
            let t = if minus {
                seq!['-'] + sec
            } else {
                sec
            } + if dot {
                seq!['.'] + frac
            } else {
                Seq::empty()
            };
            let ms = digits_value((frac + seq!['0', '0', '0']).take(3)) as int;
            clock_ms(a + t + b) == Some(
                if minus {
                    ms - 1000 * digits_value(sec)
                } else {
                    ms + 1000 * digits_value(sec)
                },
            )
        }),
{
    let head = if minus {
        seq!['-'] + sec
    } else {
        sec
    };
    let tail = if dot {
        seq!['.'] + frac
    } else {
        Seq::empty()
    };
    let t = head + tail;
    assert('0' <= sec[0] <= '9' && '0' <= sec[sec.len() - 1] <= '9');
    assert(t[0] == head[0]);
    if dot {
        if frac.len() > 0 {
            assert('0' <= frac[frac.len() - 1] <= '9');
            assert(t.last() == frac.last());
        } else {
            assert(t.last() == '.');
        }
    } else {
        assert(t =~= head);
        assert(t.last() == sec.last());
    }
    law_trim_takes_white_space_away(a, t, b);
    assert forall|i: int| 0 <= i < head.len() implies #[trigger] head[i] != '.' by {
        if minus {
            if i > 0 {
                assert(head[i] == sec[i - 1]);
            }
        } else {
            assert(head[i] == sec[i]);
        }
    }
    law_text_is_split_at_a_character(head, '.', frac);
    if dot {
        assert(t =~= head + seq!['.'] + frac);
    } else {
        assert(frac =~= Seq::<char>::empty());
    }
    assert(all_digits(sec)) by {
        assert forall|i: int| 0 <= i < sec.len() implies is_digit(#[trigger] sec[i]) by {
            assert('0' <= sec[i] <= '9');
        }
    }
    if minus {
        assert(head.skip(1) =~= sec);
    }
    assert(fraction_ok(frac)) by {
        assert forall|i: int| 0 <= i < 3 && i < frac.len() implies is_digit(#[trigger] frac[i]) by {
            assert('0' <= frac[i] <= '9');
        }
    }
    lemma_three_places(frac);
}

proof fn lemma_three_places(frac: Seq<char>)
    requires
        forall|i: int| 0 <= i < frac.len() ==> '0' <= #[trigger] frac[i] <= '9',
    ensures
        fraction_millis(frac) == digits_value((frac + seq!['0', '0', '0']).take(3)),
        0 <= fraction_millis(frac) < 1000,
{
    let f = frac + seq!['0', '0', '0'];
    let c = f.take(3);
    let c1 = c.drop_last();
    let c2 = c1.drop_last();
    assert(c2.drop_last() =~= Seq::<char>::empty());
    assert forall|i: int| 0 <= i < 3 implies '0' <= #[trigger] c[i] <= '9' && digit_value(c[i])
        == fraction_digit(frac, i) by {
        if i < frac.len() {
            assert('0' <= frac[i] <= '9');
            assert(c[i] == frac[i]);
        } else {
            assert(c[i] == '0');
        }
    }
    assert(c.last() == c[2] && c1.last() == c[1] && c2.last() == c[0]);
    assert(digits_value(c2.drop_last()) == 0);
    assert(digits_value(c2) == digit_value(c[0]));
    assert(digits_value(c1) == digits_value(c2) * 10 + digit_value(c[1]));
    assert(digits_value(c) == digits_value(c1) * 10 + digit_value(c[2]));
}

/// A size is a numeral and a unit, two words of a text: bytes, or 1024 of them to the
/// power that the unit stands for. Other units are not known.
pub proof fn law_size_goes_by_its_unit(s: Seq<char>)
    ensures
        words_of(s).len() < 2 ==> size_of(s) is None,
        words_of(s).len() >= 2 && words_of(s)[1] == seq!['B'] ==> size_of(s) == scaled_value(
            words_of(s)[0],
            0,
        ),
        words_of(s).len() >= 2 && words_of(s)[1] == seq!['K', 'i', 'B'] ==> size_of(s)
            == scaled_value(words_of(s)[0], 10),
        words_of(s).len() >= 2 && words_of(s)[1] == seq!['M', 'i', 'B'] ==> size_of(s)
            == scaled_value(words_of(s)[0], 20),
        words_of(s).len() >= 2 && words_of(s)[1] == seq!['G', 'i', 'B'] ==> size_of(s)
            == scaled_value(words_of(s)[0], 30),
        size_of(s) is Some ==> words_of(s)[1] == seq!['B'] || words_of(s)[1] == seq!['K', 'i', 'B']
            || words_of(s)[1] == seq!['M', 'i', 'B'] || words_of(s)[1] == seq!['G', 'i', 'B'],
{
    lemma_unit_names();
}

proof fn lemma_unit_names()
    ensures
        "B"@ == seq!['B'],
        "KiB"@ == seq!['K', 'i', 'B'],
        "MiB"@ == seq!['M', 'i', 'B'],
        "GiB"@ == seq!['G', 'i', 'B'],
        seq!['B'] != seq!['K', 'i', 'B'],
        seq!['B'] != seq!['M', 'i', 'B'],
        seq!['B'] != seq!['G', 'i', 'B'],
        seq!['K', 'i', 'B'] != seq!['M', 'i', 'B'],
        seq!['K', 'i', 'B'] != seq!['G', 'i', 'B'],
        seq!['M', 'i', 'B'] != seq!['G', 'i', 'B'],
{
    reveal_strlit("B");
    reveal_strlit("KiB");
    reveal_strlit("MiB");
    reveal_strlit("GiB");
    assert("B"@ =~= seq!['B']);
    assert("KiB"@ =~= seq!['K', 'i', 'B']);
    assert("MiB"@ =~= seq!['M', 'i', 'B']);
    assert("GiB"@ =~= seq!['G', 'i', 'B']);
    assert(seq!['B'].len() == 1);
    assert(seq!['K', 'i', 'B'].len() == 3);
    assert(seq!['M', 'i', 'B'].len() == 3);
    assert(seq!['G', 'i', 'B'].len() == 3);
    assert(seq!['K', 'i', 'B'][0] == 'K');
    assert(seq!['M', 'i', 'B'][0] == 'M');
    assert(seq!['G', 'i', 'B'][0] == 'G');
}

/// The size of a ring buffer is the one that its line gives behind `ring buffer is`:
/// so many mebibytes are so many times 2^20 bytes.
pub proof fn law_ring_size_is_read(pre: Seq<char>, n: nat, post: Seq<char>)
    requires
        n * (1024 * 1024) < 0x20_0000_0000_0000,
        post.len() > 0 ==> is_white(post[0]),
        forall|x: Seq<char>, y: Seq<char>|
            x.len() != pre.len() ==> pre + "ring buffer is "@ + (dec(n) + seq![' ', 'M', 'i', 'B']
                + post) != #[trigger] (x + "ring buffer is "@ + y),
    ensures
        ring_size(pre + "ring buffer is "@ + (dec(n) + seq![' ', 'M', 'i', 'B'] + post)) == Some(
            (n * (1024 * 1024)) as nat,
        ),
{
    let key = "ring buffer is "@;
    let d = dec(n);
    let none = Seq::<char>::empty();
    let unit = seq!['M', 'i', 'B'];
    let t = d + seq![' ', 'M', 'i', 'B'] + post;
    let line = pre + key + t;
    law_first_occurrence_is_found(pre, key, t);
    assert(line.skip((pre.len() + key.len()) as int) =~= t);
    reveal_strlit("ring buffer is ");
    lemma_find_from(t, key, 0);
    if find_text(t, key) is Some {
        let j = find_text(t, key)->0;
        assert(t.subrange(j, j + key.len()) == key);
        let x = pre + key + t.take(j);
        let y = t.skip(j + key.len());
        assert(line =~= x + key + y);
    }
    lemma_dec(n);
    assert forall|i: int| 0 <= i < d.len() implies '0' <= #[trigger] d[i] <= '9' && !is_white(d[i]) by {
        assert(is_digit(d[i]));
    }
    law_text_without_white_space_is_a_word(d);
    law_text_without_white_space_is_a_word(unit);
    let back = unit + post;
    assert(t =~= d + seq![' '] + back);
    law_white_space_separates_words(d, ' ', back);
    if post.len() > 0 {
        assert(back =~= unit + seq![post[0]] + post.skip(1));
        law_white_space_separates_words(unit, post[0], post.skip(1));
        assert(words_of(back)[0] == unit);
    } else {
        assert(back =~= unit);
        assert(words_of(back)[0] == unit);
    }
    assert(words_of(t)[0] == d);
    assert(words_of(t)[1] == unit);
    law_size_goes_by_its_unit(t);
    law_powers(0);
    assert(d + none =~= d);
    assert(ten(0) == 1);
    law_numeral_is_scaled(d, false, none, 20, (n * (1024 * 1024)) as nat);
    assert(numeral(d, false, none) == d);
}

/// A command that failed is told of by its arguments and by what it said, without the
/// white space around that.
pub proof fn law_failure_is_told(args: Seq<Seq<char>>, a: Seq<char>, e: Seq<char>, b: Seq<char>)
    requires
        forall|i: int| 0 <= i < a.len() ==> is_white(#[trigger] a[i]),
        forall|i: int| 0 <= i < b.len() ==> is_white(#[trigger] b[i]),
        e.len() > 0 ==> !is_white(e[0]) && !is_white(e.last()),
    ensures
        failure_text(args, a + e + b) == seq!['a', 'd', 'b', ' '] + joined(args, " "@) + " 失败: "@ + e,
{
    law_trim_takes_white_space_away(a, e, b);
    reveal_strlit("adb ");
    assert("adb "@ =~= seq!['a', 'd', 'b', ' ']);
}

/// The first line of a text is what stands before its first line feed, without white
/// space around it.
pub proof fn law_first_line_is_read(a: Seq<char>, l: Seq<char>, b: Seq<char>, rest: Seq<char>)
    requires
        forall|i: int| 0 <= i < a.len() ==> is_white(#[trigger] a[i]) && a[i] != '\n',
        forall|i: int| 0 <= i < b.len() ==> is_white(#[trigger] b[i]) && b[i] != '\n',
        forall|i: int| 0 <= i < l.len() ==> #[trigger] l[i] != '\n',
        l.len() > 0 ==> !is_white(l[0]) && !is_white(l.last()),
    ensures
        first_line_text(a + l + b + seq!['\n'] + rest) == l,
        first_line_text(Seq::empty()) == Seq::<char>::empty(),
{
    let line = a + l + b;
    assert forall|i: int| 0 <= i < line.len() implies #[trigger] line[i] != '\n' by {
        if i < a.len() {
            assert(line[i] == a[i]);
        } else if i < a.len() + l.len() {
            assert(line[i] == l[i - a.len()]);
        } else {
            assert(line[i] == b[i - a.len() - l.len()]);
        }
    }
    law_line_feed_ends_a_line(line, rest);
    law_text_without_line_feed_is_a_line(Seq::empty());
    law_trim_takes_white_space_away(a, l, b);
    if line.len() > 0 && line.last() == '\r' {
        // The carriage return is part of the white space behind the line.
        if b.len() > 0 {
            let c = b.drop_last();
            assert forall|i: int| 0 <= i < c.len() implies is_white(#[trigger] c[i]) by {
                assert(is_white(b[i]));
            }
            assert(line.drop_last() =~= a + l + c);
            law_trim_takes_white_space_away(a, l, c);
        } else if l.len() > 0 {
            assert(line.last() == l.last());
        } else {
            let c = a.drop_last();
            assert forall|i: int| 0 <= i < c.len() implies is_white(#[trigger] c[i]) by {
                assert(is_white(a[i]));
            }
            assert(line.drop_last() =~= c + l + b);
            law_trim_takes_white_space_away(c, l, b);
        }
    }
}

/// A clock that can be read shows digits, with or without a sign before them, and behind the
/// first full stop digits again, as far as three places go.
pub proof fn law_only_such_clocks_are_read(
    a: Seq<char>,
    sec: Seq<char>,
    dot: bool,
    frac: Seq<char>,
    b: Seq<char>,
    t: Seq<char>,
)
    requires
        forall|i: int| 0 <= i < a.len() ==> is_white(#[trigger] a[i]),
        forall|i: int| 0 <= i < b.len() ==> is_white(#[trigger] b[i]),
        forall|i: int| 0 <= i < sec.len() ==> #[trigger] sec[i] != '.',
        t == if dot {
            sec + seq!['.'] + frac
        } else {
            sec
        },
        t.len() > 0 ==> !is_white(t[0]) && !is_white(t.last()),
        clock_ms(a + t + b) is Some,
    ensures
        sec.len() > 0,
        '0' <= sec[0] <= '9' || ((sec[0] == '-' || sec[0] == '+') && sec.len() > 1),
        forall|k: int| 1 <= k < sec.len() ==> '0' <= #[trigger] sec[k] <= '9',
        dot ==> forall|k: int| 0 <= k < 3 && k < frac.len() ==> '0' <= #[trigger] frac[k] <= '9',
{
    law_trim_takes_white_space_away(a, t, b);
    law_text_is_split_at_a_character(sec, '.', frac);
    law_signed_numbers_are_digits(sec);
    if dot {
        assert(fraction_ok(frac));
        assert forall|k: int| 0 <= k < 3 && k < frac.len() implies '0' <= #[trigger] frac[k] <= '9' by {
            assert(is_digit(frac[k]));
        }
    }
}

/// What is run on the device is the list of the parts given, in their order.
pub proof fn law_arguments_keep_their_order(v: Seq<&str>, i: int)
    ensures
        str_texts(v).len() == v.len(),
        0 <= i < v.len() ==> str_texts(v)[i] == v[i]@,
{
}

/// What a clock reads is what it shows in milliseconds, where that can be read; else what
/// it shows in seconds.
pub proof fn law_precise_reading_comes_first(precise: &str, coarse: Option<&str>, r: Option<i64>)
    requires
        call_ensures(clock_reading, (precise, coarse), r),
    ensures
        clock_ms(precise@) matches Some(ms) ==> (r matches Some(x) && x == ms),
        clock_ms(precise@) is None && coarse is None ==> r is None,
        clock_ms(precise@) is None ==> (coarse matches Some(s) ==> ((r matches Some(x) ==> clock_ms(
            s@,
        ) == Some(x as int)) && (r is None ==> clock_ms(s@) is None))),
{
}

/// A command that succeeded comes to what it printed, without white space around it; one
/// that failed comes to what is said of it.
pub proof fn law_outcome_goes_by_success(
    args: &Vec<String>,
    success: bool,
    stdout: &str,
    stderr: &str,
    r: Result<String, String>,
)
    requires
        call_ensures(outcome, (args, success, stdout, stderr), r),
    ensures
        success ==> (r matches Ok(out) && out@ == trim_text(stdout@)),
        !success ==> (r matches Err(e) && e@ == failure_text(string_texts(args@), stderr@)),
{
}

} // verus!
