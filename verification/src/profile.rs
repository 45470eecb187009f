//! The profile of a device: what it answered to a number of questions, as a
//! document that tells about the device when it is no longer at hand.

use vstd::prelude::*;
use vstd::slice::slice_subrange;
use vstd::string::*;
use crate::device::{connection_text, opt_text, Device};
use crate::number::{dec, law_unsigned_roundtrip, lemma_dec, parse_u64, parse_unsigned};
use crate::text::{
    after_last, after_prefix, before, before_first, chars_of, contains, contains_text,
    ends_with_text, equal_to, find, find_text, first_some, is_text, is_white, join, joined,
    last_some, law_absent_text_is_not_found, law_characters_are_stripped,
    law_contains_is_in_between, law_first_occurrence_is_found, law_joined_in_two_parts,
    law_start_and_end_of_a_text, law_text_is_split_at_a_character,
    law_trim_takes_white_space_away, lemma_contains_between, lemma_contains_trans,
    lemma_first_and_last_part,
    lemma_run_end, lines, lines_of, rsplit_tail, starts_with_text, string_of, string_texts, strip_end, strip_end_text,
    strip_prefix, strip_start, strip_start_text, texts, trim, trim_start, trim_start_text,
    trim_text, white, words, words_of,
};
use crate::util::{gib, gib_text};

verus! {

/// What stands in place of a field that could not be had.
pub const NA: &'static str = "不可用";

/// An answer, or the placeholder where there is none or an empty one.
pub open spec fn or_na_text(v: Option<Seq<char>>) -> Seq<char> {
    match v {
        Some(s) => if s.len() > 0 {
            s
        } else {
            NA@
        },
        None => NA@,
    }
}

/// An answer, or the placeholder where there is none or an empty one.
pub fn or_na(v: &Option<String>) -> (r: String)
    ensures
        r@ == or_na_text(opt_text(*v)),
{
    match v {
        Some(s) => {
            if s.as_str().is_empty() {
                NA.to_string()
            } else {
                s.clone()
            }
        },
        None => NA.to_string(),
    }
}

/// A field, or `default` in place of the placeholder.
pub open spec fn into_or_text(s: Seq<char>, default: Seq<char>) -> Seq<char> {
    if s == NA@ {
        default
    } else {
        s
    }
}

/// A field, or `default` in place of the placeholder.
pub fn into_or(s: String, default: String) -> (r: String)
    ensures
        r@ == into_or_text(s@, default@),
{
    let cs = chars_of(s.as_str());
    if is_text(&cs, NA) {
        default
    } else {
        s
    }
}

/// What identifies a device.
pub struct Identity {
    pub serial: String,
    pub manufacturer: String,
    pub model: String,
    pub brand: String,
    pub product: String,
    pub codename: String,
    pub android_release: String,
    pub api_level: String,
}

/// The version of the system: `Android 13 (API 33)`.
pub open spec fn android_text(release: Seq<char>, api: Seq<char>) -> Seq<char> {
    "Android "@ + release + " (API "@ + api + ")"@
}

impl Identity {
    /// The version of the system: `Android 13 (API 33)`.
    pub fn android_label(&self) -> (r: String)
        ensures
            r@ == android_text(self.android_release@, self.api_level@),
    {
        let mut out = "Android ".to_string();
        out.append(self.android_release.as_str());
        out.append(" (API ");
        out.append(self.api_level.as_str());
        out.append(")");
        out
    }
}

/// The system properties that identify a device, as it answered.
pub struct IdentityAnswers {
    /// `ro.serialno`
    pub serial: Option<String>,
    /// `ro.product.manufacturer`
    pub manufacturer: Option<String>,
    /// `ro.product.model`
    pub model: Option<String>,
    /// `ro.product.brand`
    pub brand: Option<String>,
    /// `ro.product.name`
    pub product: Option<String>,
    /// `ro.product.device`
    pub codename: Option<String>,
    /// `ro.build.version.release`
    pub android_release: Option<String>,
    /// `ro.build.version.sdk`
    pub api_level: Option<String>,
}

/// What identifies a device: its answers, and the serial number that it is listed
/// under where it does not tell its own.
pub fn identity(answers: &IdentityAnswers, device: &Device) -> (r: Identity)
    ensures
        r.serial@ == into_or_text(or_na_text(opt_text(answers.serial)), device.serial@),
        r.manufacturer@ == or_na_text(opt_text(answers.manufacturer)),
        r.model@ == or_na_text(opt_text(answers.model)),
        r.brand@ == or_na_text(opt_text(answers.brand)),
        r.product@ == or_na_text(opt_text(answers.product)),
        r.codename@ == or_na_text(opt_text(answers.codename)),
        r.android_release@ == or_na_text(opt_text(answers.android_release)),
        r.api_level@ == or_na_text(opt_text(answers.api_level)),
{
    Identity {
        serial: into_or(or_na(&answers.serial), device.serial.clone()),
        manufacturer: or_na(&answers.manufacturer),
        model: or_na(&answers.model),
        brand: or_na(&answers.brand),
        product: or_na(&answers.product),
        codename: or_na(&answers.codename),
        android_release: or_na(&answers.android_release),
        api_level: or_na(&answers.api_level),
    }
}

/// A number of units of 1024 bytes, in GiB, where the number of bytes is one of 64 bits.
pub open spec fn kib_text(word: Seq<char>) -> Option<Seq<char>> {
    match parse_unsigned(word, u64::MAX as nat) {
        Some(k) => if k * 1024 <= u64::MAX {
            Some(gib_text(k * 1024))
        } else {
            None
        },
        None => None,
    }
}

fn kib(word: &[char]) -> (r: Option<String>)
    ensures
        r is Some == (kib_text(word@) is Some),
        r matches Some(s) ==> kib_text(word@) == Some(s@),
{
    match parse_u64(word) {
        Some(k) => if k <= u64::MAX / 1024 {
            Some(gib(k * 1024))
        } else {
            None
        },
        None => None,
    }
}

/// The memory of a device, from the line of `/proc/meminfo`.
pub open spec fn memory_text(answer: Option<Seq<char>>) -> Seq<char> {
    match answer {
        Some(line) => {
            let ws = words_of(line);
            match if ws.len() < 2 {
                None
            } else {
                kib_text(ws[1])
            } {
                Some(s) => s,
                None => NA@,
            }
        },
        None => NA@,
    }
}

/// The memory of a device, from the line of `/proc/meminfo`.
pub fn memory_total(answer: &Option<String>) -> (r: String)
    ensures
        r@ == memory_text(opt_text(*answer)),
{
    if let Some(line) = answer {
        let cs = chars_of(line.as_str());
        let ws = words(&cs);
        assert(texts(ws@).len() == ws@.len());
        if ws.len() >= 2 {
            assert(texts(ws@)[1] == ws@[1]@);
            if let Some(s) = kib(ws[1]) {
                return s;
            }
        }
    }
    NA.to_string()
}

/// The space of a mount point: used, in all and free, from the line that `df` prints.
pub open spec fn storage_texts(answer: Option<Seq<char>>) -> (Seq<char>, Seq<char>, Seq<char>) {
    let unknown = (NA@, NA@, NA@);
    match answer {
        Some(line) => {
            let ws = words_of(line);
            if ws.len() < 4 {
                unknown
            } else {
                match (kib_text(ws[1]), kib_text(ws[2]), kib_text(ws[3])) {
                    (Some(total), Some(used), Some(free)) => (used, total, free),
                    _ => unknown,
                }
            }
        },
        None => unknown,
    }
}

/// The space of a mount point: used, in all and free.
pub fn storage(answer: &Option<String>) -> (r: (String, String, String))
    ensures
        (r.0@, r.1@, r.2@) == storage_texts(opt_text(*answer)),
{
    if let Some(line) = answer {
        let cs = chars_of(line.as_str());
        let ws = words(&cs);
        assert(texts(ws@).len() == ws@.len());
        if ws.len() >= 4 {
            assert(texts(ws@)[1] == ws@[1]@ && texts(ws@)[2] == ws@[2]@ && texts(ws@)[3]
                == ws@[3]@);
            if let (Some(total), Some(used), Some(free)) = (kib(ws[1]), kib(ws[2]), kib(ws[3])) {
                return (used, total, free);
            }
        }
    }
    (NA.to_string(), NA.to_string(), NA.to_string())
}

/// What stands behind the last colon of a line.
pub open spec fn value_of(line: Seq<char>) -> Option<Seq<char>> {
    match after_last(line, ':') {
        Some(v) => Some(trim_text(v)),
        None => None,
    }
}

/// The value on the last line that has one: what is set by hand stands below what
/// the screen has by itself.
pub open spec fn last_value_text(answer: Option<Seq<char>>) -> Seq<char> {
    match answer {
        Some(s) => match last_some(lines_of(s), |l: Seq<char>| value_of(l)) {
            Some(v) => v,
            None => NA@,
        },
        None => NA@,
    }
}

/// A property of the screen, from what `wm` prints.
pub fn screen(answer: &Option<String>) -> (r: String)
    ensures
        r@ == last_value_text(opt_text(*answer)),
{
    if let Some(s) = answer {
        let cs = chars_of(s.as_str());
        let ls = lines(&cs);
        let ghost all = lines_of(s@);
        let ghost f = |l: Seq<char>| value_of(l);
        let mut n: usize = ls.len();
        assert(all.take(n as int) == all);
        #[verifier::loop_isolation(false)]
        while n > 0
            invariant
                n <= ls@.len(),
                texts(ls@) == all,
                last_some(all.take(n as int), f) == last_some(all, f),
            decreases n,
        {
            assert(texts(ls@)[n - 1] == ls@[n - 1]@);
            assert(all.take(n as int).last() == ls@[n - 1]@);
            assert(all.take(n as int).drop_last() == all.take(n - 1));
            if let Some(v) = rsplit_tail(ls[n - 1], ':') {
                return string_of(trim(v));
            }
            n -= 1;
        }
    }
    NA.to_string()
}

/// The value behind a key, up to the next comma, where there is one.
pub open spec fn field_text(line: Seq<char>, key: Seq<char>) -> Option<Seq<char>> {
    match find_text(line, key) {
        Some(i) => {
            let rest = trim_start_text(line.skip(i + key.len()));
            let v = trim_text(before_first(rest, ','));
            if v.len() == 0 {
                None
            } else {
                Some(v)
            }
        },
        None => None,
    }
}

fn field<'a>(line: &'a [char], key: &str) -> (r: Option<&'a [char]>)
    ensures
        r is Some == (field_text(line@, key@) is Some),
        r matches Some(v) ==> field_text(line@, key@) == Some(v@),
{
    match find(line, key) {
        Some(i) => {
            let width: usize = chars_of(key).len();
            let end: usize = line.len();
            assert(i + width <= end);
            let rest = trim_start(slice_subrange(line, i + width, end));
            let v = trim(before(rest, ','));
            if v.len() == 0 {
                None
            } else {
                Some(v)
            }
        },
        None => None,
    }
}

/// The value behind a key in a line of the form `key: value, key: value`.
pub fn extract_field(line: &str, key: &str) -> (r: Option<String>)
    ensures
        opt_text(r) == field_text(line@, key@),
{
    let cs = chars_of(line);
    match field(&cs, key) {
        Some(v) => Some(string_of(v)),
        None => None,
    }
}

/// The wireless network of a device.
pub struct Wifi {
    pub ssid: String,
    pub bssid: String,
    pub mac: String,
    pub ip: String,
}

/// The first line that names a network.
pub open spec fn wifi_line(answer: Option<Seq<char>>) -> Option<Seq<char>> {
    match answer {
        Some(s) => first_some(
            lines_of(s),
            |l: Seq<char>|
                if contains_text(l, "SSID:"@) {
                    Some(l)
                } else {
                    None
                },
        ),
        None => None,
    }
}

/// A field of the line that names the network.
pub open spec fn wifi_field(answer: Option<Seq<char>>, key: Seq<char>) -> Option<Seq<char>> {
    match wifi_line(answer) {
        Some(l) => field_text(l, key),
        None => None,
    }
}

/// A text without the quotation marks around it.
pub open spec fn unquoted(s: Seq<char>) -> Seq<char> {
    strip_end_text(strip_start_text(s, '"'), '"')
}

/// The name of the network, without its quotation marks.
pub open spec fn ssid_text(answer: Option<Seq<char>>) -> Seq<char> {
    match wifi_field(answer, "SSID:"@) {
        Some(v) => unquoted(v),
        None => NA@,
    }
}

/// A field of the network as it is told.
pub open spec fn plain_wifi_text(answer: Option<Seq<char>>, key: Seq<char>) -> Seq<char> {
    match wifi_field(answer, key) {
        Some(v) => v,
        None => NA@,
    }
}

/// The address in the network, without the slashes before it.
pub open spec fn wifi_ip_text(answer: Option<Seq<char>>) -> Seq<char> {
    match wifi_field(answer, "IP:"@) {
        Some(v) => strip_start_text(v, '/'),
        None => NA@,
    }
}

fn find_wifi_line<'a>(ls: &Vec<&'a [char]>) -> (r: Option<&'a [char]>)
    ensures
        r is Some == (first_some(
            texts(ls@),
            |l: Seq<char>|
                if contains_text(l, "SSID:"@) {
                    Some(l)
                } else {
                    None
                },
        ) is Some),
        r matches Some(v) ==> first_some(
            texts(ls@),
            |l: Seq<char>|
                if contains_text(l, "SSID:"@) {
                    Some(l)
                } else {
                    None
                },
        ) == Some(v@),
{
    let ghost all = texts(ls@);
    let ghost f = |l: Seq<char>|
        if contains_text(l, "SSID:"@) {
            Some(l)
        } else {
            None
        };
    let mut i: usize = 0;
    assert(all.skip(0) == all);
    #[verifier::loop_isolation(false)]
    while i < ls.len()
        invariant
            i <= ls@.len(),
            first_some(all.skip(i as int), f) == first_some(all, f),
        decreases ls@.len() - i,
    {
        assert(all.skip(i as int)[0] == ls@[i as int]@);
        assert(all.skip(i as int).skip(1) == all.skip(i + 1));
        if contains(ls[i], "SSID:") {
            return Some(ls[i]);
        }
        i += 1;
    }
    None
}

/// The wireless network of a device, from what `dumpsys wifi` prints.
pub fn wifi_info(answer: &Option<String>) -> (r: Wifi)
    ensures
        r.ssid@ == ssid_text(opt_text(*answer)),
        r.bssid@ == plain_wifi_text(opt_text(*answer), "BSSID:"@),
        r.mac@ == plain_wifi_text(opt_text(*answer), "MAC:"@),
        r.ip@ == wifi_ip_text(opt_text(*answer)),
{
    let mut r = Wifi {
        ssid: NA.to_string(),
        bssid: NA.to_string(),
        mac: NA.to_string(),
        ip: NA.to_string(),
    };
    if let Some(s) = answer {
        let cs = chars_of(s.as_str());
        let ls = lines(&cs);
        if let Some(line) = find_wifi_line(&ls) {
            if let Some(v) = field(line, "SSID:") {
                r.ssid = string_of(strip_end(strip_start(v, '"'), '"'));
            }
            if let Some(v) = field(line, "BSSID:") {
                r.bssid = string_of(v);
            }
            if let Some(v) = field(line, "MAC:") {
                r.mac = string_of(v);
            }
            if let Some(v) = field(line, "IP:") {
                r.ip = string_of(strip_start(v, '/'));
            }
        }
    }
    r
}

/// The address on a line that starts with `inet`, without the length of its prefix.
pub open spec fn inet_text(line: Seq<char>) -> Option<Seq<char>> {
    match after_prefix(trim_text(line), "inet "@) {
        Some(rest) => Some(before_first(rest, '/')),
        None => None,
    }
}

/// The first address that is told.
pub open spec fn ip_text(answer: Option<Seq<char>>) -> Seq<char> {
    match answer {
        Some(s) => match first_some(lines_of(s), |l: Seq<char>| inet_text(l)) {
            Some(v) => v,
            None => NA@,
        },
        None => NA@,
    }
}

/// The address of a device, from what `ip addr` prints.
pub fn ip_addr(answer: &Option<String>) -> (r: String)
    ensures
        r@ == ip_text(opt_text(*answer)),
{
    if let Some(s) = answer {
        let cs = chars_of(s.as_str());
        let ls = lines(&cs);
        let ghost all = lines_of(s@);
        let ghost f = |l: Seq<char>| inet_text(l);
        let mut i: usize = 0;
        assert(all.skip(0) == all);
        #[verifier::loop_isolation(false)]
        while i < ls.len()
            invariant
                i <= ls@.len(),
                texts(ls@) == all,
                first_some(all.skip(i as int), f) == first_some(all, f),
            decreases ls@.len() - i,
        {
            assert(texts(ls@)[i as int] == ls@[i as int]@);
            assert(all.skip(i as int)[0] == ls@[i as int]@);
            assert(all.skip(i as int).skip(1) == all.skip(i + 1));
            if let Some(rest) = strip_prefix(trim(ls[i]), "inet ") {
                return string_of(before(rest, '/'));
            }
            i += 1;
        }
    }
    NA.to_string()
}

/// What the number of a charging state stands for.
pub open spec fn battery_status_text(s: Seq<char>) -> Seq<char> {
    if s == "1"@ {
        "未知"@
    } else if s == "2"@ {
        "充电中"@
    } else if s == "3"@ {
        "放电中"@
    } else if s == "4"@ {
        "未充电"@
    } else if s == "5"@ {
        "已充满"@
    } else {
        s
    }
}

/// What the number of a charging state stands for; another text stays as it is.
pub fn battery_status(s: &str) -> (r: String)
    ensures
        r@ == battery_status_text(s@),
{
    let cs = chars_of(s);
    if is_text(&cs, "1") {
        "未知".to_string()
    } else if is_text(&cs, "2") {
        "充电中".to_string()
    } else if is_text(&cs, "3") {
        "放电中".to_string()
    } else if is_text(&cs, "4") {
        "未充电".to_string()
    } else if is_text(&cs, "5") {
        "已充满".to_string()
    } else {
        s.to_string()
    }
}

/// What the number of a state of health stands for.
pub open spec fn battery_health_text(s: Seq<char>) -> Seq<char> {
    if s == "1"@ {
        "未知"@
    } else if s == "2"@ {
        "良好"@
    } else if s == "3"@ {
        "过热"@
    } else if s == "4"@ {
        "损坏"@
    } else if s == "5"@ {
        "过压"@
    } else if s == "6"@ {
        "未知故障"@
    } else if s == "7"@ {
        "过冷"@
    } else {
        s
    }
}

/// What the number of a state of health stands for; another text stays as it is.
pub fn battery_health(s: &str) -> (r: String)
    ensures
        r@ == battery_health_text(s@),
{
    let cs = chars_of(s);
    if is_text(&cs, "1") {
        "未知".to_string()
    } else if is_text(&cs, "2") {
        "良好".to_string()
    } else if is_text(&cs, "3") {
        "过热".to_string()
    } else if is_text(&cs, "4") {
        "损坏".to_string()
    } else if is_text(&cs, "5") {
        "过压".to_string()
    } else if is_text(&cs, "6") {
        "未知故障".to_string()
    } else if is_text(&cs, "7") {
        "过冷".to_string()
    } else {
        s.to_string()
    }
}

/// The value on a line that starts with a key.
pub open spec fn keyed(key: Seq<char>) -> spec_fn(Seq<char>) -> Option<Seq<char>> {
    |l: Seq<char>|
        match after_prefix(trim_text(l), key) {
            Some(v) => Some(trim_text(strip_start_text(v, ':'))),
            None => None,
        }
}

/// The value of a key in what `dumpsys battery` prints: that on the first line
/// that starts with the key.
pub open spec fn battery_field(out: Seq<char>, key: Seq<char>) -> Option<Seq<char>> {
    first_some(lines_of(out), keyed(key))
}

/// The value of a key in what `dumpsys battery` prints.
pub fn battery_value(out: &str, key: &str) -> (r: Option<String>)
    ensures
        opt_text(r) == battery_field(out@, key@),
{
    let cs = chars_of(out);
    let ls = lines(&cs);
    let ghost all = lines_of(out@);
    let ghost f = keyed(key@);
    let mut i: usize = 0;
    assert(all.skip(0) == all);
    #[verifier::loop_isolation(false)]
    while i < ls.len()
        invariant
            i <= ls@.len(),
            texts(ls@) == all,
            first_some(all.skip(i as int), f) == first_some(all, f),
        decreases ls@.len() - i,
    {
        assert(texts(ls@)[i as int] == ls@[i as int]@);
        assert(all.skip(i as int)[0] == ls@[i as int]@);
        assert(all.skip(i as int).skip(1) == all.skip(i + 1));
        if let Some(v) = strip_prefix(trim(ls[i]), key) {
            return Some(string_of(trim(strip_start(v, ':'))));
        }
        i += 1;
    }
    None
}

/// A part, unless it is missing or empty.
pub open spec fn told(v: Option<Seq<char>>) -> Seq<Seq<char>> {
    match v {
        Some(s) => if s.len() > 0 {
            seq![s]
        } else {
            Seq::empty()
        },
        None => Seq::empty(),
    }
}

/// A part with a unit behind it, unless it is missing or empty.
pub open spec fn told_percent(v: Option<Seq<char>>) -> Seq<Seq<char>> {
    match v {
        Some(s) => if s.len() > 0 {
            seq![s + "%"@]
        } else {
            Seq::empty()
        },
        None => Seq::empty(),
    }
}

/// A decoded part, unless it is missing or empty.
pub open spec fn decoded(v: Option<Seq<char>>, f: spec_fn(Seq<char>) -> Seq<char>) -> Option<
    Seq<char>,
> {
    match v {
        Some(s) => Some(f(s)),
        None => None,
    }
}

/// The parts of the summary of a battery: its level, its state, its health, its
/// temperature as `temp`, its voltage and its technology.
pub open spec fn battery_parts(out: Seq<char>, temp: Seq<char>) -> Seq<Seq<char>> {
    told_percent(battery_field(out, "level"@)) + told(
        decoded(battery_field(out, "status"@), |s: Seq<char>| battery_status_text(s)),
    ) + told(decoded(battery_field(out, "health"@), |s: Seq<char>| battery_health_text(s))) + told(
        Some(temp),
    ) + told(decoded(battery_field(out, "voltage"@), |s: Seq<char>| s + " mV"@)) + told(
        battery_field(out, "technology"@),
    )
}

/// The summary of a battery.
pub open spec fn battery_text(answer: Option<Seq<char>>, temp: Seq<char>) -> Seq<char> {
    match answer {
        Some(out) => {
            let parts = battery_parts(out, temp);
            if parts.len() == 0 {
                NA@
            } else {
                joined(parts, " / "@)
            }
        },
        None => NA@,
    }
}

/// Adds a part to a summary, unless it is missing or empty.
fn tell(parts: &mut Vec<String>, v: Option<String>)
    ensures
        string_texts(final(parts)@) == string_texts(old(parts)@) + told(opt_text(v)),
{
    let ghost before = string_texts(parts@);
    if let Some(s) = v {
        if !s.as_str().is_empty() {
            parts.push(s);
            assert(string_texts(parts@) == before.push(s@));
        }
    }
    assert(string_texts(parts@) == before + told(opt_text(v)));
}

/// The summary of a battery, from what `dumpsys battery` prints and its
/// temperature as text.
pub fn battery(answer: &Option<String>, temp: &str) -> (r: String)
    ensures
        r@ == battery_text(opt_text(*answer), temp@),
{
    let out = match answer {
        Some(out) => out,
        None => {
            return NA.to_string();
        },
    };
    let mut parts: Vec<String> = Vec::new();
    assert(string_texts(parts@) == Seq::<Seq<char>>::empty());
    match battery_value(out.as_str(), "level") {
        Some(level) => {
            if level.as_str().is_empty() {
                tell(&mut parts, None);
            } else {
                let mut s = level;
                s.append("%");
                assert(s@.len() > 0);
                tell(&mut parts, Some(s));
            }
        },
        None => {
            tell(&mut parts, None);
        },
    }
    assert(string_texts(parts@) == told_percent(battery_field(out@, "level"@)));
    match battery_value(out.as_str(), "status") {
        Some(s) => tell(&mut parts, Some(battery_status(s.as_str()))),
        None => tell(&mut parts, None),
    }
    match battery_value(out.as_str(), "health") {
        Some(s) => tell(&mut parts, Some(battery_health(s.as_str()))),
        None => tell(&mut parts, None),
    }
    tell(&mut parts, Some(temp.to_string()));
    match battery_value(out.as_str(), "voltage") {
        Some(s) => {
            let mut v = s;
            v.append(" mV");
            tell(&mut parts, Some(v));
        },
        None => tell(&mut parts, None),
    }
    tell(&mut parts, battery_value(out.as_str(), "technology"));
    assert(string_texts(parts@) == battery_parts(out@, temp@));
    assert(string_texts(parts@).len() == parts@.len());
    if parts.len() == 0 {
        NA.to_string()
    } else {
        join(&parts, " / ")
    }
}

/// A field that was not answered is marked as such, and an answer that is not empty
/// is shown as it is.
pub proof fn law_missing_fields_are_marked()
    ensures
        or_na_text(None) == NA@,
        or_na_text(Some(Seq::empty())) == NA@,
        memory_text(None) == NA@,
        storage_texts(None) == (NA@, NA@, NA@),
        last_value_text(None) == NA@,
        ssid_text(None) == NA@,
        wifi_ip_text(None) == NA@,
        ip_text(None) == NA@,
        forall|temp: Seq<char>| battery_text(None, temp) == NA@,
        forall|key: Seq<char>| plain_wifi_text(None, key) == NA@,
        forall|s: Seq<char>| s.len() > 0 ==> or_na_text(Some(s)) == s,
{
}

/// What a device answered, for its profile.
pub struct Answers {
    /// The number of processors.
    pub cores: Option<String>,
    /// `ro.product.cpu.abi`
    pub primary_abi: Option<String>,
    /// `ro.product.board`
    pub board: Option<String>,
    /// The line of `df` for `/data`.
    pub data: Option<String>,
    /// The line `MemTotal` of `/proc/meminfo`.
    pub mem_total: Option<String>,
    /// `wm size`
    pub wm_size: Option<String>,
    /// `wm density`
    pub wm_density: Option<String>,
    /// The scale of the fonts, as it is shown.
    pub font_scale: String,
    /// The lines `mWifiInfo` of `dumpsys wifi`.
    pub wifi: Option<String>,
    /// `ip -f inet addr show wlan0`
    pub inet: Option<String>,
    /// `uname -r`
    pub kernel_release: Option<String>,
    /// `ro.build.fingerprint`
    pub fingerprint: Option<String>,
    /// `ro.build.type`
    pub build_type: Option<String>,
    /// `ro.build.version.security_patch`
    pub security_patch: Option<String>,
    /// `ro.build.display.id`
    pub display_id: Option<String>,
    /// `uname -a`
    pub kernel: Option<String>,
    /// `ro.product.cpu.abilist`
    pub abi_list: Option<String>,
    /// The highest frequency of the processor, as it is shown.
    pub max_freq: String,
    /// `ro.board.platform`
    pub platform: Option<String>,
    /// `ro.hardware`
    pub hardware: Option<String>,
    /// `dumpsys battery`
    pub battery: Option<String>,
    /// The temperature of the battery, as it is shown; empty where there is none.
    pub battery_temp: String,
    /// `settings get secure bluetooth_address`
    pub bluetooth: Option<String>,
    /// The line of `df` for `/sdcard`.
    pub sdcard: Option<String>,
    /// The line of `df` for `/data`, asked for a second time.
    pub data_later: Option<String>,
    /// `id`
    pub user: Option<String>,
    /// `persist.sys.timezone`
    pub timezone: Option<String>,
    /// `date`
    pub date: Option<String>,
    /// How far the clocks are apart, as it is shown.
    pub time_diff: String,
    /// `getprop`
    pub raw_getprop: Option<String>,
    /// `dumpsys battery`, asked for a second time.
    pub raw_battery: Option<String>,
    /// `df -h`
    pub raw_df: Option<String>,
    /// `ip addr`
    pub raw_ip: Option<String>,
}

/// One row of a section.
pub open spec fn row_text(row: (Seq<char>, Seq<char>)) -> Seq<char> {
    "- **"@ + row.0 + "**："@ + row.1 + "\n"@
}

/// The rows of a section.
pub open spec fn rows_text(rows: Seq<(Seq<char>, Seq<char>)>) -> Seq<char>
    decreases rows.len(),
{
    if rows.len() == 0 {
        Seq::empty()
    } else {
        rows_text(rows.drop_last()) + row_text(rows.last())
    }
}

/// A section of the document: its title and its rows.
pub open spec fn section_text(title: Seq<char>, rows: Seq<(Seq<char>, Seq<char>)>) -> Seq<char> {
    "## "@ + title + "\n\n"@ + rows_text(rows) + "\n"@
}

/// The texts of some rows.
pub open spec fn row_texts(rows: Seq<(&str, String)>) -> Seq<(Seq<char>, Seq<char>)> {
    Seq::new(rows.len(), |i: int| (rows[i].0@, rows[i].1@))
}

/// Adds a section to a document.
pub fn section(md: &mut String, title: &str, rows: &Vec<(&str, String)>)
    ensures
        final(md)@ == old(md)@ + section_text(title@, row_texts(rows@)),
{
    let ghost start = md@;
    md.append("## ");
    md.append(title);
    md.append("\n\n");
    let ghost head = "## "@ + title@ + "\n\n"@;
    let ghost all = row_texts(rows@);
    assert(md@ == start + (head + rows_text(all.take(0))));
    let mut i: usize = 0;
    while i < rows.len()
        invariant
            all == row_texts(rows@),
            i <= rows@.len(),
            md@ == start + (head + rows_text(all.take(i as int))),
        decreases rows@.len() - i,
    {
        assert(all.take(i + 1).drop_last() == all.take(i as int));
        assert(all.take(i + 1).last() == all[i as int]);
        let ghost before = md@;
        md.append("- **");
        md.append(rows[i].0);
        md.append("**：");
        md.append(rows[i].1.as_str());
        md.append("\n");
        assert(md@ == before + row_text(all[i as int]));
        assert(md@ == start + (head + (rows_text(all.take(i as int)) + row_text(all[i as int]))));
        i += 1;
    }
    assert(all.take(i as int) == all);
    md.append("\n");
    assert(md@ == start + section_text(title@, all));
}

/// An answer as it came, between fences.
pub open spec fn raw_text(title: Seq<char>, body: Option<Seq<char>>) -> Seq<char> {
    "### "@ + title + "\n\n```\n"@ + (match body {
        Some(s) => s,
        None => NA@,
    }) + "\n```\n\n"@
}

/// Adds an answer as it came to a document.
pub fn raw_block(md: &mut String, title: &str, body: &Option<String>)
    ensures
        final(md)@ == old(md)@ + raw_text(title@, opt_text(*body)),
{
    let ghost start = md@;
    md.append("### ");
    md.append(title);
    md.append("\n\n```\n");
    match body {
        Some(s) => md.append(s.as_str()),
        None => md.append(NA),
    }
    md.append("\n```\n\n");
    assert(md@ == start + raw_text(title@, opt_text(*body)));
}

/// The address of a device: the one that its interface has, else the one that its
/// network tells.
pub open spec fn address_text(a: Answers) -> Seq<char> {
    into_or_text(ip_text(opt_text(a.inet)), wifi_ip_text(opt_text(a.wifi)))
}

fn address(a: &Answers, wifi: &Wifi) -> (r: String)
    requires
        wifi.ip@ == wifi_ip_text(opt_text(a.wifi)),
    ensures
        r@ == address_text(*a),
{
    into_or(ip_addr(&a.inet), wifi.ip.clone())
}

/// Whether the user that commands run as is the superuser.
pub open spec fn root_text(user: Seq<char>) -> Seq<char> {
    if contains_text(user, "uid=0"@) {
        "是"@
    } else {
        "否"@
    }
}

fn rooted(user: &str) -> (r: String)
    ensures
        r@ == root_text(user@),
{
    let cs = chars_of(user);
    if contains(&cs, "uid=0") {
        "是".to_string()
    } else {
        "否".to_string()
    }
}

fn pair(a: &str, sep: &str, b: &str) -> (r: String)
    ensures
        r@ == a@ + sep@ + b@,
{
    let mut out = a.to_string();
    out.append(sep);
    out.append(b);
    out
}

fn triple(a: &str, b: &str, c: &str) -> (r: String)
    ensures
        r@ == a@ + " / "@ + b@ + " / "@ + c@,
{
    let mut out = a.to_string();
    out.append(" / ");
    out.append(b);
    out.append(" / ");
    out.append(c);
    out
}

fn suffixed(s: String, tail: &str) -> (r: String)
    ensures
        r@ == s@ + tail@,
{
    let mut out = s;
    out.append(tail);
    out
}

fn processor(board: String, cores: String, abi: String) -> (r: String)
    ensures
        r@ == board@ + " · "@ + cores@ + " 核 · "@ + abi@,
{
    let mut out = board;
    out.append(" · ");
    out.append(cores.as_str());
    out.append(" 核 · ");
    out.append(abi.as_str());
    out
}

fn with_density(size: String, density: String) -> (r: String)
    ensures
        r@ == size@ + " ("@ + density@ + "dpi)"@,
{
    let mut out = size;
    out.append(" (");
    out.append(density.as_str());
    out.append("dpi)");
    out
}

/// What matters most.
pub open spec fn key_rows(id: &Identity, a: &Answers) -> Seq<(Seq<char>, Seq<char>)> {
    seq![
        ("名称"@, id.product@),
        ("品牌"@, id.brand@),
        ("型号"@, id.model@),
        ("序列号"@, id.serial@),
        ("Android 版本"@, android_text(id.android_release@, id.api_level@)),
        ("内核版本"@, or_na_text(opt_text(a.kernel_release))),
        ("处理器"@, or_na_text(opt_text(a.board)) + " · "@ + or_na_text(opt_text(a.cores)) + " 核 · "@ + or_na_text(opt_text(a.primary_abi))),
        ("存储"@, storage_texts(opt_text(a.data)).0 + " / "@ + storage_texts(opt_text(a.data)).1),
        ("内存"@, memory_text(opt_text(a.mem_total))),
        ("物理分辨率"@, last_value_text(opt_text(a.wm_size)) + " ("@ + last_value_text(opt_text(a.wm_density)) + "dpi)"@),
        ("字体缩放"@, a.font_scale@),
        ("Wi-Fi"@, ssid_text(opt_text(a.wifi))),
        ("IP 地址"@, address_text(*a)),
        ("MAC 地址"@, plain_wifi_text(opt_text(a.wifi), "MAC:"@)),
    ]
}

fn list_key_rows(id: &Identity, a: &Answers) -> (r: Vec<(&'static str, String)>)
    ensures
        row_texts(r@) == key_rows(id, a),
{
    let data = storage(&a.data);
    let wifi = wifi_info(&a.wifi);
    let mut rows: Vec<(&'static str, String)> = Vec::new();
    rows.push(("名称", id.product.clone()));
    rows.push(("品牌", id.brand.clone()));
    rows.push(("型号", id.model.clone()));
    rows.push(("序列号", id.serial.clone()));
    rows.push(("Android 版本", id.android_label()));
    rows.push(("内核版本", or_na(&a.kernel_release)));
    rows.push(("处理器", processor(or_na(&a.board), or_na(&a.cores), or_na(&a.primary_abi))));
    rows.push(("存储", pair(data.0.as_str(), " / ", data.1.as_str())));
    rows.push(("内存", memory_total(&a.mem_total)));
    rows.push(("物理分辨率", with_density(screen(&a.wm_size), screen(&a.wm_density))));
    rows.push(("字体缩放", a.font_scale.clone()));
    rows.push(("Wi-Fi", wifi.ssid.clone()));
    rows.push(("IP 地址", address(a, &wifi)));
    rows.push(("MAC 地址", wifi.mac.clone()));
    assert(row_texts(rows@) =~= key_rows(id, a));
    rows
}

/// Who the device is.
pub open spec fn identity_rows(id: &Identity) -> Seq<(Seq<char>, Seq<char>)> {
    seq![
        ("序列号"@, id.serial@),
        ("厂商"@, id.manufacturer@),
        ("品牌"@, id.brand@),
        ("型号"@, id.model@),
        ("产品名"@, id.product@),
        ("设备代号"@, id.codename@),
    ]
}

fn list_identity_rows(id: &Identity) -> (r: Vec<(&'static str, String)>)
    ensures
        row_texts(r@) == identity_rows(id),
{
    let mut rows: Vec<(&'static str, String)> = Vec::new();
    rows.push(("序列号", id.serial.clone()));
    rows.push(("厂商", id.manufacturer.clone()));
    rows.push(("品牌", id.brand.clone()));
    rows.push(("型号", id.model.clone()));
    rows.push(("产品名", id.product.clone()));
    rows.push(("设备代号", id.codename.clone()));
    assert(row_texts(rows@) =~= identity_rows(id));
    rows
}

/// Which system it runs.
pub open spec fn system_rows(id: &Identity, a: &Answers) -> Seq<(Seq<char>, Seq<char>)> {
    seq![
        ("Android 发行版本"@, id.android_release@),
        ("API level"@, id.api_level@),
        ("Build 指纹"@, or_na_text(opt_text(a.fingerprint))),
        ("Build 类型"@, or_na_text(opt_text(a.build_type))),
        ("安全补丁级别"@, or_na_text(opt_text(a.security_patch))),
        ("Build 版本号"@, or_na_text(opt_text(a.display_id))),
        ("内核版本"@, or_na_text(opt_text(a.kernel))),
    ]
}

fn list_system_rows(id: &Identity, a: &Answers) -> (r: Vec<(&'static str, String)>)
    ensures
        row_texts(r@) == system_rows(id, a),
{
    let mut rows: Vec<(&'static str, String)> = Vec::new();
    rows.push(("Android 发行版本", id.android_release.clone()));
    rows.push(("API level", id.api_level.clone()));
    rows.push(("Build 指纹", or_na(&a.fingerprint)));
    rows.push(("Build 类型", or_na(&a.build_type)));
    rows.push(("安全补丁级别", or_na(&a.security_patch)));
    rows.push(("Build 版本号", or_na(&a.display_id)));
    rows.push(("内核版本", or_na(&a.kernel)));
    assert(row_texts(rows@) =~= system_rows(id, a));
    rows
}

/// What it is made of.
pub open spec fn hardware_rows(a: &Answers) -> Seq<(Seq<char>, Seq<char>)> {
    seq![
        ("CPU 架构 (primary ABI)"@, or_na_text(opt_text(a.primary_abi))),
        ("支持的 ABI"@, or_na_text(opt_text(a.abi_list))),
        ("CPU 核数"@, or_na_text(opt_text(a.cores))),
        ("CPU 最高频率"@, a.max_freq@),
        ("SoC / board"@, or_na_text(opt_text(a.platform)) + " / "@ + or_na_text(opt_text(a.board))),
        ("硬件平台"@, or_na_text(opt_text(a.hardware))),
        ("总内存"@, memory_text(opt_text(a.mem_total))),
        ("屏幕分辨率"@, last_value_text(opt_text(a.wm_size))),
        ("屏幕密度"@, last_value_text(opt_text(a.wm_density)) + " dpi"@),
        ("字体缩放"@, a.font_scale@),
        ("电池"@, battery_text(opt_text(a.battery), a.battery_temp@)),
    ]
}

fn list_hardware_rows(a: &Answers) -> (r: Vec<(&'static str, String)>)
    ensures
        row_texts(r@) == hardware_rows(a),
{
    let mut rows: Vec<(&'static str, String)> = Vec::new();
    rows.push(("CPU 架构 (primary ABI)", or_na(&a.primary_abi)));
    rows.push(("支持的 ABI", or_na(&a.abi_list)));
    rows.push(("CPU 核数", or_na(&a.cores)));
    rows.push(("CPU 最高频率", a.max_freq.clone()));
    rows.push(("SoC / board", pair(or_na(&a.platform).as_str(), " / ", or_na(&a.board).as_str())));
    rows.push(("硬件平台", or_na(&a.hardware)));
    rows.push(("总内存", memory_total(&a.mem_total)));
    rows.push(("屏幕分辨率", screen(&a.wm_size)));
    rows.push(("屏幕密度", suffixed(screen(&a.wm_density), " dpi")));
    rows.push(("字体缩放", a.font_scale.clone()));
    rows.push(("电池", battery(&a.battery, a.battery_temp.as_str())));
    assert(row_texts(rows@) =~= hardware_rows(a));
    rows
}

/// How it is connected.
pub open spec fn network_rows(device: &Device, a: &Answers) -> Seq<(Seq<char>, Seq<char>)> {
    seq![
        ("连接方式"@, connection_text(device@)),
        ("Wi-Fi SSID"@, ssid_text(opt_text(a.wifi))),
        ("Wi-Fi BSSID"@, plain_wifi_text(opt_text(a.wifi), "BSSID:"@)),
        ("Wi-Fi MAC"@, plain_wifi_text(opt_text(a.wifi), "MAC:"@)),
        ("当前 IP"@, address_text(*a)),
        ("蓝牙 MAC"@, or_na_text(opt_text(a.bluetooth))),
    ]
}

fn list_network_rows(device: &Device, a: &Answers) -> (r: Vec<(&'static str, String)>)
    ensures
        row_texts(r@) == network_rows(device, a),
{
    let wifi = wifi_info(&a.wifi);
    let mut rows: Vec<(&'static str, String)> = Vec::new();
    rows.push(("连接方式", device.connection_label()));
    rows.push(("Wi-Fi SSID", wifi.ssid.clone()));
    rows.push(("Wi-Fi BSSID", wifi.bssid.clone()));
    rows.push(("Wi-Fi MAC", wifi.mac.clone()));
    rows.push(("当前 IP", address(a, &wifi)));
    rows.push(("蓝牙 MAC", or_na(&a.bluetooth)));
    assert(row_texts(rows@) =~= network_rows(device, a));
    rows
}

/// How much it can hold.
pub open spec fn storage_rows(a: &Answers) -> Seq<(Seq<char>, Seq<char>)> {
    seq![
        ("/data 已用 / 总量 / 可用"@, storage_texts(opt_text(a.data)).0 + " / "@ + storage_texts(opt_text(a.data)).1 + " / "@ + storage_texts(opt_text(a.data_later)).2),
        ("/sdcard 已用 / 总量 / 可用"@, storage_texts(opt_text(a.sdcard)).0 + " / "@ + storage_texts(opt_text(a.sdcard)).1 + " / "@ + storage_texts(opt_text(a.sdcard)).2),
    ]
}

fn list_storage_rows(a: &Answers) -> (r: Vec<(&'static str, String)>)
    ensures
        row_texts(r@) == storage_rows(a),
{
    let data = storage(&a.data);
    let data_later = storage(&a.data_later);
    let sdcard = storage(&a.sdcard);
    let mut rows: Vec<(&'static str, String)> = Vec::new();
    rows.push(("/data 已用 / 总量 / 可用", triple(data.0.as_str(), data.1.as_str(), data_later.2.as_str())));
    rows.push(("/sdcard 已用 / 总量 / 可用", triple(sdcard.0.as_str(), sdcard.1.as_str(), sdcard.2.as_str())));
    assert(row_texts(rows@) =~= storage_rows(a));
    rows
}

/// How it is debugged.
pub open spec fn adb_rows(device: &Device, a: &Answers, host_adb: Seq<char>) -> Seq<(Seq<char>, Seq<char>)> {
    seq![
        ("授权状态"@, device.state@),
        ("是否 root"@, root_text(or_na_text(opt_text(a.user)))),
        ("adbd 运行用户"@, or_na_text(opt_text(a.user))),
        ("本机 adb 版本"@, host_adb),
    ]
}

fn list_adb_rows(device: &Device, a: &Answers, host_adb_version: &str) -> (r: Vec<(&'static str, String)>)
    ensures
        row_texts(r@) == adb_rows(device, a, host_adb_version@),
{
    let mut rows: Vec<(&'static str, String)> = Vec::new();
    rows.push(("授权状态", device.state.clone()));
    rows.push(("是否 root", rooted(or_na(&a.user).as_str())));
    rows.push(("adbd 运行用户", or_na(&a.user)));
    rows.push(("本机 adb 版本", host_adb_version.to_string()));
    assert(row_texts(rows@) =~= adb_rows(device, a, host_adb_version@));
    rows
}

/// Which time it keeps.
pub open spec fn time_rows(a: &Answers) -> Seq<(Seq<char>, Seq<char>)> {
    seq![
        ("设备时区"@, or_na_text(opt_text(a.timezone))),
        ("设备当前时间"@, or_na_text(opt_text(a.date))),
        ("设备与本机时间差"@, a.time_diff@),
    ]
}

fn list_time_rows(a: &Answers) -> (r: Vec<(&'static str, String)>)
    ensures
        row_texts(r@) == time_rows(a),
{
    let mut rows: Vec<(&'static str, String)> = Vec::new();
    rows.push(("设备时区", or_na(&a.timezone)));
    rows.push(("设备当前时间", or_na(&a.date)));
    rows.push(("设备与本机时间差", a.time_diff.clone()));
    assert(row_texts(rows@) =~= time_rows(a));
    rows
}

/// The document that tells about a device.
pub open spec fn document_text(
    id: &Identity,
    device: &Device,
    a: &Answers,
    buffers: Seq<char>,
    expand_note: Seq<char>,
    host_adb: Seq<char>,
) -> Seq<char> {
    "# 设备档案 · "@ + id.model@
        + "\n\n> 由 jj-android-device 于选中设备、开始采集前自动生成。任一字段不可用标注「"@ + NA@
        + "」。\n\n"@ + section_text("关键信息"@, key_rows(id, a)) + section_text(
        "身份"@,
        identity_rows(id),
    ) + section_text("系统"@, system_rows(id, a)) + section_text("硬件"@, hardware_rows(a))
        + section_text("网络"@, network_rows(device, a)) + section_text("存储"@, storage_rows(a))
        + section_text("adb 与调试"@, adb_rows(device, a, host_adb))
        + "## logcat 能力\n\n- **扩容结果**："@ + expand_note
        + "\n- **各 buffer 当前大小**：\n\n```\n"@ + trim_text(buffers) + "\n```\n\n"@
        + section_text("时区与时间"@, time_rows(a)) + "## 原始快照\n\n"@ + raw_text(
        "getprop"@,
        opt_text(a.raw_getprop),
    ) + raw_text("dumpsys battery"@, opt_text(a.raw_battery)) + raw_text(
        "df -h"@,
        opt_text(a.raw_df),
    ) + raw_text("ip addr"@, opt_text(a.raw_ip))
}

/// The document that tells about a device.
pub fn generate(
    id: &Identity,
    device: &Device,
    a: &Answers,
    buffers: &str,
    expand_note: &str,
    host_adb_version: &str,
) -> (r: String)
    ensures
        r@ == document_text(id, device, a, buffers@, expand_note@, host_adb_version@),
{
    let mut md = "# 设备档案 · ".to_string();
    md.append(id.model.as_str());
    md.append("\n\n> 由 jj-android-device 于选中设备、开始采集前自动生成。任一字段不可用标注「");
    md.append(NA);
    md.append("」。\n\n");
    section(&mut md, "关键信息", &list_key_rows(id, a));
    section(&mut md, "身份", &list_identity_rows(id));
    section(&mut md, "系统", &list_system_rows(id, a));
    section(&mut md, "硬件", &list_hardware_rows(a));
    section(&mut md, "网络", &list_network_rows(device, a));
    section(&mut md, "存储", &list_storage_rows(a));
    section(&mut md, "adb 与调试", &list_adb_rows(device, a, host_adb_version));
    md.append("## logcat 能力\n\n- **扩容结果**：");
    md.append(expand_note);
    md.append("\n- **各 buffer 当前大小**：\n\n```\n");
    let cs = chars_of(buffers);
    md.append(string_of(trim(&cs)).as_str());
    md.append("\n```\n\n");
    section(&mut md, "时区与时间", &list_time_rows(a));
    md.append("## 原始快照\n\n");
    raw_block(&mut md, "getprop", &a.raw_getprop);
    raw_block(&mut md, "dumpsys battery", &a.raw_battery);
    raw_block(&mut md, "df -h", &a.raw_df);
    raw_block(&mut md, "ip addr", &a.raw_ip);
    md
}

/// A field that could not be had gives way to another, and every other field stays.
pub proof fn law_placeholder_gives_way(s: Seq<char>, default: Seq<char>)
    ensures
        into_or_text("不可用"@, default) == default,
        s != "不可用"@ ==> into_or_text(s, default) == s,
        or_na_text(Some(s)) == (if s.len() > 0 {
            s
        } else {
            "不可用"@
        }),
        or_na_text(None) == "不可用"@,
{
}

/// The version of the system is told with its level.
pub proof fn law_system_is_told_with_its_level(release: Seq<char>, api: Seq<char>)
    ensures
        starts_with_text(android_text(release, api), "Android "@ + release + " (API "@),
        ends_with_text(android_text(release, api), " (API "@ + api + ")"@),
{
    let s = android_text(release, api);
    let head = "Android "@ + release + " (API "@;
    assert(s =~= head + (api + ")"@));
    lemma_first_and_last_part(head, api + ")"@);
    let tail = " (API "@ + api + ")"@;
    assert(s =~= ("Android "@ + release) + tail);
    lemma_first_and_last_part("Android "@ + release, tail);
}

/// A number of kibibytes is told as what 1024 times as many bytes are.
pub proof fn law_kibibytes_are_told(k: nat)
    ensures
        1024 * k <= u64::MAX ==> kib_text(dec(k)) == Some(gib_text(1024 * k)),
        1024 * k > u64::MAX ==> kib_text(dec(k)) is None,
{
    if k <= u64::MAX {
        law_unsigned_roundtrip(k, u64::MAX as nat);
    } else {
        lemma_dec(k);
        let d = dec(k);
        assert(crate::number::is_digit(d[0]));
    }
}

/// The memory is the number behind the first word of its line, in kibibytes.
pub proof fn law_memory_is_the_second_word(line: Seq<char>, k: nat)
    requires
        1024 * k <= u64::MAX,
    ensures
        words_of(line).len() >= 2 && words_of(line)[1] == dec(k) ==> memory_text(Some(line))
            == gib_text(1024 * k),
        words_of(line).len() < 2 ==> memory_text(Some(line)) == "不可用"@,
{
    law_kibibytes_are_told(k);
}

/// The space of a mount point stands behind the first word of its line: in all, used and
/// free, in kibibytes. It is told as used, in all and free.
pub proof fn law_space_is_told_in_order(line: Seq<char>, total: nat, used: nat, free: nat)
    requires
        1024 * total <= u64::MAX,
        1024 * used <= u64::MAX,
        1024 * free <= u64::MAX,
    ensures
        words_of(line).len() >= 4 && words_of(line)[1] == dec(total) && words_of(line)[2] == dec(used)
            && words_of(line)[3] == dec(free) ==> storage_texts(Some(line)) == (
            gib_text(1024 * used),
            gib_text(1024 * total),
            gib_text(1024 * free),
        ),
        words_of(line).len() < 4 ==> storage_texts(Some(line)) == ("不可用"@, "不可用"@, "不可用"@),
{
    law_kibibytes_are_told(total);
    law_kibibytes_are_told(used);
    law_kibibytes_are_told(free);
}

proof fn lemma_last_some<A>(ls: Seq<Seq<char>>, f: spec_fn(Seq<char>) -> Option<A>, i: int)
    requires
        0 <= i < ls.len(),
        f(ls[i]) is Some,
        forall|j: int| i < j < ls.len() ==> f(#[trigger] ls[j]) is None,
    ensures
        last_some(ls, f) == f(ls[i]),
    decreases ls.len(),
{
    if i < ls.len() - 1 {
        let front = ls.drop_last();
        assert(f(ls[ls.len() - 1]) is None);
        assert(front[i] == ls[i]);
        assert forall|j: int| i < j < front.len() implies f(#[trigger] front[j]) is None by {
            assert(f(ls[j]) is None);
        }
        lemma_last_some(front, f, i);
    } else {
        assert(ls.last() == ls[i]);
    }
}

proof fn lemma_first_some<A>(ls: Seq<Seq<char>>, f: spec_fn(Seq<char>) -> Option<A>, i: int)
    requires
        0 <= i < ls.len(),
        f(ls[i]) is Some,
        forall|j: int| 0 <= j < i ==> f(#[trigger] ls[j]) is None,
    ensures
        first_some(ls, f) == f(ls[i]),
    decreases ls.len(),
{
    if i > 0 {
        let rest = ls.skip(1);
        assert(f(ls[0]) is None);
        assert(rest[i - 1] == ls[i]);
        assert forall|j: int| 0 <= j < i - 1 implies f(#[trigger] rest[j]) is None by {
            assert(f(ls[j + 1]) is None);
        }
        lemma_first_some(rest, f, i - 1);
    }
}

/// A property of the screen is what stands behind the last colon of the last line that has
/// one, without white space around it.
pub proof fn law_last_line_with_a_colon_counts(
    s: Seq<char>,
    i: int,
    pre: Seq<char>,
    a: Seq<char>,
    v: Seq<char>,
    b: Seq<char>,
)
    requires
        0 <= i < lines_of(s).len(),
        lines_of(s)[i] == pre + seq![':'] + (a + v + b),
        forall|k: int| 0 <= k < a.len() ==> is_white(#[trigger] a[k]),
        forall|k: int| 0 <= k < b.len() ==> is_white(#[trigger] b[k]),
        forall|k: int| 0 <= k < v.len() ==> #[trigger] v[k] != ':',
        v.len() > 0 ==> !is_white(v[0]) && !is_white(v.last()),
        forall|j: int, k: int|
            i < j < lines_of(s).len() && 0 <= k < lines_of(s)[j].len() ==> #[trigger] lines_of(
                s,
            )[j][k] != ':',
    ensures
        last_value_text(Some(s)) == v,
{
    let ls = lines_of(s);
    let f = |l: Seq<char>| value_of(l);
    let t = a + v + b;
    assert forall|k: int| 0 <= k < t.len() implies #[trigger] t[k] != ':' by {
        if k < a.len() {
            assert(t[k] == a[k]);
        } else if k < a.len() + v.len() {
            assert(t[k] == v[k - a.len()]);
        } else {
            assert(t[k] == b[k - a.len() - v.len()]);
        }
    }
    law_text_is_split_at_a_character(pre, ':', t);
    law_trim_takes_white_space_away(a, v, b);
    assert(f(ls[i]) == Some(v));
    assert forall|j: int| i < j < ls.len() implies f(#[trigger] ls[j]) is None by {
        assert forall|k: int| 0 <= k < ls[j].len() implies #[trigger] ls[j][k] != ':' by {}
        law_text_is_split_at_a_character(ls[j], ':', t);
    }
    lemma_last_some(ls, f, i);
}

/// A field of a line is what stands behind the first occurrence of its key, up to the next
/// comma or the end, without white space around it; an empty field is none.
pub proof fn law_field_ends_at_the_comma(
    pre: Seq<char>,
    key: Seq<char>,
    a: Seq<char>,
    v: Seq<char>,
    b: Seq<char>,
    rest: Seq<char>,
)
    requires
        forall|x: Seq<char>, y: Seq<char>|
            x.len() < pre.len() ==> pre + key + (a + v + b + rest) != #[trigger] (x + key + y),
        forall|k: int| 0 <= k < a.len() ==> is_white(#[trigger] a[k]),
        forall|k: int| 0 <= k < b.len() ==> is_white(#[trigger] b[k]),
        forall|k: int| 0 <= k < v.len() ==> #[trigger] v[k] != ',',
        v.len() > 0 ==> !is_white(v[0]) && !is_white(v.last()),
        rest.len() > 0 ==> rest[0] == ',',
    ensures
        field_text(pre + key + (a + v + b + rest), key) == if v.len() > 0 {
            Some(v)
        } else {
            None
        },
{
    let t = a + v + b + rest;
    let line = pre + key + t;
    law_first_occurrence_is_found(pre, key, t);
    assert(line.skip((pre.len() + key.len()) as int) =~= t);
    let none = Seq::<char>::empty();
    // The white space before the value is skipped; a comma or the end is not.
    let core = v + b + rest;
    let w = v + b;
    if v.len() > 0 {
        lemma_trim_start(a, core);
        lemma_before_comma(w, rest);
        law_trim_takes_white_space_away(none, v, b);
        assert(none + v + b =~= w);
    } else {
        let ab = a + b;
        assert(t =~= ab + rest);
        assert forall|k: int| 0 <= k < ab.len() implies is_white(#[trigger] ab[k]) by {
            if k < a.len() {
                assert(is_white(a[k]));
            } else {
                assert(is_white(b[k - a.len()]));
            }
        }
        if rest.len() > 0 {
            lemma_trim_start(ab, rest);
        } else {
            assert(t =~= ab);
            assert(ab + none =~= ab);
            lemma_run_end(ab, white(), 0, ab.len() as int);
            assert(ab.skip(ab.len() as int) =~= none);
        }
        assert(none + rest =~= rest);
        lemma_before_comma(none, rest);
        assert(trim_start_text(t) == rest);
        law_trim_takes_white_space_away(none, none, none);
        assert(none + none + none =~= none);
    }
    assert(a + core =~= t);
}

proof fn lemma_trim_start(a: Seq<char>, s: Seq<char>)
    requires
        forall|k: int| 0 <= k < a.len() ==> is_white(#[trigger] a[k]),
        s.len() > 0,
        !is_white(s[0]),
    ensures
        trim_start_text(a + s) == s,
{
    let t = a + s;
    assert forall|k: int| 0 <= k < a.len() implies white()(#[trigger] t[k]) by {
        assert(t[k] == a[k]);
    }
    assert(t[a.len() as int] == s[0]);
    lemma_run_end(t, white(), 0, a.len() as int);
    assert(t.skip(a.len() as int) =~= s);
}

proof fn lemma_before_comma(w: Seq<char>, rest: Seq<char>)
    requires
        forall|k: int| 0 <= k < w.len() ==> #[trigger] w[k] != ',',
        rest.len() > 0 ==> rest[0] == ',',
    ensures
        before_first(w + rest, ',') == w,
{
    law_text_is_split_at_a_character(w, ',', rest.skip(1));
    if rest.len() > 0 {
        assert(w + rest =~= w + seq![','] + rest.skip(1));
    } else {
        assert(w + rest =~= w);
    }
}

/// The network is told by the first line that holds `SSID:`: its name without quotation
/// marks, its address without slashes before it, and the other fields as they are.
pub proof fn law_network_is_told_by_its_line(
    s: Seq<char>,
    i: int,
    key: Seq<char>,
    n: nat,
    v: Seq<char>,
    m: nat,
)
    requires
        0 <= i < lines_of(s).len(),
        exists|x: Seq<char>, y: Seq<char>| lines_of(s)[i] == #[trigger] (x + "SSID:"@ + y),
        forall|j: int|
            0 <= j < i ==> !contains_text(#[trigger] lines_of(s)[j], "SSID:"@),
        v.len() > 0,
    ensures
        plain_wifi_text(Some(s), key) == match field_text(lines_of(s)[i], key) {
            Some(x) => x,
            None => "不可用"@,
        },
        v[0] != '"' && v.last() != '"' && field_text(lines_of(s)[i], "SSID:"@) == Some(
            Seq::new(n, |k: int| '"') + v + Seq::new(m, |k: int| '"'),
        ) ==> ssid_text(Some(s)) == v,
        v[0] != '/' && field_text(lines_of(s)[i], "IP:"@) == Some(Seq::new(n, |k: int| '/') + v)
            ==> wifi_ip_text(Some(s)) == v,
{
    let ls = lines_of(s);
    let f = |l: Seq<char>|
        if contains_text(l, "SSID:"@) {
            Some(l)
        } else {
            None
        };
    law_contains_is_in_between(ls[i], "SSID:"@);
    assert(f(ls[i]) == Some(ls[i]));
    assert forall|j: int| 0 <= j < i implies f(#[trigger] ls[j]) is None by {
        assert(!contains_text(ls[j], "SSID:"@));
    }
    lemma_first_some(ls, f, i);
    assert(wifi_line(Some(s)) == Some(ls[i]));
    let q = Seq::new(n, |k: int| '"');
    let r = Seq::new(m, |k: int| '"');
    if v[0] != '"' && v.last() != '"' {
        law_characters_are_stripped(n, v, m, '"');
        let t = v + r;
        assert(t[0] == v[0]);
        let e = q + v + r;
        assert(e =~= q + t);
        lemma_strip_start(n, t, '"');
    }
    if v[0] != '/' {
        lemma_strip_start(n, v, '/');
    }
}

proof fn lemma_strip_start(n: nat, s: Seq<char>, d: char)
    requires
        s.len() > 0,
        s[0] != d,
    ensures
        strip_start_text(Seq::new(n, |k: int| d) + s, d) == s,
{
    let t = Seq::new(n, |k: int| d) + s;
    assert forall|k: int| 0 <= k < n implies equal_to(d)(#[trigger] t[k]) by {}
    assert(t[n as int] == s[0]);
    lemma_run_end(t, equal_to(d), 0, n as int);
    assert(t.skip(n as int) =~= s);
}

/// The address of an interface stands behind `inet` on the first line that starts so, up
/// to the slash before the length of its prefix.
pub proof fn law_address_is_on_its_line(
    s: Seq<char>,
    i: int,
    a: Seq<char>,
    addr: Seq<char>,
    rest: Seq<char>,
    b: Seq<char>,
)
    requires
        0 <= i < lines_of(s).len(),
        forall|k: int| 0 <= k < a.len() ==> is_white(#[trigger] a[k]),
        forall|k: int| 0 <= k < b.len() ==> is_white(#[trigger] b[k]),
        forall|k: int| 0 <= k < addr.len() ==> #[trigger] addr[k] != '/',
        rest.len() > 0,
        !is_white(rest.last()),
        lines_of(s)[i] == a + ("inet "@ + addr + seq!['/'] + rest) + b,
        forall|j: int|
            0 <= j < i ==> !starts_with_text(trim_text(#[trigger] lines_of(s)[j]), "inet "@),
    ensures
        ip_text(Some(s)) == addr,
{
    reveal_strlit("inet ");
    let ls = lines_of(s);
    let f = |l: Seq<char>| inet_text(l);
    let t = "inet "@ + addr + seq!['/'] + rest;
    assert(t[0] == 'i');
    assert(t.last() == rest.last());
    law_trim_takes_white_space_away(a, t, b);
    let v = addr + seq!['/'] + rest;
    assert(t =~= "inet "@ + v);
    law_start_and_end_of_a_text(t, "inet "@);
    law_text_is_split_at_a_character(addr, '/', rest);
    assert(f(ls[i]) == Some(addr));
    assert forall|j: int| 0 <= j < i implies f(#[trigger] ls[j]) is None by {
        assert(!starts_with_text(trim_text(lines_of(s)[j]), "inet "@));
    }
    lemma_first_some(ls, f, i);
}

/// A value of the battery is what stands behind its key on the first line that starts with
/// it, without the colons before it and the white space around it.
pub proof fn law_battery_value_is_on_its_line(
    out: Seq<char>,
    i: int,
    a: Seq<char>,
    key: Seq<char>,
    n: nat,
    gap: Seq<char>,
    v: Seq<char>,
    b: Seq<char>,
)
    requires
        0 <= i < lines_of(out).len(),
        key.len() > 0,
        !is_white(key[0]),
        !is_white(key.last()),
        forall|k: int| 0 <= k < a.len() ==> is_white(#[trigger] a[k]),
        forall|k: int| 0 <= k < gap.len() ==> is_white(#[trigger] gap[k]),
        forall|k: int| 0 <= k < b.len() ==> is_white(#[trigger] b[k]),
        v.len() == 0 ==> gap.len() == 0,
        v.len() > 0 ==> !is_white(v[0]) && !is_white(v.last()) && v[0] != ':',
        lines_of(out)[i] == a + (key + Seq::new(n, |k: int| ':') + gap + v) + b,
        forall|j: int|
            0 <= j < i ==> !starts_with_text(trim_text(#[trigger] lines_of(out)[j]), key),
    ensures
        battery_field(out, key) == Some(v),
{
    let ls = lines_of(out);
    let f = keyed(key);
    let c = Seq::new(n, |k: int| ':');
    let t = key + c + gap + v;
    assert(t[0] == key[0]);
    if v.len() > 0 {
        assert(t.last() == v.last());
    } else if n > 0 {
        assert(t.last() == ':');
    } else {
        assert(t.last() == key.last());
    }
    law_trim_takes_white_space_away(a, t, b);
    let g = gap + v;
    let w = c + g;
    assert(t =~= key + w);
    law_start_and_end_of_a_text(t, key);
    let none = Seq::<char>::empty();
    if v.len() > 0 {
        if gap.len() > 0 {
            assert(is_white(gap[0]));
            assert(g[0] == gap[0]);
        } else {
            assert(g[0] == v[0]);
        }
        lemma_strip_start(n, g, ':');
        law_trim_takes_white_space_away(gap, v, none);
        assert(gap + v + none =~= g);
    } else {
        assert(w =~= c);
        assert forall|k: int| 0 <= k < n implies equal_to(':')(#[trigger] w[k]) by {}
        lemma_run_end(w, equal_to(':'), 0, n as int);
        assert(w.skip(n as int) =~= none);
        law_trim_takes_white_space_away(none, none, none);
        assert(none + none + none =~= none);
        assert(v =~= none);
    }
    assert(f(ls[i]) == Some(v));
    assert forall|j: int| 0 <= j < i implies f(#[trigger] ls[j]) is None by {
        assert(!starts_with_text(trim_text(lines_of(out)[j]), key));
    }
    lemma_first_some(ls, f, i);
}

/// The numbers of the battery are told in words, each in its own, and what is no such
/// number is told as it is.
pub proof fn law_battery_numbers_are_told_in_words(s: Seq<char>)
    ensures
        battery_status_text(seq!['1']) == "未知"@,
        battery_status_text(seq!['2']) == "充电中"@,
        battery_status_text(seq!['3']) == "放电中"@,
        battery_status_text(seq!['4']) == "未充电"@,
        battery_status_text(seq!['5']) == "已充满"@,
        battery_health_text(seq!['1']) == "未知"@,
        battery_health_text(seq!['2']) == "良好"@,
        battery_health_text(seq!['3']) == "过热"@,
        battery_health_text(seq!['4']) == "损坏"@,
        battery_health_text(seq!['5']) == "过压"@,
        battery_health_text(seq!['6']) == "未知故障"@,
        battery_health_text(seq!['7']) == "过冷"@,
        s.len() != 1 || !('1' <= s[0] <= '5') ==> battery_status_text(s) == s,
        s.len() != 1 || !('1' <= s[0] <= '7') ==> battery_health_text(s) == s,
{
    reveal_strlit("1");
    reveal_strlit("2");
    reveal_strlit("3");
    reveal_strlit("4");
    reveal_strlit("5");
    reveal_strlit("6");
    reveal_strlit("7");
    assert("1"@ =~= seq!['1']);
    assert("2"@ =~= seq!['2']);
    assert("3"@ =~= seq!['3']);
    assert("4"@ =~= seq!['4']);
    assert("5"@ =~= seq!['5']);
    assert("6"@ =~= seq!['6']);
    assert("7"@ =~= seq!['7']);
    assert(seq!['1'][0] == '1');
    assert(seq!['2'][0] == '2');
    assert(seq!['3'][0] == '3');
    assert(seq!['4'][0] == '4');
    assert(seq!['5'][0] == '5');
    assert(seq!['6'][0] == '6');
    assert(seq!['7'][0] == '7');
}

/// The battery is told by its level, its state, its health, its temperature, its voltage
/// and its technology, in that order; a value that is missing is left out.
pub proof fn law_battery_is_told_in_order(
    out: Seq<char>,
    temp: Seq<char>,
    level: Seq<char>,
    status: Seq<char>,
    health: Seq<char>,
    voltage: Seq<char>,
    technology: Seq<char>,
)
    requires
        level.len() > 0,
        voltage.len() > 0,
        technology.len() > 0,
        battery_status_text(status).len() > 0,
        battery_health_text(health).len() > 0,
    ensures
        battery_field(out, "level"@) == Some(level) && battery_field(out, "status"@) == Some(status)
            && battery_field(out, "health"@) == Some(health) && battery_field(out, "voltage"@)
            == Some(voltage) && battery_field(out, "technology"@) == Some(technology) ==> battery_text(
            Some(out),
            temp,
        ) == if temp.len() > 0 {
            level + "%"@ + " / "@ + battery_status_text(status) + " / "@ + battery_health_text(
                health,
            ) + " / "@ + temp + " / "@ + (voltage + " mV"@) + " / "@ + technology
        } else {
            level + "%"@ + " / "@ + battery_status_text(status) + " / "@ + battery_health_text(
                health,
            ) + " / "@ + (voltage + " mV"@) + " / "@ + technology
        },
        battery_field(out, "level"@) == Some(level) && battery_field(out, "status"@) is None
            && battery_field(out, "health"@) is None && battery_field(out, "voltage"@) is None
            && battery_field(out, "technology"@) is None && temp.len() == 0 ==> battery_text(
            Some(out),
            temp,
        ) == level + "%"@,
{
    let p = battery_parts(out, temp);
    if battery_field(out, "level"@) == Some(level) && battery_field(out, "status"@) == Some(status)
        && battery_field(out, "health"@) == Some(health) && battery_field(out, "voltage"@) == Some(
        voltage,
    ) && battery_field(out, "technology"@) == Some(technology) {
        let l = level + "%"@;
        let s = battery_status_text(status);
        let h = battery_health_text(health);
        let v = voltage + " mV"@;
        if temp.len() > 0 {
            assert(p =~= seq![l, s, h, temp, v, technology]);
            lemma_six_joined(l, s, h, temp, v, technology, " / "@);
        } else {
            assert(p =~= seq![l, s, h, v, technology]);
            lemma_five_joined(l, s, h, v, technology, " / "@);
        }
    }
    if battery_field(out, "level"@) == Some(level) && battery_field(out, "status"@) is None
        && battery_field(out, "health"@) is None && battery_field(out, "voltage"@) is None
        && battery_field(out, "technology"@) is None && temp.len() == 0 {
        let l = level + "%"@;
        assert(p =~= seq![l]);
        law_joined_in_two_parts(seq![l], seq![l], " / "@);
        assert(seq![seq![l][0]] =~= seq![l]);
    }
}

proof fn lemma_five_joined(
    a: Seq<char>,
    b: Seq<char>,
    c: Seq<char>,
    d: Seq<char>,
    e: Seq<char>,
    sep: Seq<char>,
)
    ensures
        joined(seq![a, b, c, d, e], sep) == a + sep + b + sep + c + sep + d + sep + e,
{
    let s5 = seq![a, b, c, d, e];
    let s4 = seq![a, b, c, d];
    let s3 = seq![a, b, c];
    let s2 = seq![a, b];
    let s1 = seq![a];
    assert(s5.drop_last() =~= s4);
    assert(s4.drop_last() =~= s3);
    assert(s3.drop_last() =~= s2);
    assert(s2.drop_last() =~= s1);
    assert(joined(s1, sep) == a);
    assert(joined(s2, sep) == a + sep + b);
    assert(joined(s3, sep) == a + sep + b + sep + c);
    assert(joined(s4, sep) == a + sep + b + sep + c + sep + d);
}

proof fn lemma_six_joined(
    a: Seq<char>,
    b: Seq<char>,
    c: Seq<char>,
    d: Seq<char>,
    e: Seq<char>,
    f: Seq<char>,
    sep: Seq<char>,
)
    ensures
        joined(seq![a, b, c, d, e, f], sep) == a + sep + b + sep + c + sep + d + sep + e + sep + f,
{
    lemma_five_joined(a, b, c, d, e, sep);
    assert(seq![a, b, c, d, e, f].drop_last() =~= seq![a, b, c, d, e]);
}

/// A section has its title, a row for each of its fields in their order, and an empty
/// line at its end.
pub proof fn law_section_has_a_row_for_each_field(
    title: Seq<char>,
    a: Seq<(Seq<char>, Seq<char>)>,
    label: Seq<char>,
    value: Seq<char>,
    b: Seq<(Seq<char>, Seq<char>)>,
)
    ensures
        rows_text(a + b) == rows_text(a) + rows_text(b),
        rows_text(seq![(label, value)]) == "- **"@ + label + "**："@ + value + "\n"@,
        section_text(title, a) == "## "@ + title + "\n\n"@ + rows_text(a) + "\n"@,
    decreases b.len(),
{
    let one = seq![(label, value)];
    assert(one.drop_last() =~= Seq::<(Seq<char>, Seq<char>)>::empty());
    assert(rows_text(one.drop_last()) =~= Seq::<char>::empty());
    assert(rows_text(one) =~= row_text((label, value)));
    if b.len() == 0 {
        assert(a + b =~= a);
        assert(rows_text(a) + rows_text(b) =~= rows_text(a));
    } else {
        assert((a + b).drop_last() =~= a + b.drop_last());
        assert((a + b).last() == b.last());
        law_section_has_a_row_for_each_field(title, a, label, value, b.drop_last());
        assert(rows_text(a + b) =~= rows_text(a) + rows_text(b));
    }
}

/// An answer is kept as it came, between fences and under its title.
pub proof fn law_answer_is_kept_as_it_came(title: Seq<char>, body: Seq<char>)
    ensures
        raw_text(title, Some(body)) == "### "@ + title + "\n\n```\n"@ + body + "\n```\n\n"@,
        raw_text(title, None) == raw_text(title, Some("不可用"@)),
{
}

/// Commands run as the superuser exactly where the user has the number zero.
pub proof fn law_root_is_told_by_its_number(a: Seq<char>, b: Seq<char>, user: Seq<char>)
    ensures
        root_text(a + "uid=0"@ + b) == "是"@,
        (forall|x: Seq<char>, y: Seq<char>| user != #[trigger] (x + "uid=0"@ + y)) ==> root_text(user)
            == "否"@,
{
    lemma_contains_between(a, "uid=0"@, b);
    if forall|x: Seq<char>, y: Seq<char>| user != #[trigger] (x + "uid=0"@ + y) {
        law_absent_text_is_not_found(user, "uid=0"@);
    }
}

/// The address of a device is that of its interface where it has one, else that of its
/// network.
pub proof fn law_interface_comes_before_network(a: Answers)
    ensures
        ip_text(opt_text(a.inet)) != "不可用"@ ==> address_text(a) == ip_text(opt_text(a.inet)),
        ip_text(opt_text(a.inet)) == "不可用"@ ==> address_text(a) == wifi_ip_text(opt_text(a.wifi)),
{
}

/// What matters most of a device is told in fourteen rows, each under its own name.
pub proof fn law_key_rows_are_told(id: &Identity, a: &Answers)
    ensures
        ({
            let r = key_rows(id, a);
            &&& r.len() == 14
            &&& r[0] == ("名称"@, id.product@)
            &&& r[1] == ("品牌"@, id.brand@)
            &&& r[2] == ("型号"@, id.model@)
            &&& r[3] == ("序列号"@, id.serial@)
            &&& r[4] == ("Android 版本"@, android_text(id.android_release@, id.api_level@))
            &&& r[5] == ("内核版本"@, or_na_text(opt_text(a.kernel_release)))
            &&& starts_with_text(r[6].1, or_na_text(opt_text(a.board)) + " · "@)
            &&& contains_text(r[6].1, " · "@ + or_na_text(opt_text(a.cores)) + " 核 · "@)
            &&& ends_with_text(r[6].1, " · "@ + or_na_text(opt_text(a.primary_abi)))
            &&& r[7] == (
                "存储"@,
                storage_texts(opt_text(a.data)).0 + " / "@ + storage_texts(opt_text(a.data)).1,
            )
            &&& r[8] == ("内存"@, memory_text(opt_text(a.mem_total)))
            &&& r[9] == (
                "物理分辨率"@,
                last_value_text(opt_text(a.wm_size)) + " ("@ + last_value_text(
                    opt_text(a.wm_density),
                ) + "dpi)"@,
            )
            &&& r[10] == ("字体缩放"@, a.font_scale@)
            &&& r[11] == ("Wi-Fi"@, ssid_text(opt_text(a.wifi)))
            &&& r[12] == ("IP 地址"@, address_text(*a))
            &&& r[13] == ("MAC 地址"@, plain_wifi_text(opt_text(a.wifi), "MAC:"@))
        }),
{
    let board = or_na_text(opt_text(a.board));
    let cores = or_na_text(opt_text(a.cores));
    let abi = or_na_text(opt_text(a.primary_abi));
    let s = board + " · "@ + cores + " 核 · "@ + abi;
    assert(key_rows(id, a)[6].1 == s);
    assert(starts_with_text(s, board + " · "@)) by {
        assert(s =~= (board + " · "@) + (cores + " 核 · "@ + abi));
        lemma_first_and_last_part(board + " · "@, cores + " 核 · "@ + abi);
    }
    assert(contains_text(s, " · "@ + cores + " 核 · "@)) by {
        assert(s =~= board + (" · "@ + cores + " 核 · "@) + abi);
        lemma_contains_between(board, " · "@ + cores + " 核 · "@, abi);
    }
    assert(ends_with_text(s, " · "@ + abi)) by {
        assert(" 核 · "@ =~= " 核"@ + " · "@) by {
            reveal_strlit(" · ");
            reveal_strlit(" 核 · ");
            reveal_strlit(" 核");
        }
        assert(s =~= (board + " · "@ + cores + " 核"@) + (" · "@ + abi));
        lemma_first_and_last_part(board + " · "@ + cores + " 核"@, " · "@ + abi);
    }
}

/// The other sections have a row for each field, under its own name.
pub proof fn law_rows_are_told(id: &Identity, device: &Device, a: &Answers, host_adb: Seq<char>)
    ensures
        ({
            let r = identity_rows(id);
            &&& r.len() == 6
            &&& r[0] == ("序列号"@, id.serial@)
            &&& r[1] == ("厂商"@, id.manufacturer@)
            &&& r[2] == ("品牌"@, id.brand@)
            &&& r[3] == ("型号"@, id.model@)
            &&& r[4] == ("产品名"@, id.product@)
            &&& r[5] == ("设备代号"@, id.codename@)
        }),
        ({
            let r = system_rows(id, a);
            &&& r.len() == 7
            &&& r[0] == ("Android 发行版本"@, id.android_release@)
            &&& r[1] == ("API level"@, id.api_level@)
            &&& r[2] == ("Build 指纹"@, or_na_text(opt_text(a.fingerprint)))
            &&& r[3] == ("Build 类型"@, or_na_text(opt_text(a.build_type)))
            &&& r[4] == ("安全补丁级别"@, or_na_text(opt_text(a.security_patch)))
            &&& r[5] == ("Build 版本号"@, or_na_text(opt_text(a.display_id)))
            &&& r[6] == ("内核版本"@, or_na_text(opt_text(a.kernel)))
        }),
        ({
            let r = hardware_rows(a);
            &&& r.len() == 11
            &&& r[0] == ("CPU 架构 (primary ABI)"@, or_na_text(opt_text(a.primary_abi)))
            &&& r[1] == ("支持的 ABI"@, or_na_text(opt_text(a.abi_list)))
            &&& r[2] == ("CPU 核数"@, or_na_text(opt_text(a.cores)))
            &&& r[3] == ("CPU 最高频率"@, a.max_freq@)
            &&& r[4] == (
                "SoC / board"@,
                or_na_text(opt_text(a.platform)) + " / "@ + or_na_text(opt_text(a.board)),
            )
            &&& r[5] == ("硬件平台"@, or_na_text(opt_text(a.hardware)))
            &&& r[6] == ("总内存"@, memory_text(opt_text(a.mem_total)))
            &&& r[7] == ("屏幕分辨率"@, last_value_text(opt_text(a.wm_size)))
            &&& r[8] == ("屏幕密度"@, last_value_text(opt_text(a.wm_density)) + " dpi"@)
            &&& r[9] == ("字体缩放"@, a.font_scale@)
            &&& r[10] == ("电池"@, battery_text(opt_text(a.battery), a.battery_temp@))
        }),
        ({
            let r = network_rows(device, a);
            &&& r.len() == 6
            &&& r[0] == ("连接方式"@, connection_text(device@))
            &&& r[1] == ("Wi-Fi SSID"@, ssid_text(opt_text(a.wifi)))
            &&& r[2] == ("Wi-Fi BSSID"@, plain_wifi_text(opt_text(a.wifi), "BSSID:"@))
            &&& r[3] == ("Wi-Fi MAC"@, plain_wifi_text(opt_text(a.wifi), "MAC:"@))
            &&& r[4] == ("当前 IP"@, address_text(*a))
            &&& r[5] == ("蓝牙 MAC"@, or_na_text(opt_text(a.bluetooth)))
        }),
        ({
            let r = storage_rows(a);
            let d = storage_texts(opt_text(a.data));
            let c = storage_texts(opt_text(a.sdcard));
            &&& r.len() == 2
            &&& r[0] == (
                "/data 已用 / 总量 / 可用"@,
                d.0 + " / "@ + d.1 + " / "@ + storage_texts(opt_text(a.data_later)).2,
            )
            &&& r[1] == ("/sdcard 已用 / 总量 / 可用"@, c.0 + " / "@ + c.1 + " / "@ + c.2)
        }),
        ({
            let r = adb_rows(device, a, host_adb);
            &&& r.len() == 4
            &&& r[0] == ("授权状态"@, device.state@)
            &&& r[1] == ("是否 root"@, root_text(or_na_text(opt_text(a.user))))
            &&& r[2] == ("adbd 运行用户"@, or_na_text(opt_text(a.user)))
            &&& r[3] == ("本机 adb 版本"@, host_adb)
        }),
        ({
            let r = time_rows(a);
            &&& r.len() == 3
            &&& r[0] == ("设备时区"@, or_na_text(opt_text(a.timezone)))
            &&& r[1] == ("设备当前时间"@, or_na_text(opt_text(a.date)))
            &&& r[2] == ("设备与本机时间差"@, a.time_diff@)
        }),
{
}

proof fn lemma_two_pieces(s: Seq<char>, a: Seq<char>, b: Seq<char>)
    requires
        contains_text(s, a + b),
    ensures
        contains_text(s, a),
        contains_text(s, b),
{
    let none = Seq::<char>::empty();
    assert(none + a + b =~= a + b);
    lemma_contains_between(none, a, b);
    lemma_contains_trans(s, a + b, a);
    assert(a + b + none =~= a + b);
    lemma_contains_between(a, b, none);
    lemma_contains_trans(s, a + b, b);
}

/// The document holds every section with its rows, what came of the buffers and their
/// sizes, and every answer that is kept as it came.
pub proof fn law_document_holds_every_section(
    id: &Identity,
    device: &Device,
    a: &Answers,
    buffers: Seq<char>,
    expand_note: Seq<char>,
    host_adb: Seq<char>,
)
    ensures
        ({
            let s = document_text(id, device, a, buffers, expand_note, host_adb);
            &&& contains_text(s, "# 设备档案 · "@ + id.model@)
            &&& contains_text(s, section_text("关键信息"@, key_rows(id, a)))
            &&& contains_text(s, section_text("身份"@, identity_rows(id)))
            &&& contains_text(s, section_text("系统"@, system_rows(id, a)))
            &&& contains_text(s, section_text("硬件"@, hardware_rows(a)))
            &&& contains_text(s, section_text("网络"@, network_rows(device, a)))
            &&& contains_text(s, section_text("存储"@, storage_rows(a)))
            &&& contains_text(s, section_text("adb 与调试"@, adb_rows(device, a, host_adb)))
            &&& contains_text(s, section_text("时区与时间"@, time_rows(a)))
            &&& contains_text(s, expand_note)
            &&& contains_text(s, trim_text(buffers))
            &&& contains_text(s, raw_text("getprop"@, opt_text(a.raw_getprop)))
            &&& contains_text(s, raw_text("dumpsys battery"@, opt_text(a.raw_battery)))
            &&& contains_text(s, raw_text("df -h"@, opt_text(a.raw_df)))
            &&& contains_text(s, raw_text("ip addr"@, opt_text(a.raw_ip)))
        }),
{
    let s = document_text(id, device, a, buffers, expand_note, host_adb);
    let none = Seq::<char>::empty();
    let d0 = "# 设备档案 · "@ + id.model@;
    let d1 = d0
        + "\n\n> 由 jj-android-device 于选中设备、开始采集前自动生成。任一字段不可用标注「"@;
    let d2 = d1 + NA@;
    let d3 = d2 + "」。\n\n"@;
    let d4 = d3 + section_text("关键信息"@, key_rows(id, a));
    let d5 = d4 + section_text("身份"@, identity_rows(id));
    let d6 = d5 + section_text("系统"@, system_rows(id, a));
    let d7 = d6 + section_text("硬件"@, hardware_rows(a));
    let d8 = d7 + section_text("网络"@, network_rows(device, a));
    let d9 = d8 + section_text("存储"@, storage_rows(a));
    let d10 = d9 + section_text("adb 与调试"@, adb_rows(device, a, host_adb));
    let d11 = d10 + "## logcat 能力\n\n- **扩容结果**："@;
    let d12 = d11 + expand_note;
    let d13 = d12 + "\n- **各 buffer 当前大小**：\n\n```\n"@;
    let d14 = d13 + trim_text(buffers);
    let d15 = d14 + "\n```\n\n"@;
    let d16 = d15 + section_text("时区与时间"@, time_rows(a));
    let d17 = d16 + "## 原始快照\n\n"@;
    let d18 = d17 + raw_text("getprop"@, opt_text(a.raw_getprop));
    let d19 = d18 + raw_text("dumpsys battery"@, opt_text(a.raw_battery));
    let d20 = d19 + raw_text("df -h"@, opt_text(a.raw_df));
    let d21 = d20 + raw_text("ip addr"@, opt_text(a.raw_ip));
    assert(s == d21);
    assert(none + s + none =~= s);
    lemma_contains_between(none, s, none);
    lemma_two_pieces(s, d20, raw_text("ip addr"@, opt_text(a.raw_ip)));
    lemma_two_pieces(s, d19, raw_text("df -h"@, opt_text(a.raw_df)));
    lemma_two_pieces(s, d18, raw_text("dumpsys battery"@, opt_text(a.raw_battery)));
    lemma_two_pieces(s, d17, raw_text("getprop"@, opt_text(a.raw_getprop)));
    lemma_two_pieces(s, d16, "## 原始快照\n\n"@);
    lemma_two_pieces(s, d15, section_text("时区与时间"@, time_rows(a)));
    lemma_two_pieces(s, d14, "\n```\n\n"@);
    lemma_two_pieces(s, d13, trim_text(buffers));
    lemma_two_pieces(s, d12, "\n- **各 buffer 当前大小**：\n\n```\n"@);
    lemma_two_pieces(s, d11, expand_note);
    lemma_two_pieces(s, d10, "## logcat 能力\n\n- **扩容结果**："@);
    lemma_two_pieces(s, d9, section_text("adb 与调试"@, adb_rows(device, a, host_adb)));
    lemma_two_pieces(s, d8, section_text("存储"@, storage_rows(a)));
    lemma_two_pieces(s, d7, section_text("网络"@, network_rows(device, a)));
    lemma_two_pieces(s, d6, section_text("硬件"@, hardware_rows(a)));
    lemma_two_pieces(s, d5, section_text("系统"@, system_rows(id, a)));
    lemma_two_pieces(s, d4, section_text("身份"@, identity_rows(id)));
    lemma_two_pieces(s, d3, section_text("关键信息"@, key_rows(id, a)));
    lemma_two_pieces(s, d2, "」。\n\n"@);
    lemma_two_pieces(s, d1, NA@);
    lemma_two_pieces(
        s,
        d0,
        "\n\n> 由 jj-android-device 于选中设备、开始采集前自动生成。任一字段不可用标注「"@,
    );
}


/// A field that no line of an answer has is marked as not available.
pub proof fn law_absent_fields_are_marked(s: Seq<char>, key: Seq<char>)
    ensures
        (forall|j: int, k: int|
            0 <= j < lines_of(s).len() && 0 <= k < lines_of(s)[j].len() ==> #[trigger] lines_of(
                s,
            )[j][k] != ':') ==> last_value_text(Some(s)) == "不可用"@,
        (forall|j: int|
            0 <= j < lines_of(s).len() ==> !starts_with_text(
                trim_text(#[trigger] lines_of(s)[j]),
                "inet "@,
            )) ==> ip_text(Some(s)) == "不可用"@,
        (forall|j: int|
            0 <= j < lines_of(s).len() ==> !contains_text(#[trigger] lines_of(s)[j], "SSID:"@))
            ==> ssid_text(Some(s)) == "不可用"@ && wifi_ip_text(Some(s)) == "不可用"@
            && plain_wifi_text(Some(s), key) == "不可用"@,
        (forall|j: int|
            0 <= j < lines_of(s).len() ==> !starts_with_text(trim_text(#[trigger] lines_of(s)[j]), key))
            ==> battery_field(s, key) is None,
{
    let ls = lines_of(s);
    if forall|j: int, k: int|
        0 <= j < ls.len() && 0 <= k < ls[j].len() ==> #[trigger] ls[j][k] != ':' {
        let f = |l: Seq<char>| value_of(l);
        assert forall|j: int| 0 <= j < ls.len() implies f(#[trigger] ls[j]) is None by {
            assert forall|k: int| 0 <= k < ls[j].len() implies #[trigger] ls[j][k] != ':' by {}
            law_text_is_split_at_a_character(ls[j], ':', ls[j]);
        }
        lemma_no_last(ls, f);
    }
    if forall|j: int|
        0 <= j < ls.len() ==> !starts_with_text(trim_text(#[trigger] ls[j]), "inet "@) {
        let f = |l: Seq<char>| inet_text(l);
        assert forall|j: int| 0 <= j < ls.len() implies f(#[trigger] ls[j]) is None by {
            assert(!starts_with_text(trim_text(ls[j]), "inet "@));
        }
        lemma_no_first(ls, f);
    }
    if forall|j: int| 0 <= j < ls.len() ==> !contains_text(#[trigger] ls[j], "SSID:"@) {
        let f = |l: Seq<char>|
            if contains_text(l, "SSID:"@) {
                Some(l)
            } else {
                None
            };
        assert forall|j: int| 0 <= j < ls.len() implies f(#[trigger] ls[j]) is None by {
            assert(!contains_text(ls[j], "SSID:"@));
        }
        lemma_no_first(ls, f);
    }
    if forall|j: int| 0 <= j < ls.len() ==> !starts_with_text(trim_text(#[trigger] ls[j]), key) {
        let f = keyed(key);
        assert forall|j: int| 0 <= j < ls.len() implies f(#[trigger] ls[j]) is None by {
            assert(!starts_with_text(trim_text(ls[j]), key));
        }
        lemma_no_first(ls, f);
    }
}

proof fn lemma_no_first<A>(ls: Seq<Seq<char>>, f: spec_fn(Seq<char>) -> Option<A>)
    requires
        forall|j: int| 0 <= j < ls.len() ==> f(#[trigger] ls[j]) is None,
    ensures
        first_some(ls, f) is None,
    decreases ls.len(),
{
    if ls.len() > 0 {
        let rest = ls.skip(1);
        assert(f(ls[0]) is None);
        assert forall|j: int| 0 <= j < rest.len() implies f(#[trigger] rest[j]) is None by {
            assert(f(ls[j + 1]) is None);
        }
        lemma_no_first(rest, f);
    }
}

proof fn lemma_no_last<A>(ls: Seq<Seq<char>>, f: spec_fn(Seq<char>) -> Option<A>)
    requires
        forall|j: int| 0 <= j < ls.len() ==> f(#[trigger] ls[j]) is None,
    ensures
        last_some(ls, f) is None,
    decreases ls.len(),
{
    if ls.len() > 0 {
        let front = ls.drop_last();
        assert(f(ls[ls.len() - 1]) is None);
        assert forall|j: int| 0 <= j < front.len() implies f(#[trigger] front[j]) is None by {
            assert(f(ls[j]) is None);
        }
        lemma_no_last(front, f);
    }
}

/// What is no number is not told as memory or space.
pub proof fn law_other_words_are_no_sizes(line: Seq<char>)
    ensures
        words_of(line).len() >= 2 && kib_text(words_of(line)[1]) is None ==> memory_text(Some(line))
            == "不可用"@,
        words_of(line).len() >= 4 && (kib_text(words_of(line)[1]) is None || kib_text(
            words_of(line)[2],
        ) is None || kib_text(words_of(line)[3]) is None) ==> storage_texts(Some(line)) == (
            "不可用"@,
            "不可用"@,
            "不可用"@,
        ),
{
}


/// An address without a slash behind it goes to the end of its line.
pub proof fn law_address_without_a_slash(
    s: Seq<char>,
    i: int,
    a: Seq<char>,
    addr: Seq<char>,
    b: Seq<char>,
)
    requires
        0 <= i < lines_of(s).len(),
        forall|k: int| 0 <= k < a.len() ==> is_white(#[trigger] a[k]),
        forall|k: int| 0 <= k < b.len() ==> is_white(#[trigger] b[k]),
        forall|k: int| 0 <= k < addr.len() ==> #[trigger] addr[k] != '/',
        addr.len() > 0,
        !is_white(addr.last()),
        lines_of(s)[i] == a + ("inet "@ + addr) + b,
        forall|j: int|
            0 <= j < i ==> !starts_with_text(trim_text(#[trigger] lines_of(s)[j]), "inet "@),
    ensures
        ip_text(Some(s)) == addr,
{
    reveal_strlit("inet ");
    let ls = lines_of(s);
    let f = |l: Seq<char>| inet_text(l);
    let t = "inet "@ + addr;
    assert(t[0] == 'i');
    assert(t.last() == addr.last());
    law_trim_takes_white_space_away(a, t, b);
    law_start_and_end_of_a_text(t, "inet "@);
    law_text_is_split_at_a_character(addr, '/', addr);
    assert(f(ls[i]) == Some(addr));
    assert forall|j: int| 0 <= j < i implies f(#[trigger] ls[j]) is None by {
        assert(!starts_with_text(trim_text(lines_of(s)[j]), "inet "@));
    }
    lemma_first_some(ls, f, i);
}

/// A size is told only of a word that is a number of kibibytes, and of every such word.
pub proof fn law_only_numbers_are_sizes(word: Seq<char>)
    ensures
        kib_text(word) is Some == (parse_unsigned(word, u64::MAX as nat) is Some && parse_unsigned(
            word,
            u64::MAX as nat,
        )->0 * 1024 <= u64::MAX),
        kib_text(word) matches Some(t) ==> t == gib_text(
            (parse_unsigned(word, u64::MAX as nat)->0 * 1024) as nat,
        ),
{
}

} // verus!
