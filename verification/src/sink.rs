//! Routing of log lines into the session file.
//!
//! Deduplication is what keeps a session free of replayed history and free of
//! gaps when the log stream is restarted: it is the state machine [`LineRouter`].
//! Each line that is kept is rewritten by [`enrich`] before it is stored.

use vstd::prelude::*;
use vstd::slice::slice_subrange;
use vstd::string::*;
use vstd::utf8::encode_utf8;
use std::collections::HashMap;
use crate::number::digits_value;
use crate::report::{counted, Metrics, MetricsState};
use crate::router::{after_line, fresh, keeps, reconnecting, Decision, LineRouter, RouterState};
use crate::util::{line_stamp, ms_to_local};
use crate::text::{run_end, lemma_run_end, lemma_run_bounds};

verus! {

/// Whether `b` is a blank: a space or a tab.
pub open spec fn is_blank(b: u8) -> bool {
    b == 0x20 || b == 0x09
}

/// Whether `b` ends a token: a blank or a line break.
pub open spec fn is_separator(b: u8) -> bool {
    is_blank(b) || b == 0x0d || b == 0x0a
}

/// Whether `b` is an ASCII decimal digit.
pub open spec fn is_digit_byte(b: u8) -> bool {
    0x30 <= b <= 0x39
}

/// The predicate "is a blank".
pub open spec fn blank() -> spec_fn(u8) -> bool {
    |b: u8| is_blank(b)
}

/// The predicate "belongs to a token".
pub open spec fn in_token() -> spec_fn(u8) -> bool {
    |b: u8| !is_separator(b)
}

/// The predicate "is a digit".
pub open spec fn digit() -> spec_fn(u8) -> bool {
    |b: u8| is_digit_byte(b)
}

/// The predicate "is not a full stop".
pub open spec fn not_dot() -> spec_fn(u8) -> bool {
    |b: u8| b != 0x2e
}

/// Whether all bytes are digits.
pub open spec fn all_digit_bytes(s: Seq<u8>) -> bool {
    forall|i: int| 0 <= i < s.len() ==> is_digit_byte(#[trigger] s[i])
}

/// The number that a sequence of digits stands for.
pub open spec fn bytes_value(s: Seq<u8>) -> nat
    decreases s.len(),
{
    if s.len() == 0 {
        0
    } else {
        (bytes_value(s.drop_last()) * 10 + (s.last() - 0x30)) as nat
    }
}

/// The value of the digit at position `i` of a fraction, zero behind its end.
pub open spec fn fraction_digit(frac: Seq<u8>, i: int) -> int {
    if i < frac.len() {
        frac[i] - 0x30
    } else {
        0
    }
}

/// The milliseconds that the digits after the full stop stand for: the first
/// three count, and missing ones are zero.
pub open spec fn fraction_millis(frac: Seq<u8>) -> int {
    fraction_digit(frac, 0) * 100 + fraction_digit(frac, 1) * 10 + fraction_digit(frac, 2)
}

/// The part of a token before its first full stop.
pub open spec fn token_seconds(tok: Seq<u8>) -> Seq<u8> {
    tok.take(run_end(tok, not_dot(), 0))
}

/// The part of a token behind its first full stop.
pub open spec fn token_fraction(tok: Seq<u8>) -> Seq<u8> {
    let i = run_end(tok, not_dot(), 0);
    if i < tok.len() {
        tok.skip(i + 1)
    } else {
        Seq::empty()
    }
}

/// The milliseconds that an epoch token `sec` or `sec.mmm` stands for. It has at
/// least one digit of seconds, digits only in the first three places of the
/// fraction, and a value that 64 bits hold.
pub open spec fn epoch_ms(tok: Seq<u8>) -> Option<int> {
    let sec = token_seconds(tok);
    let frac = token_fraction(tok);
    let ms = bytes_value(sec) * 1000 + fraction_millis(frac);
    if sec.len() > 0 && all_digit_bytes(sec) && fraction_ok(frac) && ms <= i64::MAX {
        Some(ms)
    } else {
        None
    }
}

/// The timestamp, in milliseconds, that a line starts with.
pub open spec fn ts_ms(line: Seq<u8>) -> Option<int> {
    let a = run_end(line, blank(), 0);
    let b = run_end(line, in_token(), a);
    epoch_ms(line.subrange(a, b))
}

/// The text that every divider line starts with.
pub open spec fn divider_mark() -> Seq<u8> {
    encode_utf8("--------- beginning of"@)
}

/// Whether a line is one of the dividers that the log reader prints between buffers.
pub open spec fn divider(line: Seq<u8>) -> bool {
    divider_mark().is_prefix_of(line)
}

/// Whether the first three places of a fraction hold digits.
pub open spec fn fraction_ok(frac: Seq<u8>) -> bool {
    forall|i: int| 0 <= i < 3 && i < frac.len() ==> is_digit_byte(#[trigger] frac[i])
}

/// The milliseconds of the digits behind a full stop.
fn fraction_of(frac: &[u8]) -> (r: Option<i64>)
    ensures
        r is Some == fraction_ok(frac@),
        r matches Some(ms) ==> ms == fraction_millis(frac@) && 0 <= ms < 1000,
{
    let mut ms: i64 = 0;
    if frac.len() > 0 {
        if frac[0] < 0x30 || frac[0] > 0x39 {
            assert(!is_digit_byte(frac@[0]));
            return None;
        }
        ms = (frac[0] - 0x30) as i64 * 100;
    }
    if frac.len() > 1 {
        if frac[1] < 0x30 || frac[1] > 0x39 {
            assert(!is_digit_byte(frac@[1]));
            return None;
        }
        ms += (frac[1] - 0x30) as i64 * 10;
    }
    if frac.len() > 2 {
        if frac[2] < 0x30 || frac[2] > 0x39 {
            assert(!is_digit_byte(frac@[2]));
            return None;
        }
        ms += (frac[2] - 0x30) as i64;
    }
    Some(ms)
}

/// The number that digits stand for, where 63 bits hold it.
fn seconds_of(sec: &[u8]) -> (r: Option<i64>)
    ensures
        r is Some == (all_digit_bytes(sec@) && bytes_value(sec@) <= i64::MAX),
        r matches Some(n) ==> n >= 0 && n as nat == bytes_value(sec@),
{
    let mut v: i64 = 0;
    let mut i: usize = 0;
    let mut fits = true;
    while i < sec.len()
        invariant
            i <= sec@.len(),
            v >= 0,
            forall|k: int| 0 <= k < i ==> is_digit_byte(#[trigger] sec@[k]),
            fits ==> v as nat == bytes_value(sec@.take(i as int)),
            !fits ==> bytes_value(sec@.take(i as int)) > i64::MAX,
        decreases sec@.len() - i,
    {
        let b: u8 = sec[i];
        if b < 0x30 || b > 0x39 {
            assert(!is_digit_byte(sec@[i as int]));
            return None;
        }
        let d: i64 = (b - 0x30) as i64;
        assert(sec@.take(i + 1).drop_last() == sec@.take(i as int));
        if fits {
            if v > (i64::MAX - d) / 10 {
                fits = false;
            } else {
                v = v * 10 + d;
            }
        }
        i += 1;
    }
    assert(sec@.take(i as int) == sec@);
    if fits {
        Some(v)
    } else {
        None
    }
}

/// The milliseconds of an epoch token.
pub fn parse_epoch_token(tok: &[u8]) -> (r: Option<i64>)
    ensures
        r is Some == (epoch_ms(tok@) is Some),
        r matches Some(ms) ==> epoch_ms(tok@) == Some(ms as int) && ms >= 0,
{
    let n: usize = tok.len();
    let mut dot: usize = 0;
    while dot < n && tok[dot] != 0x2e
        invariant
            n == tok@.len(),
            dot <= n,
            forall|k: int| 0 <= k < dot ==> not_dot()(#[trigger] tok@[k]),
        decreases n - dot,
    {
        dot += 1;
    }
    proof {
        lemma_run_end(tok@, not_dot(), 0, dot as int);
    }
    let sec_part = slice_subrange(tok, 0, dot);
    let frac_part = if dot < n {
        slice_subrange(tok, dot + 1, n)
    } else {
        slice_subrange(tok, n, n)
    };
    assert(sec_part@ == token_seconds(tok@));
    assert(frac_part@ == token_fraction(tok@));
    if dot == 0 {
        return None;
    }
    match (seconds_of(sec_part), fraction_of(frac_part)) {
        (Some(sec), Some(millis)) => {
            if sec > (i64::MAX - millis) / 1000 {
                None
            } else {
                Some(sec * 1000 + millis)
            }
        },
        _ => None,
    }
}

/// The position after the blanks that start at `i`.
fn blanks_end(raw: &[u8], i: usize) -> (r: usize)
    requires
        i <= raw@.len(),
    ensures
        i <= r <= raw@.len(),
        r == run_end(raw@, blank(), i as int),
{
    let mut j: usize = i;
    while j < raw.len() && (raw[j] == 0x20 || raw[j] == 0x09)
        invariant
            i <= j <= raw@.len(),
            forall|k: int| i <= k < j ==> blank()(#[trigger] raw@[k]),
        decreases raw@.len() - j,
    {
        j += 1;
    }
    proof {
        lemma_run_end(raw@, blank(), i as int, j as int);
    }
    j
}

/// The position after the token that starts at `i`.
fn token_end(raw: &[u8], i: usize) -> (r: usize)
    requires
        i <= raw@.len(),
    ensures
        i <= r <= raw@.len(),
        r == run_end(raw@, in_token(), i as int),
{
    let mut j: usize = i;
    while j < raw.len() && raw[j] != 0x20 && raw[j] != 0x09 && raw[j] != 0x0d && raw[j] != 0x0a
        invariant
            i <= j <= raw@.len(),
            forall|k: int| i <= k < j ==> in_token()(#[trigger] raw@[k]),
        decreases raw@.len() - j,
    {
        j += 1;
    }
    proof {
        lemma_run_end(raw@, in_token(), i as int, j as int);
    }
    j
}

/// The position after the digits that start at `i`.
fn digits_end(raw: &[u8], i: usize) -> (r: usize)
    requires
        i <= raw@.len(),
    ensures
        i <= r <= raw@.len(),
        r == run_end(raw@, digit(), i as int),
{
    let mut j: usize = i;
    while j < raw.len() && raw[j] >= 0x30 && raw[j] <= 0x39
        invariant
            i <= j <= raw@.len(),
            forall|k: int| i <= k < j ==> digit()(#[trigger] raw@[k]),
        decreases raw@.len() - j,
    {
        j += 1;
    }
    proof {
        lemma_run_end(raw@, digit(), i as int, j as int);
    }
    j
}

/// Whether a line is one of the dividers that the log reader prints between buffers.
pub fn is_divider(line: &[u8]) -> (r: bool)
    ensures
        r == divider(line@),
{
    let mark = "--------- beginning of".as_bytes();
    if line.len() < mark.len() {
        return false;
    }
    let mut i: usize = 0;
    while i < mark.len()
        invariant
            mark@ == divider_mark(),
            mark@.len() <= line@.len(),
            i <= mark@.len(),
            forall|k: int| 0 <= k < i ==> mark@[k] == line@[k],
        decreases mark@.len() - i,
    {
        if line[i] != mark[i] {
            assert(line@.subrange(0, mark@.len() as int)[i as int] != mark@[i as int]);
            return false;
        }
        i += 1;
    }
    assert(line@.subrange(0, mark@.len() as int) =~= mark@);
    true
}

/// The timestamp, in milliseconds, that a line starts with.
pub fn parse_ts_ms(line: &[u8]) -> (r: Option<i64>)
    ensures
        r is Some == (ts_ms(line@) is Some),
        r matches Some(ms) ==> ts_ms(line@) == Some(ms as int) && ms >= 0,
{
    let a: usize = blanks_end(line, 0);
    let b: usize = token_end(line, a);
    parse_epoch_token(slice_subrange(line, a, b))
}

/// The parts of a log line: its timestamp in milliseconds, the digits of its
/// process and thread, and all that follows them.
pub struct LineParts {
    pub ms: int,
    pub pid: Seq<u8>,
    pub tid: Seq<u8>,
    pub rest: Seq<u8>,
}

/// How a log line `<epoch> <pid> <tid><rest>` is taken apart.
pub open spec fn line_parts(raw: Seq<u8>) -> Option<LineParts> {
    let e0 = run_end(raw, blank(), 0);
    let e1 = run_end(raw, in_token(), e0);
    let p0 = run_end(raw, blank(), e1);
    let p1 = run_end(raw, digit(), p0);
    let t0 = run_end(raw, blank(), p1);
    let t1 = run_end(raw, digit(), t0);
    match epoch_ms(raw.subrange(e0, e1)) {
        Some(ms) => if e1 < p0 < p1 < t0 < t1 {
            Some(
                LineParts {
                    ms,
                    pid: raw.subrange(p0, p1),
                    tid: raw.subrange(t0, t1),
                    rest: raw.skip(t1),
                },
            )
        } else {
            None
        },
        None => None,
    }
}

/// The parts of a log line, as parts of its bytes.
pub struct Parsed<'a> {
    pub ms: i64,
    pub pid: &'a [u8],
    pub tid: &'a [u8],
    /// All that follows the thread, up to the end of the line.
    pub rest: &'a [u8],
}

impl<'a> Parsed<'a> {
    /// The parts that the slices stand for.
    pub open spec fn parts(&self) -> LineParts {
        LineParts { ms: self.ms as int, pid: self.pid@, tid: self.tid@, rest: self.rest@ }
    }
}

/// The position after one or more blanks that start at `i`.
pub fn skip_spaces(raw: &[u8], i: usize) -> (r: Option<usize>)
    ensures
        r is Some == (run_end(raw@, blank(), i as int) > i),
        r matches Some(j) ==> i < j <= raw@.len() && j == run_end(raw@, blank(), i as int),
{
    if i > raw.len() {
        return None;
    }
    let j: usize = blanks_end(raw, i);
    if j == i {
        None
    } else {
        Some(j)
    }
}

/// Takes a log line apart. A line of any other form gives `None`.
pub fn parse_line<'a>(raw: &'a [u8]) -> (r: Option<Parsed<'a>>)
    ensures
        r is Some == (line_parts(raw@) is Some),
        r matches Some(p) ==> line_parts(raw@) == Some(p.parts()) && p.ms >= 0,
{
    let e0: usize = blanks_end(raw, 0);
    let e1: usize = token_end(raw, e0);
    let ms: i64 = match parse_epoch_token(slice_subrange(raw, e0, e1)) {
        Some(ms) => ms,
        None => return None,
    };
    let p0: usize = match skip_spaces(raw, e1) {
        Some(i) => i,
        None => return None,
    };
    let p1: usize = digits_end(raw, p0);
    if p1 == p0 {
        return None;
    }
    let t0: usize = match skip_spaces(raw, p1) {
        Some(i) => i,
        None => return None,
    };
    let t1: usize = digits_end(raw, t0);
    if t1 == t0 {
        return None;
    }
    Some(
        Parsed {
            ms,
            pid: slice_subrange(raw, p0, p1),
            tid: slice_subrange(raw, t0, t1),
            rest: slice_subrange(raw, t1, raw.len()),
        },
    )
}

/// Deduplication and rewriting read the same timestamp: a line that is taken
/// apart carries the timestamp that its routing goes by.
pub proof fn law_parts_carry_timestamp(raw: Seq<u8>)
    ensures
        line_parts(raw) matches Some(p) ==> ts_ms(raw) == Some(p.ms),
{
}

/// The name that stands for a process: the one known for its number, or `?`.
pub open spec fn process_name(pid: Seq<u8>, names: Map<u32, String>) -> Seq<char> {
    let n = bytes_value(pid);
    if n <= u32::MAX && names.contains_key(n as u32) {
        names[n as u32]@
    } else {
        "?"@
    }
}

/// A log line as it is stored: `<local time>  <pid>-<tid>  <process><rest>`. A line
/// of any other form is stored as it came.
pub open spec fn enriched(raw: Seq<u8>, names: Map<u32, String>, stamp: Seq<char>) -> Seq<u8> {
    match line_parts(raw) {
        Some(p) => encode_utf8(stamp) + encode_utf8("  "@) + p.pid + encode_utf8("-"@) + p.tid
            + encode_utf8("  "@) + encode_utf8(process_name(p.pid, names)) + p.rest,
        None => raw,
    }
}

/// Whether `out` is how a line is stored, with its time in the machine's time zone.
pub open spec fn stored_form(raw: Seq<u8>, names: Map<u32, String>, out: Seq<u8>) -> bool {
    match line_parts(raw) {
        Some(p) => exists|stamp: Seq<char>|
            line_stamp(p.ms, stamp) && out == #[trigger] enriched(raw, names, stamp),
        None => out == raw,
    }
}

fn push_bytes(out: &mut Vec<u8>, b: &[u8])
    ensures
        final(out)@ == old(out)@ + b@,
{
    let mut i: usize = 0;
    while i < b.len()
        invariant
            i <= b@.len(),
            out@ == old(out)@ + b@.take(i as int),
        decreases b@.len() - i,
    {
        out.push(b[i]);
        i += 1;
        assert(b@.take(i as int) == b@.take(i - 1).push(b@[i - 1]));
    }
    assert(b@.take(i as int) == b@);
}

/// The number of a process, where it has one of 32 bits.
fn pid_number(pid: &[u8]) -> (r: Option<u32>)
    requires
        all_digit_bytes(pid@),
    ensures
        r is Some == (bytes_value(pid@) <= u32::MAX),
        r matches Some(n) ==> n as nat == bytes_value(pid@),
{
    match seconds_of(pid) {
        Some(n) => if n <= u32::MAX as i64 {
            Some(n as u32)
        } else {
            None
        },
        None => None,
    }
}

/// Rewrites a log line for storage, with `stamp` for its timestamp.
pub fn enrich_at(raw: &[u8], names: &HashMap<u32, String>, stamp: &str) -> (r: Vec<u8>)
    ensures
        r@ == enriched(raw@, names@, stamp@),
{
    let p = match parse_line(raw) {
        Some(p) => p,
        None => return vstd::slice::slice_to_vec(raw),
    };
    proof {
        lemma_pid_digits(raw@);
    }
    let mut out: Vec<u8> = vstd::slice::slice_to_vec(stamp.as_bytes());
    push_bytes(&mut out, "  ".as_bytes());
    push_bytes(&mut out, p.pid);
    push_bytes(&mut out, "-".as_bytes());
    push_bytes(&mut out, p.tid);
    push_bytes(&mut out, "  ".as_bytes());
    let known: Option<&String> = match pid_number(p.pid) {
        Some(n) => names.get(&n),
        None => None,
    };
    match known {
        Some(name) => push_bytes(&mut out, name.as_str().as_bytes()),
        None => push_bytes(&mut out, "?".as_bytes()),
    }
    push_bytes(&mut out, p.rest);
    out
}

proof fn lemma_pid_digits(raw: Seq<u8>)
    ensures
        line_parts(raw) matches Some(p) ==> all_digit_bytes(p.pid) && all_digit_bytes(p.tid),
{
    if line_parts(raw) is Some {
        let e0 = run_end(raw, blank(), 0);
        lemma_run_bounds(raw, blank(), 0);
        let e1 = run_end(raw, in_token(), e0);
        lemma_run_bounds(raw, in_token(), e0);
        let p0 = run_end(raw, blank(), e1);
        lemma_run_bounds(raw, blank(), e1);
        let p1 = run_end(raw, digit(), p0);
        lemma_run_bounds(raw, digit(), p0);
        let t0 = run_end(raw, blank(), p1);
        lemma_run_bounds(raw, blank(), p1);
        lemma_run_bounds(raw, digit(), t0);
        let pid = raw.subrange(p0, p1);
        assert forall|i: int| 0 <= i < pid.len() implies is_digit_byte(#[trigger] pid[i]) by {
            assert(digit()(raw[p0 + i]));
        }
        let tid = raw.subrange(t0, run_end(raw, digit(), t0));
        assert forall|i: int| 0 <= i < tid.len() implies is_digit_byte(#[trigger] tid[i]) by {
            assert(digit()(raw[t0 + i]));
        }
    }
}

/// Rewrites a log line for storage: its timestamp becomes the local time, and its
/// process gets its name.
pub fn enrich(raw: &[u8], names: &HashMap<u32, String>) -> (r: Vec<u8>)
    ensures
        stored_form(raw@, names@, r@),
{
    match parse_line(raw) {
        Some(p) => {
            let stamp = ms_to_local(p.ms);
            let out = enrich_at(raw, names, stamp.as_str());
            assert(line_stamp(p.ms as int, stamp@) && out@ == enriched(raw@, names@, stamp@));
            out
        },
        None => vstd::slice::slice_to_vec(raw),
    }
}

/// Rewriting loses nothing of a message: what follows the thread ends the stored
/// line byte for byte, and a line of any other form is stored unchanged.
pub proof fn law_message_is_kept(raw: Seq<u8>, names: Map<u32, String>, out: Seq<u8>)
    requires
        stored_form(raw, names, out),
    ensures
        match line_parts(raw) {
            Some(p) => p.rest.is_suffix_of(out),
            None => out == raw,
        },
{
    if let Some(p) = line_parts(raw) {
        let stamp = choose|stamp: Seq<char>|
            line_stamp(p.ms, stamp) && out == #[trigger] enriched(raw, names, stamp);
        assert(out.subrange(out.len() - p.rest.len(), out.len() as int) =~= p.rest);
    }
}

/// What the collector sends to the sink.
pub enum Msg {
    /// One line of the log, with its line break where it has one.
    Line(Vec<u8>),
    /// A new stream is about to start.
    Reconnecting,
}

/// The state of a sink: its router, and whether lines were stored since the
/// heartbeat file was touched.
pub struct SinkState {
    pub router: RouterState,
    pub dirty: bool,
}

/// Turns messages into bytes to store.
pub struct Sink {
    router: LineRouter,
    dirty: bool,
}

impl View for Sink {
    type V = SinkState;

    closed spec fn view(&self) -> SinkState {
        SinkState { router: self.router@, dirty: self.dirty }
    }
}

impl Sink {
    /// A sink for a session that continues at the last log line counted.
    pub fn new(metrics: &Metrics) -> (r: Sink)
        ensures
            r@ == (SinkState { router: fresh(metrics@.last_log_ms), dirty: false }),
    {
        Sink { router: LineRouter::new(metrics.last_log_ms()), dirty: false }
    }

    /// Takes a message and gives the bytes to store for it, if any. Routing goes
    /// by the line as it came.
    pub fn handle(&mut self, msg: Msg, names: &HashMap<u32, String>) -> (r: Option<Vec<u8>>)
        ensures
            match msg {
                Msg::Reconnecting => r is None && final(self)@ == (SinkState {
                    router: reconnecting(old(self)@.router),
                    ..old(self)@
                }),
                Msg::Line(line) => {
                    &&& r is Some == keeps(old(self)@.router, line@)
                    &&& r matches Some(out) ==> stored_form(line@, names@, out@)
                    &&& final(self)@ == (SinkState {
                        router: after_line(old(self)@.router, line@),
                        ..old(self)@
                    })
                },
            },
    {
        match msg {
            Msg::Reconnecting => {
                self.router.mark_reconnecting();
                None
            },
            Msg::Line(line) => {
                match self.router.decide(&line) {
                    Decision::Write => Some(enrich(&line, names)),
                    Decision::Drop => None,
                }
            },
        }
    }

    /// Counts `len` bytes that were stored.
    pub fn stored(&mut self, metrics: &mut Metrics, len: usize)
        ensures
            final(self)@ == (SinkState { dirty: true, ..old(self)@ }),
            final(metrics)@ == (MetricsState {
                lines: counted(old(metrics)@.lines + 1),
                bytes: counted(old(metrics)@.bytes + len),
                last_log_ms: old(self)@.router.last_ms,
                ..old(metrics)@
            }),
    {
        metrics.record_line(len);
        metrics.set_last_log_ms(self.router.last_ms());
        self.dirty = true;
    }

    /// Whether lines were stored since the heartbeat file was touched.
    pub fn is_dirty(&self) -> (r: bool)
        ensures
            r == self@.dirty,
    {
        self.dirty
    }

    /// Takes note that the heartbeat file was touched.
    pub fn touched(&mut self)
        ensures
            final(self)@ == (SinkState { dirty: false, ..old(self)@ }),
    {
        self.dirty = false;
    }
}

/// The characters that some bytes stand for, one for each.
pub open spec fn as_chars(s: Seq<u8>) -> Seq<char> {
    Seq::new(s.len(), |i: int| s[i] as char)
}

proof fn lemma_bytes_value(s: Seq<u8>)
    requires
        forall|i: int| 0 <= i < s.len() ==> 0x30 <= #[trigger] s[i] <= 0x39,
    ensures
        all_digit_bytes(s),
        bytes_value(s) == digits_value(as_chars(s)),
    decreases s.len(),
{
    assert forall|i: int| 0 <= i < s.len() implies is_digit_byte(#[trigger] s[i]) by {
        assert(0x30 <= s[i] <= 0x39);
    }
    if s.len() > 0 {
        let t = s.drop_last();
        assert forall|i: int| 0 <= i < t.len() implies 0x30 <= #[trigger] t[i] <= 0x39 by {
            assert(t[i] == s[i]);
        }
        lemma_bytes_value(t);
        assert(as_chars(s).drop_last() =~= as_chars(t));
        assert(0x30 <= s[s.len() - 1] <= 0x39);
        assert(as_chars(s).last() == s.last() as char);
    }
}

/// Digits of seconds, and behind a full stop a fraction where there is one.
pub open spec fn time_token(sec: Seq<u8>, dot: bool, frac: Seq<u8>) -> Seq<u8> {
    if dot {
        sec + seq![0x2eu8] + frac
    } else {
        sec
    }
}

/// A run of some bytes between two others.
proof fn lemma_run_between(p: Seq<u8>, s: Seq<u8>, q: Seq<u8>, f: spec_fn(u8) -> bool)
    requires
        forall|i: int| 0 <= i < s.len() ==> f(#[trigger] s[i]),
        q.len() == 0 || !f(q[0]),
    ensures
        run_end(p + s + q, f, p.len() as int) == p.len() + s.len(),
        (p + s + q).subrange(p.len() as int, p.len() + s.len() as int) == s,
{
    let r = p + s + q;
    assert forall|k: int| p.len() <= k < p.len() + s.len() implies f(#[trigger] r[k]) by {
        assert(r[k] == s[k - p.len()]);
    }
    if q.len() > 0 {
        assert(r[(p.len() + s.len()) as int] == q[0]);
    }
    lemma_run_end(r, f, p.len() as int, p.len() + s.len() as int);
    assert(r.subrange(p.len() as int, p.len() + s.len() as int) =~= s);
}

/// The milliseconds of a timestamp are the number that its digits stand for when the
/// full stop is left out and three places of the fraction are read.
proof fn lemma_epoch(sec: Seq<u8>, dot: bool, frac: Seq<u8>)
    requires
        sec.len() > 0,
        forall|i: int| 0 <= i < sec.len() ==> 0x30 <= #[trigger] sec[i] <= 0x39,
        forall|i: int| 0 <= i < frac.len() && i < 3 ==> 0x30 <= #[trigger] frac[i] <= 0x39,
        !dot ==> frac.len() == 0,
    ensures
        ({
            let tok = time_token(sec, dot, frac);
            let ms = digits_value(as_chars(sec + (frac + seq![0x30u8, 0x30, 0x30]).take(3))) as int;
            epoch_ms(tok) == if ms <= i64::MAX {
                Some(ms)
            } else {
                None
            }
        }),
{
    let tok = time_token(sec, dot, frac);
    assert forall|k: int| 0 <= k < sec.len() implies not_dot()(#[trigger] tok[k]) by {
        assert(tok[k] == sec[k]);
    }
    if dot {
        assert(tok[sec.len() as int] == 0x2e);
    }
    lemma_run_end(tok, not_dot(), 0, sec.len() as int);
    assert(token_seconds(tok) =~= sec);
    assert(token_fraction(tok) =~= frac);
    lemma_bytes_value(sec);
    assert(fraction_ok(frac)) by {
        assert forall|i: int| 0 <= i < 3 && i < frac.len() implies is_digit_byte(
            #[trigger] frac[i],
        ) by {
            assert(0x30 <= frac[i] <= 0x39);
        }
    }
    let three = (frac + seq![0x30u8, 0x30, 0x30]).take(3);
    let whole = sec + three;
    assert forall|i: int| 0 <= i < 3 implies #[trigger] three[i] == (if i < frac.len() {
        frac[i]
    } else {
        0x30
    }) && 0x30 <= three[i] <= 0x39 by {
        if i < frac.len() {
            assert(0x30 <= frac[i] <= 0x39);
        }
    }
    assert(three.len() == 3);
    let c = as_chars(whole);
    let c1 = c.drop_last();
    let c2 = c1.drop_last();
    assert(c2.drop_last() =~= as_chars(sec));
    assert(c.last() == three[2] as char && c1.last() == three[1] as char && c2.last()
        == three[0] as char);
    assert(digits_value(c) == digits_value(c1) * 10 + (three[2] - 0x30));
    assert(digits_value(c1) == digits_value(c2) * 10 + (three[1] - 0x30));
    assert(digits_value(c2) == digits_value(as_chars(sec)) * 10 + (three[0] - 0x30));
}

/// The time of a line is the number that it starts with, behind blanks: seconds, a full
/// stop and a fraction of which three places count, missing ones as zeros. What
/// follows it does not matter.
pub proof fn law_timestamp_is_read(
    lead: Seq<u8>,
    sec: Seq<u8>,
    dot: bool,
    frac: Seq<u8>,
    rest: Seq<u8>,
)
    requires
        forall|i: int| 0 <= i < lead.len() ==> #[trigger] lead[i] == 0x20 || lead[i] == 0x09,
        sec.len() > 0,
        forall|i: int| 0 <= i < sec.len() ==> 0x30 <= #[trigger] sec[i] <= 0x39,
        forall|i: int|
            0 <= i < frac.len() ==> #[trigger] frac[i] != 0x20 && frac[i] != 0x09 && frac[i] != 0x0d
                && frac[i] != 0x0a && (i < 3 ==> 0x30 <= frac[i] <= 0x39),
        !dot ==> frac.len() == 0,
        rest.len() == 0 || rest[0] == 0x20 || rest[0] == 0x09 || rest[0] == 0x0d || rest[0] == 0x0a,
    ensures
        ({
            let tok = time_token(sec, dot, frac);
            let ms = digits_value(as_chars(sec + (frac + seq![0x30u8, 0x30, 0x30]).take(3))) as int;
            ts_ms(lead + tok + rest) == if ms <= i64::MAX {
                Some(ms)
            } else {
                None
            }
        }),
{
    let tok = time_token(sec, dot, frac);
    lemma_token(sec, dot, frac);
    assert(lead + tok + rest =~= Seq::<u8>::empty() + lead + (tok + rest));
    lemma_run_between(Seq::empty(), lead, tok + rest, blank());
    lemma_run_between(lead, tok, rest, in_token());
    lemma_epoch(sec, dot, frac);
}

proof fn lemma_token(sec: Seq<u8>, dot: bool, frac: Seq<u8>)
    requires
        sec.len() > 0,
        forall|i: int| 0 <= i < sec.len() ==> 0x30 <= #[trigger] sec[i] <= 0x39,
        forall|i: int|
            0 <= i < frac.len() ==> #[trigger] frac[i] != 0x20 && frac[i] != 0x09 && frac[i] != 0x0d
                && frac[i] != 0x0a,
        !dot ==> frac.len() == 0,
    ensures
        ({
            let tok = time_token(sec, dot, frac);
            tok.len() > 0 && !blank()(tok[0]) && forall|i: int|
                0 <= i < tok.len() ==> in_token()(#[trigger] tok[i])
        }),
{
    let tok = time_token(sec, dot, frac);
    assert(tok[0] == sec[0]);
    assert forall|i: int| 0 <= i < tok.len() implies in_token()(#[trigger] tok[i]) by {
        if i < sec.len() {
            assert(tok[i] == sec[i]);
        } else if i > sec.len() {
            assert(tok[i] == frac[i - sec.len() - 1]);
        }
    }
}

/// A line that carries a timestamp starts, behind blanks, with a digit.
pub proof fn law_timestamp_starts_with_a_digit(line: Seq<u8>)
    ensures
        ts_ms(line) is Some ==> exists|k: int|
            0 <= k < line.len() && 0x30 <= #[trigger] line[k] <= 0x39 && forall|i: int|
                0 <= i < k ==> #[trigger] line[i] == 0x20 || line[i] == 0x09,
{
    if ts_ms(line) is Some {
        let a = run_end(line, blank(), 0);
        lemma_run_bounds(line, blank(), 0);
        let b = run_end(line, in_token(), a);
        lemma_run_bounds(line, in_token(), a);
        let tok = line.subrange(a, b);
        let sec = token_seconds(tok);
        lemma_run_bounds(tok, not_dot(), 0);
        assert(is_digit_byte(sec[0]));
        assert(sec[0] == line[a]);
        assert forall|i: int| 0 <= i < a implies #[trigger] line[i] == 0x20 || line[i] == 0x09 by {
            assert(blank()(line[i]));
        }
    }
}

/// A line is a divider exactly where it starts with the bytes of nine hyphens, a space
/// and the words `beginning of`.
pub proof fn law_divider_is_told_by_its_bytes(line: Seq<u8>)
    ensures
        divider(line) == (line.len() >= 22 && line.take(22) == seq![
            0x2du8,
            0x2d,
            0x2d,
            0x2d,
            0x2d,
            0x2d,
            0x2d,
            0x2d,
            0x2d,
            0x20,
            0x62,
            0x65,
            0x67,
            0x69,
            0x6e,
            0x6e,
            0x69,
            0x6e,
            0x67,
            0x20,
            0x6f,
            0x66,
        ]),
{
    reveal_strlit("--------- beginning of");
    let c = "--------- beginning of"@;
    assert(vstd::utf8::is_ascii_chars(c));
    vstd::utf8::is_ascii_chars_encode_utf8(c);
    let m = divider_mark();
    let s = seq![
        0x2du8,
        0x2d,
        0x2d,
        0x2d,
        0x2d,
        0x2d,
        0x2d,
        0x2d,
        0x2d,
        0x20,
        0x62,
        0x65,
        0x67,
        0x69,
        0x6e,
        0x6e,
        0x69,
        0x6e,
        0x67,
        0x20,
        0x6f,
        0x66,
    ];
    assert(m.len() == 22);
    assert forall|i: int| 0 <= i < 22 implies m[i] == s[i] by {
        assert(c[i] as u8 == m[i]);
    }
    assert(m =~= s);
    if divider(line) {
        assert(line.take(22) =~= line.subrange(0, 22));
    }
    if line.len() >= 22 && line.take(22) == s {
        assert(line.subrange(0, 22) =~= line.take(22));
    }
}

/// The parts that a line is made of are the parts that it is taken apart into, and how
/// it is stored follows from them: the stamp, two spaces, the process, a hyphen, the
/// thread, two spaces, the name that the table has for the number of the process or
/// a question mark, and the rest. The thread has no say in the name.
#[verifier::spinoff_prover]
#[verifier::rlimit(60)]
pub proof fn law_line_is_stored_by_its_parts(
    lead: Seq<u8>,
    sec: Seq<u8>,
    dot: bool,
    frac: Seq<u8>,
    gap: Seq<u8>,
    pid: Seq<u8>,
    space: Seq<u8>,
    tid: Seq<u8>,
    rest: Seq<u8>,
    names: Map<u32, String>,
    stamp: Seq<char>,
)
    requires
        forall|i: int| 0 <= i < lead.len() ==> #[trigger] lead[i] == 0x20 || lead[i] == 0x09,
        sec.len() > 0,
        forall|i: int| 0 <= i < sec.len() ==> 0x30 <= #[trigger] sec[i] <= 0x39,
        forall|i: int|
            0 <= i < frac.len() ==> #[trigger] frac[i] != 0x20 && frac[i] != 0x09 && frac[i] != 0x0d
                && frac[i] != 0x0a && (i < 3 ==> 0x30 <= frac[i] <= 0x39),
        !dot ==> frac.len() == 0,
        digits_value(as_chars(sec + (frac + seq![0x30u8, 0x30, 0x30]).take(3))) <= i64::MAX,
        gap.len() > 0,
        forall|i: int| 0 <= i < gap.len() ==> #[trigger] gap[i] == 0x20 || gap[i] == 0x09,
        pid.len() > 0,
        forall|i: int| 0 <= i < pid.len() ==> 0x30 <= #[trigger] pid[i] <= 0x39,
        space.len() > 0,
        forall|i: int| 0 <= i < space.len() ==> #[trigger] space[i] == 0x20 || space[i] == 0x09,
        tid.len() > 0,
        forall|i: int| 0 <= i < tid.len() ==> 0x30 <= #[trigger] tid[i] <= 0x39,
        rest.len() > 0 ==> !(0x30 <= rest[0] <= 0x39),
    ensures
        ({
            let tok = time_token(sec, dot, frac);
            let raw = lead + tok + gap + pid + space + tid + rest;
            let n = digits_value(as_chars(pid));
            let name = if n <= 0xffff_ffff && names.contains_key(n as u32) {
                names[n as u32]@
            } else {
                seq!['?']
            };
            &&& line_parts(raw) == Some(
                LineParts {
                    ms: digits_value(
                        as_chars(sec + (frac + seq![0x30u8, 0x30, 0x30]).take(3)),
                    ) as int,
                    pid,
                    tid,
                    rest,
                },
            )
            &&& enriched(raw, names, stamp) == encode_utf8(stamp) + seq![0x20u8, 0x20] + pid
                + seq![0x2du8] + tid + seq![0x20u8, 0x20] + encode_utf8(name) + rest
        }),
{
    let tok = time_token(sec, dot, frac);
    lemma_token(sec, dot, frac);
    lemma_epoch(sec, dot, frac);
    lemma_parts(lead, tok, gap, pid, space, tid, rest);
    lemma_bytes_value(pid);
    let raw = lead + tok + gap + pid + space + tid + rest;
    lemma_stored(raw, line_parts(raw)->0, names, stamp);
}

#[verifier::spinoff_prover]
proof fn lemma_stored(raw: Seq<u8>, p: LineParts, names: Map<u32, String>, stamp: Seq<char>)
    requires
        line_parts(raw) == Some(p),
    ensures
        ({
            let n = bytes_value(p.pid);
            let name = if n <= 0xffff_ffff && names.contains_key(n as u32) {
                names[n as u32]@
            } else {
                seq!['?']
            };
            enriched(raw, names, stamp) == encode_utf8(stamp) + seq![0x20u8, 0x20] + p.pid
                + seq![0x2du8] + p.tid + seq![0x20u8, 0x20] + encode_utf8(name) + p.rest
        }),
{
    lemma_literal_bytes();
    reveal_strlit("?");
    assert("?"@ =~= seq!['?']);
}

#[verifier::rlimit(50)]
proof fn lemma_parts(
    lead: Seq<u8>,
    tok: Seq<u8>,
    gap: Seq<u8>,
    pid: Seq<u8>,
    space: Seq<u8>,
    tid: Seq<u8>,
    rest: Seq<u8>,
)
    requires
        forall|i: int| 0 <= i < lead.len() ==> #[trigger] lead[i] == 0x20 || lead[i] == 0x09,
        tok.len() > 0,
        !blank()(tok[0]),
        forall|i: int| 0 <= i < tok.len() ==> in_token()(#[trigger] tok[i]),
        epoch_ms(tok) is Some,
        gap.len() > 0,
        forall|i: int| 0 <= i < gap.len() ==> #[trigger] gap[i] == 0x20 || gap[i] == 0x09,
        pid.len() > 0,
        forall|i: int| 0 <= i < pid.len() ==> 0x30 <= #[trigger] pid[i] <= 0x39,
        space.len() > 0,
        forall|i: int| 0 <= i < space.len() ==> #[trigger] space[i] == 0x20 || space[i] == 0x09,
        tid.len() > 0,
        forall|i: int| 0 <= i < tid.len() ==> 0x30 <= #[trigger] tid[i] <= 0x39,
        rest.len() > 0 ==> !(0x30 <= rest[0] <= 0x39),
    ensures
        line_parts(lead + tok + gap + pid + space + tid + rest) == Some(
            LineParts { ms: epoch_ms(tok)->0, pid, tid, rest },
        ),
{
    let raw = lead + tok + gap + pid + space + tid + rest;
    assert(gap[0] == 0x20 || gap[0] == 0x09);
    assert(space[0] == 0x20 || space[0] == 0x09);
    assert(0x30 <= pid[0] <= 0x39);
    assert(0x30 <= tid[0] <= 0x39);
    let f = tid + rest;
    assert(f[0] == tid[0]);
    let e = space + f;
    assert(e[0] == space[0]);
    let d = pid + e;
    assert(d[0] == pid[0]);
    let c = gap + d;
    assert(c[0] == gap[0]);
    let b = tok + c;
    assert(b[0] == tok[0]);
    let q0 = lead.len() as int;
    let q1 = q0 + tok.len();
    let q2 = q1 + gap.len();
    let q3 = q2 + pid.len();
    let q4 = q3 + space.len();
    let q5 = q4 + tid.len();
    assert(run_end(raw, blank(), 0) == q0) by {
        assert(raw =~= Seq::<u8>::empty() + lead + b);
        lemma_run_between(Seq::empty(), lead, b, blank());
    }
    assert(run_end(raw, in_token(), q0) == q1 && raw.subrange(q0, q1) == tok) by {
        assert(raw =~= lead + tok + c);
        lemma_run_between(lead, tok, c, in_token());
    }
    assert(run_end(raw, blank(), q1) == q2) by {
        assert(raw =~= (lead + tok) + gap + d);
        lemma_run_between(lead + tok, gap, d, blank());
    }
    assert(run_end(raw, digit(), q2) == q3 && raw.subrange(q2, q3) == pid) by {
        assert(raw =~= (lead + tok + gap) + pid + e);
        lemma_run_between(lead + tok + gap, pid, e, digit());
    }
    assert(run_end(raw, blank(), q3) == q4) by {
        assert(raw =~= (lead + tok + gap + pid) + space + f);
        lemma_run_between(lead + tok + gap + pid, space, f, blank());
    }
    assert(run_end(raw, digit(), q4) == q5 && raw.subrange(q4, q5) == tid) by {
        lemma_run_between(lead + tok + gap + pid + space, tid, rest, digit());
    }
    assert(raw.skip(q5) =~= rest);
}

proof fn lemma_literal_bytes()
    ensures
        encode_utf8("  "@) == seq![0x20u8, 0x20],
        encode_utf8("-"@) == seq![0x2du8],
{
    reveal_strlit("  ");
    reveal_strlit("-");
    let a = "  "@;
    let b = "-"@;
    assert(vstd::utf8::is_ascii_chars(a));
    assert(vstd::utf8::is_ascii_chars(b));
    vstd::utf8::is_ascii_chars_encode_utf8(a);
    vstd::utf8::is_ascii_chars_encode_utf8(b);
    assert(a[0] as u8 == encode_utf8(a)[0]);
    assert(a[1] as u8 == encode_utf8(a)[1]);
    assert(b[0] as u8 == encode_utf8(b)[0]);
    assert(encode_utf8(a) =~= seq![0x20u8, 0x20]);
    assert(encode_utf8(b) =~= seq![0x2du8]);
}

/// A line that is rewritten is made of a timestamp, blanks, the digits of a process,
/// blanks, the digits of a thread and a rest; every other line is stored as it came.
pub proof fn law_only_such_lines_are_rewritten(raw: Seq<u8>, names: Map<u32, String>, stamp: Seq<char>)
    ensures
        match line_parts(raw) {
            Some(p) => {
                &&& p.pid.len() > 0
                &&& forall|i: int| 0 <= i < p.pid.len() ==> 0x30 <= #[trigger] p.pid[i] <= 0x39
                &&& p.tid.len() > 0
                &&& forall|i: int| 0 <= i < p.tid.len() ==> 0x30 <= #[trigger] p.tid[i] <= 0x39
                &&& ts_ms(raw) == Some(p.ms)
                &&& exists|head: Seq<u8>, space: Seq<u8>|
                    raw == #[trigger] (head + p.pid + space + p.tid + p.rest) && head.len() > 0 && (
                    head.last() == 0x20 || head.last() == 0x09) && space.len() > 0 && forall|i: int|
                        0 <= i < space.len() ==> #[trigger] space[i] == 0x20 || space[i] == 0x09
            },
            None => enriched(raw, names, stamp) == raw,
        },
{
    if let Some(p) = line_parts(raw) {
        let e0 = run_end(raw, blank(), 0);
        lemma_run_bounds(raw, blank(), 0);
        let e1 = run_end(raw, in_token(), e0);
        lemma_run_bounds(raw, in_token(), e0);
        let p0 = run_end(raw, blank(), e1);
        lemma_run_bounds(raw, blank(), e1);
        let p1 = run_end(raw, digit(), p0);
        lemma_run_bounds(raw, digit(), p0);
        let t0 = run_end(raw, blank(), p1);
        lemma_run_bounds(raw, blank(), p1);
        let t1 = run_end(raw, digit(), t0);
        lemma_run_bounds(raw, digit(), t0);
        lemma_pid_digits(raw);
        let head = raw.take(p0);
        let space = raw.subrange(p1, t0);
        assert(blank()(raw[p0 - 1]));
        assert forall|i: int| 0 <= i < space.len() implies #[trigger] space[i] == 0x20 || space[i]
            == 0x09 by {
            assert(blank()(raw[p1 + i]));
        }
        assert(raw =~= head + p.pid + space + p.tid + p.rest);
        assert forall|i: int| 0 <= i < p.pid.len() implies 0x30 <= #[trigger] p.pid[i] <= 0x39 by {
            assert(is_digit_byte(p.pid[i]));
        }
        assert forall|i: int| 0 <= i < p.tid.len() implies 0x30 <= #[trigger] p.tid[i] <= 0x39 by {
            assert(is_digit_byte(p.tid[i]));
        }
    }
}

/// Whether a line starts, behind blanks, with seconds and, behind a full stop, a fraction
/// whose first three places are digits, and a blank, a line break or nothing follows.
pub open spec fn starts_with_time(
    line: Seq<u8>,
    lead: Seq<u8>,
    sec: Seq<u8>,
    dot: bool,
    frac: Seq<u8>,
    rest: Seq<u8>,
) -> bool {
    &&& line == lead + time_token(sec, dot, frac) + rest
    &&& forall|i: int| 0 <= i < lead.len() ==> #[trigger] lead[i] == 0x20 || lead[i] == 0x09
    &&& sec.len() > 0
    &&& forall|i: int| 0 <= i < sec.len() ==> 0x30 <= #[trigger] sec[i] <= 0x39
    &&& forall|i: int|
        0 <= i < frac.len() ==> #[trigger] frac[i] != 0x20 && frac[i] != 0x09 && frac[i] != 0x0d
            && frac[i] != 0x0a && (i < 3 ==> 0x30 <= frac[i] <= 0x39)
    &&& !dot ==> frac.len() == 0
    &&& rest.len() == 0 || rest[0] == 0x20 || rest[0] == 0x09 || rest[0] == 0x0d || rest[0] == 0x0a
}

/// A line carries a timestamp only where it starts with one: no other line does.
pub proof fn law_only_such_lines_carry_a_time(line: Seq<u8>)
    ensures
        ts_ms(line) is Some ==> exists|
            lead: Seq<u8>,
            sec: Seq<u8>,
            dot: bool,
            frac: Seq<u8>,
            rest: Seq<u8>,
        | #[trigger]
            starts_with_time(line, lead, sec, dot, frac, rest),
{
    if ts_ms(line) is Some {
        let a = run_end(line, blank(), 0);
        lemma_run_bounds(line, blank(), 0);
        let b = run_end(line, in_token(), a);
        lemma_run_bounds(line, in_token(), a);
        let tok = line.subrange(a, b);
        let k = run_end(tok, not_dot(), 0);
        lemma_run_bounds(tok, not_dot(), 0);
        let sec = token_seconds(tok);
        let frac = token_fraction(tok);
        let dot = k < tok.len();
        let lead = line.take(a);
        let rest = line.skip(b);
        assert(time_token(sec, dot, frac) =~= tok);
        assert(line =~= lead + tok + rest);
        assert forall|i: int| 0 <= i < lead.len() implies #[trigger] lead[i] == 0x20 || lead[i]
            == 0x09 by {
            assert(blank()(line[i]));
        }
        assert forall|i: int| 0 <= i < sec.len() implies 0x30 <= #[trigger] sec[i] <= 0x39 by {
            assert(is_digit_byte(sec[i]));
        }
        assert forall|i: int| 0 <= i < frac.len() implies #[trigger] frac[i] != 0x20 && frac[i]
            != 0x09 && frac[i] != 0x0d && frac[i] != 0x0a && (i < 3 ==> 0x30 <= frac[i] <= 0x39) by {
            assert(frac[i] == line[a + k + 1 + i]);
            assert(in_token()(line[a + k + 1 + i]));
            if i < 3 {
                assert(is_digit_byte(frac[i]));
            }
        }
        if rest.len() > 0 {
            assert(rest[0] == line[b]);
            assert(!in_token()(line[b]));
        }
        assert(starts_with_time(line, lead, sec, dot, frac, rest));
    }
}

/// [`is_divider`] holds of the lines that start with nine hyphens, a space and the words
/// `beginning of`, byte for byte, and of no others: whatever else a line holds, it is no
/// divider.
pub proof fn law_is_divider_goes_by_the_bytes(line: &[u8], r: bool, i: int)
    requires
        call_ensures(is_divider, (line,), r),
    ensures
        line@.len() < 22 ==> !r,
        r && 0 <= i < 9 ==> line@[i] == 0x2d,
        r ==> line@[9] == 0x20 && line@[10] == 0x62 && line@[11] == 0x65 && line@[12] == 0x67
            && line@[13] == 0x69 && line@[14] == 0x6e && line@[15] == 0x6e && line@[16] == 0x69
            && line@[17] == 0x6e && line@[18] == 0x67 && line@[19] == 0x20 && line@[20] == 0x6f
            && line@[21] == 0x66,
        line@.len() > 0 && line@[0] != 0x2d ==> !r,
{
    law_divider_is_told_by_its_bytes(line@);
    if r {
        let t = line@.take(22);
        assert(t[9] == line@[9] && t[10] == line@[10] && t[11] == line@[11] && t[12] == line@[12]);
        assert(t[13] == line@[13] && t[14] == line@[14] && t[15] == line@[15] && t[16] == line@[16]);
        assert(t[17] == line@[17] && t[18] == line@[18] && t[19] == line@[19] && t[20] == line@[20]);
        assert(t[21] == line@[21] && t[0] == line@[0]);
        if 0 <= i < 9 {
            assert(t[i] == line@[i]);
        }
    }
}

/// [`enrich_at`] gives two lines that differ in the thread alone the same name for their
/// process, and the name is the one that the table has for the number of the process.
pub proof fn law_enrich_at_names_the_process(
    raw: &[u8],
    names: &HashMap<u32, String>,
    stamp: &str,
    r: Vec<u8>,
    n: u32,
)
    requires
        call_ensures(enrich_at, (raw, names, stamp), r),
        line_parts(raw@) matches Some(p) && digits_value(as_chars(p.pid)) == n,
    ensures
        ({
            let p = line_parts(raw@)->0;
            let name = if names@.contains_key(n) {
                names@[n]@
            } else {
                seq!['?']
            };
            r@ == encode_utf8(stamp@) + seq![0x20u8, 0x20] + p.pid + seq![0x2du8] + p.tid + seq![
                0x20u8,
                0x20,
            ] + encode_utf8(name) + p.rest
        }),
{
    let p = line_parts(raw@)->0;
    law_only_such_lines_are_rewritten(raw@, names@, stamp@);
    lemma_bytes_value(p.pid);
    lemma_stored(raw@, p, names@, stamp@);
}

/// [`parse_ts_ms`] reads the time of a line, and a line that starts with anything but blanks
/// and a digit has none.
pub proof fn law_parse_ts_ms_needs_a_digit(line: &[u8], r: Option<i64>, k: int)
    requires
        call_ensures(parse_ts_ms, (line,), r),
        0 <= k < line@.len(),
        forall|i: int| 0 <= i < k ==> #[trigger] line@[i] == 0x20 || line@[i] == 0x09,
        line@[k] != 0x20 && line@[k] != 0x09 && !(0x30 <= line@[k] <= 0x39),
    ensures
        r is None,
{
    law_timestamp_starts_with_a_digit(line@);
    if ts_ms(line@) is Some {
        let j = choose|j: int|
            0 <= j < line@.len() && 0x30 <= #[trigger] line@[j] <= 0x39 && forall|i: int|
                0 <= i < j ==> #[trigger] line@[i] == 0x20 || line@[i] == 0x09;
        if j < k {
            assert(line@[j] == 0x20 || line@[j] == 0x09);
        } else if k < j {
            assert(line@[k] == 0x20 || line@[k] == 0x09);
        }
    }
}

/// Whether a line is made of blanks, a time, blanks, the digits of a process, blanks, the
/// digits of a thread and a rest that does not start with a digit.
pub open spec fn made_of(
    raw: Seq<u8>,
    lead: Seq<u8>,
    sec: Seq<u8>,
    dot: bool,
    frac: Seq<u8>,
    gap: Seq<u8>,
    space: Seq<u8>,
    p: LineParts,
) -> bool {
    &&& raw == lead + time_token(sec, dot, frac) + gap + p.pid + space + p.tid + p.rest
    &&& starts_with_time(raw, lead, sec, dot, frac, gap + p.pid + space + p.tid + p.rest)
    &&& gap.len() > 0
    &&& forall|i: int| 0 <= i < gap.len() ==> #[trigger] gap[i] == 0x20 || gap[i] == 0x09
    &&& space.len() > 0
    &&& forall|i: int| 0 <= i < space.len() ==> #[trigger] space[i] == 0x20 || space[i] == 0x09
    &&& p.rest.len() > 0 ==> !(0x30 <= p.rest[0] <= 0x39)
}

/// A line is taken apart only where it is made of just those parts, with nothing else between
/// them.
#[verifier::spinoff_prover]
#[verifier::rlimit(60)]
pub proof fn law_parts_make_up_the_whole_line(raw: Seq<u8>)
    ensures
        line_parts(raw) matches Some(p) ==> exists|
            lead: Seq<u8>,
            sec: Seq<u8>,
            dot: bool,
            frac: Seq<u8>,
            gap: Seq<u8>,
            space: Seq<u8>,
        | #[trigger]
            made_of(raw, lead, sec, dot, frac, gap, space, p),
{
    if let Some(p) = line_parts(raw) {
        let e0 = run_end(raw, blank(), 0);
        lemma_run_bounds(raw, blank(), 0);
        let e1 = run_end(raw, in_token(), e0);
        lemma_run_bounds(raw, in_token(), e0);
        let p0 = run_end(raw, blank(), e1);
        lemma_run_bounds(raw, blank(), e1);
        let p1 = run_end(raw, digit(), p0);
        lemma_run_bounds(raw, digit(), p0);
        let t0 = run_end(raw, blank(), p1);
        lemma_run_bounds(raw, blank(), p1);
        let t1 = run_end(raw, digit(), t0);
        lemma_run_bounds(raw, digit(), t0);
        let lead = raw.take(e0);
        let tok = raw.subrange(e0, e1);
        let gap = raw.subrange(e1, p0);
        let space = raw.subrange(p1, t0);
        let tail = gap + p.pid + space + p.tid + p.rest;
        let k = run_end(tok, not_dot(), 0);
        lemma_run_bounds(tok, not_dot(), 0);
        let sec = token_seconds(tok);
        let frac = token_fraction(tok);
        let dot = k < tok.len();
        assert(time_token(sec, dot, frac) =~= tok);
        assert(tail =~= raw.skip(e1));
        assert(raw =~= lead + tok + tail);
        assert(raw =~= lead + tok + gap + p.pid + space + p.tid + p.rest);
        assert forall|i: int| 0 <= i < lead.len() implies #[trigger] lead[i] == 0x20 || lead[i]
            == 0x09 by {
            assert(blank()(raw[i]));
        }
        assert forall|i: int| 0 <= i < gap.len() implies #[trigger] gap[i] == 0x20 || gap[i]
            == 0x09 by {
            assert(blank()(raw[e1 + i]));
        }
        assert forall|i: int| 0 <= i < space.len() implies #[trigger] space[i] == 0x20 || space[i]
            == 0x09 by {
            assert(blank()(raw[p1 + i]));
        }
        assert forall|i: int| 0 <= i < sec.len() implies 0x30 <= #[trigger] sec[i] <= 0x39 by {
            assert(is_digit_byte(sec[i]));
        }
        assert forall|i: int| 0 <= i < frac.len() implies #[trigger] frac[i] != 0x20 && frac[i]
            != 0x09 && frac[i] != 0x0d && frac[i] != 0x0a && (i < 3 ==> 0x30 <= frac[i] <= 0x39) by {
            assert(frac[i] == raw[e0 + k + 1 + i]);
            assert(in_token()(raw[e0 + k + 1 + i]));
            if i < 3 {
                assert(is_digit_byte(frac[i]));
            }
        }
        assert(tail[0] == gap[0]);
        assert(gap[0] == 0x20 || gap[0] == 0x09);
        if p.rest.len() > 0 {
            assert(p.rest[0] == raw[t1]);
            assert(!digit()(raw[t1]));
        }
        assert(starts_with_time(raw, lead, sec, dot, frac, tail));
        assert(made_of(raw, lead, sec, dot, frac, gap, space, p));
    }
}

/// A line that is stored has its local time for its timestamp, and the rest of it as it is
/// told of its parts; a line of any other form is stored as it came.
pub proof fn law_stored_line_starts_with_its_time(
    raw: Seq<u8>,
    names: Map<u32, String>,
    out: Seq<u8>,
)
    requires
        stored_form(raw, names, out),
    ensures
        line_parts(raw) is None ==> out == raw,
        line_parts(raw) matches Some(p) ==> exists|stamp: Seq<char>| #[trigger]
            line_stamp(p.ms, stamp) && out == encode_utf8(stamp) + seq![0x20u8, 0x20] + p.pid + seq![
                0x2du8,
            ] + p.tid + seq![0x20u8, 0x20] + encode_utf8(process_name(p.pid, names)) + p.rest,
{
    if let Some(p) = line_parts(raw) {
        let stamp = choose|stamp: Seq<char>|
            line_stamp(p.ms, stamp) && out == #[trigger] enriched(raw, names, stamp);
        lemma_literal_bytes();
        assert(line_stamp(p.ms, stamp));
    }
}

} // verus!
