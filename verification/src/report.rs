//! What a session tells about itself: its counters, its state, its events, the
//! summary at its start and the heartbeat lines.

use vstd::prelude::*;
use vstd::string::*;
use crate::number::{dec, push_dec};
use crate::text::{
    contains_text, ends_with_text, lemma_contains_between, lemma_first_and_last_part, one_line,
    starts_with_text,
};
use crate::util::{
    bytes_text, duration_text, epoch_text, human_bytes, human_duration, ms_to_epoch_str,
};

verus! {

/// The state of a collection session.
#[derive(Debug, Clone, Copy, PartialEq, Eq, Structural)]
pub enum State {
    WaitingDevice,
    Streaming,
    Backoff,
    Draining,
    Stopped,
}

/// The number that a state is stored as.
pub open spec fn state_code(s: State) -> u8 {
    match s {
        State::WaitingDevice => 0,
        State::Streaming => 1,
        State::Backoff => 2,
        State::Draining => 3,
        State::Stopped => 4,
    }
}

/// The state that a number stands for; any number without one stands for `Stopped`.
pub open spec fn coded_state(v: u8) -> State {
    if v == 0 {
        State::WaitingDevice
    } else if v == 1 {
        State::Streaming
    } else if v == 2 {
        State::Backoff
    } else if v == 3 {
        State::Draining
    } else {
        State::Stopped
    }
}

/// The name of a state.
pub open spec fn state_name(s: State) -> Seq<char> {
    match s {
        State::WaitingDevice => "waiting_device"@,
        State::Streaming => "streaming"@,
        State::Backoff => "backoff"@,
        State::Draining => "draining"@,
        State::Stopped => "stopped"@,
    }
}

/// A stored state is read back as it was.
pub proof fn law_state_roundtrip(s: State)
    ensures
        coded_state(state_code(s)) == s,
{
}

impl State {
    pub fn as_u8(self) -> (r: u8)
        ensures
            r == state_code(self),
    {
        match self {
            State::WaitingDevice => 0,
            State::Streaming => 1,
            State::Backoff => 2,
            State::Draining => 3,
            State::Stopped => 4,
        }
    }

    pub fn from_u8(v: u8) -> (r: State)
        ensures
            r == coded_state(v),
    {
        match v {
            0 => State::WaitingDevice,
            1 => State::Streaming,
            2 => State::Backoff,
            3 => State::Draining,
            _ => State::Stopped,
        }
    }

    pub fn as_str(self) -> (r: &'static str)
        ensures
            r@ == state_name(self),
    {
        match self {
            State::WaitingDevice => "waiting_device",
            State::Streaming => "streaming",
            State::Backoff => "backoff",
            State::Draining => "draining",
            State::Stopped => "stopped",
        }
    }
}

/// The counters of a session. The counts are kept modulo 2^64.
pub struct MetricsState {
    pub lines: int,
    pub bytes: int,
    pub disconnects: int,
    pub reconnects: int,
    pub last_log_ms: int,
    pub state: State,
    /// The reading, in seconds, of the clock that uptime goes by.
    pub started: int,
}

/// A 64-bit count that goes on from zero at its end.
pub open spec fn counted(n: int) -> int {
    n % 0x1_0000_0000_0000_0000
}

/// The counters of a session.
pub struct Metrics {
    lines: u64,
    bytes: u64,
    disconnects: u64,
    reconnects: u64,
    last_log_ms: i64,
    state: u8,
    started: u64,
}

impl View for Metrics {
    type V = MetricsState;

    closed spec fn view(&self) -> MetricsState {
        MetricsState {
            lines: self.lines as int,
            bytes: self.bytes as int,
            disconnects: self.disconnects as int,
            reconnects: self.reconnects as int,
            last_log_ms: self.last_log_ms as int,
            state: coded_state(self.state),
            started: self.started as int,
        }
    }
}

impl Metrics {
    /// The counters of a session that starts at the device's time `start_ms`,
    /// when the uptime clock reads `started` seconds.
    pub fn new(start_ms: i64, started: u64) -> (r: Metrics)
        ensures
            r@ == (MetricsState {
                lines: 0,
                bytes: 0,
                disconnects: 0,
                reconnects: 0,
                last_log_ms: start_ms as int,
                state: State::Streaming,
                started: started as int,
            }),
    {
        Metrics {
            lines: 0,
            bytes: 0,
            disconnects: 0,
            reconnects: 0,
            last_log_ms: start_ms,
            state: State::Streaming.as_u8(),
            started,
        }
    }

    /// Counts one line of `bytes` bytes that was stored.
    pub fn record_line(&mut self, bytes: usize)
        ensures
            final(self)@ == (MetricsState {
                lines: counted(old(self)@.lines + 1),
                bytes: counted(old(self)@.bytes + bytes),
                ..old(self)@
            }),
    {
        self.lines = self.lines.wrapping_add(1);
        self.bytes = self.bytes.wrapping_add(bytes as u64);
    }

    pub fn set_last_log_ms(&mut self, ms: i64)
        ensures
            final(self)@ == (MetricsState { last_log_ms: ms as int, ..old(self)@ }),
    {
        self.last_log_ms = ms;
    }

    pub fn last_log_ms(&self) -> (r: i64)
        ensures
            r == self@.last_log_ms,
    {
        self.last_log_ms
    }

    pub fn inc_disconnect(&mut self)
        ensures
            final(self)@ == (MetricsState {
                disconnects: counted(old(self)@.disconnects + 1),
                ..old(self)@
            }),
    {
        self.disconnects = self.disconnects.wrapping_add(1);
    }

    pub fn inc_reconnect(&mut self)
        ensures
            final(self)@ == (MetricsState {
                reconnects: counted(old(self)@.reconnects + 1),
                ..old(self)@
            }),
    {
        self.reconnects = self.reconnects.wrapping_add(1);
    }

    pub fn set_state(&mut self, s: State)
        ensures
            final(self)@ == (MetricsState { state: s, ..old(self)@ }),
    {
        self.state = s.as_u8();
    }

    pub fn state(&self) -> (r: State)
        ensures
            r == self@.state,
    {
        State::from_u8(self.state)
    }

    pub fn lines(&self) -> (r: u64)
        ensures
            r == self@.lines,
    {
        self.lines
    }

    pub fn bytes(&self) -> (r: u64)
        ensures
            r == self@.bytes,
    {
        self.bytes
    }

    pub fn disconnects(&self) -> (r: u64)
        ensures
            r == self@.disconnects,
    {
        self.disconnects
    }

    pub fn reconnects(&self) -> (r: u64)
        ensures
            r == self@.reconnects,
    {
        self.reconnects
    }

    /// The seconds since the start, when the uptime clock reads `now` seconds;
    /// zero where the clock reads less than at the start.
    pub fn uptime(&self, now: u64) -> (r: u64)
        ensures
            r == if now < self@.started {
                0
            } else {
                now - self@.started
            },
    {
        if now < self.started {
            0
        } else {
            now - self.started
        }
    }
}

/// An event as one line: its time, its name and, where there are any, its details.
pub open spec fn event_text(ts: Seq<char>, event: Seq<char>, detail: Seq<char>) -> Seq<char> {
    if detail.len() == 0 {
        "ts="@ + ts + " event="@ + event + "\n"@
    } else {
        "ts="@ + ts + " event="@ + event + " "@ + detail + "\n"@
    }
}

/// The line that an event is stored and shown as.
pub fn event_line(ts: &str, event: &str, detail: &str) -> (r: String)
    ensures
        r@ == event_text(ts@, event@, detail@),
{
    let mut out = "ts=".to_string();
    out.append(ts);
    out.append(" event=");
    out.append(event);
    if !detail.is_empty() {
        out.append(" ");
        out.append(detail);
    }
    out.append("\n");
    out
}

/// An event is one line: a line feed stands at its end and nowhere else, as long as
/// none stands in its parts.
pub proof fn law_event_is_one_line(ts: Seq<char>, event: Seq<char>, detail: Seq<char>)
    requires
        one_line(ts),
        one_line(event),
        one_line(detail),
    ensures
        event_text(ts, event, detail).last() == '\n',
        one_line(event_text(ts, event, detail).drop_last()),
{
    reveal_strlit("ts=");
    reveal_strlit(" event=");
    reveal_strlit(" ");
    reveal_strlit("\n");
}

/// What a session shows when it starts.
pub struct StartupSummary {
    pub version: String,
    pub pid: u32,
    pub start_local: String,
    pub serial: String,
    pub manufacturer: String,
    pub model: String,
    pub android: String,
    pub api: String,
    pub connection: String,
    pub buffer_target: String,
    pub buffer_result: String,
    pub log_path: String,
    pub events_path: String,
    pub heartbeat_path: String,
    pub readme_path: String,
    pub readme_note: String,
}

impl StartupSummary {
    /// The summary as a block of lines between two rules.
    pub open spec fn text(&self) -> Seq<char> {
        "── jj-android-device logs 启动 ──────────────────────────────\nversion="@
            + self.version@ + "  pid="@ + dec(self.pid as nat) + "  start="@ + self.start_local@
            + "\ndevice serial="@ + self.serial@ + " manufacturer="@ + self.manufacturer@
            + " model="@ + self.model@ + " android="@ + self.android@ + " api="@ + self.api@
            + " connection="@ + self.connection@ + "\nlogcat buffers=all target_buffer="@
            + self.buffer_target@ + " expand="@ + self.buffer_result@ + "\nsession.log     = "@
            + self.log_path@ + "\nevents.log      = "@ + self.events_path@
            + "\nheartbeat       = "@ + self.heartbeat_path@ + "\nreadme.md       = "@
            + self.readme_path@ + " ("@ + self.readme_note@
            + ")\n──────────────────────────────────────────────────────────\n"@
    }
}

/// The block of lines that a session starts with.
pub fn startup_summary(summary: &StartupSummary) -> (r: String)
    ensures
        r@ == summary.text(),
{
    let mut out =
        "── jj-android-device logs 启动 ──────────────────────────────\nversion=".to_string();
    out.append(summary.version.as_str());
    out.append("  pid=");
    push_dec(&mut out, summary.pid as u64);
    out.append("  start=");
    out.append(summary.start_local.as_str());
    out.append("\ndevice serial=");
    out.append(summary.serial.as_str());
    out.append(" manufacturer=");
    out.append(summary.manufacturer.as_str());
    out.append(" model=");
    out.append(summary.model.as_str());
    out.append(" android=");
    out.append(summary.android.as_str());
    out.append(" api=");
    out.append(summary.api.as_str());
    out.append(" connection=");
    out.append(summary.connection.as_str());
    out.append("\nlogcat buffers=all target_buffer=");
    out.append(summary.buffer_target.as_str());
    out.append(" expand=");
    out.append(summary.buffer_result.as_str());
    out.append("\nsession.log     = ");
    out.append(summary.log_path.as_str());
    out.append("\nevents.log      = ");
    out.append(summary.events_path.as_str());
    out.append("\nheartbeat       = ");
    out.append(summary.heartbeat_path.as_str());
    out.append("\nreadme.md       = ");
    out.append(summary.readme_path.as_str());
    out.append(" (");
    out.append(summary.readme_note.as_str());
    out.append(")\n──────────────────────────────────────────────────────────\n");
    out
}

/// The time of the last log line, or `none` before there is one.
pub open spec fn last_log_text(ms: int) -> Seq<char> {
    if ms < 0 {
        "none"@
    } else {
        epoch_text(ms)
    }
}

/// A heartbeat: what the counters say at the time `ts`, when the uptime clock
/// reads `now` seconds, with the rates since the heartbeat before it.
pub open spec fn heartbeat_text(
    m: MetricsState,
    ts: Seq<char>,
    now: int,
    rate_lines: Seq<char>,
    rate_bytes: nat,
) -> Seq<char> {
    let uptime = if now < m.started {
        0
    } else {
        now - m.started
    };
    "ts="@ + ts + " event=heartbeat uptime="@ + duration_text(uptime as nat) + " lines="@ + dec(
        m.lines as nat,
    ) + " bytes="@ + bytes_text(m.bytes as nat) + " rate_lines="@ + rate_lines + "/s rate_bytes="@
        + bytes_text(rate_bytes) + "/s last_log="@ + last_log_text(m.last_log_ms) + " state="@
        + state_name(m.state) + " disconnects="@ + dec(m.disconnects as nat) + " reconnects="@
        + dec(m.reconnects as nat) + "\n"@
}

/// The line that a heartbeat is shown as. The rate of lines comes as text, the
/// rate of bytes as whole bytes per second.
pub fn heartbeat_line(m: &Metrics, ts: &str, now: u64, rate_lines: &str, rate_bytes: u64) -> (r:
    String)
    ensures
        r@ == heartbeat_text(m@, ts@, now as int, rate_lines@, rate_bytes as nat),
{
    let mut out = "ts=".to_string();
    out.append(ts);
    out.append(" event=heartbeat uptime=");
    out.append(human_duration(m.uptime(now)).as_str());
    out.append(" lines=");
    push_dec(&mut out, m.lines());
    out.append(" bytes=");
    out.append(human_bytes(m.bytes()).as_str());
    out.append(" rate_lines=");
    out.append(rate_lines);
    out.append("/s rate_bytes=");
    out.append(human_bytes(rate_bytes).as_str());
    out.append("/s last_log=");
    if m.last_log_ms() < 0 {
        out.append("none");
    } else {
        out.append(ms_to_epoch_str(m.last_log_ms()).as_str());
    }
    out.append(" state=");
    out.append(m.state().as_str());
    out.append(" disconnects=");
    push_dec(&mut out, m.disconnects());
    out.append(" reconnects=");
    push_dec(&mut out, m.reconnects());
    out.append("\n");
    out
}

/// The counts at the last heartbeat.
pub struct Pace {
    lines: u64,
    bytes: u64,
}

impl Pace {
    pub closed spec fn lines(&self) -> int {
        self.lines as int
    }

    pub closed spec fn bytes(&self) -> int {
        self.bytes as int
    }

    /// The counts now.
    pub fn new(m: &Metrics) -> (r: Pace)
        ensures
            r.lines() == m@.lines,
            r.bytes() == m@.bytes,
    {
        Pace { lines: m.lines(), bytes: m.bytes() }
    }

    /// The lines and the bytes since the last heartbeat; the counts now become those
    /// of the last heartbeat. A count that went on from zero in between is counted
    /// on.
    pub fn advance(&mut self, m: &Metrics) -> (r: (u64, u64))
        ensures
            final(self).lines() == m@.lines,
            final(self).bytes() == m@.bytes,
            r.0 == counted(m@.lines - old(self).lines()),
            r.1 == counted(m@.bytes - old(self).bytes()),
    {
        let lines: u64 = m.lines();
        let bytes: u64 = m.bytes();
        let r = (lines.wrapping_sub(self.lines), bytes.wrapping_sub(self.bytes));
        self.lines = lines;
        self.bytes = bytes;
        r
    }
}

/// The lines that were stored between two heartbeats are those that the second
/// tells of, also where the count went on from zero.
pub proof fn law_pace_counts_what_was_stored(before: int, stored: int)
    requires
        0 <= before < 0x1_0000_0000_0000_0000,
        0 <= stored < 0x1_0000_0000_0000_0000,
    ensures
        counted(counted(before + stored) - before) == stored,
{
}

/// The final counts of a session.
pub open spec fn exit_text(m: MetricsState, now: int) -> Seq<char> {
    let uptime = if now < m.started {
        0
    } else {
        now - m.started
    };
    "lines="@ + dec(m.lines as nat) + " bytes="@ + bytes_text(m.bytes as nat) + " disconnects="@
        + dec(m.disconnects as nat) + " reconnects="@ + dec(m.reconnects as nat) + " uptime="@
        + duration_text(uptime as nat)
}

/// The details of the event that a session ends with.
pub fn exit_detail(m: &Metrics, now: u64) -> (r: String)
    ensures
        r@ == exit_text(m@, now as int),
{
    let mut out = "lines=".to_string();
    push_dec(&mut out, m.lines());
    out.append(" bytes=");
    out.append(human_bytes(m.bytes()).as_str());
    out.append(" disconnects=");
    push_dec(&mut out, m.disconnects());
    out.append(" reconnects=");
    push_dec(&mut out, m.reconnects());
    out.append(" uptime=");
    out.append(human_duration(m.uptime(now)).as_str());
    out
}

/// A count of 64 bits goes on from zero at its end, and is the number itself before.
pub proof fn law_count_goes_on_from_zero(n: int, k: int)
    requires
        0 <= n < 0x1_0000_0000_0000_0000,
    ensures
        counted(n) == n,
        counted(n + k * 0x1_0000_0000_0000_0000) == n,
{
    vstd::arithmetic::div_mod::lemma_fundamental_div_mod_converse(
        n + k * 0x1_0000_0000_0000_0000,
        0x1_0000_0000_0000_0000,
        k,
        n,
    );
}

/// An event tells its time and its name, and its details go before the line feed, behind
/// a space.
pub proof fn law_event_tells_its_details(ts: Seq<char>, event: Seq<char>, detail: Seq<char>)
    ensures
        event_text(ts, event, Seq::empty()) == seq!['t', 's', '='] + ts + seq![
            ' ',
            'e',
            'v',
            'e',
            'n',
            't',
            '=',
        ] + event + seq!['\n'],
        detail.len() > 0 ==> event_text(ts, event, detail) == event_text(
            ts,
            event,
            Seq::empty(),
        ).drop_last() + seq![' '] + detail + seq!['\n'],
{
    reveal_strlit("ts=");
    reveal_strlit(" event=");
    reveal_strlit(" ");
    reveal_strlit("\n");
    assert("ts="@ =~= seq!['t', 's', '=']);
    assert(" event="@ =~= seq![' ', 'e', 'v', 'e', 'n', 't', '=']);
    assert(" "@ =~= seq![' ']);
    assert("\n"@ =~= seq!['\n']);
    let head = "ts="@ + ts + " event="@ + event;
    assert((head + "\n"@).drop_last() =~= head);
}

/// A heartbeat tells how long the session is up, how many lines and bytes were stored and
/// at what pace, each count under its own name.
#[verifier::spinoff_prover]
#[verifier::rlimit(60)]
pub proof fn law_heartbeat_tells_the_counts(
    m: MetricsState,
    ts: Seq<char>,
    up: nat,
    rate_lines: Seq<char>,
    rate_bytes: nat,
)
    ensures
        starts_with_text(
            heartbeat_text(m, ts, m.started + up, rate_lines, rate_bytes),
            "ts="@ + ts + " event=heartbeat uptime="@ + duration_text(up) + " lines="@ + dec(
                m.lines as nat,
            ) + " bytes="@ + bytes_text(m.bytes as nat) + " rate_lines="@ + rate_lines
                + "/s rate_bytes="@ + bytes_text(rate_bytes) + "/s last_log="@,
        ),
        starts_with_text(
            heartbeat_text(m, ts, m.started - up, rate_lines, rate_bytes),
            "ts="@ + ts + " event=heartbeat uptime="@ + duration_text(0) + " lines="@,
        ),
{
    let head = "ts="@ + ts + " event=heartbeat uptime="@ + duration_text(up) + " lines="@ + dec(
        m.lines as nat,
    ) + " bytes="@ + bytes_text(m.bytes as nat) + " rate_lines="@ + rate_lines + "/s rate_bytes="@
        + bytes_text(rate_bytes) + "/s last_log="@;
    lemma_starts_of_eight(
        head,
        last_log_text(m.last_log_ms),
        " state="@,
        state_name(m.state),
        " disconnects="@,
        dec(m.disconnects as nat),
        " reconnects="@,
        dec(m.reconnects as nat),
        "\n"@,
    );
    let none = heartbeat_text(m, ts, m.started - up, rate_lines, rate_bytes);
    let short = "ts="@ + ts + " event=heartbeat uptime="@ + duration_text(0) + " lines="@;
    let long = short + dec(m.lines as nat) + " bytes="@ + bytes_text(m.bytes as nat)
        + " rate_lines="@ + rate_lines + "/s rate_bytes="@ + bytes_text(rate_bytes)
        + "/s last_log="@;
    lemma_starts_of_eight(
        short,
        dec(m.lines as nat),
        " bytes="@,
        bytes_text(m.bytes as nat),
        " rate_lines="@,
        rate_lines,
        "/s rate_bytes="@,
        bytes_text(rate_bytes),
        "/s last_log="@,
    );
    lemma_starts_of_eight(
        long,
        last_log_text(m.last_log_ms),
        " state="@,
        state_name(m.state),
        " disconnects="@,
        dec(m.disconnects as nat),
        " reconnects="@,
        dec(m.reconnects as nat),
        "\n"@,
    );
    assert(none.subrange(0, short.len() as int) =~= long.subrange(0, short.len() as int)) by {
        assert(none.subrange(0, long.len() as int) == long);
        assert forall|i: int| 0 <= i < short.len() implies none[i] == long[i] by {
            assert(none.subrange(0, long.len() as int)[i] == none[i]);
        }
    }
}

proof fn lemma_starts_of_eight(
    h: Seq<char>,
    a: Seq<char>,
    b: Seq<char>,
    c: Seq<char>,
    d: Seq<char>,
    e: Seq<char>,
    f: Seq<char>,
    g: Seq<char>,
    i: Seq<char>,
)
    ensures
        starts_with_text(h + a + b + c + d + e + f + g + i, h),
        (h + a + b + c + d + e + f + g + i).len() >= h.len(),
{
    let s = h + a + b + c + d + e + f + g + i;
    assert(s.subrange(0, h.len() as int) =~= h);
}

/// A heartbeat tells the time of the last line where there is one, the state, the breaks
/// and the streams that went on, each under its own name.
#[verifier::spinoff_prover]
#[verifier::rlimit(50)]
pub proof fn law_heartbeat_tells_the_state(
    m: MetricsState,
    ts: Seq<char>,
    now: int,
    rate_lines: Seq<char>,
    rate_bytes: nat,
)
    ensures
        ends_with_text(
            heartbeat_text(m, ts, now, rate_lines, rate_bytes),
            "/s last_log="@ + (if m.last_log_ms >= 0 {
                epoch_text(m.last_log_ms)
            } else {
                seq!['n', 'o', 'n', 'e']
            }) + " state="@ + state_name(m.state) + " disconnects="@ + dec(m.disconnects as nat)
                + " reconnects="@ + dec(m.reconnects as nat) + "\n"@,
        ),
{
    reveal_strlit("none");
    assert("none"@ =~= seq!['n', 'o', 'n', 'e']);
    let uptime = if now < m.started {
        0
    } else {
        now - m.started
    };
    let head = "ts="@ + ts + " event=heartbeat uptime="@ + duration_text(uptime as nat) + " lines="@
        + dec(m.lines as nat) + " bytes="@ + bytes_text(m.bytes as nat) + " rate_lines="@
        + rate_lines + "/s rate_bytes="@ + bytes_text(rate_bytes);
    let tail = "/s last_log="@ + last_log_text(m.last_log_ms) + " state="@ + state_name(m.state)
        + " disconnects="@ + dec(m.disconnects as nat) + " reconnects="@ + dec(m.reconnects as nat)
        + "\n"@;
    let s = heartbeat_text(m, ts, now, rate_lines, rate_bytes);
    assert(s =~= head + tail);
    lemma_first_and_last_part(head, tail);
}

/// A session ends with its counts, each under its own name, and with how long it was up.
#[verifier::spinoff_prover]
#[verifier::rlimit(50)]
pub proof fn law_exit_tells_the_counts(m: MetricsState, up: nat)
    ensures
        starts_with_text(
            exit_text(m, m.started + up),
            "lines="@ + dec(m.lines as nat) + " bytes="@ + bytes_text(m.bytes as nat)
                + " disconnects="@ + dec(m.disconnects as nat) + " "@,
        ),
        ends_with_text(
            exit_text(m, m.started + up),
            " reconnects="@ + dec(m.reconnects as nat) + " uptime="@ + duration_text(up),
        ),
        ends_with_text(exit_text(m, m.started - up), " uptime="@ + duration_text(0)),
{
    let a = "lines="@ + dec(m.lines as nat) + " bytes="@ + bytes_text(m.bytes as nat)
        + " disconnects="@ + dec(m.disconnects as nat);
    let b = " reconnects="@ + dec(m.reconnects as nat) + " uptime="@ + duration_text(up);
    let s = exit_text(m, m.started + up);
    assert(s =~= a + b);
    lemma_first_and_last_part(a, b);
    reveal_strlit(" ");
    reveal_strlit(" reconnects=");
    assert(s =~= (a + " "@) + b.skip(1));
    lemma_first_and_last_part(a + " "@, b.skip(1));
    let z = exit_text(m, m.started - up);
    let c = " uptime="@ + duration_text(0);
    assert(z =~= (a + " reconnects="@ + dec(m.reconnects as nat)) + c);
    lemma_first_and_last_part(a + " reconnects="@ + dec(m.reconnects as nat), c);
}

/// The first, the second and the third part of a summary, without what stands before and
/// behind them.
spec fn summary_parts(s: StartupSummary) -> (Seq<char>, Seq<char>, Seq<char>) {
    (
        s.version@ + "  pid="@ + dec(s.pid as nat) + "  start="@ + s.start_local@,
        s.serial@ + " manufacturer="@ + s.manufacturer@ + " model="@ + s.model@ + " android="@
            + s.android@ + " api="@ + s.api@ + " connection="@ + s.connection@,
        s.buffer_target@ + " expand="@ + s.buffer_result@ + "\nsession.log     = "@ + s.log_path@
            + "\nevents.log      = "@ + s.events_path@ + "\nheartbeat       = "@
            + s.heartbeat_path@ + "\nreadme.md       = "@ + s.readme_path@ + " ("@ + s.readme_note@,
    )
}

#[verifier::rlimit(100)]
proof fn lemma_summary_parts(s: StartupSummary)
    ensures
        ({
            let (p1, p2, p3) = summary_parts(s);
            s.text()
                == "── jj-android-device logs 启动 ──────────────────────────────\nversion="@
                + p1 + "\ndevice serial="@ + p2 + "\nlogcat buffers=all target_buffer="@ + p3
                + ")\n──────────────────────────────────────────────────────────\n"@
        }),
{
    let l0 = "── jj-android-device logs 启动 ──────────────────────────────\nversion="@;
    let (p1, p2, p3) = summary_parts(s);
    let t1 = l0 + s.version@ + "  pid="@ + dec(s.pid as nat) + "  start="@ + s.start_local@;
    assert(t1 =~= l0 + p1);
    let u1 = t1 + "\ndevice serial="@;
    let t2 = u1 + s.serial@ + " manufacturer="@ + s.manufacturer@ + " model="@ + s.model@
        + " android="@ + s.android@ + " api="@ + s.api@ + " connection="@ + s.connection@;
    assert(t2 =~= u1 + p2);
    let u2 = t2 + "\nlogcat buffers=all target_buffer="@;
    let t3 = u2 + s.buffer_target@ + " expand="@ + s.buffer_result@ + "\nsession.log     = "@
        + s.log_path@ + "\nevents.log      = "@ + s.events_path@ + "\nheartbeat       = "@
        + s.heartbeat_path@ + "\nreadme.md       = "@ + s.readme_path@ + " ("@ + s.readme_note@;
    assert(t3 =~= u2 + p3);
}

/// The summary of a session has each of its parts under its own name.
pub proof fn law_summary_has_each_part(s: StartupSummary)
    ensures
        contains_text(
            s.text(),
            "version="@ + (s.version@ + "  pid="@ + dec(s.pid as nat) + "  start="@
                + s.start_local@),
        ),
        contains_text(
            s.text(),
            "\ndevice serial="@ + (s.serial@ + " manufacturer="@ + s.manufacturer@ + " model="@
                + s.model@ + " android="@ + s.android@ + " api="@ + s.api@ + " connection="@
                + s.connection@),
        ),
        contains_text(
            s.text(),
            "\nlogcat buffers=all target_buffer="@ + (s.buffer_target@ + " expand="@
                + s.buffer_result@ + "\nsession.log     = "@ + s.log_path@ + "\nevents.log      = "@
                + s.events_path@ + "\nheartbeat       = "@ + s.heartbeat_path@
                + "\nreadme.md       = "@ + s.readme_path@ + " ("@ + s.readme_note@),
        ),
{
    lemma_summary_parts(s);
    let (p1, p2, p3) = summary_parts(s);
    let l0 = "── jj-android-device logs 启动 ──────────────────────────────\nversion="@;
    let l1 = "\ndevice serial="@;
    let l2 = "\nlogcat buffers=all target_buffer="@;
    let l3 = ")\n──────────────────────────────────────────────────────────\n"@;
    assert(l0 =~= l0.take(l0.len() - 8) + "version="@) by {
        reveal_strlit("── jj-android-device logs 启动 ──────────────────────────────\nversion=");
        reveal_strlit("version=");
    }
    lemma_parts_in_between(l0.take(l0.len() - 8), "version="@, p1, l1, p2, l2, p3, l3);
}

proof fn lemma_parts_in_between(
    a: Seq<char>,
    l0: Seq<char>,
    p1: Seq<char>,
    l1: Seq<char>,
    p2: Seq<char>,
    l2: Seq<char>,
    p3: Seq<char>,
    l3: Seq<char>,
)
    ensures
        ({
            let s = (a + l0) + p1 + l1 + p2 + l2 + p3 + l3;
            contains_text(s, l0 + p1) && contains_text(s, l1 + p2) && contains_text(s, l2 + p3)
        }),
{
    let s = (a + l0) + p1 + l1 + p2 + l2 + p3 + l3;
    let r1 = l1 + p2 + l2 + p3 + l3;
    assert(s =~= a + (l0 + p1) + r1);
    lemma_contains_between(a, l0 + p1, r1);
    let h2 = a + l0 + p1;
    let r2 = l2 + p3 + l3;
    assert(s =~= h2 + (l1 + p2) + r2);
    lemma_contains_between(h2, l1 + p2, r2);
    let h3 = h2 + l1 + p2;
    assert(s =~= h3 + (l2 + p3) + l3);
    lemma_contains_between(h3, l2 + p3, l3);
}


/// Each state has its number and its name, and a number without a state stands for the end.
pub proof fn law_states_have_their_numbers_and_names(s: State, v: u8)
    ensures
        match s {
            State::WaitingDevice => state_code(s) == 0 && state_name(s) == "waiting_device"@,
            State::Streaming => state_code(s) == 1 && state_name(s) == "streaming"@,
            State::Backoff => state_code(s) == 2 && state_name(s) == "backoff"@,
            State::Draining => state_code(s) == 3 && state_name(s) == "draining"@,
            State::Stopped => state_code(s) == 4 && state_name(s) == "stopped"@,
        },
        v >= 4 ==> coded_state(v) is Stopped,
        v < 4 ==> state_code(coded_state(v)) == v,
{
}

} // verus!
