//! The collection loop: it streams the log, notices why a stream ended, waits for
//! the device to come back and goes on where it left off.
//!
//! Both loops are machines. A machine's state says what has to be done next, and
//! what came of that is handed back to it as an event.

use vstd::prelude::*;
use vstd::string::*;
use crate::adb::{clock_ms, law_epoch_roundtrip};
use crate::device::{opt_str, opt_text};
use crate::report::{counted, Metrics, MetricsState, State};
use crate::text::{
    chars_of, contains, contains_text, is_text, is_white, law_contains_is_in_between,
    law_trim_takes_white_space_away, lemma_contains_between, lemma_contains_trans, one_line, trim,
    trim_text,
};
use crate::unicode::{lower_text, lowercase, quoted, quoted_text};
use crate::util::{epoch_text, ms_to_logcat_arg};

verus! {

/// The reason for the end of a stream that an error text in lower case gives.
pub open spec fn reason(low: Seq<char>) -> Seq<char> {
    if contains_text(low, "device offline"@) {
        "device_offline"@
    } else if contains_text(low, "unauthorized"@) {
        "unauthorized"@
    } else if contains_text(low, "device not found"@) || contains_text(low, "no devices"@)
        || contains_text(low, "not found"@) {
        "device_not_found"@
    } else if contains_text(low, "closed"@) {
        "connection_closed"@
    } else {
        "stream_ended"@
    }
}

/// A text with a mark in place of each line feed.
pub open spec fn marked_text(s: Seq<char>) -> Seq<char>
    decreases s.len(),
{
    if s.len() == 0 {
        Seq::empty()
    } else if s.last() == '\n' {
        marked_text(s.drop_last()) + " ⏎ "@
    } else {
        marked_text(s.drop_last()).push(s.last())
    }
}

fn marked(s: &[char]) -> (r: String)
    ensures
        r@ == marked_text(s@),
{
    let mut out = String::new();
    let mut i: usize = 0;
    while i < s.len()
        invariant
            i <= s@.len(),
            out@ == marked_text(s@.take(i as int)),
        decreases s@.len() - i,
    {
        assert(s@.take(i + 1).drop_last() == s@.take(i as int));
        if s[i] == '\n' {
            out.append(" ⏎ ");
        } else {
            out.push(s[i]);
        }
        i += 1;
    }
    assert(s@.take(i as int) == s@);
    out
}

/// What is told of the end of a stream: the error text on one line, and how the
/// process ended where that is known.
pub open spec fn ended_text(stderr: Seq<char>, status: Option<Seq<char>>) -> Seq<char> {
    let shown = marked_text(trim_text(stderr));
    match status {
        Some(st) => if shown.len() == 0 {
            "[exit: "@ + st + "]"@
        } else {
            shown + " "@ + "[exit: "@ + st + "]"@
        },
        None => shown,
    }
}

/// Why a stream ended and what is told of it, from the error text, the same in
/// lower case, and how the process ended.
pub fn classify_lowered(low: &str, stderr: &str, status: Option<&str>) -> (r: (String, String))
    ensures
        r.0@ == reason(low@),
        r.1@ == ended_text(stderr@, opt_str(status)),
{
    let cs = chars_of(low);
    let token = if contains(&cs, "device offline") {
        "device_offline"
    } else if contains(&cs, "unauthorized") {
        "unauthorized"
    } else if contains(&cs, "device not found") || contains(&cs, "no devices") || contains(
        &cs,
        "not found",
    ) {
        "device_not_found"
    } else if contains(&cs, "closed") {
        "connection_closed"
    } else {
        "stream_ended"
    };
    let errors = chars_of(stderr);
    let mut detail = marked(trim(&errors));
    if let Some(st) = status {
        if !detail.as_str().is_empty() {
            detail.append(" ");
        } else {
            assert(detail@ + "[exit: "@ == "[exit: "@);
        }
        detail.append("[exit: ");
        detail.append(st);
        detail.append("]");
    }
    (token.to_string(), detail)
}

/// Why a stream ended and what is told of it.
pub fn classify(stderr: &str, status: Option<&str>) -> (r: (String, String))
    ensures
        r.0@ == reason(lower_text(stderr@)),
        r.1@ == ended_text(stderr@, opt_str(status)),
{
    let low = lowercase(stderr);
    classify_lowered(low.as_str(), stderr, status)
}

proof fn lemma_marked_one_line(s: Seq<char>)
    ensures
        one_line(marked_text(s)),
    decreases s.len(),
{
    if s.len() > 0 {
        lemma_marked_one_line(s.drop_last());
        reveal_strlit(" ⏎ ");
    }
}

/// A reason is one line.
pub proof fn law_reason_is_one_line(low: Seq<char>)
    ensures
        one_line(reason(low)),
{
    reveal_strlit("device_offline");
    reveal_strlit("unauthorized");
    reveal_strlit("device_not_found");
    reveal_strlit("connection_closed");
    reveal_strlit("stream_ended");
}

/// What is told of the end of a stream is one line, however many lines the error
/// text had, as long as the word on the process's end is one line.
pub proof fn law_ended_text_is_one_line(stderr: Seq<char>, status: Option<Seq<char>>)
    requires
        status matches Some(st) ==> one_line(st),
    ensures
        one_line(ended_text(stderr, status)),
{
    reveal_strlit("[exit: ");
    reveal_strlit("]");
    reveal_strlit(" ");
    lemma_marked_one_line(trim_text(stderr));
}

/// How a stream ended.
#[derive(Debug, PartialEq, Eq)]
pub enum Outcome {
    /// The program is to end.
    Shutdown,
    /// The log came to its end.
    Ended { token: String, detail: String },
}

/// What a stream is about.
pub enum StreamPhase {
    /// It reads the log and, unless they have ended, the errors.
    Reading,
    /// It hands on a line of the log.
    Storing(Seq<u8>),
    /// It reads the rest of the errors and how the process ended.
    Draining,
    Shutdown,
    Ended { token: Seq<char>, detail: Seq<char> },
}

/// The state of a stream.
pub struct StreamState {
    pub phase: StreamPhase,
    /// The errors so far.
    pub errors: Seq<char>,
    /// Whether the errors have ended.
    pub errors_done: bool,
}

/// What came of the last thing that a stream asked for.
pub enum StreamEvent {
    /// The program is to end.
    Shutdown,
    /// A line of the log, with its line feed.
    Line(Vec<u8>),
    /// The log came to its end.
    OutputEnd,
    /// The log could not be read.
    OutputFailed(String),
    /// A line of the errors, with its line feed.
    ErrorLine(String),
    /// The errors came to their end, or could not be read.
    ErrorEnd,
    /// The line was taken.
    Stored,
    /// The line was not taken, as nobody is there to store it.
    Refused,
    /// The rest of the errors, and how the process ended.
    Drained { rest: String, status: Option<String> },
}

/// The state of a stream after an event. An event that does not answer what the
/// stream asked for changes nothing.
pub open spec fn stream_stepped(s: StreamState, ev: StreamEvent) -> StreamState {
    match (s.phase, ev) {
        (StreamPhase::Reading, StreamEvent::Shutdown) => StreamState {
            phase: StreamPhase::Shutdown,
            ..s
        },
        (StreamPhase::Reading, StreamEvent::Line(line)) => StreamState {
            phase: StreamPhase::Storing(line@),
            ..s
        },
        (StreamPhase::Reading, StreamEvent::OutputEnd) => StreamState {
            phase: StreamPhase::Draining,
            ..s
        },
        (StreamPhase::Reading, StreamEvent::OutputFailed(e)) => StreamState {
            phase: StreamPhase::Draining,
            errors: s.errors + "[stdout read error: "@ + e@ + "]"@,
            ..s
        },
        (StreamPhase::Reading, StreamEvent::ErrorLine(e)) => StreamState {
            errors: s.errors + e@,
            ..s
        },
        (StreamPhase::Reading, StreamEvent::ErrorEnd) => StreamState { errors_done: true, ..s },
        (StreamPhase::Storing(_), StreamEvent::Stored) => StreamState {
            phase: StreamPhase::Reading,
            ..s
        },
        (StreamPhase::Storing(_), StreamEvent::Refused) => StreamState {
            phase: StreamPhase::Shutdown,
            ..s
        },
        (StreamPhase::Storing(_), StreamEvent::Shutdown) => StreamState {
            phase: StreamPhase::Shutdown,
            ..s
        },
        (StreamPhase::Draining, StreamEvent::Drained { rest, status }) => {
            let errors = s.errors + rest@;
            StreamState {
                phase: StreamPhase::Ended {
                    token: reason(lower_text(errors)),
                    detail: ended_text(errors, opt_text(status)),
                },
                errors,
                ..s
            }
        },
        _ => s,
    }
}

enum Reader {
    Reading,
    Storing(Vec<u8>),
    Draining,
    Finished(Outcome),
}

/// What a stream asks for next.
pub enum StreamAction<'a> {
    /// To read the log and, where `errors` says so, the errors, whichever comes first.
    Read { errors: bool },
    /// To hand on a line of the log.
    Store(&'a Vec<u8>),
    /// To read the rest of the errors and see how the process ended.
    Drain,
    /// Nothing: the stream has ended.
    Finish(&'a Outcome),
}

/// One run of the log reader, from its start to its end.
pub struct Stream {
    reader: Reader,
    errors: String,
    errors_done: bool,
}

impl View for Stream {
    type V = StreamState;

    closed spec fn view(&self) -> StreamState {
        StreamState {
            phase: match self.reader {
                Reader::Reading => StreamPhase::Reading,
                Reader::Storing(line) => StreamPhase::Storing(line@),
                Reader::Draining => StreamPhase::Draining,
                Reader::Finished(Outcome::Shutdown) => StreamPhase::Shutdown,
                Reader::Finished(Outcome::Ended { token, detail }) => StreamPhase::Ended {
                    token: token@,
                    detail: detail@,
                },
            },
            errors: self.errors@,
            errors_done: self.errors_done,
        }
    }
}

impl Stream {
    /// A stream at its start.
    pub fn new() -> (r: Stream)
        ensures
            r@ == (StreamState {
                phase: StreamPhase::Reading,
                errors: Seq::empty(),
                errors_done: false,
            }),
    {
        Stream { reader: Reader::Reading, errors: String::new(), errors_done: false }
    }

    /// What has to be done next.
    pub fn action(&self) -> (r: StreamAction<'_>)
        ensures
            match self@.phase {
                StreamPhase::Reading => r matches StreamAction::Read { errors } && errors
                    == !self@.errors_done,
                StreamPhase::Storing(line) => r matches StreamAction::Store(l) && l@ == line,
                StreamPhase::Draining => r is Drain,
                StreamPhase::Shutdown => r matches StreamAction::Finish(o) && *o is Shutdown,
                StreamPhase::Ended { token, detail } => r matches StreamAction::Finish(o)
                    && *o matches Outcome::Ended { token: t, detail: d } && t@ == token && d@
                    == detail,
            },
    {
        match &self.reader {
            Reader::Reading => StreamAction::Read { errors: !self.errors_done },
            Reader::Storing(line) => StreamAction::Store(line),
            Reader::Draining => StreamAction::Drain,
            Reader::Finished(o) => StreamAction::Finish(o),
        }
    }

    /// Takes what came of the last action.
    pub fn step(&mut self, ev: StreamEvent)
        ensures
            final(self)@ == stream_stepped(old(self)@, ev),
    {
        match &self.reader {
            Reader::Reading => match ev {
                StreamEvent::Shutdown => {
                    self.reader = Reader::Finished(Outcome::Shutdown);
                },
                StreamEvent::Line(line) => {
                    self.reader = Reader::Storing(line);
                },
                StreamEvent::OutputEnd => {
                    self.reader = Reader::Draining;
                },
                StreamEvent::OutputFailed(e) => {
                    self.errors.append("[stdout read error: ");
                    self.errors.append(e.as_str());
                    self.errors.append("]");
                    self.reader = Reader::Draining;
                },
                StreamEvent::ErrorLine(e) => {
                    self.errors.append(e.as_str());
                },
                StreamEvent::ErrorEnd => {
                    self.errors_done = true;
                },
                _ => {},
            },
            Reader::Storing(_) => match ev {
                StreamEvent::Stored => {
                    self.reader = Reader::Reading;
                },
                StreamEvent::Refused => {
                    self.reader = Reader::Finished(Outcome::Shutdown);
                },
                StreamEvent::Shutdown => {
                    self.reader = Reader::Finished(Outcome::Shutdown);
                },
                _ => {},
            },
            Reader::Draining => match ev {
                StreamEvent::Drained { rest, status } => {
                    self.errors.append(rest.as_str());
                    let (token, detail) = match &status {
                        Some(st) => classify(self.errors.as_str(), Some(st.as_str())),
                        None => classify(self.errors.as_str(), None),
                    };
                    self.reader = Reader::Finished(Outcome::Ended { token, detail });
                },
                _ => {},
            },
            Reader::Finished(_) => {},
        }
    }
}

/// The state of a stream after some events.
pub open spec fn stream_run(evs: Seq<StreamEvent>) -> StreamState
    decreases evs.len(),
{
    if evs.len() == 0 {
        StreamState { phase: StreamPhase::Reading, errors: Seq::empty(), errors_done: false }
    } else {
        stream_stepped(stream_run(evs.drop_last()), evs.last())
    }
}

/// The lines that a stream read in the course of some events.
pub open spec fn lines_read(evs: Seq<StreamEvent>) -> Seq<Seq<u8>>
    decreases evs.len(),
{
    if evs.len() == 0 {
        Seq::empty()
    } else {
        let before = lines_read(evs.drop_last());
        match (stream_run(evs.drop_last()).phase, evs.last()) {
            (StreamPhase::Reading, StreamEvent::Line(line)) => before.push(line@),
            _ => before,
        }
    }
}

/// The lines that were taken from a stream in the course of some events.
pub open spec fn lines_taken(evs: Seq<StreamEvent>) -> Seq<Seq<u8>>
    decreases evs.len(),
{
    if evs.len() == 0 {
        Seq::empty()
    } else {
        let before = lines_taken(evs.drop_last());
        match (stream_run(evs.drop_last()).phase, evs.last()) {
            (StreamPhase::Storing(line), StreamEvent::Stored) => before.push(line),
            _ => before,
        }
    }
}

/// A stream hands on every line that it reads, once and in order: what was taken
/// from it is what it read, but for a line that is on its way, and for the one
/// that was on its way when the program was told to end.
pub proof fn law_stream_hands_on_every_line(evs: Seq<StreamEvent>)
    ensures
        match stream_run(evs).phase {
            StreamPhase::Storing(line) => lines_read(evs) == lines_taken(evs).push(line),
            StreamPhase::Shutdown => lines_read(evs) == lines_taken(evs) || (lines_read(evs).len()
                == lines_taken(evs).len() + 1 && lines_taken(evs) == lines_read(evs).drop_last()),
            _ => lines_read(evs) == lines_taken(evs),
        },
    decreases evs.len(),
{
    if evs.len() > 0 {
        let front = evs.drop_last();
        law_stream_hands_on_every_line(front);
        if let StreamPhase::Storing(line) = stream_run(front).phase {
            assert(lines_taken(front).push(line).drop_last() == lines_taken(front));
        }
    }
}

/// What a collector is about.
#[derive(Clone, Copy, PartialEq, Eq, Structural)]
pub enum Phase {
    /// It sees whether the program is to end, before it starts a stream.
    Start,
    /// It tells that it goes on after a break.
    Announce,
    /// It tells the writer that lines may come again.
    Mark,
    /// It starts the log reader.
    Spawn,
    /// It streams.
    Stream,
    /// It tells why the stream ended.
    Report,
    /// It sees whether the program is to end, before it looks for the device.
    Check,
    /// It asks for the state of the device.
    Query,
    /// It tells that the device has to be unlocked for it.
    Warn,
    /// It waits before it looks again.
    Sleep,
    /// It has ended.
    Stop,
}

/// The state of a collector.
pub struct CollectorState {
    pub serial: Seq<char>,
    pub phase: Phase,
    /// Whether no stream was started yet.
    pub first: bool,
    /// Where the next stream starts.
    pub since: int,
    /// What is told of the end of the last stream.
    pub detail: Seq<char>,
    /// The seconds of the next wait.
    pub backoff: int,
    /// Whether it was told that the device has to be unlocked.
    pub warned: bool,
}

/// What came of the last thing that a collector asked for.
pub enum Event {
    /// Whether the program is to end.
    Polled(bool),
    /// An event was told.
    Emitted,
    /// Whether the writer is there to take lines.
    Marked(bool),
    /// The log reader was started.
    Spawned,
    /// The log reader could not be started.
    SpawnFailed(String),
    /// The stream ended.
    Streamed(Outcome),
    /// The state of the device, where there is an answer.
    DeviceState(Option<String>),
    /// The wait is over.
    Slept,
    /// The program is to end, in the middle of the wait.
    Shutdown,
}

/// What is told of a log reader that could not be started.
pub open spec fn spawn_failed_text(error: Seq<char>) -> Seq<char> {
    "reason=spawn_failed detail="@ + quoted_text(error)
}

/// What is told of a stream that ended.
pub open spec fn disconnect_text(token: Seq<char>, detail: Seq<char>) -> Seq<char> {
    if detail.len() == 0 {
        "reason="@ + token
    } else {
        "reason="@ + token + " stderr="@ + quoted_text(detail)
    }
}

/// The longest wait, in seconds.
pub const LONGEST_WAIT: u64 = 5;

/// The wait after a wait of `secs` seconds: twice as long, up to the longest.
pub open spec fn next_wait(secs: int) -> int {
    if secs * 2 < LONGEST_WAIT {
        secs * 2
    } else {
        LONGEST_WAIT as int
    }
}

/// The state of a collector, and the counters, after an event. An event that does
/// not answer what the collector asked for changes nothing.
pub open spec fn stepped(s: CollectorState, m: MetricsState, ev: Event) -> (
    CollectorState,
    MetricsState,
) {
    let stop = (
        CollectorState { phase: Phase::Stop, ..s },
        MetricsState { state: State::Draining, ..m },
    );
    let go = MetricsState { state: State::Streaming, ..m };
    let lost = MetricsState { disconnects: counted(m.disconnects + 1), ..m };
    let wait = (
        CollectorState { phase: Phase::Sleep, ..s },
        MetricsState { state: State::Backoff, ..m },
    );
    match (s.phase, ev) {
        (Phase::Start, Event::Polled(true)) => stop,
        (Phase::Start, Event::Polled(false)) => {
            let next = CollectorState { first: false, since: m.last_log_ms, ..s };
            if s.first {
                (CollectorState { phase: Phase::Mark, ..next }, go)
            } else {
                (
                    CollectorState { phase: Phase::Announce, ..next },
                    MetricsState { reconnects: counted(m.reconnects + 1), ..m },
                )
            }
        },
        (Phase::Announce, Event::Emitted) => (CollectorState { phase: Phase::Mark, ..s }, go),
        (Phase::Mark, Event::Marked(true)) => (CollectorState { phase: Phase::Spawn, ..s }, m),
        (Phase::Mark, Event::Marked(false)) => stop,
        (Phase::Spawn, Event::Spawned) => (CollectorState { phase: Phase::Stream, ..s }, m),
        (Phase::Spawn, Event::SpawnFailed(e)) => (
            CollectorState { phase: Phase::Report, detail: spawn_failed_text(e@), ..s },
            lost,
        ),
        (Phase::Stream, Event::Streamed(Outcome::Shutdown)) => stop,
        (Phase::Stream, Event::Streamed(Outcome::Ended { token, detail })) => (
            CollectorState { phase: Phase::Report, detail: disconnect_text(token@, detail@), ..s },
            lost,
        ),
        (Phase::Report, Event::Emitted) => (
            CollectorState { phase: Phase::Check, backoff: 1, warned: false, ..s },
            MetricsState { state: State::WaitingDevice, ..m },
        ),
        (Phase::Check, Event::Polled(true)) => stop,
        (Phase::Check, Event::Polled(false)) => (CollectorState { phase: Phase::Query, ..s }, m),
        (Phase::Query, Event::DeviceState(answer)) => match answer {
            Some(state) => if state@ == "device"@ {
                (CollectorState { phase: Phase::Start, ..s }, m)
            } else if state@ == "unauthorized"@ && !s.warned {
                (CollectorState { phase: Phase::Warn, ..s }, m)
            } else {
                wait
            },
            None => wait,
        },
        (Phase::Warn, Event::Emitted) => (
            CollectorState { phase: Phase::Sleep, warned: true, ..s },
            MetricsState { state: State::Backoff, ..m },
        ),
        (Phase::Sleep, Event::Slept) => (
            CollectorState { phase: Phase::Check, backoff: next_wait(s.backoff), ..s },
            m,
        ),
        (Phase::Sleep, Event::Shutdown) => stop,
        _ => (s, m),
    }
}

/// What a collector asks for, as texts and numbers.
pub enum Demand {
    Poll,
    Emit { event: Seq<char>, detail: Seq<char> },
    Mark,
    Spawn { since: Seq<char> },
    Stream,
    Query,
    Sleep { secs: int },
    Stop,
}

/// What a collector in a state asks for.
pub open spec fn demanded(s: CollectorState) -> Demand {
    match s.phase {
        Phase::Start => Demand::Poll,
        Phase::Announce => Demand::Emit {
            event: "reconnect"@,
            detail: "since="@ + epoch_text(s.since),
        },
        Phase::Mark => Demand::Mark,
        Phase::Spawn => Demand::Spawn { since: epoch_text(s.since) },
        Phase::Stream => Demand::Stream,
        Phase::Report => Demand::Emit { event: "disconnect"@, detail: s.detail },
        Phase::Check => Demand::Poll,
        Phase::Query => Demand::Query,
        Phase::Warn => Demand::Emit { event: "unauthorized"@, detail: "serial="@ + s.serial },
        Phase::Sleep => Demand::Sleep { secs: s.backoff },
        Phase::Stop => Demand::Stop,
    }
}

/// What a collector asks for next.
#[derive(Debug, PartialEq, Eq)]
pub enum Action {
    /// To see whether the program is to end.
    Poll,
    /// To tell an event.
    Emit { event: &'static str, detail: String },
    /// To tell the writer that lines may come again.
    Mark,
    /// To start the log reader at a point in time.
    Spawn { since: String },
    /// To stream until the stream ends.
    Stream,
    /// To ask for the state of the device.
    Query,
    /// To wait for some seconds, or until the program is to end.
    Sleep { secs: u64 },
    /// Nothing: the collector has ended.
    Stop,
}

impl View for Action {
    type V = Demand;

    open spec fn view(&self) -> Demand {
        match self {
            Action::Poll => Demand::Poll,
            Action::Emit { event, detail } => Demand::Emit { event: event@, detail: detail@ },
            Action::Mark => Demand::Mark,
            Action::Spawn { since } => Demand::Spawn { since: since@ },
            Action::Stream => Demand::Stream,
            Action::Query => Demand::Query,
            Action::Sleep { secs } => Demand::Sleep { secs: *secs as int },
            Action::Stop => Demand::Stop,
        }
    }
}

/// The collection loop of one session.
pub struct Collector {
    serial: String,
    phase: Phase,
    first: bool,
    since: i64,
    detail: String,
    backoff: u64,
    warned: bool,
}

impl View for Collector {
    type V = CollectorState;

    closed spec fn view(&self) -> CollectorState {
        CollectorState {
            serial: self.serial@,
            phase: self.phase,
            first: self.first,
            since: self.since as int,
            detail: self.detail@,
            backoff: self.backoff as int,
            warned: self.warned,
        }
    }
}

/// The state of a collector at its start.
pub open spec fn started(serial: Seq<char>) -> CollectorState {
    CollectorState {
        serial,
        phase: Phase::Start,
        first: true,
        since: 0,
        detail: Seq::empty(),
        backoff: 1,
        warned: false,
    }
}

impl Collector {
    #[verifier::type_invariant]
    spec fn inv(self) -> bool {
        1 <= self.backoff <= LONGEST_WAIT
    }

    /// The collector of a device at its start.
    pub fn new(serial: &str) -> (r: Collector)
        ensures
            r@ == started(serial@),
    {
        Collector {
            serial: serial.to_string(),
            phase: Phase::Start,
            first: true,
            since: 0,
            detail: String::new(),
            backoff: 1,
            warned: false,
        }
    }

    /// What has to be done next.
    pub fn action(&self) -> (r: Action)
        ensures
            r@ == demanded(self@),
            r matches Action::Sleep { secs } ==> 1 <= secs <= LONGEST_WAIT,
    {
        proof {
            use_type_invariant(self);
        }
        match self.phase {
            Phase::Start => Action::Poll,
            Phase::Announce => {
                let mut detail = "since=".to_string();
                detail.append(ms_to_logcat_arg(self.since).as_str());
                Action::Emit { event: "reconnect", detail }
            },
            Phase::Mark => Action::Mark,
            Phase::Spawn => Action::Spawn { since: ms_to_logcat_arg(self.since) },
            Phase::Stream => Action::Stream,
            Phase::Report => Action::Emit { event: "disconnect", detail: self.detail.clone() },
            Phase::Check => Action::Poll,
            Phase::Query => Action::Query,
            Phase::Warn => {
                let mut detail = "serial=".to_string();
                detail.append(self.serial.as_str());
                Action::Emit { event: "unauthorized", detail }
            },
            Phase::Sleep => Action::Sleep { secs: self.backoff },
            Phase::Stop => Action::Stop,
        }
    }

    /// Takes what came of the last action.
    pub fn step(&mut self, m: &mut Metrics, ev: Event)
        ensures
            (final(self)@, final(m)@) == stepped(old(self)@, old(m)@, ev),
            // What is told of a break is one line.
            one_line(old(self)@.detail) && (ev matches Event::Streamed(Outcome::Ended {
                token,
                detail,
            }) ==> one_line(token@)) ==> one_line(final(self)@.detail),
    {
        proof {
            use_type_invariant(&*self);
        }
        match (self.phase, ev) {
            (Phase::Start, Event::Polled(true)) | (Phase::Check, Event::Polled(true)) | (
                Phase::Mark,
                Event::Marked(false),
            ) | (Phase::Sleep, Event::Shutdown) => {
                self.phase = Phase::Stop;
                m.set_state(State::Draining);
            },
            (Phase::Start, Event::Polled(false)) => {
                self.since = m.last_log_ms();
                if self.first {
                    self.first = false;
                    self.phase = Phase::Mark;
                    m.set_state(State::Streaming);
                } else {
                    self.phase = Phase::Announce;
                    m.inc_reconnect();
                }
            },
            (Phase::Announce, Event::Emitted) => {
                self.phase = Phase::Mark;
                m.set_state(State::Streaming);
            },
            (Phase::Mark, Event::Marked(true)) => {
                self.phase = Phase::Spawn;
            },
            (Phase::Spawn, Event::Spawned) => {
                self.phase = Phase::Stream;
            },
            (Phase::Spawn, Event::SpawnFailed(e)) => {
                let mut detail = "reason=spawn_failed detail=".to_string();
                detail.append(quoted(e.as_str()).as_str());
                proof {
                    reveal_strlit("reason=spawn_failed detail=");
                    assert(one_line(detail@));
                }
                self.detail = detail;
                self.phase = Phase::Report;
                m.inc_disconnect();
            },
            (Phase::Stream, Event::Streamed(outcome)) => match outcome {
                Outcome::Shutdown => {
                    self.phase = Phase::Stop;
                    m.set_state(State::Draining);
                },
                Outcome::Ended { token, detail } => {
                    let mut told = "reason=".to_string();
                    told.append(token.as_str());
                    if !detail.as_str().is_empty() {
                        told.append(" stderr=");
                        told.append(quoted(detail.as_str()).as_str());
                    }
                    proof {
                        reveal_strlit("reason=");
                        reveal_strlit(" stderr=");
                        assert(one_line(token@) ==> one_line(told@));
                    }
                    self.detail = told;
                    self.phase = Phase::Report;
                    m.inc_disconnect();
                },
            },
            (Phase::Report, Event::Emitted) => {
                self.phase = Phase::Check;
                self.backoff = 1;
                self.warned = false;
                m.set_state(State::WaitingDevice);
            },
            (Phase::Check, Event::Polled(false)) => {
                self.phase = Phase::Query;
            },
            (Phase::Query, Event::DeviceState(answer)) => {
                self.phase = Phase::Sleep;
                if let Some(state) = answer {
                    let cs = chars_of(state.as_str());
                    if is_text(&cs, "device") {
                        self.phase = Phase::Start;
                    } else if is_text(&cs, "unauthorized") && !self.warned {
                        self.phase = Phase::Warn;
                    }
                }
                if self.phase == Phase::Sleep {
                    m.set_state(State::Backoff);
                }
            },
            (Phase::Warn, Event::Emitted) => {
                self.phase = Phase::Sleep;
                self.warned = true;
                m.set_state(State::Backoff);
            },
            (Phase::Sleep, Event::Slept) => {
                self.phase = Phase::Check;
                self.backoff = if self.backoff * 2 < LONGEST_WAIT {
                    self.backoff * 2
                } else {
                    LONGEST_WAIT
                };
            },
            _ => {},
        }
    }
}

/// Whether the counts of breaks and of streams that went on after one agree: they
/// are equal while a stream is up or about to be, and in a break there is one more
/// break. A count of breaks goes on from zero at its end, as the counters do.
pub open spec fn balanced(s: CollectorState, m: MetricsState) -> bool {
    let in_break = match s.phase {
        Phase::Start => !s.first,
        Phase::Report | Phase::Check | Phase::Query | Phase::Warn | Phase::Sleep => true,
        _ => false,
    };
    if s.phase is Stop {
        m.disconnects == m.reconnects || m.disconnects == counted(m.reconnects + 1)
    } else if in_break {
        m.disconnects == counted(m.reconnects + 1)
    } else {
        m.disconnects == m.reconnects
    }
}

/// What holds of a collector at all times.
pub open spec fn sound(s: CollectorState) -> bool {
    &&& 1 <= s.backoff <= LONGEST_WAIT
    &&& s.phase !is Start && s.phase !is Stop ==> !s.first
    &&& s.phase is Warn ==> !s.warned
}

/// The counts of breaks and of streams that went on after one agree from the start
/// of a session and after every event.
pub proof fn law_every_break_is_made_up_for(
    serial: Seq<char>,
    start: MetricsState,
    s: CollectorState,
    m: MetricsState,
    ev: Event,
)
    ensures
        start.disconnects == start.reconnects ==> balanced(started(serial), start),
        balanced(s, m) && sound(s) ==> balanced(stepped(s, m, ev).0, stepped(s, m, ev).1),
{
}

/// A collector starts sound and stays so: it waits no shorter than a second and no
/// longer than the longest wait, and it tells of a locked device only where it has
/// not told of it in this break.
pub proof fn law_collector_stays_sound(
    serial: Seq<char>,
    s: CollectorState,
    m: MetricsState,
    ev: Event,
)
    ensures
        sound(started(serial)),
        sound(s) ==> sound(stepped(s, m, ev).0),
{
}

/// Once told in a break that the device is locked, a collector does not tell it
/// again before the next break.
pub proof fn law_locked_device_is_told_once(s: CollectorState, m: MetricsState, ev: Event)
    requires
        s.warned,
        s.phase !is Report,
        s.phase !is Warn,
    ensures
        stepped(s, m, ev).0.phase !is Warn,
        stepped(s, m, ev).0.warned,
{
}

/// Whether an event says that the collector is to end.
pub open spec fn tells_to_end(ev: Event) -> bool {
    match ev {
        Event::Polled(end) => end,
        Event::Marked(accepted) => !accepted,
        Event::Shutdown => true,
        Event::Streamed(outcome) => outcome is Shutdown,
        _ => false,
    }
}

/// A collector ends only where it is told to, where nobody is there to take lines
/// any more, or where its stream was told to end; the session is then draining,
/// and the collector stays ended.
pub proof fn law_collector_ends_only_when_told(s: CollectorState, m: MetricsState, ev: Event)
    ensures
        s.phase is Stop ==> stepped(s, m, ev) == (s, m),
        s.phase !is Stop && stepped(s, m, ev).0.phase is Stop ==> {
            &&& tells_to_end(ev)
            &&& stepped(s, m, ev).1.state is Draining
        },
{
}

/// A stream starts at the time of the last line that was stored when the collector
/// set out for it: that time is what the log reader is given and what is told of
/// it, and it is a time that reads back as it was.
pub proof fn law_stream_starts_at_the_last_line(s: CollectorState, m: MetricsState, ev: Event)
    requires
        i64::MIN <= m.last_log_ms <= i64::MAX,
    ensures
        s.phase is Start && stepped(s, m, ev).0.phase !is Start && stepped(s, m, ev).0.phase
            !is Stop ==> stepped(s, m, ev).0.since == m.last_log_ms && clock_ms(
            epoch_text(stepped(s, m, ev).0.since),
        ) == Some(m.last_log_ms),
        s.phase !is Start ==> stepped(s, m, ev).0.since == s.since,
        s.phase is Spawn ==> demanded(s) == (Demand::Spawn { since: epoch_text(s.since) }),
{
    law_epoch_roundtrip(m.last_log_ms as i64);
}

/// Only a device that answers `device` ends the wait: the collector then goes on to a
/// new stream from the last line stored. Every other answer, and none at all, is
/// followed by a wait of the seconds that are due, with a word before it on a device
/// that is locked where that was not told yet.
pub proof fn law_only_a_ready_device_ends_the_wait(
    s: CollectorState,
    m: MetricsState,
    answer: Option<String>,
    later: MetricsState,
)
    requires
        demanded(s) is Query,
        !s.first,
    ensures
        ({
            let t = stepped(s, m, Event::DeviceState(answer)).0;
            let says = match answer {
                Some(state) => Some(state@),
                None => None,
            };
            &&& says == Some(seq!['d', 'e', 'v', 'i', 'c', 'e']) ==> demanded(t) is Poll && demanded(
                stepped(t, later, Event::Polled(false)).0,
            ) == (Demand::Emit {
                event: "reconnect"@,
                detail: "since="@ + epoch_text(later.last_log_ms),
            })
            &&& says == Some("unauthorized"@) && !s.warned ==> demanded(t) == (Demand::Emit {
                event: "unauthorized"@,
                detail: "serial="@ + s.serial,
            }) && demanded(stepped(t, later, Event::Emitted).0) == (Demand::Sleep {
                secs: s.backoff,
            })
            &&& says != Some(seq!['d', 'e', 'v', 'i', 'c', 'e']) && (says != Some("unauthorized"@)
                || s.warned) ==> demanded(t) == (Demand::Sleep { secs: s.backoff })
        }),
{
    reveal_strlit("device");
    reveal_strlit("unauthorized");
    assert("device"@ =~= seq!['d', 'e', 'v', 'i', 'c', 'e']);
    assert("unauthorized"@[0] == 'u');
}

/// After a wait the collector looks for the device again, unless it is told to end,
/// and waits twice as long where the device is not there, up to five seconds.
pub proof fn law_waits_grow_to_five_seconds(
    s: CollectorState,
    m: MetricsState,
    m2: MetricsState,
    m3: MetricsState,
    secs: int,
)
    requires
        demanded(s) == (Demand::Sleep { secs }),
        1 <= secs <= 5,
    ensures
        ({
            let a = stepped(s, m, Event::Slept).0;
            let b = stepped(a, m2, Event::Polled(false)).0;
            let c = stepped(b, m3, Event::DeviceState(None)).0;
            &&& demanded(a) is Poll
            &&& demanded(b) is Query
            &&& demanded(c) == (Demand::Sleep {
                secs: if secs == 1 {
                    2
                } else if secs == 2 {
                    4
                } else {
                    5
                },
            })
        }),
{
}

/// A stream that ended, or could not be started, is told of, with the reason and what
/// the log reader said; then the collector looks for the device and waits a second
/// where it is not there, and the count of breaks is one more.
pub proof fn law_break_is_told_and_waited_for(
    s: CollectorState,
    m: MetricsState,
    token: String,
    detail: String,
    error: String,
    m2: MetricsState,
    m3: MetricsState,
    m4: MetricsState,
)
    ensures
        demanded(s) is Stream ==> ({
            let t = stepped(s, m, Event::Streamed(Outcome::Ended { token, detail }));
            &&& demanded(t.0) == (Demand::Emit {
                event: "disconnect"@,
                detail: if detail@.len() == 0 {
                    "reason="@ + token@
                } else {
                    "reason="@ + token@ + " stderr="@ + quoted_text(detail@)
                },
            })
            &&& t.1 == (MetricsState { disconnects: counted(m.disconnects + 1), ..m })
            &&& goes_looking(t.0, m2, m3, m4)
        }),
        demanded(s) is Spawn ==> ({
            let t = stepped(s, m, Event::SpawnFailed(error));
            &&& demanded(t.0) == (Demand::Emit {
                event: "disconnect"@,
                detail: "reason=spawn_failed detail="@ + quoted_text(error@),
            })
            &&& t.1 == (MetricsState { disconnects: counted(m.disconnects + 1), ..m })
            &&& goes_looking(t.0, m2, m3, m4)
        }),
{
    lemma_literals_differ();
}

/// Whether a collector that has told of a break asks whether the program is to end,
/// then for the device, and waits a second where there is no answer.
pub open spec fn goes_looking(
    t: CollectorState,
    m: MetricsState,
    m2: MetricsState,
    m3: MetricsState,
) -> bool {
    let (a, n) = stepped(t, m, Event::Emitted);
    let b = stepped(a, m2, Event::Polled(false)).0;
    let (c, w) = stepped(b, m3, Event::DeviceState(None));
    &&& demanded(a) is Poll
    &&& n == (MetricsState { state: State::WaitingDevice, ..m })
    &&& demanded(b) is Query
    &&& demanded(c) == (Demand::Sleep { secs: 1 })
    &&& w == (MetricsState { state: State::Backoff, ..m3 })
}

proof fn lemma_literals_differ()
    ensures
        "disconnect"@ != "reconnect"@,
        "disconnect"@ != "unauthorized"@,
        "reconnect"@ != "unauthorized"@,
{
    reveal_strlit("disconnect");
    reveal_strlit("reconnect");
    reveal_strlit("unauthorized");
    assert("disconnect"@.len() == 10 && "reconnect"@.len() == 9 && "unauthorized"@.len() == 12);
}

/// A stream is set up in one order: the writer is told that lines may come again, the log
/// reader is started at the last line stored, and the stream runs. All but the first
/// stream are told of before that and counted.
pub proof fn law_stream_is_set_up_in_order(
    serial: Seq<char>,
    s: CollectorState,
    m: MetricsState,
    m2: MetricsState,
    m3: MetricsState,
    m4: MetricsState,
)
    requires
        s.phase is Start,
    ensures
        demanded(started(serial)) is Poll && started(serial).phase is Start && started(serial).first,
        demanded(s) is Poll,
        ({
            let (a, n) = stepped(s, m, Event::Polled(false));
            let (b, o) = if s.first {
                (a, n)
            } else {
                stepped(a, m2, Event::Emitted)
            };
            let c = stepped(b, m3, Event::Marked(true));
            let d = stepped(c.0, m4, Event::Spawned);
            &&& s.first ==> n == (MetricsState { state: State::Streaming, ..m })
            &&& !s.first ==> n == (MetricsState { reconnects: counted(m.reconnects + 1), ..m })
                && demanded(a) == (Demand::Emit {
                event: "reconnect"@,
                detail: "since="@ + epoch_text(m.last_log_ms),
            }) && o == (MetricsState { state: State::Streaming, ..m2 })
            &&& demanded(b) is Mark
            &&& !b.first
            &&& demanded(c.0) == (Demand::Spawn { since: epoch_text(m.last_log_ms) })
            &&& c.1 == m3
            &&& demanded(d.0) is Stream
            &&& d.1 == m4
        }),
{
}

/// Whether an event answers what a collector asks for.
pub open spec fn answers(d: Demand, ev: Event) -> bool {
    match d {
        Demand::Poll => ev is Polled,
        Demand::Emit { event, detail } => ev is Emitted,
        Demand::Mark => ev is Marked,
        Demand::Spawn { since } => ev is Spawned || ev is SpawnFailed,
        Demand::Stream => ev is Streamed,
        Demand::Query => ev is DeviceState,
        Demand::Sleep { secs } => ev is Slept || ev is Shutdown,
        Demand::Stop => false,
    }
}

/// An event that does not answer what a collector asks for changes nothing; one that
/// does moves the collector on to another thing to ask for.
pub proof fn law_collector_moves_on_when_answered(s: CollectorState, m: MetricsState, ev: Event)
    ensures
        !answers(demanded(s), ev) ==> stepped(s, m, ev) == (s, m),
        answers(demanded(s), ev) ==> stepped(s, m, ev).0.phase != s.phase,
        stepped(s, m, ev).0.serial == s.serial,
{
}

/// A collector that is told to end does so, whatever it was about, and the session is
/// draining then.
pub proof fn law_collector_ends_when_told(s: CollectorState, m: MetricsState, ev: Event)
    requires
        tells_to_end(ev),
        answers(demanded(s), ev),
    ensures
        demanded(stepped(s, m, ev).0) is Stop,
        stepped(s, m, ev).1 == (MetricsState { state: State::Draining, ..m }),
{
}

/// A collector counts breaks and streams that go on, one for each, and touches no other
/// counter: breaks where a stream ends or cannot be started, streams that go on where
/// one is set out for that is not the first.
pub proof fn law_collector_counts_breaks_alone(s: CollectorState, m: MetricsState, ev: Event)
    ensures
        ({
            let n = stepped(s, m, ev).1;
            &&& n.disconnects == if (demanded(s) is Stream && (ev matches Event::Streamed(o)
                && o is Ended)) || (demanded(s) is Spawn && ev is SpawnFailed) {
                counted(m.disconnects + 1)
            } else {
                m.disconnects
            }
            &&& n.reconnects == if s.phase is Start && !s.first && (ev matches Event::Polled(end)
                && !end) {
                counted(m.reconnects + 1)
            } else {
                m.reconnects
            }
            &&& n == (MetricsState {
                disconnects: n.disconnects,
                reconnects: n.reconnects,
                state: n.state,
                ..m
            })
        }),
{
}

/// Whether the state that is shown of a session is that of its collector.
pub open spec fn shown_state(s: CollectorState, m: MetricsState) -> bool {
    match demanded(s) {
        Demand::Mark | Demand::Spawn { .. } | Demand::Stream => m.state is Streaming,
        Demand::Sleep { .. } => m.state is Backoff,
        Demand::Query => m.state is WaitingDevice || m.state is Backoff,
        Demand::Stop => m.state is Draining,
        _ => true,
    }
}

/// The state that is shown of a session follows what its collector is about.
pub proof fn law_shown_state_follows_the_collector(s: CollectorState, m: MetricsState, ev: Event)
    requires
        shown_state(s, m),
        s.phase is Check || s.phase is Warn ==> m.state is WaitingDevice || m.state is Backoff,
    ensures
        shown_state(stepped(s, m, ev).0, stepped(s, m, ev).1),
        stepped(s, m, ev).0.phase is Check || stepped(s, m, ev).0.phase is Warn ==> stepped(
            s,
            m,
            ev,
        ).1.state is WaitingDevice || stepped(s, m, ev).1.state is Backoff,
{
}

/// Whether a text holds another.
pub open spec fn holds(s: Seq<char>, p: Seq<char>) -> bool {
    exists|a: Seq<char>, b: Seq<char>| s == #[trigger] (a + p + b)
}

/// The reason for the end of a stream goes by what the log reader said: that the device
/// is offline comes first, then that it is locked, then that it was not found, then
/// that the connection was closed; where it said none of these, the stream just ended.
pub proof fn law_reason_goes_by_what_was_said(low: Seq<char>)
    ensures
        holds(low, "device offline"@) ==> reason(low) == "device_offline"@,
        !holds(low, "device offline"@) && holds(low, "unauthorized"@) ==> reason(low)
            == "unauthorized"@,
        !holds(low, "device offline"@) && !holds(low, "unauthorized"@) && (holds(
            low,
            "not found"@,
        ) || holds(low, "no devices"@)) ==> reason(low) == "device_not_found"@,
        !holds(low, "device offline"@) && !holds(low, "unauthorized"@) && !holds(low, "not found"@)
            && !holds(low, "no devices"@) && holds(low, "closed"@) ==> reason(low)
            == "connection_closed"@,
        !holds(low, "device offline"@) && !holds(low, "unauthorized"@) && !holds(low, "not found"@)
            && !holds(low, "no devices"@) && !holds(low, "closed"@) ==> reason(low)
            == "stream_ended"@,
{
    law_contains_is_in_between(low, "device offline"@);
    law_contains_is_in_between(low, "unauthorized"@);
    law_contains_is_in_between(low, "not found"@);
    law_contains_is_in_between(low, "device not found"@);
    law_contains_is_in_between(low, "no devices"@);
    law_contains_is_in_between(low, "closed"@);
    if contains_text(low, "device not found"@) {
        reveal_strlit("device not found");
        reveal_strlit("not found");
        assert("device not found"@ =~= "device not found"@.take(7) + "not found"@
            + Seq::<char>::empty());
        lemma_contains_between("device not found"@.take(7), "not found"@, Seq::empty());
        lemma_contains_trans(low, "device not found"@, "not found"@);
    }
}

/// Each line feed of an error text becomes a mark with a space on either side, and all
/// other characters stay.
pub proof fn law_line_feeds_are_marked(a: Seq<char>, b: Seq<char>)
    ensures
        marked_text(a + b) == marked_text(a) + marked_text(b),
        marked_text(seq!['\n']) == " ⏎ "@,
        (forall|i: int| 0 <= i < a.len() ==> #[trigger] a[i] != '\n') ==> marked_text(a) == a,
    decreases a.len() + b.len(),
{
    let none = Seq::<char>::empty();
    let lf = seq!['\n'];
    assert(lf.drop_last() =~= none);
    assert(marked_text(none) =~= none);
    assert(marked_text(lf) =~= " ⏎ "@);
    if b.len() == 0 {
        assert(a + b =~= a);
        assert(marked_text(a) + marked_text(b) =~= marked_text(a));
        if a.len() > 0 {
            if forall|i: int| 0 <= i < a.len() ==> #[trigger] a[i] != '\n' {
                let t = a.drop_last();
                assert forall|i: int| 0 <= i < t.len() implies #[trigger] t[i] != '\n' by {
                    assert(a[i] != '\n');
                }
                law_line_feeds_are_marked(t, b);
                assert(a[a.len() - 1] != '\n');
                assert(marked_text(a) =~= a);
            }
        } else {
            assert(a =~= none);
        }
    } else {
        assert((a + b).drop_last() =~= a + b.drop_last());
        assert((a + b).last() == b.last());
        law_line_feeds_are_marked(a, b.drop_last());
        assert(marked_text(a + b) =~= marked_text(a) + marked_text(b));
        law_line_feeds_are_marked(a, none);
    }
}

/// What is told of the end of a stream is the error text without the white space around
/// it, its line feeds marked, and behind it how the process ended.
pub proof fn law_end_is_told_with_its_status(
    a: Seq<char>,
    e: Seq<char>,
    b: Seq<char>,
    status: Seq<char>,
)
    requires
        forall|i: int| 0 <= i < a.len() ==> is_white(#[trigger] a[i]),
        forall|i: int| 0 <= i < b.len() ==> is_white(#[trigger] b[i]),
        e.len() > 0 ==> !is_white(e[0]) && !is_white(e.last()),
    ensures
        ended_text(a + e + b, None) == marked_text(e),
        ended_text(a + e + b, Some(status)) == if e.len() == 0 {
            "[exit: "@ + status + "]"@
        } else {
            marked_text(e) + " [exit: "@ + status + "]"@
        },
{
    law_trim_takes_white_space_away(a, e, b);
    if e.len() > 0 {
        reveal_strlit(" ⏎ ");
        assert(marked_text(e).len() > 0);
        reveal_strlit(" ");
        reveal_strlit("[exit: ");
        reveal_strlit(" [exit: ");
        assert(" "@ + "[exit: "@ =~= " [exit: "@);
        assert(marked_text(e) + " "@ + "[exit: "@ =~= marked_text(e) + " [exit: "@);
    }
}

/// The errors that a stream was told of in the course of some events, in their order.
pub open spec fn errors_told(evs: Seq<StreamEvent>) -> Seq<char>
    decreases evs.len(),
{
    if evs.len() == 0 {
        Seq::empty()
    } else {
        errors_told(evs.drop_last()) + match (stream_run(evs.drop_last()).phase, evs.last()) {
            (StreamPhase::Reading, StreamEvent::ErrorLine(e)) => e@,
            (StreamPhase::Reading, StreamEvent::OutputFailed(e)) => "[stdout read error: "@ + e@
                + "]"@,
            (StreamPhase::Draining, StreamEvent::Drained { rest, .. }) => rest@,
            _ => Seq::empty(),
        }
    }
}

/// A stream forgets none of the errors that it was told of, and where it ends it
/// judges and tells by all of them.
pub proof fn law_stream_tells_all_errors(evs: Seq<StreamEvent>, rest: String, status: Option<String>)
    ensures
        stream_run(evs).errors == errors_told(evs),
        stream_run(evs).phase is Draining ==> stream_run(
            evs.push(StreamEvent::Drained { rest, status }),
        ).phase == (StreamPhase::Ended {
            token: reason(lower_text(errors_told(evs) + rest@)),
            detail: ended_text(
                errors_told(evs) + rest@,
                match status {
                    Some(st) => Some(st@),
                    None => None,
                },
            ),
        }),
    decreases evs.len(),
{
    let more = evs.push(StreamEvent::Drained { rest, status });
    assert(more.drop_last() =~= evs);
    assert(more.last() == (StreamEvent::Drained { rest, status }));
    if evs.len() > 0 {
        law_stream_tells_all_errors(evs.drop_last(), rest, status);
        let e = errors_told(evs.drop_last());
        assert(e + Seq::<char>::empty() =~= e);
        if let StreamEvent::OutputFailed(x) = evs.last() {
            assert(e + ("[stdout read error: "@ + x@ + "]"@) =~= e + "[stdout read error: "@ + x@
                + "]"@);
        }
    }
}

/// A stream that reads stores the line it is given, and reads on once it is taken; it
/// reads the rest of the errors when the log has ended or cannot be read; it ends at
/// once where the program is to end or nobody takes its lines; once ended it stays so.
pub proof fn law_stream_does_one_thing_at_a_time(s: StreamState, ev: StreamEvent)
    ensures
        ({
            let t = stream_stepped(s, ev);
            &&& s.phase is Reading ==> match ev {
                StreamEvent::Line(line) => t.phase == StreamPhase::Storing(line@),
                StreamEvent::OutputEnd | StreamEvent::OutputFailed(_) => t.phase is Draining,
                StreamEvent::Shutdown => t.phase is Shutdown,
                _ => t.phase is Reading,
            }
            &&& s.phase is Storing ==> match ev {
                StreamEvent::Stored => t.phase is Reading,
                StreamEvent::Refused | StreamEvent::Shutdown => t.phase is Shutdown,
                _ => t.phase == s.phase,
            }
            &&& s.phase is Draining ==> if ev is Drained {
                t.phase is Ended
            } else {
                t.phase is Draining
            }
            &&& s.phase is Ended || s.phase is Shutdown ==> t == s
            &&& t.errors_done == (s.errors_done || (s.phase is Reading && ev is ErrorEnd))
        }),
{
}

} // verus!
