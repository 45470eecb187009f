//! The writer of the log: when lines are written, when they are flushed so that
//! other programs see them, and when the heartbeat file is touched.
//!
//! It is a machine: its state says what has to be done next, and what came of that
//! is handed back to it as an event.

use vstd::prelude::*;
use std::collections::HashMap;
use crate::report::{counted, Metrics, MetricsState};
use crate::router::{
    after_line, after_stream, fresh, keeps, lemma_same_lines, lemma_split, reconnecting, written,
    RouterState,
};
use crate::sink::{stored_form, Msg, Sink, SinkState};

verus! {

/// What a writer is about.
pub enum WriterPhase {
    /// It waits for a message, or for the time to touch the heartbeat file.
    Wait,
    /// It writes the bytes of a line.
    Write(Seq<u8>),
    /// It looks for a message that is already there.
    Next,
    /// It flushes as time has passed.
    FlushTick,
    /// It flushes as no message is there.
    FlushIdle,
    /// It flushes as no message will come any more.
    FlushEnd,
    /// It touches the heartbeat file as time has passed.
    TouchTick,
    /// It touches the heartbeat file as no message will come any more.
    TouchEnd,
    /// It has ended.
    Done,
}

/// The state of a writer.
pub struct WriterState {
    pub sink: SinkState,
    pub phase: WriterPhase,
}

/// What came of the last thing that a writer asked for.
pub enum WriterEvent {
    /// Time has passed.
    Tick,
    /// A message came.
    Message(Msg),
    /// No message is there.
    Empty,
    /// No message will come any more.
    Closed,
    /// The bytes were written.
    Written,
    /// What was written was flushed.
    Flushed,
    /// The heartbeat file was touched.
    Touched,
}

/// Whether a writer in the state `s` is in the state `t` after a message: a line
/// that is kept is written in the form for storage, and the next message follows
/// what is not written.
pub open spec fn took(s: WriterState, msg: Msg, names: Map<u32, String>, t: WriterState) -> bool {
    match msg {
        Msg::Reconnecting => t == (WriterState {
            sink: SinkState { router: reconnecting(s.sink.router), ..s.sink },
            phase: WriterPhase::Next,
        }),
        Msg::Line(line) => {
            &&& t.sink == (SinkState { router: after_line(s.sink.router, line@), ..s.sink })
            &&& if keeps(s.sink.router, line@) {
                t.phase matches WriterPhase::Write(out) && stored_form(line@, names, out)
            } else {
                t.phase is Next
            }
        },
    }
}

/// Whether a writer in the state `s` with the counters `m` is in the state `t` with
/// the counters `n` after an event. An event that does not answer what the writer
/// asked for changes nothing.
pub open spec fn moved(
    s: WriterState,
    m: MetricsState,
    names: Map<u32, String>,
    ev: WriterEvent,
    t: WriterState,
    n: MetricsState,
) -> bool {
    match (s.phase, ev) {
        (WriterPhase::Wait, WriterEvent::Tick) => n == m && t == (WriterState {
            phase: WriterPhase::FlushTick,
            ..s
        }),
        (WriterPhase::Wait, WriterEvent::Message(msg)) => n == m && took(s, msg, names, t),
        (WriterPhase::Next, WriterEvent::Message(msg)) => n == m && took(s, msg, names, t),
        (WriterPhase::Wait, WriterEvent::Closed) => n == m && t == (WriterState {
            phase: WriterPhase::FlushEnd,
            ..s
        }),
        (WriterPhase::Next, WriterEvent::Closed) => n == m && t == (WriterState {
            phase: WriterPhase::FlushEnd,
            ..s
        }),
        (WriterPhase::Next, WriterEvent::Empty) => n == m && t == (WriterState {
            phase: WriterPhase::FlushIdle,
            ..s
        }),
        (WriterPhase::Write(out), WriterEvent::Written) => {
            &&& n == (MetricsState {
                lines: counted(m.lines + 1),
                bytes: counted(m.bytes + out.len()),
                last_log_ms: s.sink.router.last_ms,
                ..m
            })
            &&& t == (WriterState {
                sink: SinkState { dirty: true, ..s.sink },
                phase: WriterPhase::Next,
            })
        },
        (WriterPhase::FlushTick, WriterEvent::Flushed) => n == m && t == (WriterState {
            phase: if s.sink.dirty {
                WriterPhase::TouchTick
            } else {
                WriterPhase::Wait
            },
            ..s
        }),
        (WriterPhase::FlushIdle, WriterEvent::Flushed) => n == m && t == (WriterState {
            phase: WriterPhase::Wait,
            ..s
        }),
        (WriterPhase::FlushEnd, WriterEvent::Flushed) => n == m && t == (WriterState {
            phase: if s.sink.dirty {
                WriterPhase::TouchEnd
            } else {
                WriterPhase::Done
            },
            ..s
        }),
        (WriterPhase::TouchTick, WriterEvent::Touched) => n == m && t == (WriterState {
            sink: SinkState { dirty: false, ..s.sink },
            phase: WriterPhase::Wait,
        }),
        (WriterPhase::TouchEnd, WriterEvent::Touched) => n == m && t == (WriterState {
            sink: SinkState { dirty: false, ..s.sink },
            phase: WriterPhase::Done,
        }),
        _ => n == m && t == s,
    }
}

enum Stage {
    Wait,
    Write(Vec<u8>),
    Next,
    FlushTick,
    FlushIdle,
    FlushEnd,
    TouchTick,
    TouchEnd,
    Done,
}

/// What a writer asks for next.
pub enum WriterAction<'a> {
    /// To wait for a message, or for the time to touch the heartbeat file.
    Wait,
    /// To write some bytes.
    Write(&'a Vec<u8>),
    /// To look for a message that is already there.
    Next,
    /// To flush what was written.
    Flush,
    /// To touch the heartbeat file.
    Touch,
    /// Nothing: the writer has ended.
    Done,
}

/// The writer of the log of a session.
pub struct Writer {
    sink: Sink,
    stage: Stage,
}

impl View for Writer {
    type V = WriterState;

    closed spec fn view(&self) -> WriterState {
        WriterState {
            sink: self.sink@,
            phase: match self.stage {
                Stage::Wait => WriterPhase::Wait,
                Stage::Write(out) => WriterPhase::Write(out@),
                Stage::Next => WriterPhase::Next,
                Stage::FlushTick => WriterPhase::FlushTick,
                Stage::FlushIdle => WriterPhase::FlushIdle,
                Stage::FlushEnd => WriterPhase::FlushEnd,
                Stage::TouchTick => WriterPhase::TouchTick,
                Stage::TouchEnd => WriterPhase::TouchEnd,
                Stage::Done => WriterPhase::Done,
            },
        }
    }
}

impl Writer {
    /// A writer for a session that continues at the last log line counted.
    pub fn new(metrics: &Metrics) -> (r: Writer)
        ensures
            r@ == (WriterState {
                sink: SinkState { router: fresh(metrics@.last_log_ms), dirty: false },
                phase: WriterPhase::Wait,
            }),
    {
        Writer { sink: Sink::new(metrics), stage: Stage::Wait }
    }

    /// What has to be done next.
    pub fn action(&self) -> (r: WriterAction<'_>)
        ensures
            match self@.phase {
                WriterPhase::Wait => r is Wait,
                WriterPhase::Write(out) => r matches WriterAction::Write(o) && o@ == out,
                WriterPhase::Next => r is Next,
                WriterPhase::FlushTick => r is Flush,
                WriterPhase::FlushIdle => r is Flush,
                WriterPhase::FlushEnd => r is Flush,
                WriterPhase::TouchTick => r is Touch,
                WriterPhase::TouchEnd => r is Touch,
                WriterPhase::Done => r is Done,
            },
    {
        match &self.stage {
            Stage::Wait => WriterAction::Wait,
            Stage::Write(out) => WriterAction::Write(out),
            Stage::Next => WriterAction::Next,
            Stage::FlushTick => WriterAction::Flush,
            Stage::FlushIdle => WriterAction::Flush,
            Stage::FlushEnd => WriterAction::Flush,
            Stage::TouchTick => WriterAction::Touch,
            Stage::TouchEnd => WriterAction::Touch,
            Stage::Done => WriterAction::Done,
        }
    }

    fn take(&mut self, msg: Msg, names: &HashMap<u32, String>)
        ensures
            took(old(self)@, msg, names@, final(self)@),
    {
        self.stage = match self.sink.handle(msg, names) {
            Some(out) => Stage::Write(out),
            None => Stage::Next,
        };
    }

    /// Takes what came of the last action.
    pub fn step(&mut self, m: &mut Metrics, names: &HashMap<u32, String>, ev: WriterEvent)
        ensures
            moved(old(self)@, old(m)@, names@, ev, final(self)@, final(m)@),
    {
        match &self.stage {
            Stage::Wait => match ev {
                WriterEvent::Tick => {
                    self.stage = Stage::FlushTick;
                },
                WriterEvent::Message(msg) => {
                    self.take(msg, names);
                },
                WriterEvent::Closed => {
                    self.stage = Stage::FlushEnd;
                },
                _ => {},
            },
            Stage::Next => match ev {
                WriterEvent::Message(msg) => {
                    self.take(msg, names);
                },
                WriterEvent::Closed => {
                    self.stage = Stage::FlushEnd;
                },
                WriterEvent::Empty => {
                    self.stage = Stage::FlushIdle;
                },
                _ => {},
            },
            Stage::Write(out) => {
                if let WriterEvent::Written = ev {
                    let len: usize = out.len();
                    self.sink.stored(m, len);
                    self.stage = Stage::Next;
                }
            },
            Stage::FlushTick => {
                if let WriterEvent::Flushed = ev {
                    self.stage = if self.sink.is_dirty() {
                        Stage::TouchTick
                    } else {
                        Stage::Wait
                    };
                }
            },
            Stage::FlushIdle => {
                if let WriterEvent::Flushed = ev {
                    self.stage = Stage::Wait;
                }
            },
            Stage::FlushEnd => {
                if let WriterEvent::Flushed = ev {
                    self.stage = if self.sink.is_dirty() {
                        Stage::TouchEnd
                    } else {
                        Stage::Done
                    };
                }
            },
            Stage::TouchTick => {
                if let WriterEvent::Touched = ev {
                    self.sink.touched();
                    self.stage = Stage::Wait;
                }
            },
            Stage::TouchEnd => {
                if let WriterEvent::Touched = ev {
                    self.sink.touched();
                    self.stage = Stage::Done;
                }
            },
            Stage::Done => {},
        }
    }
}

/// Whether bytes that were written are not flushed yet, after one more event.
pub open spec fn unflushed(before: bool, phase: WriterPhase, ev: WriterEvent) -> bool {
    match (phase, ev) {
        (WriterPhase::Write(_), WriterEvent::Written) => true,
        (WriterPhase::FlushTick, WriterEvent::Flushed) => false,
        (WriterPhase::FlushIdle, WriterEvent::Flushed) => false,
        (WriterPhase::FlushEnd, WriterEvent::Flushed) => false,
        _ => before,
    }
}

/// Whether a writer that has bytes to flush is on its way to flush them.
pub open spec fn on_its_way(phase: WriterPhase) -> bool {
    phase is Write || phase is Next || phase is FlushIdle || phase is FlushEnd
}

/// A writer never waits, and never ends, with bytes that are not flushed: if it has
/// some it is on its way to flush them, and stays on it with every event.
pub proof fn law_writer_flushes_what_it_writes(
    pending: bool,
    s: WriterState,
    m: MetricsState,
    names: Map<u32, String>,
    ev: WriterEvent,
    t: WriterState,
    n: MetricsState,
)
    requires
        pending ==> on_its_way(s.phase),
        moved(s, m, names, ev, t, n),
    ensures
        unflushed(pending, s.phase, ev) ==> on_its_way(t.phase),
        t.phase is Wait || t.phase is Done || t.phase is TouchTick || t.phase is TouchEnd
            ==> !unflushed(pending, s.phase, ev),
{
}

/// A writer touches the heartbeat file only where lines were stored since it did so
/// before, and ends only where none were.
pub proof fn law_heartbeat_follows_lines(
    s: WriterState,
    m: MetricsState,
    names: Map<u32, String>,
    ev: WriterEvent,
    t: WriterState,
    n: MetricsState,
)
    requires
        s.phase is TouchTick || s.phase is TouchEnd ==> s.sink.dirty,
        s.phase is Done ==> !s.sink.dirty,
        moved(s, m, names, ev, t, n),
    ensures
        t.phase is TouchTick || t.phase is TouchEnd ==> t.sink.dirty,
        t.phase is Done ==> !t.sink.dirty,
{
}

/// The course of a writer: its states, the events between them, the names that were
/// known at each, and the counters before and after each.
pub struct Course {
    pub states: Seq<WriterState>,
    pub events: Seq<WriterEvent>,
    pub names: Seq<Map<u32, String>>,
    pub before: Seq<MetricsState>,
    pub after: Seq<MetricsState>,
}

/// Whether event `i` of a course leads from its state `i` to the next.
pub open spec fn leads_on(c: Course, i: int) -> bool {
    moved(c.states[i], c.before[i], c.names[i], c.events[i], c.states[i + 1], c.after[i])
}

/// Whether a course is one that a writer can take: it starts with nothing to write,
/// and every event leads to the next state. Others may change the counters between
/// events.
pub open spec fn is_course(c: Course) -> bool {
    &&& c.states.len() == c.events.len() + 1
    &&& c.names.len() == c.events.len()
    &&& c.before.len() == c.events.len()
    &&& c.after.len() == c.events.len()
    &&& c.states[0].phase !is Write
    &&& forall|i: int| 0 <= i < c.events.len() ==> #[trigger] leads_on(c, i)
}

/// A message that a writer took: a line, or none for the start of a new stream, and
/// the names that were known.
pub struct Taken {
    pub line: Option<Seq<u8>>,
    pub names: Map<u32, String>,
}

/// The messages that a writer took in the first `n` events of a course: those that
/// came when it waited for one or looked for the next.
pub open spec fn taken(c: Course, n: int) -> Seq<Taken>
    decreases n,
{
    if n <= 0 {
        Seq::empty()
    } else {
        let front = taken(c, n - 1);
        let phase = c.states[n - 1].phase;
        if phase is Wait || phase is Next {
            match c.events[n - 1] {
                WriterEvent::Message(Msg::Line(line)) => front.push(
                    Taken { line: Some(line@), names: c.names[n - 1] },
                ),
                WriterEvent::Message(Msg::Reconnecting) => front.push(
                    Taken { line: None, names: c.names[n - 1] },
                ),
                _ => front,
            }
        } else {
            front
        }
    }
}

/// The bytes that a writer asked to write in the course of its first `n` events.
pub open spec fn asked(c: Course, n: int) -> Seq<Seq<u8>>
    decreases n,
{
    if n <= 0 {
        Seq::empty()
    } else {
        match (c.states[n - 1].phase, c.states[n].phase) {
            (WriterPhase::Write(_), _) => asked(c, n - 1),
            (_, WriterPhase::Write(out)) => asked(c, n - 1).push(out),
            _ => asked(c, n - 1),
        }
    }
}

/// The bytes that were written for a writer in the course of its first `n` events.
pub open spec fn done(c: Course, n: int) -> Seq<Seq<u8>>
    decreases n,
{
    if n <= 0 {
        Seq::empty()
    } else {
        match (c.states[n - 1].phase, c.events[n - 1]) {
            (WriterPhase::Write(out), WriterEvent::Written) => done(c, n - 1).push(out),
            _ => done(c, n - 1),
        }
    }
}

/// The state of a router after some messages.
pub open spec fn routed(st: RouterState, msgs: Seq<Taken>) -> RouterState
    decreases msgs.len(),
{
    if msgs.len() == 0 {
        st
    } else {
        match msgs.last().line {
            Some(line) => after_line(routed(st, msgs.drop_last()), line),
            None => reconnecting(routed(st, msgs.drop_last())),
        }
    }
}

/// The messages whose lines a router keeps, in their order.
pub open spec fn kept(st: RouterState, msgs: Seq<Taken>) -> Seq<Taken>
    decreases msgs.len(),
{
    if msgs.len() == 0 {
        Seq::empty()
    } else {
        let front = kept(st, msgs.drop_last());
        match msgs.last().line {
            Some(line) => if keeps(routed(st, msgs.drop_last()), line) {
                front.push(msgs.last())
            } else {
                front
            },
            None => front,
        }
    }
}

/// Whether some bytes are, one by one, the stored forms of some lines.
pub open spec fn stored_forms(msgs: Seq<Taken>, out: Seq<Seq<u8>>) -> bool {
    &&& msgs.len() == out.len()
    &&& forall|i: int|
        0 <= i < msgs.len() ==> (#[trigger] msgs[i]).line is Some && stored_form(
            msgs[i].line->0,
            msgs[i].names,
            out[i],
        )
}

proof fn lemma_course(c: Course, n: int)
    requires
        is_course(c),
        0 <= n <= c.events.len(),
    ensures
        c.states[n].sink.router == routed(c.states[0].sink.router, taken(c, n)),
        stored_forms(kept(c.states[0].sink.router, taken(c, n)), asked(c, n)),
        match c.states[n].phase {
            WriterPhase::Write(out) => asked(c, n) == done(c, n).push(out),
            _ => asked(c, n) == done(c, n),
        },
    decreases n,
{
    let st = c.states[0].sink.router;
    if n > 0 {
        lemma_course(c, n - 1);
        assert(leads_on(c, n - 1));
        let s = c.states[n - 1];
        let front = taken(c, n - 1);
        if s.phase is Wait || s.phase is Next {
            if let WriterEvent::Message(msg) = c.events[n - 1] {
                let all = taken(c, n);
                assert(all.drop_last() =~= front);
                assert(took(s, msg, c.names[n - 1], c.states[n]));
            }
        }
    }
}

/// What a writer asks to write are, in order, the stored forms of the lines that
/// the router keeps of the messages that the writer took, and what was written for
/// it is that, but for what it asks for at the moment.
pub proof fn law_writer_stores_what_the_router_keeps(c: Course)
    requires
        is_course(c),
    ensures
        ({
            let n = c.events.len() as int;
            &&& stored_forms(kept(c.states[0].sink.router, taken(c, n)), asked(c, n))
            &&& match c.states[n].phase {
                WriterPhase::Write(out) => asked(c, n) == done(c, n).push(out),
                _ => asked(c, n) == done(c, n),
            }
        }),
{
    lemma_course(c, c.events.len() as int);
}

/// Some lines as messages of one stream.
pub open spec fn as_messages(lines: Seq<Seq<u8>>, names: Seq<Map<u32, String>>) -> Seq<Taken> {
    Seq::new(lines.len(), |i: int| Taken { line: Some(lines[i]), names: names[i] })
}

/// The lines of some messages.
pub open spec fn lines_in(msgs: Seq<Taken>) -> Seq<Seq<u8>> {
    msgs.map_values(|m: Taken| m.line->0)
}

/// Of the lines of one stream the messages that are kept are the lines that a router
/// writes of the stream, and the router is left in the same state.
pub proof fn law_kept_messages_are_written_lines(
    st: RouterState,
    lines: Seq<Seq<u8>>,
    names: Seq<Map<u32, String>>,
)
    requires
        names.len() == lines.len(),
    ensures
        lines_in(kept(st, as_messages(lines, names))) == written(
            st,
            lines,
            0,
            lines.len() as int,
        ),
        routed(st, as_messages(lines, names)) == after_stream(st, lines, 0, lines.len() as int),
    decreases lines.len(),
{
    let msgs = as_messages(lines, names);
    if lines.len() > 0 {
        let n = lines.len() - 1;
        let front = lines.drop_last();
        let rest = names.drop_last();
        law_kept_messages_are_written_lines(st, front, rest);
        assert(msgs.drop_last() =~= as_messages(front, rest));
        lemma_split(st, lines, 0, n, n + 1);
        lemma_same_lines(st, lines, front, 0, n);
        reveal_with_fuel(written, 2);
        reveal_with_fuel(after_stream, 2);
        let before = kept(st, msgs.drop_last());
        let mid = after_stream(st, lines, 0, n);
        if keeps(mid, lines[n]) {
            assert(lines_in(before.push(msgs.last())) =~= lines_in(before) + seq![lines[n]]);
        } else {
            assert(lines_in(before) + Seq::<Seq<u8>>::empty() =~= lines_in(before));
        }
    } else {
        assert(lines_in(kept(st, msgs)) =~= Seq::<Seq<u8>>::empty());
    }
}

/// A writer counts a line, its bytes and the newest time where bytes were written, and
/// nothing else changes the counters.
pub proof fn law_writer_counts_what_is_written(
    s: WriterState,
    m: MetricsState,
    names: Map<u32, String>,
    ev: WriterEvent,
    t: WriterState,
    n: MetricsState,
)
    requires
        moved(s, m, names, ev, t, n),
    ensures
        s.phase matches WriterPhase::Write(out) ==> (ev is Written ==> n.lines == counted(m.lines + 1)
            && n.bytes == counted(m.bytes + out.len()) && n.last_log_ms == s.sink.router.last_ms
            && n.disconnects == m.disconnects && n.reconnects == m.reconnects && n.state == m.state
            && n.started == m.started && t.sink.dirty),
        !(s.phase is Write && ev is Written) ==> n == m,
        t.sink.dirty != s.sink.dirty ==> (s.phase is Write && ev is Written && t.sink.dirty) || ((
        s.phase is TouchTick || s.phase is TouchEnd) && ev is Touched && !t.sink.dirty),
{
}

/// Whether a writer asks for what was written to be flushed.
pub open spec fn asks_flush(p: WriterPhase) -> bool {
    p is FlushTick || p is FlushIdle || p is FlushEnd
}

/// Whether a writer asks for the heartbeat file to be touched.
pub open spec fn asks_touch(p: WriterPhase) -> bool {
    p is TouchTick || p is TouchEnd
}

/// When time has passed a writer flushes, touches the heartbeat file where lines were
/// stored, and waits on; where no message is there it flushes and waits; where none will
/// come any more it flushes, touches the heartbeat file where lines were stored, and ends.
pub proof fn law_writer_flushes_touches_and_goes_on(
    s: WriterState,
    t: WriterState,
    u: WriterState,
    v: WriterState,
    m: Seq<MetricsState>,
    names: Map<u32, String>,
    ev: WriterEvent,
)
    requires
        m.len() == 6,
        s.phase is Wait && (ev is Tick || ev is Closed) || s.phase is Next && (ev is Empty
            || ev is Closed),
        moved(s, m[0], names, ev, t, m[1]),
        moved(t, m[2], names, WriterEvent::Flushed, u, m[3]),
        moved(u, m[4], names, WriterEvent::Touched, v, m[5]),
    ensures
        asks_flush(t.phase),
        t.sink == s.sink,
        ev is Empty ==> u.phase is Wait,
        !(ev is Empty) && s.sink.dirty ==> asks_touch(u.phase),
        ev is Tick && !s.sink.dirty ==> u.phase is Wait,
        ev is Closed && !s.sink.dirty ==> u.phase is Done,
        ev is Tick ==> v.phase is Wait,
        ev is Closed ==> v.phase is Done,
        v.sink.router == s.sink.router,
{
}

/// A writer that waits, or looks for more, hands a message to its router: a line that is
/// kept is written next, and after one that is dropped, as after the announcement of a
/// restarted stream, it looks for more.
pub proof fn law_writer_hands_messages_to_the_router(
    s: WriterState,
    m: MetricsState,
    names: Map<u32, String>,
    msg: Msg,
    t: WriterState,
    n: MetricsState,
)
    requires
        s.phase is Wait || s.phase is Next,
        moved(s, m, names, WriterEvent::Message(msg), t, n),
    ensures
        match msg {
            Msg::Reconnecting => t.phase is Next && t.sink.router == reconnecting(s.sink.router),
            Msg::Line(line) => {
                &&& t.sink.router == after_line(s.sink.router, line@)
                &&& t.phase is Write == keeps(s.sink.router, line@)
                &&& t.phase is Next == !keeps(s.sink.router, line@)
                &&& t.phase matches WriterPhase::Write(out) ==> stored_form(line@, names, out)
            },
        },
{
}

/// An event that does not answer what a writer asks for changes nothing.
pub proof fn law_writer_waits_for_its_answer(
    s: WriterState,
    m: MetricsState,
    names: Map<u32, String>,
    ev: WriterEvent,
    t: WriterState,
    n: MetricsState,
)
    requires
        moved(s, m, names, ev, t, n),
        match s.phase {
            WriterPhase::Wait => !(ev is Tick || ev is Message || ev is Closed),
            WriterPhase::Next => !(ev is Empty || ev is Message || ev is Closed),
            WriterPhase::Write(_) => !(ev is Written),
            WriterPhase::Done => true,
            _ => if asks_flush(s.phase) {
                !(ev is Flushed)
            } else {
                !(ev is Touched)
            },
        },
    ensures
        t == s,
        n == m,
{
}

} // verus!
