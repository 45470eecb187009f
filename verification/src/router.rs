//! The deduplication of log lines across restarts of the log stream.
//!
//! The router keeps a watermark: the timestamp of the last line written. Within
//! one stream lines come in order and are all written. A restarted stream sends
//! again what stands at the watermark, so after a restart a line older than the
//! watermark is dropped, a line at the watermark is dropped where it was written
//! before, and the first line beyond it ends the comparison. A line without a
//! timestamp continues the line before it and shares its fate. The dividers that
//! the log reader prints are never written.

use vstd::prelude::*;
use crate::sink::{
    divider, is_divider, law_divider_is_told_by_its_bytes, law_timestamp_starts_with_a_digit,
    parse_ts_ms, ts_ms,
};

verus! {

/// What becomes of a line.
#[derive(Debug, Clone, Copy, PartialEq, Eq, Structural)]
pub enum Decision {
    Write,
    Drop,
}

/// The state of a router: the watermark, the lines written at it, whether lines
/// are compared with them, and whether the last timestamped line was written.
#[verifier::ext_equal]
pub struct RouterState {
    pub last_ms: int,
    pub boundary: Set<Seq<u8>>,
    pub dedup: bool,
    pub last_kept: bool,
}

/// A router that has written nothing: its watermark is the start of the session.
pub open spec fn fresh(start_ms: int) -> RouterState {
    RouterState { last_ms: start_ms, boundary: Set::empty(), dedup: false, last_kept: true }
}

/// A router that is about to receive a restarted stream.
pub open spec fn reconnecting(st: RouterState) -> RouterState {
    RouterState { dedup: true, last_kept: true, ..st }
}

/// A written line moves the watermark up and is remembered while it stands at it.
pub open spec fn advanced(st: RouterState, t: int, line: Seq<u8>) -> RouterState {
    if t > st.last_ms {
        RouterState { last_ms: t, boundary: set![line], ..st }
    } else if t == st.last_ms {
        RouterState { boundary: st.boundary.insert(line), ..st }
    } else {
        st
    }
}

/// Whether a line that carries the timestamp `t` is written.
pub open spec fn keeps_timed(st: RouterState, t: int, line: Seq<u8>) -> bool {
    st.dedup ==> t > st.last_ms || (t == st.last_ms && !st.boundary.contains(line))
}

/// Whether a line is written.
pub open spec fn keeps(st: RouterState, line: Seq<u8>) -> bool {
    !divider(line) && match ts_ms(line) {
        Some(t) => keeps_timed(st, t, line),
        None => st.last_kept,
    }
}

/// The state after a line that carries the timestamp `t`.
pub open spec fn after_timed(st: RouterState, t: int, line: Seq<u8>) -> RouterState {
    if keeps_timed(st, t, line) {
        RouterState { dedup: st.dedup && t <= st.last_ms, last_kept: true, ..advanced(st, t, line) }
    } else {
        RouterState { last_kept: false, ..st }
    }
}

/// The state after a line.
pub open spec fn after_line(st: RouterState, line: Seq<u8>) -> RouterState {
    if divider(line) {
        st
    } else {
        match ts_ms(line) {
            Some(t) => after_timed(st, t, line),
            None => st,
        }
    }
}

/// The lines that a list of stored lines holds, whatever their order.
pub open spec fn line_set(v: Seq<Vec<u8>>) -> Set<Seq<u8>> {
    Set::new(|l: Seq<u8>| exists|i: int| 0 <= i < v.len() && (#[trigger] v[i])@ == l)
}

/// Decides line by line what is written.
pub struct LineRouter {
    last_ms: i64,
    boundary: Vec<Vec<u8>>,
    dedup: bool,
    last_kept: bool,
}

fn same_bytes(a: &[u8], b: &[u8]) -> (r: bool)
    ensures
        r == (a@ == b@),
{
    if a.len() != b.len() {
        return false;
    }
    let mut i: usize = 0;
    while i < a.len()
        invariant
            a@.len() == b@.len(),
            i <= a@.len(),
            forall|k: int| 0 <= k < i ==> a@[k] == b@[k],
        decreases a@.len() - i,
    {
        if a[i] != b[i] {
            return false;
        }
        i += 1;
    }
    assert(a@ =~= b@);
    true
}

impl View for LineRouter {
    type V = RouterState;

    closed spec fn view(&self) -> RouterState {
        RouterState {
            last_ms: self.last_ms as int,
            boundary: line_set(self.boundary@),
            dedup: self.dedup,
            last_kept: self.last_kept,
        }
    }
}

impl LineRouter {
    /// A router for a session that starts at `start_ms`.
    pub fn new(start_ms: i64) -> (r: Self)
        ensures
            r@ == fresh(start_ms as int),
    {
        let r = LineRouter { last_ms: start_ms, boundary: Vec::new(), dedup: false, last_kept: true };
        assert(line_set(r.boundary@) =~= Set::<Seq<u8>>::empty());
        r
    }

    /// The watermark.
    pub fn last_ms(&self) -> (r: i64)
        ensures
            r == self@.last_ms,
    {
        self.last_ms
    }

    /// Announces a restarted stream.
    pub fn mark_reconnecting(&mut self)
        ensures
            final(self)@ == reconnecting(old(self)@),
    {
        self.dedup = true;
        self.last_kept = true;
    }

    /// Whether a line was written at the watermark.
    fn remembers(&self, line: &[u8]) -> (r: bool)
        ensures
            r == self@.boundary.contains(line@),
    {
        let mut i: usize = 0;
        while i < self.boundary.len()
            invariant
                i <= self.boundary@.len(),
                forall|k: int| 0 <= k < i ==> (#[trigger] self.boundary@[k])@ != line@,
            decreases self.boundary@.len() - i,
        {
            if same_bytes(&self.boundary[i], line) {
                return true;
            }
            i += 1;
        }
        false
    }

    fn remember(&mut self, line: &[u8])
        ensures
            final(self)@ == (RouterState {
                boundary: old(self)@.boundary.insert(line@),
                ..old(self)@
            }),
    {
        let copy: Vec<u8> = vstd::slice::slice_to_vec(line);
        let ghost before = self.boundary@;
        self.boundary.push(copy);
        proof {
            let after = self.boundary@;
            assert forall|l: Seq<u8>| line_set(after).contains(l) == line_set(before).insert(line@).contains(l) by {
                if line_set(before).contains(l) {
                    let i = choose|i: int| 0 <= i < before.len() && (#[trigger] before[i])@ == l;
                    assert(after[i]@ == l);
                }
                if l == line@ {
                    assert(after[before.len() as int]@ == l);
                }
                if line_set(after).contains(l) && l != line@ {
                    let i = choose|i: int| 0 <= i < after.len() && (#[trigger] after[i])@ == l;
                    assert(i < before.len());
                    assert(before[i]@ == l);
                }
            }
            assert(line_set(after) =~= line_set(before).insert(line@));
        }
    }

    /// Moves the watermark for a line that is written.
    pub fn advance(&mut self, t: i64, line: &[u8])
        ensures
            final(self)@ == advanced(old(self)@, t as int, line@),
    {
        if t > self.last_ms {
            self.last_ms = t;
            self.boundary.clear();
            assert(line_set(self.boundary@) =~= Set::<Seq<u8>>::empty());
            self.remember(line);
        } else if t == self.last_ms {
            self.remember(line);
        }
    }

    /// Decides on a line that carries the timestamp `t`.
    pub fn decide_timed(&mut self, t: i64, line: &[u8]) -> (r: Decision)
        ensures
            (r == Decision::Write) == keeps_timed(old(self)@, t as int, line@),
            final(self)@ == after_timed(old(self)@, t as int, line@),
    {
        if self.dedup {
            if t < self.last_ms {
                self.last_kept = false;
                return Decision::Drop;
            }
            if t == self.last_ms {
                if self.remembers(line) {
                    self.last_kept = false;
                    return Decision::Drop;
                }
                self.remember(line);
                self.last_kept = true;
                return Decision::Write;
            }
            self.dedup = false;
        }
        self.advance(t, line);
        self.last_kept = true;
        Decision::Write
    }

    /// Decides on a line.
    pub fn decide(&mut self, line: &[u8]) -> (r: Decision)
        ensures
            (r == Decision::Write) == keeps(old(self)@, line@),
            final(self)@ == after_line(old(self)@, line@),
    {
        if is_divider(line) {
            return Decision::Drop;
        }
        match parse_ts_ms(line) {
            Some(t) => self.decide_timed(t, line),
            None => if self.last_kept {
                Decision::Write
            } else {
                Decision::Drop
            },
        }
    }
}

/// The lines written of a stream that delivers the lines `i` to `m` of a log.
pub open spec fn written(st: RouterState, log: Seq<Seq<u8>>, i: int, m: int) -> Seq<Seq<u8>>
    decreases m - i,
{
    if i >= m {
        Seq::empty()
    } else {
        let rest = written(after_line(st, log[i]), log, i + 1, m);
        if keeps(st, log[i]) {
            seq![log[i]] + rest
        } else {
            rest
        }
    }
}

/// The state after a stream that delivers the lines `i` to `m` of a log.
pub open spec fn after_stream(st: RouterState, log: Seq<Seq<u8>>, i: int, m: int) -> RouterState
    decreases m - i,
{
    if i >= m {
        st
    } else {
        after_stream(after_line(st, log[i]), log, i + 1, m)
    }
}

/// Whether line `i` of a log carries a timestamp.
pub open spec fn timed(log: Seq<Seq<u8>>, i: int) -> bool {
    ts_ms(log[i]) is Some
}

/// The timestamp that line `i` of a log carries.
pub open spec fn time_at(log: Seq<Seq<u8>>, i: int) -> int {
    ts_ms(log[i])->0
}

/// Whether an entry of the log starts at line `i`, or the log ends there.
pub open spec fn entry_start(log: Seq<Seq<u8>>, i: int) -> bool {
    i == log.len() || timed(log, i)
}

/// What a device has logged: entries in the order of their timestamps, each a
/// timestamped line and the lines that continue it.
pub open spec fn device_log(log: Seq<Seq<u8>>) -> bool {
    &&& entry_start(log, 0)
    &&& forall|i: int| 0 <= i < log.len() ==> !divider(#[trigger] log[i])
    &&& forall|a: int, b: int|
        0 <= a <= b < log.len() && #[trigger] timed(log, a) && #[trigger] timed(log, b) ==> time_at(
            log,
            a,
        ) <= time_at(log, b)
}

/// The log before line `k` is dealt with and the log from line `k` on is not:
/// what is remembered is what stands at the watermark before line `k`.
pub open spec fn caught_up(st: RouterState, log: Seq<Seq<u8>>, k: int) -> bool {
    &&& 0 <= k <= log.len()
    &&& forall|i: int| 0 <= i < k && #[trigger] timed(log, i) ==> time_at(log, i) <= st.last_ms
    &&& forall|i: int|
        k <= i < log.len() && #[trigger] timed(log, i) ==> st.last_ms <= time_at(log, i)
    &&& forall|l: Seq<u8>| #[trigger]
        st.boundary.contains(l) <==> exists|i: int|
            0 <= i < k && #[trigger] timed(log, i) && log[i] == l && time_at(log, i) == st.last_ms
}

/// No line from `k` to `m` that stands at the watermark `w` says the same, to the
/// byte, as a line before it.
pub open spec fn no_repeat(log: Seq<Seq<u8>>, w: int, k: int, m: int) -> bool {
    forall|a: int, b: int|
        0 <= a < b && k <= b < m && #[trigger] timed(log, b) && time_at(log, b) == w
            && #[trigger] timed(log, a) ==> log[a] != log[b]
}

/// What was dealt with is dropped when a restarted stream sends it again.
proof fn lemma_replay(st: RouterState, log: Seq<Seq<u8>>, k: int, i: int, m: int)
    requires
        device_log(log),
        caught_up(st, log, k),
        st.dedup,
        0 <= i <= m <= k,
        entry_start(log, i) || !st.last_kept,
    ensures
        written(st, log, i, m) == Seq::<Seq<u8>>::empty(),
        ({
            let end = after_stream(st, log, i, m);
            &&& end.last_ms == st.last_ms
            &&& end.boundary == st.boundary
            &&& end.dedup
        }),
    decreases m - i,
{
    if i < m {
        let line = log[i];
        assert(!divider(line));
        if timed(log, i) {
            let t = time_at(log, i);
            assert(t <= st.last_ms);
            if t == st.last_ms {
                assert(st.boundary.contains(line));
            }
            assert(!keeps(st, line));
        }
        lemma_replay(after_line(st, line), log, k, i + 1, m);
    }
}

/// What was not dealt with is written, in order and once.
proof fn lemma_fresh(st: RouterState, log: Seq<Seq<u8>>, w: int, k: int, i: int, m: int)
    requires
        device_log(log),
        0 <= k <= i <= m <= log.len(),
        caught_up(st, log, i),
        st.dedup ==> st.last_ms == w,
        entry_start(log, i) || st.last_kept,
        no_repeat(log, w, k, m),
    ensures
        written(st, log, i, m) == log.subrange(i, m),
        caught_up(after_stream(st, log, i, m), log, m),
    decreases m - i,
{
    if i < m {
        let line = log[i];
        assert(!divider(line));
        let next = after_line(st, line);
        if timed(log, i) {
            let t = time_at(log, i);
            assert(st.last_ms <= t);
            if st.dedup && t == st.last_ms && st.boundary.contains(line) {
                let a = choose|a: int|
                    0 <= a < i && #[trigger] timed(log, a) && log[a] == line && time_at(log, a)
                        == st.last_ms;
                assert(timed(log, a) && timed(log, i));
                assert(false);
            }
            assert(keeps(st, line));
            assert forall|l: Seq<u8>| #[trigger]
                next.boundary.contains(l) implies exists|j: int|
                0 <= j < i + 1 && #[trigger] timed(log, j) && log[j] == l && time_at(log, j)
                    == next.last_ms by {
                if l == line {
                    assert(timed(log, i));
                } else {
                    assert(st.boundary.contains(l));
                    let j = choose|j: int|
                        0 <= j < i && #[trigger] timed(log, j) && log[j] == l && time_at(log, j)
                            == st.last_ms;
                    assert(timed(log, j));
                }
            }
            assert forall|l: Seq<u8>|
                (exists|j: int|
                    0 <= j < i + 1 && #[trigger] timed(log, j) && log[j] == l && time_at(log, j)
                        == next.last_ms) implies #[trigger] next.boundary.contains(l) by {
                let j = choose|j: int|
                    0 <= j < i + 1 && #[trigger] timed(log, j) && log[j] == l && time_at(log, j)
                        == next.last_ms;
                if j < i {
                    assert(time_at(log, j) <= st.last_ms);
                    assert(st.boundary.contains(l));
                }
            }
            assert(caught_up(next, log, i + 1));
        } else {
            assert(next == st);
            assert(caught_up(next, log, i + 1));
        }
        lemma_fresh(next, log, w, k, i + 1, m);
        assert(log.subrange(i, m) == seq![line] + log.subrange(i + 1, m));
    } else {
        assert(log.subrange(i, m) == Seq::<Seq<u8>>::empty());
    }
}

pub proof fn lemma_split(st: RouterState, log: Seq<Seq<u8>>, i: int, k: int, m: int)
    requires
        i <= k <= m,
    ensures
        written(st, log, i, m) == written(st, log, i, k) + written(
            after_stream(st, log, i, k),
            log,
            k,
            m,
        ),
        after_stream(st, log, i, m) == after_stream(after_stream(st, log, i, k), log, k, m),
    decreases k - i,
{
    if i < k {
        lemma_split(after_line(st, log[i]), log, i + 1, k, m);
        let rest = written(after_line(st, log[i]), log, i + 1, k);
        let tail = written(after_stream(st, log, i, k), log, k, m);
        assert((seq![log[i]] + rest) + tail == seq![log[i]] + (rest + tail));
    } else {
        assert(written(st, log, i, m) == Seq::<Seq<u8>>::empty() + written(st, log, i, m));
    }
}

/// A restarted stream loses nothing and repeats nothing. Where the log before
/// line `k` was dealt with and the restarted stream delivers the lines `j` to `m`
/// from an entry before `k` on, exactly the lines from `k` on are written.
pub proof fn law_reconnect_no_loss_no_repeat(
    st: RouterState,
    log: Seq<Seq<u8>>,
    k: int,
    j: int,
    m: int,
)
    requires
        device_log(log),
        caught_up(st, log, k),
        0 <= j <= k,
        j <= m <= log.len(),
        entry_start(log, j),
        entry_start(log, k),
        no_repeat(log, st.last_ms, k, m),
    ensures
        ({
            let end = if m < k {
                k
            } else {
                m
            };
            &&& written(reconnecting(st), log, j, m) == log.subrange(k, end)
            &&& caught_up(after_stream(reconnecting(st), log, j, m), log, end)
        }),
{
    let start = reconnecting(st);
    assert(caught_up(start, log, k));
    if m < k {
        lemma_replay(start, log, k, j, m);
        assert(log.subrange(k, k) == Seq::<Seq<u8>>::empty());
    } else {
        lemma_replay(start, log, k, j, k);
        let mid = after_stream(start, log, j, k);
        assert(caught_up(mid, log, k));
        lemma_fresh(mid, log, st.last_ms, k, k, m);
        lemma_split(start, log, j, k, m);
        assert(Seq::<Seq<u8>>::empty() + log.subrange(k, m) == log.subrange(k, m));
    }
}

/// A stream that is asked to start at a time that is not after the watermark, and
/// so leaves out nothing but older entries, starts no later than where the session
/// has come to: nothing is lost between the two.
pub proof fn law_resumed_stream_leaves_no_gap(
    st: RouterState,
    log: Seq<Seq<u8>>,
    k: int,
    since: int,
    j: int,
)
    requires
        caught_up(st, log, k),
        entry_start(log, k),
        since <= st.last_ms,
        0 <= j <= log.len(),
        forall|i: int| 0 <= i < j && #[trigger] timed(log, i) ==> time_at(log, i) < since,
    ensures
        j <= k,
{
    if j > k {
        assert(timed(log, k));
    }
}

/// How far a session has come after its first `n` streams, each given by the
/// lines of the log that it delivers, where the lines before `k` are history.
pub open spec fn reached(k: int, streams: Seq<(int, int)>, n: int) -> int
    decreases n,
{
    if n <= 0 {
        k
    } else {
        let before = reached(k, streams, n - 1);
        if streams[n - 1].1 < before {
            before
        } else {
            streams[n - 1].1
        }
    }
}

/// The state of the router after the first `n` streams of a session.
pub open spec fn session_state(
    start_ms: int,
    log: Seq<Seq<u8>>,
    streams: Seq<(int, int)>,
    n: int,
) -> RouterState
    decreases n,
{
    if n <= 0 {
        fresh(start_ms)
    } else {
        after_stream(
            reconnecting(session_state(start_ms, log, streams, n - 1)),
            log,
            streams[n - 1].0,
            streams[n - 1].1,
        )
    }
}

/// All that the first `n` streams of a session write.
pub open spec fn session_written(
    start_ms: int,
    log: Seq<Seq<u8>>,
    streams: Seq<(int, int)>,
    n: int,
) -> Seq<Seq<u8>>
    decreases n,
{
    if n <= 0 {
        Seq::empty()
    } else {
        session_written(start_ms, log, streams, n - 1) + written(
            reconnecting(session_state(start_ms, log, streams, n - 1)),
            log,
            streams[n - 1].0,
            streams[n - 1].1,
        )
    }
}

/// Whether stream `i` of a session starts at an entry that the session has
/// reached, and brings no repeated line at the watermark.
pub open spec fn sound_stream(
    start_ms: int,
    log: Seq<Seq<u8>>,
    k: int,
    streams: Seq<(int, int)>,
    i: int,
) -> bool {
    let (j, m) = streams[i];
    &&& 0 <= j <= m <= log.len()
    &&& j <= reached(k, streams, i)
    &&& entry_start(log, j)
    &&& no_repeat(
        log,
        session_state(start_ms, log, streams, i).last_ms,
        reached(k, streams, i),
        m,
    )
}

/// Whether stream `i` of a session ends between entries.
pub open spec fn ends_between(log: Seq<Seq<u8>>, streams: Seq<(int, int)>, i: int) -> bool {
    entry_start(log, streams[i].1)
}

/// A session writes the device's log from its start on, up to where its streams
/// came, without a gap and without a repetition, however often the stream was
/// restarted. Nothing from before the start of the session is written. The last
/// stream may end inside an entry.
pub proof fn law_session_no_loss_no_repeat(
    start_ms: int,
    log: Seq<Seq<u8>>,
    k: int,
    streams: Seq<(int, int)>,
    n: int,
)
    requires
        device_log(log),
        0 <= k <= log.len(),
        entry_start(log, k),
        forall|i: int| 0 <= i < k && #[trigger] timed(log, i) ==> time_at(log, i) < start_ms,
        forall|i: int|
            k <= i < log.len() && #[trigger] timed(log, i) ==> start_ms <= time_at(log, i),
        0 <= n <= streams.len(),
        forall|i: int| 0 <= i < n ==> #[trigger] sound_stream(start_ms, log, k, streams, i),
        forall|i: int| 0 <= i < n - 1 ==> #[trigger] ends_between(log, streams, i),
    ensures
        k <= reached(k, streams, n) <= log.len(),
        session_written(start_ms, log, streams, n) == log.subrange(k, reached(k, streams, n)),
        caught_up(session_state(start_ms, log, streams, n), log, reached(k, streams, n)),
        n == 0 || ends_between(log, streams, n - 1) ==> entry_start(
            log,
            reached(k, streams, n),
        ),
    decreases n,
{
    if n == 0 {
        assert(log.subrange(k, k) == Seq::<Seq<u8>>::empty());
    } else {
        law_session_no_loss_no_repeat(start_ms, log, k, streams, n - 1);
        assert(sound_stream(start_ms, log, k, streams, n - 1));
        assert(n == 1 || ends_between(log, streams, n - 2));
        let (j, m) = streams[n - 1];
        let r = reached(k, streams, n - 1);
        law_reconnect_no_loss_no_repeat(
            session_state(start_ms, log, streams, n - 1),
            log,
            r,
            j,
            m,
        );
        let end = reached(k, streams, n);
        assert(log.subrange(k, r) + log.subrange(r, end) == log.subrange(k, end));
    }
}

/// The watermark never falls.
pub proof fn law_watermark_rises(st: RouterState, line: Seq<u8>)
    ensures
        st.last_ms <= after_line(st, line).last_ms,
{
}

/// After a restart nothing older than the watermark is written.
pub proof fn law_no_backfill(st: RouterState, line: Seq<u8>)
    requires
        st.dedup,
        ts_ms(line) matches Some(t) && t < st.last_ms,
    ensures
        !keeps(st, line),
{
}

/// Within one stream every timestamped line is written.
pub proof fn law_stream_is_complete(st: RouterState, line: Seq<u8>)
    requires
        !st.dedup,
        !divider(line),
        ts_ms(line) is Some,
    ensures
        keeps(st, line),
        !after_line(st, line).dedup,
{
}

/// A divider is never written and leaves no trace.
pub proof fn law_divider_is_invisible(st: RouterState, line: Seq<u8>)
    requires
        divider(line),
    ensures
        !keeps(st, line),
        after_line(st, line) == st,
{
}

/// Some lines without the dividers among them.
pub open spec fn undivided(lines: Seq<Seq<u8>>) -> Seq<Seq<u8>>
    decreases lines.len(),
{
    if lines.len() == 0 {
        Seq::empty()
    } else if divider(lines.last()) {
        undivided(lines.drop_last())
    } else {
        undivided(lines.drop_last()).push(lines.last())
    }
}

/// What a stream writes, and what it leaves behind, depends on its lines up to its
/// end alone.
pub proof fn lemma_same_lines(
    st: RouterState,
    a: Seq<Seq<u8>>,
    b: Seq<Seq<u8>>,
    i: int,
    m: int,
)
    requires
        0 <= i,
        m <= a.len(),
        m <= b.len(),
        forall|k: int| i <= k < m ==> #[trigger] a[k] == b[k],
    ensures
        written(st, a, i, m) == written(st, b, i, m),
        after_stream(st, a, i, m) == after_stream(st, b, i, m),
    decreases m - i,
{
    if i < m {
        assert(a[i] == b[i]);
        lemma_same_lines(after_line(st, a[i]), a, b, i + 1, m);
    }
}

/// Dividers between the lines of a stream make no difference to what is written of
/// the others, nor to the state that the stream leaves behind.
pub proof fn law_dividers_do_not_matter(st: RouterState, lines: Seq<Seq<u8>>)
    ensures
        ({
            let rest = undivided(lines);
            &&& written(st, lines, 0, lines.len() as int) == written(st, rest, 0, rest.len() as int)
            &&& after_stream(st, lines, 0, lines.len() as int) == after_stream(
                st,
                rest,
                0,
                rest.len() as int,
            )
        }),
    decreases lines.len(),
{
    if lines.len() > 0 {
        let n = lines.len() - 1;
        let front = lines.drop_last();
        let last = lines.last();
        law_dividers_do_not_matter(st, front);
        lemma_split(st, lines, 0, n, n + 1);
        lemma_same_lines(st, lines, front, 0, n);
        let mid = after_stream(st, lines, 0, n);
        assert(lines[n] == last);
        reveal_with_fuel(written, 2);
        reveal_with_fuel(after_stream, 2);
        let done = written(st, lines, 0, n);
        if divider(last) {
            law_divider_is_invisible(mid, last);
            assert(done + Seq::<Seq<u8>>::empty() == done);
        } else {
            let rest = undivided(lines);
            let k = rest.len() - 1;
            lemma_split(st, rest, 0, k, k + 1);
            lemma_same_lines(st, rest, undivided(front), 0, k);
            assert(rest[k] == last);
        }
    }
}

/// A line that continues another shares its fate: it is written exactly where the
/// last timestamped line was.
pub proof fn law_continuation_follows(st: RouterState, owner: Seq<u8>, line: Seq<u8>)
    requires
        !divider(owner),
        ts_ms(owner) is Some,
        !divider(line),
        ts_ms(line) is None,
    ensures
        keeps(after_line(st, owner), line) == keeps(st, owner),
        after_line(after_line(st, owner), line) == after_line(st, owner),
{
}

/// The state of a router that started at `start` and took the first `n` of some
/// messages: lines, or where there is none the announcement of a restarted stream.
pub open spec fn state_after(start: int, msgs: Seq<Option<Seq<u8>>>, n: int) -> RouterState
    decreases n,
{
    if n <= 0 {
        fresh(start)
    } else {
        match msgs[n - 1] {
            Some(line) => after_line(state_after(start, msgs, n - 1), line),
            None => reconnecting(state_after(start, msgs, n - 1)),
        }
    }
}

/// Whether message `i` is a line that is written.
pub open spec fn written_at(start: int, msgs: Seq<Option<Seq<u8>>>, i: int) -> bool {
    match msgs[i] {
        Some(line) => keeps(state_after(start, msgs, i), line),
        None => false,
    }
}

/// Whether message `i` is a line that is written and carries the timestamp `t`.
pub open spec fn written_with(start: int, msgs: Seq<Option<Seq<u8>>>, i: int, t: int) -> bool {
    written_at(start, msgs, i) && ts_ms(msgs[i]->0) == Some(t)
}

/// Whether `w` is the newest time that was written, or the start of the session where
/// nothing newer was.
pub open spec fn newest(start: int, msgs: Seq<Option<Seq<u8>>>, n: int, w: int) -> bool {
    &&& w >= start
    &&& forall|i: int, t: int|
        0 <= i < n && #[trigger] written_with(start, msgs, i, t) ==> t <= w
    &&& w > start ==> exists|i: int| 0 <= i < n && #[trigger] written_with(start, msgs, i, w)
}

/// Whether a stream was restarted after the time `w` was reached.
pub open spec fn replaying(start: int, msgs: Seq<Option<Seq<u8>>>, n: int, w: int) -> bool {
    exists|r: int| 0 <= r < n && #[trigger] restarted_at(start, msgs, r, w)
}

/// Whether message `r` announces a restarted stream, and the time `w` was reached
/// before it.
pub open spec fn restarted_at(start: int, msgs: Seq<Option<Seq<u8>>>, r: int, w: int) -> bool {
    msgs[r] is None && (w == start || exists|j: int|
        0 <= j < r && #[trigger] written_with(start, msgs, j, w))
}

/// Whether a line was written before, with the time `w`.
pub open spec fn written_before(
    start: int,
    msgs: Seq<Option<Seq<u8>>>,
    n: int,
    w: int,
    line: Seq<u8>,
) -> bool {
    exists|j: int|
        0 <= j < n && #[trigger] written_with(start, msgs, j, w) && msgs[j] == Some(line)
}

#[verifier::rlimit(60)]
proof fn lemma_history(start: int, msgs: Seq<Option<Seq<u8>>>, n: int)
    requires
        0 <= n <= msgs.len(),
    ensures
        ({
            let st = state_after(start, msgs, n);
            &&& newest(start, msgs, n, st.last_ms)
            &&& st.dedup == replaying(start, msgs, n, st.last_ms)
            &&& forall|l: Seq<u8>| #[trigger]
                st.boundary.contains(l) == written_before(start, msgs, n, st.last_ms, l)
        }),
    decreases n,
{
    if n > 0 {
        lemma_history(start, msgs, n - 1);
        let s = state_after(start, msgs, n - 1);
        let st = state_after(start, msgs, n);
        let w = s.last_ms;
        match msgs[n - 1] {
            None => {
                assert(!written_at(start, msgs, n - 1));
                assert(newest(start, msgs, n, w)) by {
                    if w > start {
                        let i = choose|i: int|
                            0 <= i < n - 1 && #[trigger] written_with(start, msgs, i, w);
                        assert(written_with(start, msgs, i, w));
                    }
                }
                assert(restarted_at(start, msgs, n - 1, w)) by {
                    if w > start {
                        let i = choose|i: int|
                            0 <= i < n - 1 && #[trigger] written_with(start, msgs, i, w);
                        assert(written_with(start, msgs, i, w));
                    }
                }
                assert forall|l: Seq<u8>| #[trigger]
                    st.boundary.contains(l) == written_before(start, msgs, n, w, l) by {
                    lemma_before_step(start, msgs, n, w, l);
                }
            },
            Some(line) => {
                let v = st.last_ms;
                if v > w {
                    assert(written_with(start, msgs, n - 1, v));
                    assert forall|i: int, t: int|
                        0 <= i < n && #[trigger] written_with(start, msgs, i, t) implies t <= v by {}
                    assert(!replaying(start, msgs, n, v)) by {
                        if replaying(start, msgs, n, v) {
                            let r = choose|r: int|
                                0 <= r < n && #[trigger] restarted_at(start, msgs, r, v);
                            let j = choose|j: int|
                                0 <= j < r && #[trigger] written_with(start, msgs, j, v);
                            assert(v <= w);
                        }
                    }
                    assert forall|l: Seq<u8>| #[trigger]
                        st.boundary.contains(l) == written_before(start, msgs, n, v, l) by {
                        if l == line {
                            assert(written_with(start, msgs, n - 1, v) && msgs[n - 1] == Some(l));
                        }
                        if written_before(start, msgs, n, v, l) {
                            let j = choose|j: int|
                                0 <= j < n && #[trigger] written_with(start, msgs, j, v) && msgs[j]
                                    == Some(l);
                            if j < n - 1 {
                                assert(v <= w);
                            }
                        }
                    }
                } else {
                    assert(v == w);
                    assert(newest(start, msgs, n, w)) by {
                        if w > start {
                            let i = choose|i: int|
                                0 <= i < n - 1 && #[trigger] written_with(start, msgs, i, w);
                            assert(written_with(start, msgs, i, w));
                        }
                        assert forall|i: int, t: int|
                            0 <= i < n && #[trigger] written_with(
                                start,
                                msgs,
                                i,
                                t,
                            ) implies t <= w by {}
                    }
                    assert(replaying(start, msgs, n, w) == replaying(start, msgs, n - 1, w)) by {
                        if replaying(start, msgs, n, w) {
                            let r = choose|r: int|
                                0 <= r < n && #[trigger] restarted_at(start, msgs, r, w);
                            assert(r < n - 1);
                        }
                        if replaying(start, msgs, n - 1, w) {
                            let r = choose|r: int|
                                0 <= r < n - 1 && #[trigger] restarted_at(start, msgs, r, w);
                            assert(restarted_at(start, msgs, r, w));
                        }
                    }
                    assert forall|l: Seq<u8>| #[trigger]
                        st.boundary.contains(l) == written_before(start, msgs, n, w, l) by {
                        lemma_before_step(start, msgs, n, w, l);
                    }
                }
            },
        }
    }
}

proof fn lemma_before_step(start: int, msgs: Seq<Option<Seq<u8>>>, n: int, w: int, l: Seq<u8>)
    requires
        0 < n <= msgs.len(),
    ensures
        written_before(start, msgs, n, w, l) == (written_before(start, msgs, n - 1, w, l) || (
        written_with(start, msgs, n - 1, w) && msgs[n - 1] == Some(l))),
{
    if written_before(start, msgs, n - 1, w, l) {
        let j = choose|j: int|
            0 <= j < n - 1 && #[trigger] written_with(start, msgs, j, w) && msgs[j] == Some(l);
        assert(written_with(start, msgs, j, w));
    }
    if written_before(start, msgs, n, w, l) {
        let j = choose|j: int|
            0 <= j < n && #[trigger] written_with(start, msgs, j, w) && msgs[j] == Some(l);
        if j < n - 1 {
            assert(written_with(start, msgs, j, w));
        }
    }
}

/// Which timestamped line is written is told by what was written before it: all are,
/// but those that a restarted stream repeats, which are older than the newest time
/// written, or as old and written before.
pub proof fn law_only_repeats_are_dropped(
    start: int,
    msgs: Seq<Option<Seq<u8>>>,
    w: int,
    line: Seq<u8>,
    t: int,
)
    requires
        newest(start, msgs, msgs.len() as int, w),
        ts_ms(line) == Some(t),
    ensures
        state_after(start, msgs, msgs.len() as int).last_ms == w,
        keeps(state_after(start, msgs, msgs.len() as int), line) == !(replaying(
            start,
            msgs,
            msgs.len() as int,
            w,
        ) && (t < w || (t == w && written_before(start, msgs, msgs.len() as int, w, line)))),
{
    let n = msgs.len() as int;
    law_timestamp_starts_with_a_digit(line);
    law_divider_is_told_by_its_bytes(line);
    if divider(line) {
        assert(line.take(22)[0] == line[0]);
    }
    lemma_history(start, msgs, n);
    let v = state_after(start, msgs, n).last_ms;
    if v > start {
        let i = choose|i: int| 0 <= i < n && #[trigger] written_with(start, msgs, i, v);
        assert(v <= w);
    }
    if w > start {
        let i = choose|i: int| 0 <= i < n && #[trigger] written_with(start, msgs, i, w);
        assert(w <= v);
    }
    assert(state_after(start, msgs, n).boundary.contains(line) == written_before(
        start,
        msgs,
        n,
        v,
        line,
    ));
}

/// A line without a timestamp shares the fate of the line that it continues: it is
/// written where the nearest timestamped line before it is, and where there is none
/// since the session or the stream started. Only the divider itself, told by its
/// bytes, is never written.
pub proof fn law_continuation_shares_the_fate(
    start: int,
    msgs: Seq<Option<Seq<u8>>>,
    o: int,
    line: Seq<u8>,
)
    requires
        -1 <= o < msgs.len(),
        o >= 0 ==> match msgs[o] {
            Some(l) => ts_ms(l) is Some && !divider(l),
            None => true,
        },
        forall|k: int|
            o < k < msgs.len() ==> (#[trigger] msgs[k] matches Some(l) && (divider(l) || ts_ms(l) is None)),
        ts_ms(line) is None,
        line.len() < 22 || line.take(22) != seq![
            0x2du8,
            0x2d,
            0x2d,
            0x2d,
            0x2d,
            0x2d,
            0x2d,
            0x2d,
            0x2d,
            0x20,
            0x62,
            0x65,
            0x67,
            0x69,
            0x6e,
            0x6e,
            0x69,
            0x6e,
            0x67,
            0x20,
            0x6f,
            0x66,
        ],
    ensures
        keeps(state_after(start, msgs, msgs.len() as int), line) == (o < 0 || msgs[o] is None
            || written_at(start, msgs, o)),
{
    law_divider_is_told_by_its_bytes(line);
    lemma_owner(start, msgs, o, msgs.len() as int);
}

proof fn lemma_owner(start: int, msgs: Seq<Option<Seq<u8>>>, o: int, n: int)
    requires
        -1 <= o < n <= msgs.len() || (o == -1 && n == 0),
        o >= 0 ==> match msgs[o] {
            Some(l) => ts_ms(l) is Some && !divider(l),
            None => true,
        },
        forall|k: int|
            o < k < msgs.len() ==> (#[trigger] msgs[k] matches Some(l) && (divider(l) || ts_ms(l) is None)),
    ensures
        state_after(start, msgs, n).last_kept == (o < 0 || msgs[o] is None || written_at(
            start,
            msgs,
            o,
        )),
    decreases n,
{
    if n > 0 && n - 1 > o {
        assert(msgs[n - 1] is Some);
        lemma_owner(start, msgs, o, n - 1);
    }
}

} // verus!
