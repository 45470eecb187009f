//! The log collector as a whole: what it asks of the device, what it makes of the
//! answers, and which log is the newest.

use vstd::prelude::*;
use vstd::string::*;
use crate::adb::{min_ring_size, parse_min_ring_buffer_bytes};
use crate::clock::{four_digit_year, is_stamp, time_text, FILE_STAMP};
use crate::device::{connection_text, opt_str, Device};
use crate::names::{before_text, comes_before, law_order_is_total, law_order_is_transitive};
use crate::number::{dec, push_dec};
use crate::profile::{android_text, Identity};
use crate::report::StartupSummary;
use crate::session::{events_name, log_follows_earlier, log_name, Session};
use crate::text::{
    chars_of, ends_with, ends_with_text, lemma_first_and_last_part, lines_of,
    starts_with,
    starts_with_text, string_texts,
};
use crate::unicode::{quoted, quoted_text};
use crate::util::{bytes_text, epoch_text, human_bytes, ms_to_epoch_str};

verus! {

/// The lines that can be on their way from the log reader to the writer.
pub const CHANNEL_CAP: usize = 16384;

/// The size, in MiB, that every log buffer is asked to have.
pub const BUFFER_MIB: u32 = 8;

/// The seconds between two heartbeats.
pub const STATUS_INTERVAL_SECS: u64 = 30;

/// Whether a name is that of the log of a session.
pub open spec fn is_log_name(name: Seq<char>) -> bool {
    starts_with_text(name, "session-"@) && ends_with_text(name, ".log"@) && !ends_with_text(
        name,
        ".events.log"@,
    )
}

/// Whether a file name is that of the log of a session, and not of its events.
pub fn is_session_log(name: &str) -> (r: bool)
    ensures
        r == is_log_name(name@),
{
    let cs = chars_of(name);
    starts_with(&cs, "session-") && ends_with(&cs, ".log") && !ends_with(&cs, ".events.log")
}

/// The log of a session is known by its name, whatever the time that it is named
/// after, and the event log of a session is not taken for one.
pub proof fn law_log_is_known_by_its_name(stamp: Seq<char>)
    ensures
        !is_log_name(events_name(stamp)),
        !ends_with_text(stamp, ".events"@) ==> is_log_name(log_name(stamp)),
{
    reveal_strlit("session-");
    reveal_strlit(".log");
    reveal_strlit(".events.log");
    reveal_strlit(".events");
    let e = events_name(stamp);
    assert(e.subrange(e.len() - 11, e.len() as int) =~= ".events.log"@);
    let l = log_name(stamp);
    assert(l.subrange(0, 8) =~= "session-"@);
    assert(l.subrange(l.len() - 4, l.len() as int) =~= ".log"@);
    if ends_with_text(l, ".events.log"@) {
        let tail = l.subrange(l.len() - 11, l.len() as int);
        assert(tail == ".events.log"@);
        assert(tail.subrange(0, 7) =~= ".events"@);
        if stamp.len() >= 7 {
            assert(stamp.subrange(stamp.len() - 7, stamp.len() as int) =~= tail.subrange(0, 7));
        } else {
            // The hyphen in front of a short time is no part of the ending.
            let k = 6 - stamp.len();
            assert(tail[k] == l[7]);
            assert(l[7] == '-');
            assert(".events.log"@[k] != '-');
        }
    }
}

/// Whether the name at `i` is that of the newest log: the last in the order of
/// names, and the first of those with one name.
pub open spec fn is_newest(names: Seq<Seq<char>>, i: int) -> bool {
    &&& 0 <= i < names.len()
    &&& is_log_name(names[i])
    &&& forall|j: int|
        0 <= j < names.len() && is_log_name(#[trigger] names[j]) ==> names[j] == names[i] && i <= j
            || comes_before(names[j], names[i])
}

/// The newest log is that of the latest session: among logs named after the times
/// of their sessions, at one offset and in the years 0 to 9999, none whose session
/// started later bears another name. (Two sessions that started in one second bear
/// one name.)
pub proof fn law_newest_log_is_of_the_latest_session(
    times: Seq<int>,
    offset: int,
    names: Seq<Seq<char>>,
    i: int,
)
    requires
        names.len() == times.len(),
        forall|j: int|
            0 <= j < times.len() ==> four_digit_year(#[trigger] times[j], offset)
                && log_follows_earlier(times[j], offset) && names[j] == log_name(
                time_text(times[j], offset, FILE_STAMP@),
            ),
        is_newest(names, i),
    ensures
        forall|j: int| 0 <= j < times.len() && #[trigger] times[j] > times[i] ==> names[j] == names[i],
{
    assert forall|j: int| 0 <= j < times.len() && #[trigger] times[j] > times[i] implies names[j]
        == names[i] by {
        assert(four_digit_year(times[i], offset));
        let stamp = time_text(times[j], offset, FILE_STAMP@);
        assert(is_stamp(stamp));
        reveal_strlit(".events");
        if ends_with_text(stamp, ".events"@) {
            let tail = stamp.subrange(stamp.len() - 7, stamp.len() as int);
            assert(tail == ".events"@);
            assert(tail[1] == stamp[9]);
        }
        law_log_is_known_by_its_name(stamp);
        assert(is_log_name(names[j]));
        let earlier = time_text(times[i], offset, FILE_STAMP@);
        assert(!comes_before(log_name(stamp), log_name(earlier)));
    }
}

/// The position of the newest log among some file names: names carry the time of
/// the session with a fixed width, so that the last in order is the newest.
pub fn latest_session_log(names: &Vec<String>) -> (r: Option<usize>)
    ensures
        match r {
            Some(i) => is_newest(string_texts(names@), i as int),
            None => forall|j: int|
                0 <= j < names@.len() ==> !is_log_name(#[trigger] string_texts(names@)[j]),
        },
{
    let ghost all = string_texts(names@);
    let mut best: Option<usize> = None;
    let mut i: usize = 0;
    while i < names.len()
        invariant
            all == string_texts(names@),
            i <= names@.len(),
            match best {
                Some(b) => b < i && is_newest(all.take(i as int), b as int),
                None => forall|j: int| 0 <= j < i ==> !is_log_name(#[trigger] all[j]),
            },
        decreases names@.len() - i,
    {
        let ghost past = all.take(i as int);
        let ghost now = all.take(i + 1);
        assert(now[i as int] == names@[i as int]@);
        let ghost held = best;
        if is_session_log(names[i].as_str()) {
            let newer = match best {
                Some(b) => before_text(names[b].as_str(), names[i].as_str()),
                None => true,
            };
            if newer {
                best = Some(i);
            }
        }
        proof {
            if let Some(b) = best {
                assert forall|j: int| 0 <= j < now.len() && is_log_name(#[trigger] now[j]) implies (
                now[j] == now[b as int] && b <= j) || comes_before(now[j], now[b as int]) by {
                    if j < i {
                        assert(now[j] == past[j]);
                        assert(past[j] == all[j]);
                        if let Some(h) = held {
                            assert(past[h as int] == now[h as int]);
                            if b == i {
                                if past[j] != past[h as int] {
                                    law_order_is_transitive(past[j], past[h as int], now[i as int]);
                                }
                            }
                        }
                    } else if b < i {
                        law_order_is_total(now[j], now[b as int]);
                    }
                }
            } else {
                assert forall|j: int| 0 <= j < i + 1 implies !is_log_name(#[trigger] all[j]) by {
                    assert(now[j] == all[j]);
                }
            }
        }
        i += 1;
    }
    assert(all.take(i as int) =~= all);
    best
}

/// What came of asking for larger log buffers.
pub struct Expansion {
    pub ok: bool,
    pub note: String,
}

/// Whether the smallest buffer is as large as it was asked to be, with a twentieth
/// for the rounding of the size that is shown.
pub open spec fn large_enough(min: nat, mib: nat) -> bool {
    min * 100 >= mib * 1024 * 1024 * 95
}

/// Whether the buffers are as large as they were asked to be. The exit status of
/// the request does not say so, and the sizes that are read back do; where none
/// can be read the request counts.
pub open spec fn expanded(error: Option<Seq<char>>, sizes: Seq<char>) -> bool {
    error is None && (min_ring_size(lines_of(sizes)) matches Some(min) ==> large_enough(
        min,
        BUFFER_MIB as nat,
    ))
}

/// What is told of the buffers.
pub open spec fn expansion_text(error: Option<Seq<char>>, sizes: Seq<char>) -> Seq<char> {
    match error {
        Some(e) => "失败，降级为不扩容: "@ + e,
        None => match min_ring_size(lines_of(sizes)) {
            Some(min) => if large_enough(min, BUFFER_MIB as nat) {
                "已确认扩容至 ≥"@ + dec(BUFFER_MIB as nat) + "MiB/buffer（实测最小 "@ + bytes_text(min)
                    + "）"@
            } else {
                "部分 buffer 被设备限制：请求 "@ + dec(BUFFER_MIB as nat) + "MiB，实测最小仅 "@
                    + bytes_text(min)
            },
            None => "已请求 "@ + dec(BUFFER_MIB as nat) + "MiB/buffer（无法回读校验实际大小）"@,
        },
    }
}

/// What came of asking for larger buffers: `error` says why the request failed, if
/// it did, and `sizes` is what the device then says of the sizes.
pub fn expand_buffer(error: Option<&str>, sizes: &str) -> (r: Expansion)
    ensures
        r.ok == expanded(opt_str(error), sizes@),
        r.note@ == expansion_text(opt_str(error), sizes@),
{
    if let Some(e) = error {
        let mut note = "失败，降级为不扩容: ".to_string();
        note.append(e);
        return Expansion { ok: false, note };
    }
    match parse_min_ring_buffer_bytes(sizes) {
        Some(min) => {
            let want: u128 = BUFFER_MIB as u128 * 1024 * 1024 * 95;
            if min as u128 * 100 >= want {
                let mut note = "已确认扩容至 ≥".to_string();
                push_dec(&mut note, BUFFER_MIB as u64);
                note.append("MiB/buffer（实测最小 ");
                note.append(human_bytes(min).as_str());
                note.append("）");
                Expansion { ok: true, note }
            } else {
                let mut note = "部分 buffer 被设备限制：请求 ".to_string();
                push_dec(&mut note, BUFFER_MIB as u64);
                note.append("MiB，实测最小仅 ");
                note.append(human_bytes(min).as_str());
                Expansion { ok: false, note }
            }
        },
        None => {
            let mut note = "已请求 ".to_string();
            push_dec(&mut note, BUFFER_MIB as u64);
            note.append("MiB/buffer（无法回读校验实际大小）");
            Expansion { ok: true, note }
        },
    }
}

/// Whether the profile of a device was written for this session.
pub open spec fn readme_note_text(fresh: bool) -> Seq<char> {
    if fresh {
        "本轮新生成"@
    } else {
        "已存在，复用"@
    }
}

/// What a session shows when it starts.
pub fn startup(
    version: &str,
    pid: u32,
    sess: &Session,
    target: &Device,
    id: &Identity,
    expand_note: &str,
    readme_new: bool,
) -> (r: StartupSummary)
    ensures
        r.version@ == version@,
        r.pid == pid,
        r.start_local@ == sess.started_local@,
        r.serial@ == target.serial@,
        r.manufacturer@ == id.manufacturer@,
        r.model@ == id.model@,
        r.android@ == android_text(id.android_release@, id.api_level@),
        r.api@ == id.api_level@,
        r.connection@ == connection_text(target@),
        r.buffer_target@ == dec(BUFFER_MIB as nat) + "MiB"@,
        r.buffer_result@ == expand_note@,
        r.log_path@ == sess.log_path@,
        r.events_path@ == sess.events_path@,
        r.heartbeat_path@ == sess.heartbeat_path@,
        r.readme_path@ == sess.readme_path@,
        r.readme_note@ == readme_note_text(readme_new),
{
    let mut buffer_target = crate::number::dec_text(BUFFER_MIB as u64);
    buffer_target.append("MiB");
    StartupSummary {
        version: version.to_string(),
        pid,
        start_local: sess.started_local.clone(),
        serial: target.serial.clone(),
        manufacturer: id.manufacturer.clone(),
        model: id.model.clone(),
        android: id.android_label(),
        api: id.api_level.clone(),
        connection: target.connection_label(),
        buffer_target,
        buffer_result: expand_note.to_string(),
        log_path: sess.log_path.clone(),
        events_path: sess.events_path.clone(),
        heartbeat_path: sess.heartbeat_path.clone(),
        readme_path: sess.readme_path.clone(),
        readme_note: if readme_new {
            "本轮新生成".to_string()
        } else {
            "已存在，复用".to_string()
        },
    }
}

/// The details of the event that a session starts with.
pub fn start_detail(pid: u32, serial: &str, start_ms: i64) -> (r: String)
    ensures
        r@ == "pid="@ + dec(pid as nat) + " serial="@ + serial@ + " start_epoch="@ + epoch_text(
            start_ms as int,
        ),
{
    let mut out = "pid=".to_string();
    push_dec(&mut out, pid as u64);
    out.append(" serial=");
    out.append(serial);
    out.append(" start_epoch=");
    out.append(ms_to_epoch_str(start_ms).as_str());
    out
}

/// The details of the event that tells that the buffers are too small.
pub fn expand_failed_detail(note: &str) -> (r: String)
    ensures
        r@ == "detail="@ + quoted_text(note@),
{
    let mut out = "detail=".to_string();
    out.append(quoted(note).as_str());
    out
}

/// The name of a log is `session-`, a time and `.log`; what ends in `.events` before that
/// is no log but the events of one.
pub proof fn law_only_such_names_are_logs(name: Seq<char>, x: Seq<char>)
    ensures
        is_log_name(name) ==> exists|t: Seq<char>|
            name == #[trigger] ("session-"@ + t + ".log"@),
        is_log_name(x + ".events.log"@) == false,
{
    reveal_strlit("session-");
    reveal_strlit(".log");
    let head = seq!['s', 'e', 's', 's', 'i', 'o', 'n', '-'];
    let tail = seq!['.', 'l', 'o', 'g'];
    assert("session-"@ =~= head);
    assert(".log"@ =~= tail);
    if is_log_name(name) {
        let n = name.len();
        assert(name.subrange(0, 8) == head);
        assert(name.subrange(n - 4, n as int) == tail);
        if n < 12 {
            // The two ends would share a character.
            assert(name[n - 4] == tail[0]);
            if n - 4 < 8 {
                assert(name[n - 4] == head[n - 4]);
            }
        }
        let t = name.subrange(8, n - 4);
        assert(name =~= "session-"@ + t + ".log"@);
    }
    lemma_first_and_last_part(x, ".events.log"@);
}

/// The buffers count as enlarged where the smallest that is read back has 7969178 bytes
/// or more, which is a twentieth below what was asked for; where the request failed they
/// do not, and where no size can be read the request counts.
pub proof fn law_buffers_are_judged_by_the_smallest(error: Option<Seq<char>>, sizes: Seq<char>)
    ensures
        error is Some ==> !expanded(error, sizes),
        error is None && min_ring_size(lines_of(sizes)) is None ==> expanded(error, sizes),
        error is None && min_ring_size(lines_of(sizes)) is Some ==> expanded(error, sizes) == (
        min_ring_size(lines_of(sizes))->0 >= 7969178),
{
}

/// What is told of the buffers holds why the request failed, or the size of the smallest,
/// and says the same of two smallest sizes only where both are enough or neither is.
pub proof fn law_note_tells_the_smallest_size(error: Option<Seq<char>>, sizes: Seq<char>)
    ensures
        error matches Some(e) ==> ends_with_text(expansion_text(error, sizes), ": "@ + e),
        error is None && min_ring_size(lines_of(sizes)) is Some && expanded(error, sizes)
            ==> ends_with_text(
            expansion_text(error, sizes),
            "实测最小 "@ + bytes_text(min_ring_size(lines_of(sizes))->0) + "）"@,
        ),
        error is None && min_ring_size(lines_of(sizes)) is Some && !expanded(error, sizes)
            ==> ends_with_text(
            expansion_text(error, sizes),
            "实测最小仅 "@ + bytes_text(min_ring_size(lines_of(sizes))->0),
        ),
{
    let s = expansion_text(error, sizes);
    if let Some(e) = error {
        reveal_strlit("失败，降级为不扩容: ");
        reveal_strlit(": ");
        let a = "失败，降级为不扩容: "@;
        assert(a =~= a.take(a.len() - 2) + ": "@);
        assert(s =~= a.take(a.len() - 2) + (": "@ + e));
        lemma_first_and_last_part(a.take(a.len() - 2), ": "@ + e);
    } else if let Some(min) = min_ring_size(lines_of(sizes)) {
        if expanded(error, sizes) {
            reveal_strlit("MiB/buffer（实测最小 ");
            reveal_strlit("实测最小 ");
            let w = "MiB/buffer（实测最小 "@;
            let end = "实测最小 "@ + bytes_text(min) + "）"@;
            assert(w =~= w.take(w.len() - 5) + "实测最小 "@);
            let h = "已确认扩容至 ≥"@ + dec(BUFFER_MIB as nat) + w.take(w.len() - 5);
            assert(s =~= h + end);
            lemma_first_and_last_part(h, end);
        } else {
            reveal_strlit("MiB，实测最小仅 ");
            reveal_strlit("实测最小仅 ");
            let w = "MiB，实测最小仅 "@;
            let end = "实测最小仅 "@ + bytes_text(min);
            assert(w =~= w.take(w.len() - 6) + "实测最小仅 "@);
            let h = "部分 buffer 被设备限制：请求 "@ + dec(BUFFER_MIB as nat) + w.take(w.len() - 6);
            assert(s =~= h + end);
            lemma_first_and_last_part(h, end);
        }
    }
}


/// No log has a name that comes behind that of the newest, which is a log itself and the
/// first of those with its name.
pub proof fn law_no_log_comes_behind_the_newest(names: Seq<Seq<char>>, i: int, j: int)
    requires
        is_newest(names, i),
        0 <= j < names.len(),
        is_log_name(names[j]),
    ensures
        is_log_name(names[i]),
        !comes_before(names[i], names[j]),
        names[j] == names[i] ==> i <= j,
{
    law_order_is_total(names[i], names[j]);
    law_order_is_total(names[j], names[i]);
}

/// What is told of the buffers starts with what was asked for: eight mebibytes.
pub proof fn law_note_tells_what_was_asked_for(sizes: Seq<char>)
    ensures
        min_ring_size(lines_of(sizes)) is None ==> starts_with_text(
            expansion_text(None, sizes),
            "已请求 "@ + seq!['8'] + "MiB"@,
        ),
        min_ring_size(lines_of(sizes)) is Some && expanded(None, sizes) ==> starts_with_text(
            expansion_text(None, sizes),
            "已确认扩容至 ≥"@ + seq!['8'] + "MiB"@,
        ),
        min_ring_size(lines_of(sizes)) is Some && !expanded(None, sizes) ==> starts_with_text(
            expansion_text(None, sizes),
            "部分 buffer 被设备限制：请求 "@ + seq!['8'] + "MiB"@,
        ),
        readme_note_text(true) == "本轮新生成"@,
        readme_note_text(false) == "已存在，复用"@,
{
    let s = expansion_text(None, sizes);
    assert(dec(8) =~= seq!['8']);
    reveal_strlit("MiB");
    match min_ring_size(lines_of(sizes)) {
        None => {
            reveal_strlit("MiB/buffer（无法回读校验实际大小）");
            let w = "MiB/buffer（无法回读校验实际大小）"@;
            assert(w =~= "MiB"@ + w.skip(3));
            let h = "已请求 "@ + seq!['8'] + "MiB"@;
            assert(s =~= h + w.skip(3));
            lemma_first_and_last_part(h, w.skip(3));
        },
        Some(min) => if expanded(None, sizes) {
            reveal_strlit("MiB/buffer（实测最小 ");
            let w = "MiB/buffer（实测最小 "@;
            assert(w =~= "MiB"@ + w.skip(3));
            let h = "已确认扩容至 ≥"@ + seq!['8'] + "MiB"@;
            let r = w.skip(3) + bytes_text(min) + "）"@;
            assert(s =~= h + r);
            lemma_first_and_last_part(h, r);
        } else {
            reveal_strlit("MiB，实测最小仅 ");
            let w = "MiB，实测最小仅 "@;
            assert(w =~= "MiB"@ + w.skip(3));
            let h = "部分 buffer 被设备限制：请求 "@ + seq!['8'] + "MiB"@;
            let r = w.skip(3) + bytes_text(min);
            assert(s =~= h + r);
            lemma_first_and_last_part(h, r);
        },
    }
}

/// A heartbeat comes every half minute, the buffers are asked to have eight mebibytes, and
/// sixteen times 1024 lines can be on their way.
pub proof fn law_settings_of_the_collector()
    ensures
        2 * STATUS_INTERVAL_SECS == 60,
        BUFFER_MIB == 8,
        CHANNEL_CAP == 16 * 1024,
{
}

} // verus!
