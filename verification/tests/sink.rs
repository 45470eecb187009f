use jj_android_device::report::Metrics;
use jj_android_device::router::{Decision, LineRouter};
use jj_android_device::sink::{
    enrich, enrich_at, is_divider, parse_epoch_token, parse_line, parse_ts_ms, skip_spaces, Msg, Sink,
};
use jj_android_device::writer::{Writer, WriterAction, WriterEvent};
use std::collections::HashMap;

fn line(epoch: &str, msg: &str) -> Vec<u8> {
    format!("         {epoch}  1234  5678 I Tag     : {msg}\n").into_bytes()
}

#[test]
fn parses_leading_epoch() {
    assert_eq!(parse_ts_ms(&line("1784689023.022", "x")), Some(1784689023022));
    assert_eq!(parse_ts_ms(b"--------- beginning of main\n"), None);
    assert_eq!(parse_ts_ms(b"    continuation without ts\n"), None);
}

#[test]
fn normal_stream_writes_all_in_order() {
    let mut r = LineRouter::new(1000);
    for (e, m) in [("1.500", "a"), ("1.600", "b"), ("2.000", "c")] {
        assert_eq!(r.decide(&line(e, m)), Decision::Write, "line {e}");
    }
    assert_eq!(r.last_ms(), 2000);
}

#[test]
fn divider_always_dropped() {
    let mut r = LineRouter::new(0);
    assert_eq!(r.decide(b"--------- beginning of system\n"), Decision::Drop);
}

#[test]
fn reconnect_dedups_overlap_no_loss_no_dup() {
    let mut r = LineRouter::new(0);
    r.mark_reconnecting();
    let l_a = line("1.200", "a");
    let l_b = line("1.200", "b");
    let l_c = line("1.100", "old");
    assert_eq!(r.decide(&l_c), Decision::Write);
    assert_eq!(r.decide(&l_a), Decision::Write);
    assert_eq!(r.decide(&l_b), Decision::Write);
    assert_eq!(r.last_ms(), 1200);

    r.mark_reconnecting();
    assert_eq!(r.decide(&l_c), Decision::Drop);
    assert_eq!(r.decide(&l_a), Decision::Drop);
    assert_eq!(r.decide(&l_b), Decision::Drop);
    let l_b2 = line("1.200", "b_new_same_ms");
    assert_eq!(r.decide(&l_b2), Decision::Write);
    let l_d = line("1.300", "d");
    assert_eq!(r.decide(&l_d), Decision::Write);
    assert_eq!(r.last_ms(), 1300);
}

#[test]
fn continuation_follows_owner_decision() {
    let mut r = LineRouter::new(0);
    r.mark_reconnecting();
    r.decide(&line("1.000", "seed"));
    assert_eq!(r.decide(b"    multiline tail\n"), Decision::Write);

    r.mark_reconnecting();
    assert_eq!(r.decide(&line("0.500", "old")), Decision::Drop);
    assert_eq!(r.decide(b"    tail of dropped\n"), Decision::Drop);
}

fn names() -> HashMap<u32, String> {
    let mut m = HashMap::new();
    m.insert(1040u32, "android.hardware.audio.service_64".to_string());
    m
}

#[test]
fn enrich_known_pid() {
    let raw = b"         1784695527.474  1040  5062 D AGM: metadata_print: 92\n";
    let out = enrich(raw, &names());
    let s = String::from_utf8(out).unwrap();
    assert!(s.contains("  1040-5062  android.hardware.audio.service_64 D AGM: metadata_print: 92\n"), "got {s:?}");
    assert!(!s.contains("1784695527.474"), "epoch 应被替换为本地时间: {s:?}");
    assert!(s.ends_with('\n'));
}

#[test]
fn enrich_unknown_pid_placeholder() {
    let raw = b"         1784695527.474  9999  9999 I Tag: hi\n";
    let s = String::from_utf8(enrich(raw, &names())).unwrap();
    assert!(s.contains("  9999-9999  ? I Tag: hi\n"), "got {s:?}");
}

#[test]
fn enrich_continuation_passthrough() {
    let raw = b"    at com.foo.Bar.baz(Bar.java:1)\n";
    assert_eq!(enrich(raw, &names()), raw.to_vec());
    let divider = b"--------- beginning of main\n";
    assert_eq!(enrich(divider, &names()), divider.to_vec());
}

#[test]
fn enrich_preserves_non_utf8_message() {
    let mut raw = b"         1.500  1040  1040 I Tag: ".to_vec();
    raw.extend_from_slice(&[0xff, 0xfe, 0x00]);
    raw.push(b'\n');
    let out = enrich(&raw, &names());
    assert!(out.ends_with(&[0xff, 0xfe, 0x00, b'\n']), "非 UTF-8 尾部应原样保留");
    assert!(out.windows(2).any(|w| w == b"1-"));
}

#[test]
fn parse_line_extracts_fields() {
    let p = parse_line(b"         1784695527.474  1040  5062 D AGM: x\n").unwrap();
    assert_eq!(p.ms, 1784695527474);
    assert_eq!(p.pid, b"1040");
    assert_eq!(p.tid, b"5062");
    assert_eq!(p.rest, b" D AGM: x\n");
    assert!(parse_line(b"    continuation\n").is_none());
}

#[test]
fn enrich_at_a_given_time() {
    let raw = b" 1.5  7  8 I T: m\n";
    assert_eq!(
        enrich_at(raw, &names(), "2026-07-22 14:11:00.123"),
        b"2026-07-22 14:11:00.123  7-8  ? I T: m\n".to_vec()
    );
}

#[test]
fn enriched_lines_carry_a_local_time() {
    let out = enrich(b" 1784695527.474  1040  5062 D A: x\n", &names());
    let s = String::from_utf8(out).unwrap();
    let stamp = &s[..23];
    assert_eq!(&stamp[4..5], "-");
    assert_eq!(&stamp[10..11], " ");
    assert!(stamp.ends_with(".474"), "got {stamp}");
}

#[test]
fn epoch_tokens() {
    assert_eq!(parse_epoch_token(b"12"), Some(12000));
    assert_eq!(parse_epoch_token(b"12.3"), Some(12300));
    assert_eq!(parse_epoch_token(b"12.3456x"), Some(12345));
    assert_eq!(parse_epoch_token(b"12.3x"), None);
    assert_eq!(parse_epoch_token(b""), None);
    assert_eq!(parse_epoch_token(b".5"), None);
    assert_eq!(parse_epoch_token(b"-1"), None);
    assert_eq!(parse_epoch_token(b"99999999999999999999"), None);
}

#[test]
fn lines_that_are_no_log_entries() {
    assert!(parse_line(b"1.5 7\n").is_none());
    assert!(parse_line(b"1.5 x 8 I\n").is_none());
    assert!(parse_line(b"1.5 7 x I\n").is_none());
    assert!(parse_line(b"").is_none());
    assert_eq!(parse_line(b"\t1.5\t7\t8").unwrap().rest, b"");
    assert!(is_divider(b"--------- beginning of crash"));
    assert!(!is_divider(b"--------- switch to main"));
}

#[test]
fn stored_lines_raise_the_watermark() {
    let mut m = Metrics::new(1000, 0);
    let mut s = Sink::new(&m);
    assert!(s.handle(Msg::Reconnecting, &names()).is_none());
    assert!(s.handle(Msg::Line(b" 0.500  1  1 I T: old\n".to_vec()), &names()).is_none());
    let out = s.handle(Msg::Line(b" 1.500  1040  1 I T: new\n".to_vec()), &names()).unwrap();
    s.stored(&mut m, out.len());
    assert_eq!(m.last_log_ms(), 1500);
    assert_eq!(m.lines(), 1);
    assert_eq!(m.bytes(), out.len() as u64);
    assert!(s.is_dirty());
    s.touched();
    assert!(!s.is_dirty());
}

#[test]
fn a_session_with_breaks_loses_and_repeats_nothing() {
    let log: Vec<Vec<u8>> =
        (1..40).map(|i| line(&format!("{}.{:03}", i / 4, (i % 4) * 100), &format!("m{i}"))).collect();
    let mut r = LineRouter::new(0);
    let mut written: Vec<Vec<u8>> = Vec::new();
    let mut reached = 0;
    while reached < log.len() {
        let since = r.last_ms();
        r.mark_reconnecting();
        let from = log.iter().position(|l| parse_ts_ms(l).unwrap() >= since).unwrap();
        reached = (reached + 9).min(log.len());
        for l in &log[from..reached] {
            if r.decide(l) == Decision::Write {
                written.push(l.clone());
            }
        }
    }
    assert_eq!(written, log);
}

#[test]
fn writer_flushes_and_touches() {
    let mut m = Metrics::new(0, 0);
    let mut w = Writer::new(&m);
    let names = names();
    assert!(matches!(w.action(), WriterAction::Wait));
    w.step(&mut m, &names, WriterEvent::Message(Msg::Reconnecting));
    assert!(matches!(w.action(), WriterAction::Next));
    w.step(&mut m, &names, WriterEvent::Message(Msg::Line(b"--------- beginning of main\n".to_vec())));
    assert!(matches!(w.action(), WriterAction::Next));
    w.step(&mut m, &names, WriterEvent::Message(Msg::Line(b"    tail\n".to_vec())));
    match w.action() {
        WriterAction::Write(out) => assert_eq!(out, b"    tail\n"),
        _ => panic!("the line is kept"),
    }
    w.step(&mut m, &names, WriterEvent::Written);
    assert_eq!((m.lines(), m.bytes()), (1, 9));
    w.step(&mut m, &names, WriterEvent::Empty);
    assert!(matches!(w.action(), WriterAction::Flush));
    w.step(&mut m, &names, WriterEvent::Flushed);
    assert!(matches!(w.action(), WriterAction::Wait));
    w.step(&mut m, &names, WriterEvent::Tick);
    assert!(matches!(w.action(), WriterAction::Flush));
    w.step(&mut m, &names, WriterEvent::Flushed);
    assert!(matches!(w.action(), WriterAction::Touch));
    w.step(&mut m, &names, WriterEvent::Touched);
    w.step(&mut m, &names, WriterEvent::Tick);
    w.step(&mut m, &names, WriterEvent::Flushed);
    assert!(matches!(w.action(), WriterAction::Wait));
    w.step(&mut m, &names, WriterEvent::Message(Msg::Line(b" 1.5  1  1 I T: x\n".to_vec())));
    w.step(&mut m, &names, WriterEvent::Written);
    assert_eq!(m.last_log_ms(), 1500);
    w.step(&mut m, &names, WriterEvent::Closed);
    assert!(matches!(w.action(), WriterAction::Flush));
    w.step(&mut m, &names, WriterEvent::Flushed);
    assert!(matches!(w.action(), WriterAction::Touch));
    w.step(&mut m, &names, WriterEvent::Touched);
    assert!(matches!(w.action(), WriterAction::Done));
    w.step(&mut m, &names, WriterEvent::Tick);
    assert!(matches!(w.action(), WriterAction::Done));
}

#[test]
fn dividers_make_no_difference() {
    let divider = b"--------- beginning of main\n".to_vec();
    let plain = [line("1.000", "a"), b"    tail\n".to_vec(), line("0.500", "old"), line("2.000", "b")];
    let mut with = LineRouter::new(0);
    let mut without = LineRouter::new(0);
    with.mark_reconnecting();
    without.mark_reconnecting();
    for l in &plain {
        assert_eq!(with.decide(&divider), Decision::Drop);
        assert_eq!(with.decide(l), without.decide(l));
        assert_eq!(with.last_ms(), without.last_ms());
    }
}

#[test]
fn blanks_are_skipped_where_there_are_any() {
    assert_eq!(skip_spaces(b"a \tb", 1), Some(3));
    assert_eq!(skip_spaces(b"a \tb", 0), None);
    assert_eq!(skip_spaces(b"a  ", 1), Some(3));
    assert_eq!(skip_spaces(b"a", 1), None);
    assert_eq!(skip_spaces(b"a", 2), None);
    assert_eq!(skip_spaces(b"", 7), None);
}

#[test]
fn the_last_stream_may_end_inside_an_entry() {
    let log = [line("1.000", "a"), b"    tail a\n".to_vec(), line("2.000", "b"), b"    tail b\n".to_vec()];
    let mut r = LineRouter::new(0);
    r.mark_reconnecting();
    assert_eq!(r.decide(&log[0]), Decision::Write);
    assert_eq!(r.decide(&log[1]), Decision::Write);
    r.mark_reconnecting();
    assert_eq!(r.decide(&log[0]), Decision::Drop);
    assert_eq!(r.decide(&log[1]), Decision::Drop);
    assert_eq!(r.decide(&log[2]), Decision::Write);
    assert_eq!(r.last_ms(), 2000);
}

#[test]
fn writer_asks_for_the_stored_forms_of_kept_lines() {
    let names = names();
    let msgs: Vec<Vec<u8>> = vec![
        b" 1.000  1040  1 I T: a\n".to_vec(),
        b"--------- beginning of main\n".to_vec(),
        b"    tail\n".to_vec(),
        b" 2.000  1040  1 I T: b\n".to_vec(),
    ];
    let mut router = LineRouter::new(0);
    let mut m = Metrics::new(0, 0);
    let mut w = Writer::new(&m);
    let mut want: Vec<Vec<u8>> = Vec::new();
    let mut got: Vec<Vec<u8>> = Vec::new();
    for _ in 0..2 {
        router.mark_reconnecting();
        w.step(&mut m, &names, WriterEvent::Message(Msg::Reconnecting));
        for l in &msgs {
            if router.decide(l) == Decision::Write {
                want.push(enrich(l, &names));
            }
            w.step(&mut m, &names, WriterEvent::Message(Msg::Line(l.clone())));
            if let WriterAction::Write(out) = w.action() {
                got.push(out.clone());
            }
            w.step(&mut m, &names, WriterEvent::Written);
        }
    }
    assert_eq!(got, want);
    assert_eq!(got.len(), 3);
    assert_eq!(m.lines(), 3);
}
