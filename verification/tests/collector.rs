use jj_android_device::collector::{
    classify, classify_lowered, Action, Collector, Event, Outcome, Stream, StreamAction,
    StreamEvent,
};
use jj_android_device::report::{Metrics, State};

#[test]
fn classify_offline() {
    let (t, _) = classify("error: device offline", None);
    assert_eq!(t, "device_offline");
}

#[test]
fn classify_not_found() {
    let (t, _) = classify("error: device 'X' not found", None);
    assert_eq!(t, "device_not_found");
}

#[test]
fn classify_unauthorized() {
    let (t, _) = classify("error: device unauthorized.", None);
    assert_eq!(t, "unauthorized");
}

#[test]
fn classify_fallback() {
    let (t, _) = classify("", None);
    assert_eq!(t, "stream_ended");
}

#[test]
fn classify_ignores_case() {
    assert_eq!(classify("ERROR: Device Offline", None).0, "device_offline");
    assert_eq!(classify("Connection CLOSED", None).0, "connection_closed");
    assert_eq!(classify("NO DEVICES/emulators found", None).0, "device_not_found");
    assert_eq!(classify_lowered("closed", "Other", None), ("connection_closed".to_string(), "Other".to_string()));
}

#[test]
fn classify_details_are_one_line() {
    assert_eq!(classify(" a\nb \n", None).1, "a ⏎ b");
    assert_eq!(classify("a\nb", Some("exit status: 1")).1, "a ⏎ b [exit: exit status: 1]");
    assert_eq!(classify("", Some("signal: 9")).1, "[exit: signal: 9]");
}

#[test]
fn stream_hands_on_lines_and_ends() {
    let mut s = Stream::new();
    assert!(matches!(s.action(), StreamAction::Read { errors: true }));
    s.step(StreamEvent::Line(b"one\n".to_vec()));
    match s.action() {
        StreamAction::Store(l) => assert_eq!(l, b"one\n"),
        _ => panic!("expected a line"),
    }
    s.step(StreamEvent::Stored);
    s.step(StreamEvent::ErrorLine("error: device offline\n".to_string()));
    s.step(StreamEvent::ErrorEnd);
    assert!(matches!(s.action(), StreamAction::Read { errors: false }));
    // An event that answers nothing is ignored.
    s.step(StreamEvent::Stored);
    assert!(matches!(s.action(), StreamAction::Read { errors: false }));
    s.step(StreamEvent::OutputEnd);
    assert!(matches!(s.action(), StreamAction::Drain));
    s.step(StreamEvent::Drained { rest: "more".to_string(), status: Some("0".to_string()) });
    match s.action() {
        StreamAction::Finish(o) => assert_eq!(
            *o,
            Outcome::Ended {
                token: "device_offline".to_string(),
                detail: "error: device offline ⏎ more [exit: 0]".to_string()
            }
        ),
        _ => panic!("expected the end"),
    }
}

#[test]
fn stream_ends_on_shutdown_refusal_and_failure() {
    let mut s = Stream::new();
    s.step(StreamEvent::Shutdown);
    assert!(matches!(s.action(), StreamAction::Finish(Outcome::Shutdown)));
    let mut s = Stream::new();
    s.step(StreamEvent::Line(vec![1]));
    s.step(StreamEvent::Refused);
    assert!(matches!(s.action(), StreamAction::Finish(Outcome::Shutdown)));
    let mut s = Stream::new();
    s.step(StreamEvent::Line(vec![1]));
    s.step(StreamEvent::Shutdown);
    assert!(matches!(s.action(), StreamAction::Finish(Outcome::Shutdown)));
    let mut s = Stream::new();
    s.step(StreamEvent::OutputFailed("broken pipe".to_string()));
    s.step(StreamEvent::Drained { rest: String::new(), status: None });
    match s.action() {
        StreamAction::Finish(Outcome::Ended { token, detail }) => {
            assert_eq!(token, "stream_ended");
            assert_eq!(detail, "[stdout read error: broken pipe]");
        }
        _ => panic!("expected the end"),
    }
}

fn streaming(c: &mut Collector, m: &mut Metrics) {
    c.step(m, Event::Polled(false));
    if matches!(c.action(), Action::Emit { .. }) {
        c.step(m, Event::Emitted);
    }
    assert_eq!(c.action(), Action::Mark);
    c.step(m, Event::Marked(true));
    assert!(matches!(c.action(), Action::Spawn { .. }));
    c.step(m, Event::Spawned);
    assert_eq!(c.action(), Action::Stream);
}

#[test]
fn collector_goes_on_after_a_break() {
    let mut m = Metrics::new(1500, 0);
    let mut c = Collector::new("S");
    assert_eq!(c.action(), Action::Poll);
    c.step(&mut m, Event::Polled(false));
    assert_eq!(m.state(), State::Streaming);
    c.step(&mut m, Event::Marked(true));
    assert_eq!(c.action(), Action::Spawn { since: "1.500".to_string() });
    c.step(&mut m, Event::Spawned);
    m.set_last_log_ms(2750);
    c.step(
        &mut m,
        Event::Streamed(Outcome::Ended { token: "connection_closed".to_string(), detail: "a\"b".to_string() }),
    );
    assert_eq!(m.disconnects(), 1);
    assert_eq!(
        c.action(),
        Action::Emit {
            event: "disconnect",
            detail: "reason=connection_closed stderr=\"a\\\"b\"".to_string()
        }
    );
    c.step(&mut m, Event::Emitted);
    assert_eq!(m.state(), State::WaitingDevice);
    c.step(&mut m, Event::Polled(false));
    assert_eq!(c.action(), Action::Query);
    c.step(&mut m, Event::DeviceState(Some("device".to_string())));
    c.step(&mut m, Event::Polled(false));
    assert_eq!(m.reconnects(), 1);
    assert_eq!(
        c.action(),
        Action::Emit { event: "reconnect", detail: "since=2.750".to_string() }
    );
    c.step(&mut m, Event::Emitted);
    c.step(&mut m, Event::Marked(true));
    assert_eq!(c.action(), Action::Spawn { since: "2.750".to_string() });
    assert_eq!(m.state(), State::Streaming);
}

#[test]
fn collector_backs_off_and_tells_once() {
    let mut m = Metrics::new(0, 0);
    let mut c = Collector::new("10.0.3.26:5555");
    streaming(&mut c, &mut m);
    c.step(
        &mut m,
        Event::Streamed(Outcome::Ended { token: "stream_ended".to_string(), detail: String::new() }),
    );
    assert_eq!(
        c.action(),
        Action::Emit { event: "disconnect", detail: "reason=stream_ended".to_string() }
    );
    c.step(&mut m, Event::Emitted);
    let mut waits = Vec::new();
    let mut told = 0;
    for _ in 0..5 {
        c.step(&mut m, Event::Polled(false));
        c.step(&mut m, Event::DeviceState(Some("unauthorized".to_string())));
        if let Action::Emit { event, detail } = c.action() {
            assert_eq!(event, "unauthorized");
            assert_eq!(detail, "serial=10.0.3.26:5555");
            told += 1;
            c.step(&mut m, Event::Emitted);
        }
        match c.action() {
            Action::Sleep { secs } => waits.push(secs),
            other => panic!("expected a wait, got {other:?}"),
        }
        assert_eq!(m.state(), State::Backoff);
        c.step(&mut m, Event::Slept);
    }
    assert_eq!(waits, vec![1, 2, 4, 5, 5]);
    assert_eq!(told, 1);
}

#[test]
fn collector_ends_when_told() {
    let mut m = Metrics::new(0, 0);
    let mut c = Collector::new("S");
    c.step(&mut m, Event::Polled(true));
    assert_eq!(c.action(), Action::Stop);
    assert_eq!(m.state(), State::Draining);

    let mut c = Collector::new("S");
    c.step(&mut m, Event::Polled(false));
    c.step(&mut m, Event::Marked(false));
    assert_eq!(c.action(), Action::Stop);

    let mut c = Collector::new("S");
    streaming(&mut c, &mut m);
    c.step(&mut m, Event::Streamed(Outcome::Shutdown));
    assert_eq!(c.action(), Action::Stop);
    c.step(&mut m, Event::Polled(false));
    assert_eq!(c.action(), Action::Stop);

    let mut c = Collector::new("S");
    c.step(&mut m, Event::Polled(false));
    c.step(&mut m, Event::Marked(true));
    c.step(&mut m, Event::SpawnFailed("no adb\n".to_string()));
    assert_eq!(
        c.action(),
        Action::Emit {
            event: "disconnect",
            detail: "reason=spawn_failed detail=\"no adb\\n\"".to_string()
        }
    );
    c.step(&mut m, Event::Emitted);
    c.step(&mut m, Event::Polled(false));
    c.step(&mut m, Event::DeviceState(None));
    assert_eq!(c.action(), Action::Sleep { secs: 1 });
    c.step(&mut m, Event::Shutdown);
    assert_eq!(c.action(), Action::Stop);
    assert_eq!(m.state(), State::Draining);
}
