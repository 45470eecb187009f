use jj_android_device::cli::{
    Cli, Command, LogsArgs, NetwatchArgs, ProcsArgs, ScreenshotArgs,
};
use jj_android_device::report::{
    event_line, exit_detail, heartbeat_line, startup_summary, Metrics, Pace, StartupSummary, State,
};

#[test]
fn states_have_names_and_numbers() {
    let all = [
        (State::WaitingDevice, 0, "waiting_device"),
        (State::Streaming, 1, "streaming"),
        (State::Backoff, 2, "backoff"),
        (State::Draining, 3, "draining"),
        (State::Stopped, 4, "stopped"),
    ];
    for (s, n, name) in all {
        assert_eq!(s.as_u8(), n);
        assert_eq!(State::from_u8(n), s);
        assert_eq!(s.as_str(), name);
    }
    assert_eq!(State::from_u8(77), State::Stopped);
}

#[test]
fn counters_count() {
    let mut m = Metrics::new(5, 10);
    assert_eq!(m.state(), State::Streaming);
    assert_eq!(m.last_log_ms(), 5);
    m.record_line(100);
    m.record_line(20);
    m.inc_disconnect();
    m.inc_reconnect();
    m.inc_disconnect();
    m.set_state(State::Backoff);
    m.set_last_log_ms(-1);
    assert_eq!((m.lines(), m.bytes()), (2, 120));
    assert_eq!((m.disconnects(), m.reconnects()), (2, 1));
    assert_eq!(m.state(), State::Backoff);
    assert_eq!(m.uptime(75), 65);
    assert_eq!(m.uptime(3), 0);
    assert_eq!(
        exit_detail(&m, 75),
        "lines=2 bytes=120 B disconnects=2 reconnects=1 uptime=1m05s"
    );
}

#[test]
fn events_are_lines() {
    assert_eq!(event_line("T", "start", "a=1 b=2"), "ts=T event=start a=1 b=2\n");
    assert_eq!(event_line("T", "stop", ""), "ts=T event=stop\n");
}

#[test]
fn heartbeats_are_lines() {
    let mut m = Metrics::new(-1, 0);
    m.record_line(2048);
    assert_eq!(
        heartbeat_line(&m, "T", 30, "0.1", 68),
        "ts=T event=heartbeat uptime=30s lines=1 bytes=2.00 KiB rate_lines=0.1/s rate_bytes=68 B/s last_log=none state=streaming disconnects=0 reconnects=0\n"
    );
    m.set_last_log_ms(1500);
    assert!(heartbeat_line(&m, "T", 30, "0.1", 68).contains(" last_log=1.500 "));
}

#[test]
fn pace_counts_since_the_last_heartbeat() {
    let mut m = Metrics::new(0, 0);
    m.record_line(10);
    let mut p = Pace::new(&m);
    assert_eq!(p.advance(&m), (0, 0));
    m.record_line(7);
    m.record_line(8);
    assert_eq!(p.advance(&m), (2, 15));
    assert_eq!(p.advance(&m), (0, 0));
}

#[test]
fn summary_is_a_block() {
    let s = StartupSummary {
        version: "0.3.0".to_string(),
        pid: 42,
        start_local: "T".to_string(),
        serial: "S".to_string(),
        manufacturer: "Maker".to_string(),
        model: "V3".to_string(),
        android: "Android 13 (API 33)".to_string(),
        api: "33".to_string(),
        connection: "USB".to_string(),
        buffer_target: "8MiB".to_string(),
        buffer_result: "ok".to_string(),
        log_path: "/l".to_string(),
        events_path: "/e".to_string(),
        heartbeat_path: "/h".to_string(),
        readme_path: "/r".to_string(),
        readme_note: "n".to_string(),
    };
    assert_eq!(
        startup_summary(&s),
        "── jj-android-device logs 启动 ──────────────────────────────\nversion=0.3.0  pid=42  start=T\ndevice serial=S manufacturer=Maker model=V3 android=Android 13 (API 33) api=33 connection=USB\nlogcat buffers=all target_buffer=8MiB expand=ok\nsession.log     = /l\nevents.log      = /e\nheartbeat       = /h\nreadme.md       = /r (n)\n──────────────────────────────────────────────────────────\n"
    );
}

#[test]
fn logs_is_the_default_command() {
    let cli = Cli { logs: LogsArgs { serial: Some("S".to_string()) }, command: None };
    match cli.resolve() {
        Command::Logs(a) => assert_eq!(a.serial.as_deref(), Some("S")),
        other => panic!("expected logs, got {other:?}"),
    }
    let named = [
        Command::Screenshot(ScreenshotArgs { serial: None }),
        Command::Netwatch(NetwatchArgs { serial: None, package: None }),
        Command::Procs(ProcsArgs { serial: None, all: true, filter: None }),
    ];
    for c in named {
        let shown = format!("{c:?}");
        let cli = Cli { logs: LogsArgs { serial: None }, command: Some(c) };
        assert_eq!(format!("{:?}", cli.resolve()), shown);
    }
}
