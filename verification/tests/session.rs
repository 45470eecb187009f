use jj_android_device::clock::LocalTime;
use jj_android_device::device::parse_devices;
use jj_android_device::logs::{
    expand_buffer, expand_failed_detail, is_session_log, latest_session_log, start_detail, startup,
};
use jj_android_device::profile::Identity;
use jj_android_device::screenshot::{check_png, file_name, png_dimensions, summary, PNG_MAGIC};
use jj_android_device::session::{
    config_root, default_root, file_path, netwatch_dir, read_pid, sanitize, screenshot_dir,
    session_dir, setup, NoHome, PidGuard,
};

#[test]
fn sanitize_tcp_serial() {
    assert_eq!(sanitize("10.0.3.26:5555"), "10.0.3.26_5555");
    assert_eq!(sanitize("VA07258740751"), "VA07258740751");
}

#[test]
fn sanitize_keeps_length_and_is_stable() {
    let s = sanitize("a/b\\c é-_.Z");
    assert_eq!(s, "a_b_c__-_.Z");
    assert_eq!(sanitize(&s), s);
    assert_eq!(sanitize(""), "");
}

#[test]
fn directories_below_home() {
    let home = Some("/home/u");
    assert_eq!(config_root(home).unwrap(), "/home/u/.config/jj-android-device");
    assert_eq!(default_root(home).unwrap(), "/home/u/.config/jj-android-device/logs");
    assert_eq!(
        screenshot_dir(home, "1:2").unwrap(),
        "/home/u/.config/jj-android-device/screenshots/1_2"
    );
    assert_eq!(
        netwatch_dir(home, "1:2").unwrap(),
        "/home/u/.config/jj-android-device/netwatch/1_2"
    );
    assert_eq!(config_root(Some("/")).unwrap(), "/.config/jj-android-device");
    assert_eq!(config_root(Some("")).unwrap(), ".config/jj-android-device");
    assert_eq!(default_root(None), Err(NoHome));
    assert_eq!(screenshot_dir(None, "s"), Err(NoHome));
    assert_eq!(netwatch_dir(None, "s"), Err(NoHome));
    assert_eq!(NoHome.message(), "无法确定 HOME 环境变量，无法定位输出目录");
    assert_eq!(file_path("/a", "b"), "/a/b");
    assert_eq!(session_dir("/r", "1:2"), "/r/1_2");
}

#[test]
fn paths_are_those_of_std() {
    for base in ["", "/", "/a", "/a/", "a", "a/b"] {
        for name in ["", "x", "..", "x.y"] {
            let want = std::path::Path::new(base).join(name);
            assert_eq!(file_path(base, name), want.to_str().unwrap());
        }
    }
}

#[test]
fn session_files() {
    let now = LocalTime::new(1784689028205, 8 * 3600).unwrap();
    let s = setup("/r", "1:2", &now);
    assert_eq!(s.log_path, "/r/1_2/session-20260722-105708.log");
    assert_eq!(s.events_path, "/r/1_2/session-20260722-105708.events.log");
    assert_eq!(s.heartbeat_path, "/r/1_2/.heartbeat");
    assert_eq!(s.pid_path, "/r/1_2/session.pid");
    assert_eq!(s.readme_path, "/r/1_2/readme.md");
    assert_eq!(s.started_local, "2026-07-22T10:57:08+08:00");
    assert!(is_session_log("session-20260722-105708.log"));
}

#[test]
fn guard_is_refused_while_its_holder_is_alive() {
    let g = match PidGuard::acquire("/p", None, false, 4321) {
        Ok(g) => g,
        Err(_) => panic!("nobody holds the guard"),
    };
    assert_eq!(g.path(), "/p");
    let text = g.contents();
    assert_eq!(text, "4321\n");
    assert_eq!(read_pid(Some(&text)), Some(4321));
    assert_eq!(read_pid(Some("junk")), None);
    assert_eq!(read_pid(Some("4294967296")), None);
    assert_eq!(read_pid(None), None);
    // A file that a dead process left behind, or that names none, does not count.
    assert_eq!(PidGuard::acquire("/p", Some(&text), false, 7).ok().unwrap().contents(), "7\n");
    assert!(PidGuard::acquire("/p", Some("junk"), true, 7).is_ok());
    assert!(PidGuard::acquire("/p", Some(" 4321 "), true, 7).is_err());
    match PidGuard::acquire("/p", Some(&text), true, 7) {
        Err(b) => assert_eq!(
            b.message(),
            "该设备已有采集进程在运行（pid=4321）；同一设备同一会话仅允许一个进程。\n若确认为残留，删除 /p 后重试"
        ),
        Ok(_) => panic!("the guard is held"),
    }
}

#[test]
fn session_log_filter() {
    assert!(is_session_log("session-20260722-141100.log"));
    assert!(!is_session_log("session-20260722-141100.events.log"));
    assert!(!is_session_log("session.pid"));
    assert!(!is_session_log("readme.md"));
}

#[test]
fn latest_picks_newest_across_devices() {
    let names: Vec<String> = [
        "session-20260722-100000.log",
        "session-20260722-100000.events.log",
        "session-20260722-235959.log",
        "session-20260722-235959.log",
        "session-99999999-000000.events.log",
    ]
    .iter()
    .map(|s| s.to_string())
    .collect();
    assert_eq!(latest_session_log(&names), Some(2));
    assert_eq!(latest_session_log(&vec!["session.pid".to_string()]), None);
    assert_eq!(latest_session_log(&vec![]), None);
}

#[test]
fn buffers_are_checked() {
    let e = expand_buffer(Some("denied"), "");
    assert!(!e.ok);
    assert_eq!(e.note, "失败，降级为不扩容: denied");
    let e = expand_buffer(None, "main: ring buffer is 8 MiB (x)\nsystem: ring buffer is 7.61 MiB (x)");
    assert!(e.ok);
    assert_eq!(e.note, "已确认扩容至 ≥8MiB/buffer（实测最小 7.61 MiB）");
    let e = expand_buffer(None, "main: ring buffer is 7.6 MiB (x)");
    assert!(!e.ok);
    assert_eq!(e.note, "部分 buffer 被设备限制：请求 8MiB，实测最小仅 7.60 MiB");
    let e = expand_buffer(None, "nothing");
    assert!(e.ok);
    assert_eq!(e.note, "已请求 8MiB/buffer（无法回读校验实际大小）");
}

#[test]
fn details_of_the_start() {
    assert_eq!(start_detail(7, "S", 1500), "pid=7 serial=S start_epoch=1.500");
    assert_eq!(expand_failed_detail("a\nb"), "detail=\"a\\nb\"");
}

#[test]
fn startup_gathers_what_is_known() {
    let now = LocalTime::new(0, 0).unwrap();
    let sess = setup("/r", "S", &now);
    let d = parse_devices("S device usb:1 model:M\n").remove(0);
    let id = Identity {
        serial: "own".to_string(),
        manufacturer: "Maker".to_string(),
        model: "V3".to_string(),
        brand: "B".to_string(),
        product: "P".to_string(),
        codename: "C".to_string(),
        android_release: "13".to_string(),
        api_level: "33".to_string(),
    };
    let s = startup("0.3.0", 9, &sess, &d, &id, "note", true);
    assert_eq!((s.version.as_str(), s.pid, s.serial.as_str()), ("0.3.0", 9, "S"));
    assert_eq!(s.start_local, "1970-01-01T00:00:00+00:00");
    assert_eq!((s.android.as_str(), s.api.as_str()), ("Android 13 (API 33)", "33"));
    assert_eq!((s.connection.as_str(), s.buffer_target.as_str()), ("USB", "8MiB"));
    assert_eq!((s.buffer_result.as_str(), s.readme_note.as_str()), ("note", "本轮新生成"));
    assert_eq!((s.log_path, s.readme_path), (sess.log_path.clone(), sess.readme_path.clone()));
    let s = startup("v", 9, &sess, &d, &id, "note", false);
    assert_eq!(s.readme_note, "已存在，复用");
}

fn png_header(w: u32, h: u32) -> Vec<u8> {
    let mut v = Vec::new();
    v.extend_from_slice(&PNG_MAGIC);
    v.extend_from_slice(&[0, 0, 0, 13]);
    v.extend_from_slice(b"IHDR");
    v.extend_from_slice(&w.to_be_bytes());
    v.extend_from_slice(&h.to_be_bytes());
    v
}

#[test]
fn parse_dimensions() {
    assert_eq!(png_dimensions(&png_header(1080, 2400)), Some((1080, 2400)));
    assert_eq!(png_dimensions(&png_header(720, 1600)), Some((720, 1600)));
}

#[test]
fn reject_non_png() {
    assert_eq!(png_dimensions(b"not a png at all......."), None);
    assert_eq!(png_dimensions(&PNG_MAGIC), None);
}

#[test]
fn pictures_without_a_header() {
    assert_eq!(PNG_MAGIC, *b"\x89PNG\r\n\x1a\n");
    let mut v = png_header(1, 2);
    v[12] = b'J';
    assert_eq!(png_dimensions(&v), None);
    assert_eq!(png_dimensions(&png_header(u32::MAX, 0)), Some((u32::MAX, 0)));
    assert!(check_png(&PNG_MAGIC).is_ok());
    assert_eq!(
        check_png(b"oops"),
        Err("抓取的数据不是有效 PNG（4 字节）；可能当前界面禁止截屏（DRM/安全窗口）或设备不支持 screencap".to_string())
    );
}

#[test]
fn pictures_are_told_of() {
    assert_eq!(file_name("20260722-105708"), "screenshot-20260722-105708.png");
    let d = parse_devices("S device usb:1 model:M\n").remove(0);
    assert_eq!(
        summary(&d, "/p.png", &png_header(10, 20)),
        "── jj-android-device screenshot ───────────────────────────\ndevice serial=S model=M connection=USB\nsaved      = /p.png\nsize       = 24 B  resolution=10x20\n───────────────────────────────────────────────────────────\n"
    );
    assert!(summary(&d, "/p.png", &PNG_MAGIC).contains("resolution=未知\n"));
}
