use jj_android_device::device::parse_devices;
use jj_android_device::names::{before_text, NameSet};
use jj_android_device::procmap::{parse_ps, snapshot};
use jj_android_device::procs::{
    active_packages, filter_lowered, filter_names, list_active, list_all, narrowed, parse_names,
    parse_pm_names, report,
};

#[test]
fn parses_pid_name() {
    let out = "\
  PID NAME
    1 init
 1040 android.hardware.audio.service_64
 2815 com.qualcomm.qti.devicestatisticsservice
 3604 com.qualcomm.qti.services.systemhelper:systemhelper_service";
    let m = parse_ps(out);
    assert_eq!(m.get(&1).map(String::as_str), Some("init"));
    assert_eq!(m.get(&1040).map(String::as_str), Some("android.hardware.audio.service_64"));
    assert_eq!(
        m.get(&3604).map(String::as_str),
        Some("com.qualcomm.qti.services.systemhelper:systemhelper_service"),
    );
    assert!(!m.contains_key(&0));
    assert_eq!(m.len(), 4);
}

#[test]
fn skips_garbage_lines() {
    let m = parse_ps("garbage\n\n  \n42 foo");
    assert_eq!(m.get(&42).map(String::as_str), Some("foo"));
    assert_eq!(m.len(), 1);
}

#[test]
fn parses_and_skips_header() {
    let out = "\
NAME
init
com.android.systemui
com.example.remotemanager
[kworker/0:1]";
    let n = parse_names(out);
    assert_eq!(
        n,
        vec![
            "init",
            "com.android.systemui",
            "com.example.remotemanager",
            "[kworker/0:1]",
        ]
    );
}

#[test]
fn skips_blank_lines() {
    let n = parse_names("NAME\n\n  \ninit\n");
    assert_eq!(n, vec!["init"]);
}

#[test]
fn pm_names_handles_plain_and_uid() {
    let out = "\
package:com.android.systemui
package:com.example.remotemanager uid:10120
garbage line
package:";
    let s = parse_pm_names(out);
    assert!(s.contains("com.android.systemui"));
    assert!(s.contains("com.example.remotemanager"));
    assert_eq!(s.len(), 2);
}

fn set_of(names: &[&str]) -> NameSet {
    let mut s = NameSet::new();
    for n in names {
        s.insert(n.to_string());
    }
    s
}

#[test]
fn active_packages_strips_suffix_and_intersects() {
    let procs = vec![
        "com.example.app".to_string(),
        "com.example.app:push".to_string(),
        "com.example.app:remote".to_string(),
        "system_server".to_string(),
        "[kworker/0:1]".to_string(),
        "com.not.installed".to_string(),
    ];
    let installed = set_of(&["com.example.app", "com.android.systemui"]);
    assert_eq!(active_packages(&procs, &installed), vec!["com.example.app"]);
}

#[test]
fn filter_is_case_insensitive_substring() {
    let names = vec![
        "com.example.RemoteManager".to_string(),
        "com.android.systemui".to_string(),
        "init".to_string(),
    ];
    assert_eq!(
        filter_names(&names, "remotemanager"),
        vec!["com.example.RemoteManager"]
    );
    assert_eq!(
        filter_names(&names, "com."),
        vec!["com.example.RemoteManager", "com.android.systemui"]
    );
    assert!(filter_names(&names, "zzz").is_empty());
}

#[test]
fn filter_folds_letters_beyond_ascii() {
    let names = vec!["ÄPFEL".to_string(), "birnen".to_string()];
    assert_eq!(filter_names(&names, "äpf"), vec!["ÄPFEL"]);
    assert_eq!(filter_names(&names, "BIRN"), vec!["birnen"]);
    assert_eq!(filter_names(&names, ""), names);
    assert_eq!(filter_lowered(&names, &vec!["x".to_string(), "y".to_string()], "y"), vec!["birnen"]);
}

#[test]
fn names_are_listed_in_order_and_once() {
    let s = set_of(&["b", "a", "ab", "b", "", "ü", "Z"]);
    assert_eq!(s.list(), vec!["", "Z", "a", "ab", "b", "ü"]);
    assert_eq!(s.len(), 6);
    assert!(s.contains("ab") && !s.contains("abc"));
}

#[test]
fn order_of_names_is_that_of_strings() {
    let names = ["", "a", "ab", "b", "Z", "é", "\u{ffff}", "\u{10000}", "aé", "a\u{10000}"];
    for x in names {
        for y in names {
            assert_eq!(before_text(x, y), x < y, "{x:?} {y:?}");
        }
    }
}

#[test]
fn later_processes_replace_earlier_ones() {
    let m = parse_ps("5 a\n5\tb c \n6\n7 \n+8 d\n99999999999 e\n");
    assert_eq!(m.get(&5).map(String::as_str), Some("b c"));
    assert_eq!(m.get(&8).map(String::as_str), Some("d"));
    assert_eq!(m.len(), 2);
    assert!(snapshot(None).is_none());
    assert_eq!(snapshot(Some("5 a")).unwrap().len(), 1);
}

#[test]
fn lists_and_summaries() {
    let l = list_all("NAME\nb\na\nb\n");
    assert_eq!(l.names, vec!["a", "b"]);
    assert_eq!(l.summary, "processes  3 total / 2 unique");

    let l = list_active("NAME\ncom.b:x\ncom.a\ninit\n", "package:com.a\npackage:com.b\npackage:com.c\n");
    assert_eq!(l.names, vec!["com.a", "com.b"]);
    assert_eq!(l.summary, "packages   2 active（进程 3，已装 3）");

    let l = narrowed(l, Some("B\""));
    assert!(l.names.is_empty());
    assert_eq!(l.summary, "packages   2 active（进程 3，已装 3）；filter=\"B\\\"\" 命中 0");

    let l = narrowed(list_all("x\ny\n"), Some("X"));
    assert_eq!(l.names, vec!["x"]);
    assert_eq!(l.summary, "processes  2 total / 2 unique；filter=\"X\" 命中 1");
    let l = narrowed(l, None);
    assert_eq!(l.names, vec!["x"]);
}

#[test]
fn process_report_names_the_device() {
    let d = parse_devices("S device usb:1 model:M\n").remove(0);
    assert_eq!(
        report(&d, "processes  1 total / 1 unique"),
        "── jj-android-device procs ────────────────────────────────\ndevice     serial=S model=M connection=USB\nprocesses  1 total / 1 unique\n───────────────────────────────────────────────────────────\n"
    );
}

#[test]
fn filter_gives_a_sublist() {
    let names: Vec<String> =
        ["Bb", "ab", "Bb", "c", "aB"].iter().map(|s| s.to_string()).collect();
    let once = filter_names(&names, "B");
    assert_eq!(once, vec!["Bb", "ab", "Bb", "aB"]);
    assert_eq!(filter_names(&once, "B"), once);
    assert_eq!(filter_names(&names, "b"), once);
    assert_eq!(filter_names(&names, ""), names);
}
