use jj_android_device::device::parse_devices;
use jj_android_device::names::NameTable;
use jj_android_device::netwatch::{
    choose_net_active, established_uids, extract_num, file_name, named_target, parse_pm_uids, parse_uid_bytes,
    pick, prompt, sum_uid_bytes, TargetError, Watch,
};
use jj_android_device::text::chars_of;

const NETSTATS: &str = "\
Dev stats:
  History since boot:
    ident=[{iface=wlan0}]
      NetworkStatsHistory: bucketDuration=7200
      st=0 rb=99999 rp=1 tb=88888 tp=1
Xt stats:
  History since boot:
    ident=[{iface=wlan0}]
      NetworkStatsHistory: bucketDuration=7200
      st=0 rb=77777 rp=1 tb=66666 tp=1
UID stats:
  Pending bytes: 0
  History since boot:
    ident=[{type=1}] uid=10120 set=FOREGROUND tag=0x0
      NetworkStatsHistory: bucketDuration=7200
      st=0 rb=100 rp=2 tb=40 tp=2
    ident=[{type=1}] uid=10120 set=BACKGROUND tag=0x0
      NetworkStatsHistory: bucketDuration=7200
      st=0 rb=25 rp=1 tb=10 tp=1
    ident=[{type=1}] uid=10999 set=FOREGROUND tag=0x0
      NetworkStatsHistory: bucketDuration=7200
      st=0 rb=7 rp=1 tb=7 tp=1
UID tag stats:
  History since boot:
    ident=[{type=1}] uid=10120 set=FOREGROUND tag=0xffffff82
      NetworkStatsHistory: bucketDuration=7200
      st=0 rb=50 rp=1 tb=20 tp=1
";

#[test]
fn uid_bytes_sums_only_uid_stats_section() {
    assert_eq!(parse_uid_bytes(NETSTATS, 10120), (125, 50));
}

#[test]
fn uid_bytes_other_uid() {
    assert_eq!(parse_uid_bytes(NETSTATS, 10999), (7, 7));
}

#[test]
fn uid_bytes_absent_uid_is_zero() {
    assert_eq!(parse_uid_bytes(NETSTATS, 12345), (0, 0));
}

const PROC_TCP: &str = "\
  sl  local_address rem_address   st tx_queue rx_queue tr tm->when retrnsmt   uid  timeout inode
   0: 0100007F:1F90 00000000:0000 0A 00000000:00000000 00:00000000 00000000  1000        0 0 1
   1: ABCDEF01:C012 12345678:01BB 01 00000000:00000000 00:00000000 00000000 10120        0 0 1
   2: ABCDEF01:C013 12345678:01BB 06 00000000:00000000 00:00000000 00000000 10777        0 0 1
   3: ABCDEF01:C014 87654321:01BB 01 00000000:00000000 00:00000000 00000000 10105        0 0 1
";

#[test]
fn established_only() {
    let s = established_uids(PROC_TCP);
    assert_eq!(s.into_iter().collect::<Vec<_>>(), vec![10105, 10120]);
}

#[test]
fn pm_uids_parsed() {
    let raw = "\
package:com.sunmi.ota uid:10127
package:sunmi.remotemanager uid:10120
package:broken.no.uid
package:com.x uid:notanumber
";
    let m = parse_pm_uids(raw);
    assert_eq!(m.get("com.sunmi.ota"), Some(&10127));
    assert_eq!(m.get("sunmi.remotemanager"), Some(&10120));
    assert_eq!(m.get("broken.no.uid"), None);
    assert_eq!(m.get("com.x"), None);
}

#[test]
fn numbers_behind_keys() {
    assert_eq!(extract_num(&chars_of("st=0 rb=100 rp=2"), "rb="), Some(100));
    assert_eq!(extract_num(&chars_of("rb=x rb=1"), "rb="), None);
    assert_eq!(extract_num(&chars_of("nothing"), "rb="), None);
    assert_eq!(extract_num(&chars_of("rb=99999999999999999999"), "rb="), None);
}

#[test]
fn long_names_of_counters() {
    let dump = "UID stats:\n\tident uid=7\n\t\trxBytes=3 txBytes=4\n\t\trb=5 rxBytes=9 tb=6\n";
    assert_eq!(parse_uid_bytes(dump, 7), (8, 10));
    assert_eq!(parse_uid_bytes("  uid=7\n  rb=5\n", 7), (0, 0));
}

#[test]
fn sums_beyond_the_range() {
    let dump = "UID stats:\n uid=7\n rb=18446744073709551615\n rb=1\n";
    assert_eq!(sum_uid_bytes(dump, 7), None);
    assert_eq!(sum_uid_bytes(dump, 8), Some((0, 0)));
    assert_eq!(sum_uid_bytes(NETSTATS, 10120), Some((125, 50)));
}

#[test]
fn later_lines_replace_earlier_ones() {
    let m = parse_pm_uids("package:a uid:1\npackage:b uid:2\npackage:a uid:3\n");
    assert_eq!(m.get("a"), Some(&3));
    assert_eq!(m.len(), 2);
    assert_eq!(m.names_of(1), Vec::<String>::new());
    assert_eq!(m.names_of(3), vec!["a"]);
}

#[test]
fn applications_are_offered_by_name() {
    let table = parse_pm_uids(
        "package:d uid:10105\npackage:b uid:10105\npackage:a uid:10105\npackage:c uid:10105\n",
    );
    let list = match choose_net_active(PROC_TCP, &table) {
        Ok(list) => list,
        Err(_) => panic!("there are connections"),
    };
    assert_eq!(list[0].label, "a, b, c, …(+1)");
    assert_eq!(list[1].label, "uid:10120（系统/无对应应用）");
    assert_eq!(
        prompt(&list),
        "当前有网络连接的应用（选一个盯它是否收到下发）：\n  [1] a, b, c, …(+1)  (uid 10105)\n  [2] uid:10120（系统/无对应应用）  (uid 10120)\n输入序号 (1-2): "
    );
    assert!(pick(list, "3").is_err());
    let two = parse_pm_uids("package:x uid:10105\npackage:w uid:10105");
    let list = choose_net_active(PROC_TCP, &two).ok().unwrap();
    assert_eq!(list[0].label, "w, x");
    assert_eq!(pick(list, "2").ok().unwrap().uid, 10120);
}

#[test]
fn nothing_to_watch_is_told() {
    let table = NameTable::new();
    match choose_net_active("", &table) {
        Err(e) => {
            assert_eq!(e, TargetError::NoConnection);
            assert_eq!(
                e.message(),
                "当前没有检测到有网络连接的应用；请直接指定包名：jj-android-device netwatch <包名>"
            );
        }
        Ok(_) => panic!("there is no connection"),
    }
    match named_target(&table, "com.x") {
        Err(e) => assert_eq!(
            e.message(),
            "设备上未找到应用包名 com.x（用 `adb shell pm list packages` 查看可选包名）"
        ),
        Ok(_) => panic!("there is no such package"),
    }
    let table = parse_pm_uids("package:com.x uid:9");
    let t = named_target(&table, "com.x").ok().unwrap();
    assert_eq!((t.uid, t.label.as_str()), (9, "com.x"));
}

#[test]
fn samples_show_growth() {
    let mut w = Watch::new(1000, 500);
    assert_eq!(w.sample("10:00:00", 1010, 500), "10:00:00  rx +10 B       tx +0 B       ");
    assert_eq!(
        w.sample("10:00:02", 2034, 2548),
        "10:00:02  rx +1.00 KiB   tx +2.00 KiB     ← 收到数据"
    );
    // A count that was started anew has not grown.
    assert_eq!(w.sample("10:00:04", 10, 2548), "10:00:04  rx +0 B        tx +0 B       ");
    assert_eq!(w.sample("10:00:06", 3000, 2600), "10:00:06  rx +2.92 KiB   tx +52 B         ← 收到数据");
    assert_eq!(
        w.footer(65),
        "\n── 结束 ────────────────────────────────────────────────────\n观测时长 = 1m05s   期间累计 rx=+1.95 KiB  tx=+2.05 KiB\n───────────────────────────────────────────────────────────\n"
    );
}

#[test]
fn watch_starts_with_its_header() {
    assert_eq!(file_name("20260722-105708"), "netwatch-20260722-105708.log");
    let d = parse_devices("S device usb:1 model:M\n").remove(0);
    let table = parse_pm_uids("package:com.x uid:9");
    let t = named_target(&table, "com.x").ok().unwrap();
    assert_eq!(
        Watch::new(2048, 3).header(&d, &t, "/tmp/n.log"),
        "── jj-android-device netwatch ─────────────────────────────\ndevice   serial=S model=M connection=USB\ntarget   com.x  (uid 9)\n说明     每 2s 采样「累计收发字节」；rx 单次增量 ≥1.00 KiB 高亮为“收到数据”。Ctrl-C 结束。\nsaved    = /tmp/n.log\n基线     rx=2.00 KiB  tx=3 B\n───────────────────────────────────────────────────────────\n"
    );
}

#[test]
fn the_end_tells_the_sum_of_the_samples() {
    let mut w = Watch::new(5, 5);
    for (rx, tx) in [(15, 5), (35, 6), (65, 7)] {
        w.sample("t", rx, tx);
    }
    assert!(w.footer(6).contains("观测时长 = 6s   期间累计 rx=+60 B  tx=+2 B\n"));
}
