use jj_android_device::clock::LocalTime;
use jj_android_device::util::{
    gib, human_bytes, human_duration, ms_to_epoch_str, ms_to_local, ms_to_logcat_arg,
};

#[test]
fn bytes_scale() {
    assert_eq!(human_bytes(0), "0 B");
    assert_eq!(human_bytes(512), "512 B");
    assert_eq!(human_bytes(1024), "1.00 KiB");
    assert_eq!(human_bytes(1536), "1.50 KiB");
    assert_eq!(human_bytes(1024 * 1024), "1.00 MiB");
}

#[test]
fn duration_fmt() {
    assert_eq!(human_duration(5), "5s");
    assert_eq!(human_duration(65), "1m05s");
    assert_eq!(human_duration(3661), "1h01m01s");
}

#[test]
fn logcat_arg_roundtrip() {
    assert_eq!(ms_to_logcat_arg(1784689028000), "1784689028.000");
    assert_eq!(ms_to_logcat_arg(1784689028022), "1784689028.022");
    assert_eq!(ms_to_logcat_arg(1784689028205), "1784689028.205");
}

#[test]
fn bytes_agree_with_doubles() {
    for n in [
        1023, 1025, 1029, 5000, 123456, 1048575, 1048577, 987654321, 1 << 40, (1 << 50) + 12345,
        u64::MAX, u64::MAX - 1023, 9007199254740993,
    ] {
        let n: u64 = n;
        let units = ["B", "KiB", "MiB", "GiB", "TiB"];
        let mut v = n as f64;
        let mut i = 0;
        while v >= 1024.0 && i < units.len() - 1 {
            v /= 1024.0;
            i += 1;
        }
        let want = if i == 0 { format!("{n} B") } else { format!("{v:.2} {}", units[i]) };
        assert_eq!(human_bytes(n), want);
        assert_eq!(gib(n), format!("{:.2}G", n as f64 / 1024.0 / 1024.0 / 1024.0));
    }
}

#[test]
fn durations_at_their_edges() {
    assert_eq!(human_duration(0), "0s");
    assert_eq!(human_duration(59), "59s");
    assert_eq!(human_duration(60), "1m00s");
    assert_eq!(human_duration(3599), "59m59s");
    assert_eq!(human_duration(3600), "1h00m00s");
    assert_eq!(human_duration(360000), "100h00m00s");
}

#[test]
fn times_before_the_epoch() {
    assert_eq!(ms_to_epoch_str(-1), "-1.999");
    assert_eq!(ms_to_epoch_str(0), "0.000");
}

#[test]
fn times_in_a_zone() {
    let t = LocalTime::new(1784689028205, 8 * 3600).unwrap();
    assert_eq!(t.file_stamp(), "20260722-105708");
    assert_eq!(t.iso(), "2026-07-22T10:57:08+08:00");
    assert_eq!(t.clock(), "10:57:08");
    assert_eq!(t.line_time(), "2026-07-22 10:57:08.205");
    assert!(LocalTime::new(i64::MAX, 0).is_none());
    assert!(LocalTime::new(0, 86400).is_none());
    assert!(LocalTime::new(0, -86400).is_none());
    assert_eq!(LocalTime::new(-1, 0).unwrap().line_time(), "1969-12-31 23:59:59.999");
}

#[test]
fn local_times_are_whole() {
    let s = ms_to_local(1784689028205);
    assert_eq!(s.len(), 23);
    assert!(s.ends_with(".205"), "got {s}");
    assert!(LocalTime::local(1784689028205).is_some());
    assert!(LocalTime::local(i64::MIN).is_none());
}

#[test]
fn every_datable_time_can_be_written() {
    for ms in [-8_334_601_228_800_000, 8_210_266_876_799_999] {
        for offset in [-86399, -1, 0, 1, 86399] {
            let t = LocalTime::new(ms, offset).unwrap();
            assert!(!t.file_stamp().is_empty());
            assert!(!t.iso().is_empty());
            assert!(!t.clock().is_empty());
            assert!(!t.line_time().is_empty());
        }
        assert!(LocalTime::local(ms).is_some());
    }
    assert!(LocalTime::new(-8_334_601_228_800_001, 0).is_none());
    assert!(LocalTime::new(8_210_266_876_800_000, 0).is_none());
}

#[test]
fn file_stamps_follow_the_order_of_time() {
    let times = [
        -62_167_132_800_000, -30_610_137_600_000, -1_000, 0, 999, 1_000, 951_782_399_000,
        951_868_800_000, 1_784_689_028_205, 1_784_689_029_205, 253_402_214_399_000,
    ];
    for offset in [-43_200, 0, 28_800] {
        let stamps: Vec<String> =
            times.iter().map(|t| LocalTime::new(*t, offset).unwrap().file_stamp()).collect();
        for (i, s) in stamps.iter().enumerate() {
            assert_eq!(s.len(), 15, "{s}");
            assert!(s.chars().all(|c| c.is_ascii_digit() || c == '-'), "{s}");
            assert!(i == 0 || stamps[i - 1] <= *s, "{s}");
        }
    }
    // The first and the last second of the years that have four digits.
    assert_eq!(LocalTime::new(-62_167_219_200_000, 0).unwrap().file_stamp(), "00000101-000000");
    assert_eq!(LocalTime::new(253_402_300_799_999, 0).unwrap().file_stamp(), "99991231-235959");
    assert_eq!(LocalTime::new(253_402_300_800_000, 0).unwrap().file_stamp().len(), 17);
    assert_eq!(LocalTime::new(-62_167_219_200_001, 0).unwrap().file_stamp().len(), 16);
}
