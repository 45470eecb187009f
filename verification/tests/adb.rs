use jj_android_device::adb::{
    buffer_sizes_args, clock_message, clock_reading, devices_args, df_script, get_state_args,
    getprop_script, logcat_args, missing_message, non_empty, outcome, parse_epoch_ms,
    parse_min_ring_buffer_bytes, parse_size, screencap_args, set_buffer_size_args, shell_args,
    version_args, version_line,
};
use jj_android_device::text::chars_of;
use jj_android_device::util::ms_to_logcat_arg;

fn size(s: &str) -> Option<u64> {
    parse_size(&chars_of(s))
}

#[test]
fn epoch_with_millis() {
    assert_eq!(parse_epoch_ms("1784689029.258"), Some(1784689029258));
}

#[test]
fn epoch_seconds_only() {
    assert_eq!(parse_epoch_ms("1784689029"), Some(1784689029000));
}

#[test]
fn epoch_short_frac_padded() {
    assert_eq!(parse_epoch_ms("100.2"), Some(100200));
    assert_eq!(parse_epoch_ms("100.20"), Some(100200));
}

#[test]
fn epoch_unsupported_format_n() {
    assert_eq!(parse_epoch_ms("1784689029.%3N"), None);
    assert_eq!(parse_epoch_ms("garbage"), None);
}

#[test]
fn min_ring_buffer_size() {
    let g = "\
main: ring buffer is 8 MiB (2 MiB consumed, 958 KiB readable), max entry is 5120 B
system: ring buffer is 256 KiB (76 KiB consumed), max entry is 5120 B
crash: ring buffer is 8 MiB (0 B consumed), max entry is 5120 B";
    assert_eq!(parse_min_ring_buffer_bytes(g), Some(256 * 1024));
}

#[test]
fn all_expanded_min() {
    let g = "\
main: ring buffer is 8 MiB (2 MiB consumed)
system: ring buffer is 8 MiB (76 KiB consumed)";
    assert_eq!(parse_min_ring_buffer_bytes(g), Some(8 * 1024 * 1024));
}

#[test]
fn epoch_edges() {
    assert_eq!(parse_epoch_ms("  -3.250\n"), Some(-2750));
    assert_eq!(parse_epoch_ms("+7.9999"), Some(7999));
    assert_eq!(parse_epoch_ms("7."), Some(7000));
    assert_eq!(parse_epoch_ms(".5"), None);
    assert_eq!(parse_epoch_ms(""), None);
    assert_eq!(parse_epoch_ms("9223372036854775807"), None);
}

#[test]
fn written_times_are_read_back() {
    for ms in [0, 1, 999, 1000, 1784689028022, -1, -999, -1000, -1001, i64::MAX, i64::MIN] {
        assert_eq!(parse_epoch_ms(&ms_to_logcat_arg(ms)), Some(ms));
    }
}

#[test]
fn clock_falls_back_to_seconds() {
    assert_eq!(clock_reading("12.345", None), Some(12345));
    assert_eq!(clock_reading("12.%3N", Some("12")), Some(12000));
    assert_eq!(clock_reading("12.%3N", None), None);
    assert_eq!(clock_reading("x", Some("y")), None);
}

#[test]
fn sizes_with_units() {
    assert_eq!(size("0 B"), Some(0));
    assert_eq!(size("512 B (x"), Some(512));
    assert_eq!(size("1.5 KiB"), Some(1536));
    assert_eq!(size("256 KiB consumed"), Some(262144));
    assert_eq!(size("8 MiB"), Some(8388608));
    assert_eq!(size("2 GiB"), Some(2147483648));
    assert_eq!(size("8 TiB"), None);
    assert_eq!(size("8"), None);
    assert_eq!(size("eight MiB"), None);
    assert_eq!(size("-1 KiB"), Some(0));
    assert_eq!(size("1e3 B"), Some(1000));
    assert_eq!(size("inf B"), Some(u64::MAX));
    assert_eq!(size("NaN B"), Some(0));
}

#[test]
fn sizes_agree_with_doubles() {
    for s in ["0.1", "0.3", "3.14159", "1e-3", "1234.5678", "7e7", "0.999999999999999999", "4.35"] {
        let v: f64 = s.parse().unwrap();
        assert_eq!(size(&format!("{s} B")), Some(v as u64));
        assert_eq!(size(&format!("{s} KiB")), Some((v * 1024.0) as u64));
        assert_eq!(size(&format!("{s} MiB")), Some((v * 1024.0 * 1024.0) as u64));
        assert_eq!(size(&format!("{s} GiB")), Some((v * 1024.0 * 1024.0 * 1024.0) as u64));
    }
}

#[test]
fn ring_buffer_lines_without_a_size_do_not_count() {
    assert_eq!(parse_min_ring_buffer_bytes(""), None);
    assert_eq!(parse_min_ring_buffer_bytes("main: ring buffer is large"), None);
    assert_eq!(
        parse_min_ring_buffer_bytes("a: ring buffer is ?\nb: ring buffer is 3 B\nc: nothing"),
        Some(3)
    );
}

#[test]
fn commands_are_spelled_out() {
    assert_eq!(version_args(), vec!["version"]);
    assert_eq!(devices_args(), vec!["devices", "-l"]);
    assert_eq!(get_state_args("S"), vec!["-s", "S", "get-state"]);
    assert_eq!(shell_args("S", "id"), vec!["-s", "S", "shell", "id"]);
    assert_eq!(screencap_args("S"), vec!["-s", "S", "exec-out", "screencap", "-p"]);
    assert_eq!(
        set_buffer_size_args("S", 8),
        vec!["-s", "S", "logcat", "-b", "all", "-G", "8M"]
    );
    assert_eq!(buffer_sizes_args("S"), vec!["-s", "S", "logcat", "-b", "all", "-g"]);
    assert_eq!(
        logcat_args("S", "1.000"),
        vec!["-s", "S", "logcat", "-b", "all", "-v", "epoch", "-T", "1.000"]
    );
    assert_eq!(getprop_script("ro.x"), "getprop ro.x");
    assert_eq!(df_script("/data"), "df /data | tail -1");
}

#[test]
fn outcomes_of_commands() {
    let args = get_state_args("S");
    assert_eq!(outcome(&args, true, " device\n", "noise"), Ok("device".to_string()));
    assert_eq!(
        outcome(&args, false, "", " error: closed\n"),
        Err("adb -s S get-state 失败: error: closed".to_string())
    );
    assert_eq!(missing_message(&args), "无法执行 adb -s S get-state（本机是否已安装 adb？）");
}

#[test]
fn answers_and_versions() {
    assert_eq!(
        version_line("Android Debug Bridge version 1.0.41\nVersion 35\n"),
        "Android Debug Bridge version 1.0.41"
    );
    assert_eq!(version_line(""), "");
    assert_eq!(non_empty(Some("x".to_string())), Some("x".to_string()));
    assert_eq!(non_empty(Some(String::new())), None);
    assert_eq!(non_empty(None), None);
    assert_eq!(clock_message("a\"b\n"), "无法解析设备时钟输出: \"a\\\"b\\n\"");
}
