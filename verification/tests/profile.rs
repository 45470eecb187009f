use jj_android_device::device::parse_devices;
use jj_android_device::profile::{
    battery, battery_health, battery_status, battery_value, extract_field, generate, identity,
    into_or, ip_addr, memory_total, or_na, screen, storage, wifi_info, Answers, Identity,
    IdentityAnswers, NA,
};

fn some(s: &str) -> Option<String> {
    Some(s.to_string())
}

#[test]
fn extract_wifi_fields() {
    let line = r#"mWifiInfo SSID: "RUxFU1RZTEU", BSSID: d8:b3:70:1d:d5:bc, MAC: 68:50:8c:3c:ed:8f, IP: /10.0.3.26, Security type: 4"#;
    assert_eq!(extract_field(line, "SSID:").unwrap().trim_matches('"'), "RUxFU1RZTEU");
    assert_eq!(extract_field(line, "BSSID:").unwrap(), "d8:b3:70:1d:d5:bc");
    assert_eq!(extract_field(line, "MAC:").unwrap(), "68:50:8c:3c:ed:8f");
    assert_eq!(extract_field(line, "IP:").unwrap().trim_start_matches('/'), "10.0.3.26");
}

#[test]
fn battery_decode() {
    assert_eq!(battery_status("2"), "充电中");
    assert_eq!(battery_health("2"), "良好");
}

#[test]
fn battery_codes() {
    let status: Vec<String> = ["1", "3", "4", "5", "6"].iter().map(|s| battery_status(s)).collect();
    assert_eq!(status, vec!["未知", "放电中", "未充电", "已充满", "6"]);
    let health: Vec<String> =
        ["1", "3", "4", "5", "6", "7", "x"].iter().map(|s| battery_health(s)).collect();
    assert_eq!(health, vec!["未知", "过热", "损坏", "过压", "未知故障", "过冷", "x"]);
}

#[test]
fn fields_end_at_commas() {
    assert_eq!(extract_field("a: 1, b:2", "a:"), some("1"));
    assert_eq!(extract_field("a: 1, b:2 ", "b:"), some("2"));
    assert_eq!(extract_field("a: , b:2", "a:"), None);
    assert_eq!(extract_field("a: 1", "c:"), None);
}

#[test]
fn answers_or_placeholders() {
    assert_eq!(or_na(&some("x")), "x");
    assert_eq!(or_na(&some("")), NA);
    assert_eq!(or_na(&None), NA);
    assert_eq!(into_or(NA.to_string(), "d".to_string()), "d");
    assert_eq!(into_or("x".to_string(), "d".to_string()), "x");
}

#[test]
fn memory_and_storage() {
    assert_eq!(memory_total(&some("MemTotal:        3810692 kB")), "3.63G");
    assert_eq!(memory_total(&some("MemTotal:")), NA);
    assert_eq!(memory_total(&some("MemTotal: 18446744073709551615 kB")), NA);
    assert_eq!(memory_total(&None), NA);
    let (used, total, free) = storage(&some("/dev/block/dm-5 52428800 10485760 41943040 20% /data"));
    assert_eq!((used.as_str(), total.as_str(), free.as_str()), ("10.00G", "50.00G", "40.00G"));
    let (used, total, free) = storage(&some("/dev x 1 2"));
    assert_eq!((used.as_str(), total.as_str(), free.as_str()), (NA, NA, NA));
    assert_eq!(storage(&some("a 1 2")).0, NA);
    assert_eq!(storage(&None).2, NA);
}

#[test]
fn screen_takes_the_last_value() {
    assert_eq!(screen(&some("Physical size: 720x1600\nOverride size: 360x800\nnoise")), "360x800");
    assert_eq!(screen(&some("Physical density: 320")), "320");
    assert_eq!(screen(&some("none")), NA);
    assert_eq!(screen(&None), NA);
}

#[test]
fn wifi_from_its_line() {
    let w = wifi_info(&some(
        "noise\nmWifiInfo SSID: \"Net\", BSSID: aa:bb, MAC: cc:dd, IP: //10.0.0.1, x\nSSID: later, ",
    ));
    assert_eq!((w.ssid.as_str(), w.bssid.as_str()), ("Net", "aa:bb"));
    assert_eq!((w.mac.as_str(), w.ip.as_str()), ("cc:dd", "10.0.0.1"));
    let w = wifi_info(&some("mWifiInfo nothing"));
    assert_eq!((w.ssid.as_str(), w.ip.as_str()), (NA, NA));
    let w = wifi_info(&some("SSID: <none>, IP: , MAC: m"));
    assert_eq!((w.ssid.as_str(), w.bssid.as_str(), w.ip.as_str()), ("<none>", NA, NA));
}

#[test]
fn address_from_its_line() {
    assert_eq!(
        ip_addr(&some("24: wlan0: <UP>\n    inet 10.0.3.26/24 brd 10.0.3.255\n    inet 1.2.3.4/8")),
        "10.0.3.26"
    );
    assert_eq!(ip_addr(&some("inet6 ::1/128")), NA);
    assert_eq!(ip_addr(&None), NA);
}

const BATTERY: &str = "Current Battery Service state:\n  status: 2\n  health: 2\n  level: 85\n  voltage: 4200\n  temperature: 283\n  technology: Li-ion\n";

#[test]
fn battery_summary() {
    assert_eq!(
        battery(&some(BATTERY), "28.3°C"),
        "85% / 充电中 / 良好 / 28.3°C / 4200 mV / Li-ion"
    );
    assert_eq!(battery(&some("  level: 5\n"), ""), "5%");
    assert_eq!(battery(&some("  level:\n status:\n"), ""), NA);
    assert_eq!(battery(&some("nothing"), ""), NA);
    assert_eq!(battery(&None, "28.3°C"), NA);
    assert_eq!(battery_value(BATTERY, "temperature"), some("283"));
    assert_eq!(battery_value(BATTERY, "absent"), None);
}

fn no_answers() -> Answers {
    Answers {
        cores: None,
        primary_abi: None,
        board: None,
        data: None,
        mem_total: None,
        wm_size: None,
        wm_density: None,
        font_scale: NA.to_string(),
        wifi: None,
        inet: None,
        kernel_release: None,
        fingerprint: None,
        build_type: None,
        security_patch: None,
        display_id: None,
        kernel: None,
        abi_list: None,
        max_freq: NA.to_string(),
        platform: None,
        hardware: None,
        battery: None,
        battery_temp: String::new(),
        bluetooth: None,
        sdcard: None,
        data_later: None,
        user: None,
        timezone: None,
        date: None,
        time_diff: NA.to_string(),
        raw_getprop: None,
        raw_battery: None,
        raw_df: None,
        raw_ip: None,
    }
}

fn known() -> Identity {
    let d = parse_devices("LISTED device usb:1 model:M\n").remove(0);
    identity(
        &IdentityAnswers {
            serial: None,
            manufacturer: some("Maker"),
            model: some("V3"),
            brand: some("Brand"),
            product: some("prod"),
            codename: some("code"),
            android_release: some("13"),
            api_level: some("33"),
        },
        &d,
    )
}

#[test]
fn identity_falls_back_to_the_listed_serial() {
    let id = known();
    assert_eq!(id.serial, "LISTED");
    assert_eq!(id.manufacturer, "Maker");
    assert_eq!(id.android_label(), "Android 13 (API 33)");
}

#[test]
fn document_without_answers() {
    let d = parse_devices("LISTED device usb:1 model:M\n").remove(0);
    let md = generate(&known(), &d, &no_answers(), " main: 8 MiB \n", "note", "1.0.41");
    let want = "# 设备档案 · V3\n\n> 由 jj-android-device 于选中设备、开始采集前自动生成。任一字段不可用标注「不可用」。\n\n## 关键信息\n\n- **名称**：prod\n- **品牌**：Brand\n- **型号**：V3\n- **序列号**：LISTED\n- **Android 版本**：Android 13 (API 33)\n- **内核版本**：不可用\n- **处理器**：不可用 · 不可用 核 · 不可用\n- **存储**：不可用 / 不可用\n- **内存**：不可用\n- **物理分辨率**：不可用 (不可用dpi)\n- **字体缩放**：不可用\n- **Wi-Fi**：不可用\n- **IP 地址**：不可用\n- **MAC 地址**：不可用\n\n## 身份\n\n- **序列号**：LISTED\n- **厂商**：Maker\n- **品牌**：Brand\n- **型号**：V3\n- **产品名**：prod\n- **设备代号**：code\n\n## 系统\n\n- **Android 发行版本**：13\n- **API level**：33\n- **Build 指纹**：不可用\n- **Build 类型**：不可用\n- **安全补丁级别**：不可用\n- **Build 版本号**：不可用\n- **内核版本**：不可用\n\n## 硬件\n\n- **CPU 架构 (primary ABI)**：不可用\n- **支持的 ABI**：不可用\n- **CPU 核数**：不可用\n- **CPU 最高频率**：不可用\n- **SoC / board**：不可用 / 不可用\n- **硬件平台**：不可用\n- **总内存**：不可用\n- **屏幕分辨率**：不可用\n- **屏幕密度**：不可用 dpi\n- **字体缩放**：不可用\n- **电池**：不可用\n\n## 网络\n\n- **连接方式**：USB\n- **Wi-Fi SSID**：不可用\n- **Wi-Fi BSSID**：不可用\n- **Wi-Fi MAC**：不可用\n- **当前 IP**：不可用\n- **蓝牙 MAC**：不可用\n\n## 存储\n\n- **/data 已用 / 总量 / 可用**：不可用 / 不可用 / 不可用\n- **/sdcard 已用 / 总量 / 可用**：不可用 / 不可用 / 不可用\n\n## adb 与调试\n\n- **授权状态**：device\n- **是否 root**：否\n- **adbd 运行用户**：不可用\n- **本机 adb 版本**：1.0.41\n\n## logcat 能力\n\n- **扩容结果**：note\n- **各 buffer 当前大小**：\n\n```\nmain: 8 MiB\n```\n\n## 时区与时间\n\n- **设备时区**：不可用\n- **设备当前时间**：不可用\n- **设备与本机时间差**：不可用\n\n## 原始快照\n\n### getprop\n\n```\n不可用\n```\n\n### dumpsys battery\n\n```\n不可用\n```\n\n### df -h\n\n```\n不可用\n```\n\n### ip addr\n\n```\n不可用\n```\n\n";
    assert_eq!(md, want);
}

#[test]
fn document_with_answers() {
    let d = parse_devices("LISTED device usb:1 model:M\n").remove(0);
    let mut a = no_answers();
    a.cores = some("8");
    a.board = some("msm");
    a.primary_abi = some("arm64-v8a");
    a.platform = some("bengal");
    a.data = some("fs 2097152 1048576 1048576 50% /data");
    a.data_later = some("fs 2097152 1048576 524288 50% /data");
    a.sdcard = some("fs 1048576 0 1048576 0% /sdcard");
    a.wm_size = some("Physical size: 720x1600");
    a.wm_density = some("Physical density: 320");
    a.wifi = some("SSID: \"N\", BSSID: b, MAC: m, IP: /1.2.3.4");
    a.user = some("uid=0(root)");
    a.battery = some(BATTERY);
    a.raw_df = some("df output");
    let md = generate(&known(), &d, &a, "", "note", "v");
    for row in [
        "- **处理器**：msm · 8 核 · arm64-v8a\n",
        "- **存储**：1.00G / 2.00G\n",
        "- **物理分辨率**：720x1600 (320dpi)\n",
        "- **屏幕密度**：320 dpi\n",
        "- **IP 地址**：1.2.3.4\n",
        "- **Wi-Fi BSSID**：b\n",
        "- **SoC / board**：bengal / msm\n",
        "- **/data 已用 / 总量 / 可用**：1.00G / 2.00G / 0.50G\n",
        "- **/sdcard 已用 / 总量 / 可用**：0.00G / 1.00G / 1.00G\n",
        "- **是否 root**：是\n",
        "- **电池**：85% / 充电中 / 良好 / 4200 mV / Li-ion\n",
        "### df -h\n\n```\ndf output\n```\n",
    ] {
        assert!(md.contains(row), "missing {row:?}");
    }
}
