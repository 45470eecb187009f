use jj_android_device::choice::{choose_index, ChoiceError};
use jj_android_device::device::{
    parse_devices, pick, prompt_choice, resolve, select_target, Connection, Device, Pick,
    SelectError, Selection,
};

const TWO: &str = "\
List of devices attached
AAAA1111               device usb:1-1 product:foo model:Pixel_7 device:foo transport_id:1
BBBB2222               device usb:2-1 product:bar model:Galaxy_S22 device:bar transport_id:3
";

const ONE_UNAUTH: &str = "\
List of devices attached
CCCC3333               unauthorized usb:1-2 transport_id:2
";

const TCP: &str = "\
List of devices attached
10.0.3.26:5555         device product:baz model:V3 device:baz transport_id:5
";

#[test]
fn parse_two_devices() {
    let d = parse_devices(TWO);
    assert_eq!(d.len(), 2);
    assert_eq!(d[0].serial, "AAAA1111");
    assert_eq!(d[0].model.as_deref(), Some("Pixel_7"));
    assert_eq!(d[1].serial, "BBBB2222");
    assert_eq!(d[1].model.as_deref(), Some("Galaxy_S22"));
}

#[test]
fn resolve_multi_needs_choice() {
    let d = parse_devices(TWO);
    match resolve(d, None) {
        Selection::Choose(v) => assert_eq!(v.len(), 2),
        other => panic!("期望 Choose，得到 {other:?}"),
    }
}

#[test]
fn resolve_requested_hits() {
    let d = parse_devices(TWO);
    assert_eq!(resolve(d, Some("BBBB2222")), {
        let d2 = parse_devices(TWO);
        Selection::One(d2.into_iter().find(|x| x.serial == "BBBB2222").unwrap())
    });
}

#[test]
fn resolve_requested_missing() {
    let d = parse_devices(TWO);
    assert_eq!(resolve(d, Some("ZZZZ")), Selection::NotFound("ZZZZ".to_string()));
}

#[test]
fn resolve_single_unauthorized() {
    let d = parse_devices(ONE_UNAUTH);
    match resolve(d, None) {
        Selection::Unusable(dev) => assert_eq!(dev.state, "unauthorized"),
        other => panic!("期望 Unusable，得到 {other:?}"),
    }
}

#[test]
fn resolve_empty() {
    assert_eq!(resolve(vec![], None), Selection::NoneOnline);
}

#[test]
fn tcp_connection_detected() {
    let d = parse_devices(TCP);
    assert_eq!(d[0].connection(), Connection::Tcp { port: "5555".to_string() });
    assert_eq!(d[0].connection_label(), "TCP:5555");
}

#[test]
fn usb_connection_detected() {
    let d = parse_devices(TWO);
    assert_eq!(d[0].connection(), Connection::Usb);
    assert_eq!(d[0].connection_label(), "USB");
}

#[test]
fn parse_keeps_every_attribute() {
    let d = parse_devices(TWO);
    assert_eq!(
        d[1],
        Device {
            serial: "BBBB2222".to_string(),
            state: "device".to_string(),
            model: Some("Galaxy_S22".to_string()),
            product: Some("bar".to_string()),
            usb: Some("2-1".to_string()),
            transport_id: Some("3".to_string()),
        }
    );
}

#[test]
fn parse_skips_short_lines() {
    let d = parse_devices("List of devices attached\n\n  \nlonely\r\nX offline\r\n");
    assert_eq!(d.len(), 1);
    assert_eq!(d[0].serial, "X");
    assert_eq!(d[0].state, "offline");
    assert_eq!(d[0].connection(), Connection::Unknown);
    assert_eq!(d[0].connection_label(), "未知");
    assert_eq!(d[0].model_label(), "<unknown>");
}

#[test]
fn one_ready_device_is_taken() {
    let text = format!("{TWO}{ONE_UNAUTH}");
    let mut d = parse_devices(&text);
    d.remove(0);
    match resolve(d, None) {
        Selection::One(dev) => assert_eq!(dev.serial, "BBBB2222"),
        other => panic!("expected one device, got {other:?}"),
    }
}

#[test]
fn selection_errors_are_told() {
    match select_target(parse_devices(ONE_UNAUTH), Some("CCCC3333")) {
        Err(e) => {
            assert!(matches!(e, SelectError::Unusable(_)));
            assert_eq!(
                e.message(),
                "设备 CCCC3333 当前状态为 unauthorized，无法操作（需在设备端授权，使其显示为 device）"
            );
        }
        Ok(_) => panic!("the device is not ready"),
    }
    match select_target(parse_devices(TWO), Some("Z")) {
        Err(e) => assert_eq!(e.message(), "未找到序列号为 Z 的设备"),
        Ok(_) => panic!("there is no such device"),
    }
    match select_target(vec![], None) {
        Err(e) => assert_eq!(
            e.message(),
            "未发现处于 device 状态的设备；检查连线与授权后重试（adb devices）"
        ),
        Ok(_) => panic!("there is no device"),
    }
    match select_target(parse_devices(TCP), None) {
        Ok(Pick::Device(d)) => assert_eq!(d.serial, "10.0.3.26:5555"),
        _ => panic!("the one device is ready"),
    }
}

#[test]
fn user_picks_from_the_list() {
    let list = match select_target(parse_devices(TWO), None) {
        Ok(Pick::Prompt(list)) => list,
        _ => panic!("two devices are ready"),
    };
    assert_eq!(
        prompt_choice(&list),
        "检测到多台在线设备，请选择目标：\n  [1] AAAA1111 (Pixel_7) USB\n  [2] BBBB2222 (Galaxy_S22) USB\n输入序号 (1-2): "
    );
    assert_eq!(pick(list, " 2\n").unwrap().serial, "BBBB2222");
}

#[test]
fn answers_that_choose_nothing() {
    assert_eq!(choose_index("1", 3), Ok(0));
    assert_eq!(choose_index("+3\n", 3), Ok(2));
    assert_eq!(choose_index("x", 3), Err(ChoiceError::Invalid));
    assert_eq!(choose_index("", 3), Err(ChoiceError::Invalid));
    assert_eq!(choose_index("-1", 3), Err(ChoiceError::Invalid));
    assert_eq!(choose_index("0", 3), Err(ChoiceError::Zero));
    assert_eq!(choose_index("4", 3), Err(ChoiceError::OutOfRange));
    assert_eq!(ChoiceError::Invalid.message(), "无效序号");
    assert_eq!(ChoiceError::Zero.message(), "序号需从 1 起");
    assert_eq!(ChoiceError::OutOfRange.message(), "序号超出范围");
}
