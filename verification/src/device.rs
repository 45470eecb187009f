//! Devices as `adb devices -l` lists them, and the choice of the one to work on.

use vstd::prelude::*;
use vstd::string::*;
use crate::choice::{choose_index, chosen, ChoiceError};
use crate::number::{all_digits, dec, is_digit, is_digit_char, push_dec};
use crate::text::{
    after_last, chars_of, contains_text, ends_with_text, is_text, is_white,
    law_contains_is_in_between, law_start_and_end_of_a_text, law_text_is_split_at_a_character,
    law_text_without_white_space_is_a_word, law_trim_takes_white_space_away,
    lemma_contains_between, lemma_contains_trans, lemma_first_and_last_part, lemma_run_bounds,
    lines, lines_of, other_than, rsplit_tail, run_end, split_first, split_once, starts_with,
    starts_with_text, string_of, texts, trim, trim_text, words, words_of,
};

verus! {

/// What is known of a device, as texts.
pub struct DeviceInfo {
    pub serial: Seq<char>,
    pub state: Seq<char>,
    pub model: Option<Seq<char>>,
    pub product: Option<Seq<char>>,
    pub usb: Option<Seq<char>>,
    pub transport_id: Option<Seq<char>>,
}

/// One device and its connection.
#[derive(Debug, Clone, PartialEq, Eq)]
pub struct Device {
    pub serial: String,
    /// `device`, `unauthorized`, `offline` and the like.
    pub state: String,
    pub model: Option<String>,
    pub product: Option<String>,
    /// Present for a device on a USB port.
    pub usb: Option<String>,
    pub transport_id: Option<String>,
}

/// How a device is connected.
#[derive(Debug, Clone, PartialEq, Eq)]
pub enum Connection {
    Usb,
    /// Over the network, at a port.
    Tcp { port: String },
    Unknown,
}

/// The text that an optional string holds.
pub open spec fn opt_text(s: Option<String>) -> Option<Seq<char>> {
    match s {
        Some(t) => Some(t@),
        None => None,
    }
}

impl View for Device {
    type V = DeviceInfo;

    open spec fn view(&self) -> DeviceInfo {
        DeviceInfo {
            serial: self.serial@,
            state: self.state@,
            model: opt_text(self.model),
            product: opt_text(self.product),
            usb: opt_text(self.usb),
            transport_id: opt_text(self.transport_id),
        }
    }
}

/// What is known of the devices of a list.
pub open spec fn infos(v: Seq<Device>) -> Seq<DeviceInfo> {
    Seq::new(v.len(), |i: int| v[i]@)
}

/// The port in the serial number of a network device: the digits behind its last colon.
pub open spec fn tcp_port(serial: Seq<char>) -> Option<Seq<char>> {
    match after_last(serial, ':') {
        Some(port) => if port.len() > 0 && all_digits(port) {
            Some(port)
        } else {
            None
        },
        None => None,
    }
}

/// The name of a connection.
pub open spec fn connection_text(d: DeviceInfo) -> Seq<char> {
    match tcp_port(d.serial) {
        Some(port) => "TCP:"@ + port,
        None => if d.usb is Some {
            "USB"@
        } else {
            "未知"@
        },
    }
}

/// The model of a device, or a placeholder for it.
pub open spec fn model_text(d: DeviceInfo) -> Seq<char> {
    match d.model {
        Some(m) => m,
        None => "<unknown>"@,
    }
}

impl Device {
    /// How the device is connected: a serial number with a port says that it is on
    /// the network, and otherwise a `usb` field says that it is on a USB port.
    pub fn connection(&self) -> (r: Connection)
        ensures
            r is Tcp == (tcp_port(self@.serial) is Some),
            r matches Connection::Tcp { port } ==> tcp_port(self@.serial) == Some(port@),
            r is Usb == (tcp_port(self@.serial) is None && self@.usb is Some),
    {
        let serial = chars_of(self.serial.as_str());
        if let Some(port) = rsplit_tail(&serial, ':') {
            if port.len() > 0 {
                let mut i: usize = 0;
                while i < port.len() && is_digit_char(port[i])
                    invariant
                        i <= port@.len(),
                        forall|k: int| 0 <= k < i ==> is_digit(#[trigger] port@[k]),
                    decreases port@.len() - i,
                {
                    i += 1;
                }
                if i == port.len() {
                    return Connection::Tcp { port: string_of(port) };
                }
                assert(!is_digit(port@[i as int]));
            }
        }
        if self.usb.is_some() {
            Connection::Usb
        } else {
            Connection::Unknown
        }
    }

    /// The name of the connection: `USB`, `TCP:5555`.
    pub fn connection_label(&self) -> (r: String)
        ensures
            r@ == connection_text(self@),
    {
        match self.connection() {
            Connection::Usb => "USB".to_string(),
            Connection::Tcp { port } => {
                let mut out = "TCP:".to_string();
                out.append(port.as_str());
                out
            },
            Connection::Unknown => "未知".to_string(),
        }
    }

    /// The model, or a placeholder.
    pub fn model_label(&self) -> (r: &str)
        ensures
            r@ == model_text(self@),
    {
        match &self.model {
            Some(m) => m.as_str(),
            None => "<unknown>",
        }
    }
}

/// The value of the last `key:value` word behind the first two words.
pub open spec fn attribute(ws: Seq<Seq<char>>, key: Seq<char>) -> Option<Seq<char>>
    decreases ws.len(),
{
    if ws.len() <= 2 {
        None
    } else {
        match split_first(ws.last(), ':') {
            Some((k, v)) => if k == key {
                Some(v)
            } else {
                attribute(ws.drop_last(), key)
            },
            None => attribute(ws.drop_last(), key),
        }
    }
}

/// The device that the words of a line describe.
pub open spec fn described(ws: Seq<Seq<char>>) -> DeviceInfo {
    DeviceInfo {
        serial: ws[0],
        state: ws[1],
        model: attribute(ws, "model"@),
        product: attribute(ws, "product"@),
        usb: attribute(ws, "usb"@),
        transport_id: attribute(ws, "transport_id"@),
    }
}

/// The device that a line lists: a serial number, a state and attributes. The
/// title of the list, and a line of fewer than two words, list none.
pub open spec fn listed(line: Seq<char>) -> Option<DeviceInfo> {
    let t = trim_text(line);
    let ws = words_of(t);
    if t.len() == 0 || starts_with_text(t, "List of devices"@) || ws.len() < 2 {
        None
    } else {
        Some(described(ws))
    }
}

/// The devices that some lines list, in their order.
pub open spec fn listed_all(ls: Seq<Seq<char>>) -> Seq<DeviceInfo>
    decreases ls.len(),
{
    if ls.len() == 0 {
        Seq::empty()
    } else {
        match listed(ls.last()) {
            Some(d) => listed_all(ls.drop_last()).push(d),
            None => listed_all(ls.drop_last()),
        }
    }
}

proof fn lemma_keys_differ()
    ensures
        "model"@ != "product"@,
        "model"@ != "usb"@,
        "model"@ != "transport_id"@,
        "product"@ != "usb"@,
        "product"@ != "transport_id"@,
        "usb"@ != "transport_id"@,
{
    reveal_strlit("model");
    reveal_strlit("product");
    reveal_strlit("usb");
    reveal_strlit("transport_id");
    assert("model"@.len() == 5 && "product"@.len() == 7 && "usb"@.len() == 3);
    assert("transport_id"@.len() == 12);
}

fn parse_device(line: &[char]) -> (r: Option<Device>)
    ensures
        r is Some == (listed(line@) is Some),
        r matches Some(d) ==> listed(line@) == Some(d@),
{
    let t = trim(line);
    if t.len() == 0 || starts_with(t, "List of devices") {
        return None;
    }
    let ws = words(t);
    let ghost all = words_of(t@);
    assert(ws@.len() == all.len());
    if ws.len() < 2 {
        return None;
    }
    let mut dev = Device {
        serial: string_of(ws[0]),
        state: string_of(ws[1]),
        model: None,
        product: None,
        usb: None,
        transport_id: None,
    };
    assert(ws[0]@ == texts(ws@)[0]);
    assert(ws[1]@ == texts(ws@)[1]);
    let mut i: usize = 2;
    while i < ws.len()
        invariant
            texts(ws@) == all,
            2 <= i <= ws@.len(),
            dev@ == (DeviceInfo {
                serial: all[0],
                state: all[1],
                ..described(all.take(i as int))
            }),
        decreases ws@.len() - i,
    {
        assert(ws[i as int]@ == texts(ws@)[i as int]);
        assert(all.take(i + 1).drop_last() == all.take(i as int));
        assert(all.take(i + 1).last() == all[i as int]);
        proof {
            lemma_keys_differ();
        }
        if let Some((k, v)) = split_once(ws[i], ':') {
            if is_text(k, "model") {
                dev.model = Some(string_of(v));
            } else if is_text(k, "product") {
                dev.product = Some(string_of(v));
            } else if is_text(k, "usb") {
                dev.usb = Some(string_of(v));
            } else if is_text(k, "transport_id") {
                dev.transport_id = Some(string_of(v));
            }
        }
        i += 1;
    }
    assert(all.take(i as int) == all);
    Some(dev)
}

/// The devices of a list that `adb devices -l` printed.
pub fn parse_devices(raw: &str) -> (r: Vec<Device>)
    ensures
        infos(r@) == listed_all(lines_of(raw@)),
{
    let cs = chars_of(raw);
    let ls = lines(&cs);
    let ghost all = lines_of(raw@);
    let mut out: Vec<Device> = Vec::new();
    let mut i: usize = 0;
    assert(infos(out@) == listed_all(all.take(0)));
    while i < ls.len()
        invariant
            texts(ls@) == all,
            i <= ls@.len(),
            infos(out@) == listed_all(all.take(i as int)),
        decreases ls@.len() - i,
    {
        assert(ls[i as int]@ == texts(ls@)[i as int]);
        assert(all.take(i + 1).drop_last() == all.take(i as int));
        let ghost before = out@;
        if let Some(d) = parse_device(ls[i]) {
            out.push(d);
            assert(infos(out@) == infos(before).push(d@));
        }
        i += 1;
    }
    assert(all.take(i as int) == all);
    out
}

/// The outcome of a choice, as texts.
pub enum Resolution {
    One(DeviceInfo),
    Choose(Seq<DeviceInfo>),
    NoneOnline,
    NotFound(Seq<char>),
    Unusable(DeviceInfo),
}

/// The outcome of a choice.
#[derive(Debug, PartialEq, Eq)]
pub enum Selection {
    /// The one device to work on.
    One(Device),
    /// Several devices are ready: the user has to pick one.
    Choose(Vec<Device>),
    /// No device is ready.
    NoneOnline,
    /// No device has the serial number asked for.
    NotFound(String),
    /// The device is there but not ready.
    Unusable(Device),
}

impl View for Selection {
    type V = Resolution;

    open spec fn view(&self) -> Resolution {
        match self {
            Selection::One(d) => Resolution::One(d@),
            Selection::Choose(v) => Resolution::Choose(infos(v@)),
            Selection::NoneOnline => Resolution::NoneOnline,
            Selection::NotFound(s) => Resolution::NotFound(s@),
            Selection::Unusable(d) => Resolution::Unusable(d@),
        }
    }
}

/// Whether a device is ready.
pub open spec fn ready(d: DeviceInfo) -> bool {
    d.state == "device"@
}

/// The first device with a serial number.
pub open spec fn with_serial(ds: Seq<DeviceInfo>, serial: Seq<char>) -> Option<DeviceInfo>
    decreases ds.len(),
{
    if ds.len() == 0 {
        None
    } else if ds[0].serial == serial {
        Some(ds[0])
    } else {
        with_serial(ds.skip(1), serial)
    }
}

/// The devices that are ready, in their order.
pub open spec fn online(ds: Seq<DeviceInfo>) -> Seq<DeviceInfo>
    decreases ds.len(),
{
    if ds.len() == 0 {
        Seq::empty()
    } else if ready(ds.last()) {
        online(ds.drop_last()).push(ds.last())
    } else {
        online(ds.drop_last())
    }
}

/// The device that was asked for, if one was; else the one device that is ready.
/// Where none is ready, a single device that is not tells more than that none is.
pub open spec fn resolution(ds: Seq<DeviceInfo>, requested: Option<Seq<char>>) -> Resolution {
    match requested {
        Some(serial) => match with_serial(ds, serial) {
            Some(d) => if ready(d) {
                Resolution::One(d)
            } else {
                Resolution::Unusable(d)
            },
            None => Resolution::NotFound(serial),
        },
        None => {
            let on = online(ds);
            if on.len() == 1 {
                Resolution::One(on[0])
            } else if on.len() > 1 {
                Resolution::Choose(on)
            } else if ds.len() == 1 {
                Resolution::Unusable(ds[0])
            } else {
                Resolution::NoneOnline
            }
        },
    }
}

proof fn lemma_with_serial(ds: Seq<DeviceInfo>, serial: Seq<char>, i: int)
    requires
        0 <= i <= ds.len(),
        forall|k: int| 0 <= k < i ==> (#[trigger] ds[k]).serial != serial,
    ensures
        i < ds.len() && ds[i].serial == serial ==> with_serial(ds, serial) == Some(ds[i]),
        i == ds.len() ==> with_serial(ds, serial) is None,
    decreases ds.len(),
{
    if i > 0 {
        assert(ds[0].serial != serial);
        let rest = ds.skip(1);
        assert forall|k: int| 0 <= k < i - 1 implies (#[trigger] rest[k]).serial != serial by {
            assert(ds[k + 1].serial != serial);
        }
        lemma_with_serial(rest, serial, i - 1);
    }
}

/// The text that an optional string slice holds.
pub open spec fn opt_str(s: Option<&str>) -> Option<Seq<char>> {
    match s {
        Some(t) => Some(t@),
        None => None,
    }
}

/// Whether a string is the text `t`.
fn says(s: &String, t: &str) -> (r: bool)
    ensures
        r == (s@ == t@),
{
    let cs = chars_of(s.as_str());
    is_text(&cs, t)
}

/// Chooses the device to work on.
pub fn resolve(devices: Vec<Device>, requested: Option<&str>) -> (r: Selection)
    ensures
        r@ == resolution(infos(devices@), opt_str(requested)),
{
    let mut devices = devices;
    let ghost ds = infos(devices@);
    if let Some(req) = requested {
        let mut i: usize = 0;
        #[verifier::loop_isolation(false)]
        while i < devices.len()
            invariant
                ds == infos(devices@),
                i <= devices@.len(),
                forall|k: int| 0 <= k < i ==> (#[trigger] ds[k]).serial != req@,
            decreases devices@.len() - i,
        {
            if says(&devices[i].serial, req) {
                proof {
                    lemma_with_serial(ds, req@, i as int);
                }
                let d = devices.remove(i);
                assert(d@ == ds[i as int]);
                return if says(&d.state, "device") {
                    Selection::One(d)
                } else {
                    Selection::Unusable(d)
                };
            }
            i += 1;
        }
        proof {
            lemma_with_serial(ds, req@, i as int);
        }
        return Selection::NotFound(req.to_string());
    }
    let total: usize = devices.len();
    let mut on: Vec<Device> = Vec::new();
    let mut rest: Vec<Device> = Vec::new();
    let mut i: usize = 0;
    assert(infos(on@) == online(ds.take(0)));
    while i < total
        invariant
            ds.len() == total,
            i <= total,
            devices@.len() == total - i,
            forall|k: int| 0 <= k < total - i ==> (#[trigger] devices@[k])@ == ds[i + k],
            infos(on@) == online(ds.take(i as int)),
            rest@.len() + on@.len() == i,
            i > 0 && on@.len() == 0 ==> rest@[0]@ == ds[0],
        decreases total - i,
    {
        let ghost held = devices@;
        let d = devices.remove(0);
        assert(d@ == ds[i as int]);
        assert(ds.take(i + 1).drop_last() == ds.take(i as int));
        assert(ds.take(i + 1).last() == d@);
        let ghost before = on@;
        assert forall|k: int| 0 <= k < total - i - 1 implies (#[trigger] devices@[k])@ == ds[i + 1
            + k] by {
            assert(devices@[k] == held[k + 1]);
        }
        if says(&d.state, "device") {
            on.push(d);
            assert(infos(on@) == infos(before).push(d@));
        } else {
            rest.push(d);
        }
        i += 1;
    }
    assert(ds.take(i as int) == ds);
    assert(infos(on@) == online(ds));
    if on.len() == 0 {
        if total == 1 {
            let d = rest.remove(0);
            Selection::Unusable(d)
        } else {
            Selection::NoneOnline
        }
    } else if on.len() == 1 {
        assert(infos(on@)[0] == on@[0]@);
        let d = on.remove(0);
        Selection::One(d)
    } else {
        Selection::Choose(on)
    }
}

/// A device that is chosen is one of the devices listed, and it is ready.
pub proof fn law_chosen_is_listed_and_ready(ds: Seq<DeviceInfo>, requested: Option<Seq<char>>)
    ensures
        resolution(ds, requested) matches Resolution::One(d) ==> ds.contains(d) && ready(d),
        resolution(ds, requested) matches Resolution::Choose(v) ==> v.len() > 1 && forall|i: int|
            0 <= i < v.len() ==> ds.contains(#[trigger] v[i]) && ready(v[i]),
{
    lemma_online(ds);
    if let Some(serial) = requested {
        lemma_with_serial_listed(ds, serial);
    } else {
        let on = online(ds);
        if on.len() == 1 {
            assert(ds.contains(on[0]));
        }
    }
}

/// A device that was asked for by its serial number is the one that answers.
pub proof fn law_requested_serial_is_honoured(ds: Seq<DeviceInfo>, serial: Seq<char>)
    ensures
        resolution(ds, Some(serial)) matches Resolution::One(d) ==> d.serial == serial,
        resolution(ds, Some(serial)) matches Resolution::Unusable(d) ==> d.serial == serial,
        (resolution(ds, Some(serial)) is NotFound) == (forall|i: int|
            0 <= i < ds.len() ==> (#[trigger] ds[i]).serial != serial),
{
    lemma_with_serial_listed(ds, serial);
    if forall|i: int| 0 <= i < ds.len() ==> (#[trigger] ds[i]).serial != serial {
        lemma_with_serial(ds, serial, ds.len() as int);
    }
}

proof fn lemma_with_serial_listed(ds: Seq<DeviceInfo>, serial: Seq<char>)
    ensures
        with_serial(ds, serial) matches Some(d) ==> ds.contains(d) && d.serial == serial,
        with_serial(ds, serial) is None ==> forall|i: int|
            0 <= i < ds.len() ==> (#[trigger] ds[i]).serial != serial,
    decreases ds.len(),
{
    if ds.len() > 0 {
        if ds[0].serial == serial {
            assert(ds.contains(ds[0]));
        } else {
            let rest = ds.skip(1);
            lemma_with_serial_listed(rest, serial);
            if let Some(d) = with_serial(rest, serial) {
                let i = choose|i: int| 0 <= i < rest.len() && rest[i] == d;
                assert(ds[i + 1] == d);
            } else {
                assert forall|i: int| 0 <= i < ds.len() implies (#[trigger] ds[i]).serial != serial by {
                    if i > 0 {
                        assert(rest[i - 1].serial != serial);
                    }
                }
            }
        }
    }
}

proof fn lemma_online(ds: Seq<DeviceInfo>)
    ensures
        forall|i: int|
            0 <= i < online(ds).len() ==> ds.contains(#[trigger] online(ds)[i]) && ready(
                online(ds)[i],
            ),
    decreases ds.len(),
{
    if ds.len() > 0 {
        let front = ds.drop_last();
        lemma_online(front);
        assert forall|i: int| 0 <= i < online(ds).len() implies ds.contains(
            #[trigger] online(ds)[i],
        ) && ready(online(ds)[i]) by {
            if i < online(front).len() {
                let d = online(front)[i];
                assert(online(ds)[i] == d);
                let j = choose|j: int| 0 <= j < front.len() && front[j] == d;
                assert(ds[j] == d);
            } else {
                assert(ds[ds.len() - 1] == ds.last());
            }
        }
    }
}

/// A device to work on, or the devices that the user has to pick one from.
pub enum Pick {
    Device(Device),
    Prompt(Vec<Device>),
}

/// Why there is no device to work on.
pub enum SelectError {
    NoneOnline,
    NotFound(String),
    Unusable(Device),
}

/// The outcome that an answer of [`select_target`] stands for.
pub open spec fn selected(r: Result<Pick, SelectError>) -> Resolution {
    match r {
        Ok(Pick::Device(d)) => Resolution::One(d@),
        Ok(Pick::Prompt(v)) => Resolution::Choose(infos(v@)),
        Err(SelectError::NoneOnline) => Resolution::NoneOnline,
        Err(SelectError::NotFound(s)) => Resolution::NotFound(s@),
        Err(SelectError::Unusable(d)) => Resolution::Unusable(d@),
    }
}

/// Chooses the device to work on. Several devices that are ready are handed out
/// to be shown to the user.
pub fn select_target(devices: Vec<Device>, requested: Option<&str>) -> (r: Result<
    Pick,
    SelectError,
>)
    ensures
        selected(r) == resolution(infos(devices@), opt_str(requested)),
{
    match resolve(devices, requested) {
        Selection::One(d) => Ok(Pick::Device(d)),
        Selection::Choose(list) => Ok(Pick::Prompt(list)),
        Selection::NoneOnline => Err(SelectError::NoneOnline),
        Selection::NotFound(s) => Err(SelectError::NotFound(s)),
        Selection::Unusable(d) => Err(SelectError::Unusable(d)),
    }
}

/// What the user is told where there is no device to work on.
pub open spec fn select_error_text(e: SelectError) -> Seq<char> {
    match e {
        SelectError::NoneOnline =>
            "未发现处于 device 状态的设备；检查连线与授权后重试（adb devices）"@,
        SelectError::NotFound(s) => "未找到序列号为 "@ + s@ + " 的设备"@,
        SelectError::Unusable(d) => "设备 "@ + d.serial@ + " 当前状态为 "@ + d.state@
            + "，无法操作（需在设备端授权，使其显示为 device）"@,
    }
}

impl SelectError {
    pub fn message(&self) -> (r: String)
        ensures
            r@ == select_error_text(*self),
    {
        match self {
            SelectError::NoneOnline =>
                "未发现处于 device 状态的设备；检查连线与授权后重试（adb devices）".to_string(),
            SelectError::NotFound(s) => {
                let mut out = "未找到序列号为 ".to_string();
                out.append(s.as_str());
                out.append(" 的设备");
                out
            },
            SelectError::Unusable(d) => {
                let mut out = "设备 ".to_string();
                out.append(d.serial.as_str());
                out.append(" 当前状态为 ");
                out.append(d.state.as_str());
                out.append("，无法操作（需在设备端授权，使其显示为 device）");
                out
            },
        }
    }
}

/// The entry of the `i`-th device in the list that is shown to the user.
pub open spec fn entry_text(i: nat, d: DeviceInfo) -> Seq<char> {
    "  ["@ + dec(i + 1) + "] "@ + d.serial + " ("@ + model_text(d) + ") "@ + connection_text(d)
        + "\n"@
}

/// The entries of all devices.
pub open spec fn entries_text(ds: Seq<DeviceInfo>) -> Seq<char>
    decreases ds.len(),
{
    if ds.len() == 0 {
        Seq::empty()
    } else {
        entries_text(ds.drop_last()) + entry_text((ds.len() - 1) as nat, ds.last())
    }
}

/// The question that is put to the user.
pub open spec fn prompt_text(ds: Seq<DeviceInfo>) -> Seq<char> {
    "检测到多台在线设备，请选择目标：\n"@ + entries_text(ds) + "输入序号 (1-"@ + dec(ds.len())
        + "): "@
}

/// The question which of several devices to work on.
pub fn prompt_choice(list: &Vec<Device>) -> (r: String)
    ensures
        r@ == prompt_text(infos(list@)),
{
    let mut out = "检测到多台在线设备，请选择目标：\n".to_string();
    let ghost head = out@;
    let ghost ds = infos(list@);
    let mut i: usize = 0;
    assert(head + Seq::<char>::empty() == head);
    while i < list.len()
        invariant
            ds == infos(list@),
            i <= list@.len(),
            out@ == head + entries_text(ds.take(i as int)),
        decreases list@.len() - i,
    {
        let d = &list[i];
        assert(d@ == ds[i as int]);
        assert(ds.take(i + 1).drop_last() == ds.take(i as int));
        assert(ds.take(i + 1).last() == d@);
        let ghost before = out@;
        out.append("  [");
        push_dec(&mut out, i as u64 + 1);
        out.append("] ");
        out.append(d.serial.as_str());
        out.append(" (");
        out.append(d.model_label());
        out.append(") ");
        out.append(d.connection_label().as_str());
        out.append("\n");
        assert(out@ == before + entry_text(i as nat, d@));
        assert(out@ == head + (entries_text(ds.take(i as int)) + entry_text(i as nat, d@)));
        i += 1;
    }
    assert(ds.take(i as int) == ds);
    out.append("输入序号 (1-");
    push_dec(&mut out, list.len() as u64);
    out.append("): ");
    out
}

/// The device that the user's answer picks.
pub fn pick(list: Vec<Device>, answer: &str) -> (r: Result<Device, ChoiceError>)
    ensures
        match r {
            Ok(d) => chosen(answer@, list@.len()) matches Ok(i) && i < list@.len() && d@
                == list@[i as int]@,
            Err(e) => chosen(answer@, list@.len()) == Err::<nat, ChoiceError>(e),
        },
{
    let mut list = list;
    match choose_index(answer, list.len()) {
        Ok(i) => Ok(list.remove(i)),
        Err(e) => Err(e),
    }
}

proof fn lemma_online_at(ds: Seq<DeviceInfo>, idx: Seq<int>)
    requires
        forall|a: int, b: int| 0 <= a < b < idx.len() ==> idx[a] < idx[b],
        forall|a: int|
            0 <= a < idx.len() ==> 0 <= #[trigger] idx[a] < ds.len() && ds[idx[a]].state
                == "device"@,
        forall|j: int|
            0 <= j < ds.len() && (#[trigger] ds[j]).state == "device"@ ==> idx.contains(j),
    ensures
        online(ds) == Seq::new(idx.len(), |a: int| ds[idx[a]]),
    decreases ds.len(),
{
    if ds.len() == 0 {
        if idx.len() > 0 {
            assert(0 <= idx[0] < ds.len());
        }
        assert(online(ds) =~= Seq::new(idx.len(), |a: int| ds[idx[a]]));
    } else {
        let front = ds.drop_last();
        let n = ds.len() - 1;
        if ds.last().state == "device"@ {
            assert(ds[n].state == "device"@);
            let p = choose|p: int| 0 <= p < idx.len() && idx[p] == n;
            if p < idx.len() - 1 {
                assert(idx[p] < idx[p + 1]);
                assert(0 <= idx[p + 1] < ds.len());
            }
            let less = idx.drop_last();
            assert forall|a: int| 0 <= a < less.len() implies 0 <= #[trigger] less[a] < front.len()
                && front[less[a]].state == "device"@ by {
                assert(idx[a] < idx[p]);
                assert(0 <= idx[a] < ds.len());
            }
            assert forall|j: int|
                0 <= j < front.len() && (#[trigger] front[j]).state == "device"@ implies less.contains(
                j,
            ) by {
                assert(ds[j].state == "device"@);
                let q = choose|q: int| 0 <= q < idx.len() && idx[q] == j;
                assert(less[q] == j);
            }
            lemma_online_at(front, less);
            assert(online(ds) =~= Seq::new(idx.len(), |a: int| ds[idx[a]]));
        } else {
            assert forall|a: int| 0 <= a < idx.len() implies 0 <= #[trigger] idx[a] < front.len()
                && front[idx[a]].state == "device"@ by {
                assert(0 <= idx[a] < ds.len() && ds[idx[a]].state == "device"@);
            }
            assert forall|j: int|
                0 <= j < front.len() && (#[trigger] front[j]).state == "device"@ implies idx.contains(
                j,
            ) by {
                assert(ds[j].state == "device"@);
            }
            lemma_online_at(front, idx);
            assert(online(ds) =~= Seq::new(idx.len(), |a: int| ds[idx[a]]));
        }
    }
}

/// Where no serial number is asked for, every device that is ready is reckoned with:
/// one is taken, and of several all are offered, each where it stands in the list.
/// Where none is ready, a single device that is listed is told of.
pub proof fn law_every_ready_device_is_offered(ds: Seq<DeviceInfo>, idx: Seq<int>)
    requires
        forall|a: int, b: int| 0 <= a < b < idx.len() ==> idx[a] < idx[b],
        forall|a: int|
            0 <= a < idx.len() ==> 0 <= #[trigger] idx[a] < ds.len() && ds[idx[a]].state
                == "device"@,
        forall|j: int|
            0 <= j < ds.len() && (#[trigger] ds[j]).state == "device"@ ==> idx.contains(j),
    ensures
        idx.len() == 0 && ds.len() == 1 ==> resolution(ds, None) == Resolution::Unusable(ds[0]),
        idx.len() == 0 && ds.len() != 1 ==> resolution(ds, None) is NoneOnline,
        idx.len() == 1 ==> resolution(ds, None) == Resolution::One(ds[idx[0]]),
        idx.len() > 1 ==> (resolution(ds, None) matches Resolution::Choose(v) && v.len() == idx.len()
            && forall|a: int| 0 <= a < idx.len() ==> #[trigger] v[a] == ds[idx[a]]),
{
    lemma_online_at(ds, idx);
    let on = online(ds);
    assert forall|a: int| 0 <= a < idx.len() implies #[trigger] on[a] == ds[idx[a]] by {}
}

/// A device asked for by its serial number is the first of the list that has it: it
/// is taken where it is ready, and where it is not that is told.
pub proof fn law_first_with_the_serial_is_taken(ds: Seq<DeviceInfo>, serial: Seq<char>, i: int)
    requires
        0 <= i <= ds.len(),
        forall|k: int| 0 <= k < i ==> (#[trigger] ds[k]).serial != serial,
        i < ds.len() ==> ds[i].serial == serial,
    ensures
        i == ds.len() ==> resolution(ds, Some(serial)) == Resolution::NotFound(serial),
        i < ds.len() && ds[i].state == "device"@ ==> resolution(ds, Some(serial))
            == Resolution::One(ds[i]),
        i < ds.len() && ds[i].state != "device"@ ==> resolution(ds, Some(serial))
            == Resolution::Unusable(ds[i]),
{
    lemma_with_serial(ds, serial, i);
}

/// Whether a word gives a value for a key.
pub open spec fn gives(word: Seq<char>, key: Seq<char>, v: Seq<char>) -> bool {
    word == key + seq![':'] + v
}

/// An attribute has the value that the last word gives it which stands behind the
/// first two, and none where no such word gives it one.
pub proof fn law_last_word_gives_the_attribute(
    ws: Seq<Seq<char>>,
    key: Seq<char>,
    i: int,
    v: Seq<char>,
)
    requires
        forall|k: int| 0 <= k < key.len() ==> #[trigger] key[k] != ':',
        2 <= i,
        i < ws.len() ==> gives(ws[i], key, v),
        forall|j: int, x: Seq<char>| i < j < ws.len() ==> !#[trigger] gives(ws[j], key, x),
        i >= ws.len() ==> forall|j: int, x: Seq<char>|
            2 <= j < ws.len() ==> !#[trigger] gives(ws[j], key, x),
    ensures
        attribute(ws, key) == if i < ws.len() {
            Some(v)
        } else {
            None
        },
    decreases ws.len(),
{
    if ws.len() > 2 {
        let n = ws.len() - 1;
        let w = ws.last();
        assert(w == ws[n]);
        if i == n {
            law_text_is_split_at_a_character(key, ':', v);
        } else {
            if let Some((k, x)) = split_first(w, ':') {
                if k == key {
                    lemma_split_first(w, ':');
                    assert(gives(ws[n], key, x));
                }
            }
            let front = ws.drop_last();
            if i < n {
                assert(front[i] == ws[i]);
            }
            assert forall|j: int, x: Seq<char>| i < j < front.len() implies !#[trigger] gives(
                front[j],
                key,
                x,
            ) by {
                assert(!gives(ws[j], key, x));
            }
            if i >= front.len() {
                assert forall|j: int, x: Seq<char>| 2 <= j < front.len() implies !#[trigger] gives(
                    front[j],
                    key,
                    x,
                ) by {
                    assert(!gives(ws[j], key, x));
                }
            }
            law_last_word_gives_the_attribute(front, key, i, v);
        }
    }
}

proof fn lemma_split_first(s: Seq<char>, d: char)
    ensures
        split_first(s, d) matches Some((a, b)) ==> s == a + seq![d] + b,
{
    let e = run_end(s, other_than(d), 0);
    lemma_run_bounds(s, other_than(d), 0);
    if e < s.len() {
        assert(s =~= s.take(e) + seq![d] + s.skip(e + 1));
    }
}

/// A device is listed by a line of two words or more: a serial number, a state, and
/// words that give the model, the product, the USB port and the transport. White
/// space around it does not matter, and the title of the list is no device.
pub proof fn law_line_lists_a_device(a: Seq<char>, t: Seq<char>, b: Seq<char>)
    requires
        forall|i: int| 0 <= i < a.len() ==> is_white(#[trigger] a[i]),
        forall|i: int| 0 <= i < b.len() ==> is_white(#[trigger] b[i]),
        t.len() > 0 ==> !is_white(t[0]) && !is_white(t.last()),
    ensures
        listed(a + t + b) is Some == (words_of(t).len() >= 2 && !exists|x: Seq<char>|
            t == #[trigger] ("List of devices"@ + x)),
        listed(a + t + b) matches Some(d) ==> {
            &&& d.serial == words_of(t)[0]
            &&& d.state == words_of(t)[1]
            &&& d.model == attribute(words_of(t), "model"@)
            &&& d.product == attribute(words_of(t), "product"@)
            &&& d.usb == attribute(words_of(t), "usb"@)
            &&& d.transport_id == attribute(words_of(t), "transport_id"@)
        },
{
    law_trim_takes_white_space_away(a, t, b);
    law_start_and_end_of_a_text(t, "List of devices"@);
    if t.len() == 0 {
        law_text_without_white_space_is_a_word(t);
    }
}

/// The devices of a list are those of its first lines and then those of the others,
/// one for each line that lists one.
pub proof fn law_devices_are_listed_line_by_line(a: Seq<Seq<char>>, b: Seq<Seq<char>>, l: Seq<char>)
    ensures
        listed_all(a + b) == listed_all(a) + listed_all(b),
        listed_all(seq![l]) == match listed(l) {
            Some(d) => seq![d],
            None => Seq::empty(),
        },
    decreases b.len(),
{
    let one = seq![l];
    assert(one.drop_last() =~= Seq::<Seq<char>>::empty());
    assert(one.last() == l);
    assert(listed_all(one.drop_last()) =~= Seq::<DeviceInfo>::empty());
    assert(listed_all(one) =~= match listed(l) {
        Some(d) => seq![d],
        None => Seq::empty(),
    });
    if b.len() == 0 {
        assert(a + b =~= a);
        assert(listed_all(a) + listed_all(b) =~= listed_all(a));
    } else {
        assert((a + b).drop_last() =~= a + b.drop_last());
        assert((a + b).last() == b.last());
        law_devices_are_listed_line_by_line(a, b.drop_last(), l);
        assert(listed_all(a + b) =~= listed_all(a) + listed_all(b));
    }
}

/// A serial number that ends in a colon and a port is that of a device on the network;
/// every other device is on a USB port where it has one.
pub proof fn law_connection_is_told_by_the_serial(d: DeviceInfo, host: Seq<char>, port: Seq<char>)
    requires
        port.len() > 0,
        forall|i: int| 0 <= i < port.len() ==> '0' <= #[trigger] port[i] <= '9',
    ensures
        d.serial == host + seq![':'] + port ==> connection_text(d) == seq!['T', 'C', 'P', ':'] + port,
        (forall|i: int| 0 <= i < d.serial.len() ==> #[trigger] d.serial[i] != ':') && d.usb is Some
            ==> connection_text(d) == seq!['U', 'S', 'B'],
        d.serial == host + seq![':', 'x'] && d.usb is Some ==> connection_text(d) == seq!['U', 'S', 'B'],
        (forall|i: int| 0 <= i < d.serial.len() ==> #[trigger] d.serial[i] != ':') && d.usb is None
            ==> connection_text(d) == "未知"@,
{
    reveal_strlit("TCP:");
    reveal_strlit("USB");
    assert("TCP:"@ =~= seq!['T', 'C', 'P', ':']);
    assert("USB"@ =~= seq!['U', 'S', 'B']);
    assert forall|i: int| 0 <= i < port.len() implies #[trigger] port[i] != ':' && is_digit(port[i]) by {
        assert('0' <= port[i] <= '9');
    }
    law_text_is_split_at_a_character(host, ':', port);
    let x = seq!['x'];
    law_text_is_split_at_a_character(host, ':', x);
    assert(host + seq![':'] + x =~= host + seq![':', 'x']);
    assert(!is_digit(x[0]));
    law_text_is_split_at_a_character(d.serial, ':', x);
}

/// A model that is known is shown as it is.
pub proof fn law_known_model_is_shown(d: DeviceInfo, m: Seq<char>)
    ensures
        d.model == Some(m) ==> model_text(d) == m,
        d.model is None ==> model_text(d) == "<unknown>"@,
{
}

/// The list that is shown has an entry for each device, with the number that chooses
/// it, its serial number, its model and its connection.
#[verifier::spinoff_prover]
#[verifier::rlimit(50)]
pub proof fn law_prompt_shows_every_device(ds: Seq<DeviceInfo>, i: int)
    requires
        0 <= i < ds.len(),
    ensures
        contains_text(
            prompt_text(ds),
            "["@ + dec((i + 1) as nat) + "] "@ + ds[i].serial + " ("@ + model_text(ds[i]) + ") "@
                + connection_text(ds[i]) + "\n"@,
        ),
        ends_with_text(prompt_text(ds), "(1-"@ + dec(ds.len()) + "): "@),
{
    let all = prompt_text(ds);
    let e = entries_text(ds);
    let entry = entry_text(i as nat, ds[i]);
    let part = "["@ + dec((i + 1) as nat) + "] "@ + ds[i].serial + " ("@ + model_text(ds[i]) + ") "@
        + connection_text(ds[i]) + "\n"@;
    let head = "检测到多台在线设备，请选择目标：\n"@;
    let tail = "输入序号 (1-"@ + dec(ds.len()) + "): "@;
    lemma_entries(ds, i);
    assert(contains_text(entry, part)) by {
        reveal_strlit("  [");
        reveal_strlit("[");
        let two = seq![' ', ' '];
        assert("  ["@ =~= two + "["@);
        lemma_entry_part(
            two,
            "["@,
            dec((i + 1) as nat),
            "] "@,
            ds[i].serial,
            " ("@,
            model_text(ds[i]),
            ") "@,
            connection_text(ds[i]),
            "\n"@,
        );
    }
    lemma_contains_trans(e, entry, part);
    assert(contains_text(all, e)) by {
        assert(all =~= head + e + tail);
        lemma_contains_between(head, e, tail);
    }
    lemma_contains_trans(all, e, part);
    let end = "(1-"@ + dec(ds.len()) + "): "@;
    assert(ends_with_text(all, end)) by {
        reveal_strlit("输入序号 (1-");
        reveal_strlit("(1-");
        let w = "输入序号 (1-"@;
        assert(w =~= w.take(5) + "(1-"@);
        assert(all =~= (head + e + w.take(5)) + end);
        lemma_first_and_last_part(head + e + w.take(5), end);
    }
}

proof fn lemma_entry_part(
    z: Seq<char>,
    a: Seq<char>,
    b: Seq<char>,
    c: Seq<char>,
    d: Seq<char>,
    e: Seq<char>,
    f: Seq<char>,
    g: Seq<char>,
    h: Seq<char>,
    k: Seq<char>,
)
    ensures
        contains_text(
            (z + a) + b + c + d + e + f + g + h + k,
            a + b + c + d + e + f + g + h + k,
        ),
{
    let s = (z + a) + b + c + d + e + f + g + h + k;
    let p = a + b + c + d + e + f + g + h + k;
    assert(s =~= z + p);
    assert(z + p + Seq::<char>::empty() =~= z + p);
    lemma_contains_between(z, p, Seq::empty());
}

proof fn lemma_entries(ds: Seq<DeviceInfo>, i: int)
    requires
        0 <= i < ds.len(),
    ensures
        contains_text(entries_text(ds), entry_text(i as nat, ds[i])),
    decreases ds.len(),
{
    let front = ds.drop_last();
    let a = entries_text(front);
    let b = entry_text((ds.len() - 1) as nat, ds.last());
    let s = entries_text(ds);
    let entry = entry_text(i as nat, ds[i]);
    if i == ds.len() - 1 {
        assert(s =~= a + entry + Seq::<char>::empty());
    } else {
        lemma_entries(front, i);
        assert(front[i] == ds[i]);
        law_contains_is_in_between(a, entry);
        let (x, y) = choose|x: Seq<char>, y: Seq<char>| a == #[trigger] (x + entry + y);
        assert(s =~= x + entry + (y + b));
    }
    law_contains_is_in_between(s, entry);
}

/// What is said where no device can be taken names the serial number asked for, or
/// the device and its state.
pub proof fn law_error_names_the_device(e: SelectError)
    ensures
        e matches SelectError::NotFound(s) ==> contains_text(select_error_text(e), " "@ + s@ + " "@),
        e matches SelectError::Unusable(d) ==> contains_text(
            select_error_text(e),
            " "@ + d.serial@ + " 当前状态为 "@ + d.state@ + "，"@,
        ),
{
    let all = select_error_text(e);
    reveal_strlit(" ");
    if let SelectError::NotFound(s) = e {
        reveal_strlit("未找到序列号为 ");
        reveal_strlit(" 的设备");
        let a = "未找到序列号为 "@;
        let b = " 的设备"@;
        assert(all =~= a.drop_last() + (" "@ + s@ + " "@) + b.skip(1));
        law_contains_is_in_between(all, " "@ + s@ + " "@);
    }
    if let SelectError::Unusable(d) = e {
        reveal_strlit("设备 ");
        reveal_strlit("，无法操作（需在设备端授权，使其显示为 device）");
        reveal_strlit("，");
        let a = "设备 "@;
        let b = "，无法操作（需在设备端授权，使其显示为 device）"@;
        let part = " "@ + d.serial@ + " 当前状态为 "@ + d.state@ + "，"@;
        assert(all =~= a.drop_last() + part + b.skip(1));
        law_contains_is_in_between(all, part);
    }
}

/// What is known of a list of devices, or of a field, is what each of them holds.
pub proof fn law_views_keep_what_they_show(v: Seq<Device>, i: int, s: Option<String>, t: Option<&str>)
    ensures
        infos(v).len() == v.len(),
        0 <= i < v.len() ==> infos(v)[i].serial == v[i].serial@ && infos(v)[i].state == v[i].state@
            && infos(v)[i].model == opt_text(v[i].model) && infos(v)[i].product == opt_text(
            v[i].product,
        ) && infos(v)[i].usb == opt_text(v[i].usb) && infos(v)[i].transport_id == opt_text(
            v[i].transport_id,
        ),
        s is None ==> opt_text(s) is None,
        s matches Some(x) ==> opt_text(s) == Some(x@),
        t is None ==> opt_str(t) is None,
        t matches Some(x) ==> opt_str(t) == Some(x@),
{
}


/// What is handed out is what the choice came to.
pub proof fn law_outcome_is_handed_out(d: Device, v: Vec<Device>, s: String)
    ensures
        selected(Ok(Pick::Device(d))) == Resolution::One(d@),
        selected(Ok(Pick::Prompt(v))) == Resolution::Choose(infos(v@)),
        selected(Err(SelectError::NoneOnline)) is NoneOnline,
        selected(Err(SelectError::NotFound(s))) == Resolution::NotFound(s@),
        selected(Err(SelectError::Unusable(d))) == Resolution::Unusable(d@),
        Selection::One(d)@ == Resolution::One(d@),
        Selection::Choose(v)@ == Resolution::Choose(infos(v@)),
        Selection::NoneOnline@ is NoneOnline,
        Selection::NotFound(s)@ == Resolution::NotFound(s@),
        Selection::Unusable(d)@ == Resolution::Unusable(d@),
{
}

/// The port of a device on the network is what stands behind the last colon of its serial
/// number; a serial number without one, or with other characters there, has none.
pub proof fn law_port_is_behind_the_last_colon(serial: Seq<char>, host: Seq<char>, port: Seq<char>)
    requires
        forall|i: int| 0 <= i < port.len() ==> #[trigger] port[i] != ':',
    ensures
        serial == host + seq![':'] + port && port.len() > 0 && (forall|i: int|
            0 <= i < port.len() ==> '0' <= #[trigger] port[i] <= '9') ==> tcp_port(serial) == Some(
            port,
        ),
        serial == host + seq![':'] + port && (port.len() == 0 || exists|i: int|
            0 <= i < port.len() && !('0' <= #[trigger] port[i] <= '9')) ==> tcp_port(serial) is None,
        (forall|i: int| 0 <= i < serial.len() ==> #[trigger] serial[i] != ':') ==> tcp_port(
            serial,
        ) is None,
{
    law_text_is_split_at_a_character(host, ':', port);
    law_text_is_split_at_a_character(serial, ':', port);
    if forall|i: int| 0 <= i < port.len() ==> '0' <= #[trigger] port[i] <= '9' {
        assert forall|i: int| 0 <= i < port.len() implies is_digit(#[trigger] port[i]) by {
            assert('0' <= port[i] <= '9');
        }
    }
    if exists|i: int| 0 <= i < port.len() && !('0' <= #[trigger] port[i] <= '9') {
        let i = choose|i: int| 0 <= i < port.len() && !('0' <= #[trigger] port[i] <= '9');
        assert(!is_digit(port[i]));
    }
}

/// [`resolve`] offers every device that is ready, each where it stands in the list: with two
/// of them or more the user can pick any, and with one that one is taken.
pub proof fn law_resolve_reckons_with_every_ready_device(
    devices: Vec<Device>,
    r: Selection,
    idx: Seq<int>,
)
    requires
        call_ensures(resolve, (devices, None::<&str>), r),
        forall|a: int, b: int| 0 <= a < b < idx.len() ==> idx[a] < idx[b],
        forall|a: int|
            0 <= a < idx.len() ==> 0 <= #[trigger] idx[a] < devices@.len() && devices@[idx[a]].state@
                == "device"@,
        forall|j: int|
            0 <= j < devices@.len() && (#[trigger] devices@[j]).state@ == "device"@ ==> idx.contains(j),
    ensures
        idx.len() > 1 ==> (r matches Selection::Choose(v) && v@.len() == idx.len() && forall|a: int|
            0 <= a < idx.len() ==> (#[trigger] v@[a])@ == devices@[idx[a]]@),
        idx.len() == 1 ==> (r matches Selection::One(d) && d@ == devices@[idx[0]]@),
        idx.len() == 0 && devices@.len() == 1 ==> (r matches Selection::Unusable(d) && d@
            == devices@[0]@),
        idx.len() == 0 && devices@.len() != 1 ==> r is NoneOnline,
{
    let ds = infos(devices@);
    assert forall|a: int| 0 <= a < idx.len() implies 0 <= #[trigger] idx[a] < ds.len()
        && ds[idx[a]].state == "device"@ by {
        assert(devices@[idx[a]].state@ == "device"@);
    }
    assert forall|j: int| 0 <= j < ds.len() && (#[trigger] ds[j]).state == "device"@ implies idx.contains(
        j,
    ) by {
        assert(devices@[j].state@ == "device"@);
    }
    law_every_ready_device_is_offered(ds, idx);
    if idx.len() > 1 {
        let v = r->Choose_0;
        let on = resolution(ds, None)->Choose_0;
        assert forall|a: int| 0 <= a < idx.len() implies (#[trigger] v@[a])@ == devices@[idx[a]]@ by {
            assert(on[a] == ds[idx[a]]);
            assert(infos(v@)[a] == v@[a]@);
        }
    }
}

} // verus!
