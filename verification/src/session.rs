//! Where the files of a device lie, and the guard that lets one process at a time
//! collect its log.

use vstd::prelude::*;
use vstd::string::*;
use crate::clock::{
    follows_earlier, four_digit_year, is_stamp, time_text, LocalTime, FILE_STAMP, ISO_TIME,
};
use crate::device::opt_str;
use crate::names::{comes_before, lemma_order_before, lemma_order_behind};
use crate::number::{
    dec, is_digit, law_only_digits_are_read, law_unsigned_roundtrip, lemma_dec, parse_u32,
    parse_unsigned, push_dec,
};
use crate::text::{
    chars_of, is_white, law_trim_takes_white_space_away, lemma_run_end, trim, trim_end_text,
    trim_text, white,
};

verus! {

/// The files of one session, and when it started.
pub struct Session {
    pub log_path: String,
    pub events_path: String,
    pub heartbeat_path: String,
    pub pid_path: String,
    pub readme_path: String,
    /// The local time of the start.
    pub started_local: String,
}

/// Whether a character can stand in the name of a directory.
pub open spec fn is_safe(c: char) -> bool {
    ||| 'a' <= c <= 'z'
    ||| 'A' <= c <= 'Z'
    ||| '0' <= c <= '9'
    ||| c == '.'
    ||| c == '-'
    ||| c == '_'
}

/// A text with an underscore in place of each character that cannot stand in the
/// name of a directory.
pub open spec fn sanitized(s: Seq<char>) -> Seq<char> {
    s.map_values(
        |c: char|
            if is_safe(c) {
                c
            } else {
                '_'
            },
    )
}

/// The name of the directory of a device.
pub fn sanitize(serial: &str) -> (r: String)
    ensures
        r@ == sanitized(serial@),
{
    let cs = chars_of(serial);
    let mut out = String::new();
    let mut i: usize = 0;
    while i < cs.len()
        invariant
            cs@ == serial@,
            i <= cs@.len(),
            out@ == sanitized(serial@).take(i as int),
        decreases cs@.len() - i,
    {
        let c: char = cs[i];
        let safe = ('a' <= c && c <= 'z') || ('A' <= c && c <= 'Z') || ('0' <= c && c <= '9') || c
            == '.' || c == '-' || c == '_';
        let ghost before = out@;
        if safe {
            out.push(c);
        } else {
            out.push('_');
        }
        assert(sanitized(serial@).take(i + 1) =~= before.push(sanitized(serial@)[i as int]));
        i += 1;
    }
    assert(sanitized(serial@).take(i as int) =~= sanitized(serial@));
    out
}

/// The name of a directory has as many characters as the serial number, each of
/// them one that can stand in such a name, and a serial number that is such a name
/// is its own.
pub proof fn law_sanitized_is_safe(s: Seq<char>)
    ensures
        sanitized(s).len() == s.len(),
        forall|i: int| 0 <= i < s.len() ==> is_safe(#[trigger] sanitized(s)[i]),
        (forall|i: int| 0 <= i < s.len() ==> is_safe(#[trigger] s[i])) ==> sanitized(s) == s,
        sanitized(sanitized(s)) == sanitized(s),
{
    assert(sanitized(sanitized(s)) =~= sanitized(s));
    if forall|i: int| 0 <= i < s.len() ==> is_safe(#[trigger] s[i]) {
        assert(sanitized(s) =~= s);
    }
}

/// A path and a name below it.
pub open spec fn below(dir: Seq<char>, name: Seq<char>) -> Seq<char> {
    if dir.len() == 0 {
        name
    } else if dir.last() == '/' {
        dir + name
    } else {
        dir + "/"@ + name
    }
}

/// A path and a name below it.
pub fn file_path(dir: &str, name: &str) -> (r: String)
    ensures
        r@ == below(dir@, name@),
{
    let cs = chars_of(dir);
    let mut out = dir.to_string();
    if cs.len() == 0 {
        assert(out@ + name@ =~= name@);
    } else if cs[cs.len() - 1] != '/' {
        out.append("/");
    }
    out.append(name);
    out
}

/// The home directory is not known, so there is no place for files.
#[derive(Debug, Clone, Copy, PartialEq, Eq, Structural)]
pub struct NoHome;

impl NoHome {
    pub fn message(self) -> (r: &'static str)
        ensures
            r@ == "无法确定 HOME 环境变量，无法定位输出目录"@,
    {
        "无法确定 HOME 环境变量，无法定位输出目录"
    }
}

/// The directory of the program in a home directory.
pub open spec fn config_text(home: Seq<char>) -> Seq<char> {
    below(below(home, ".config"@), "jj-android-device"@)
}

/// The directory of the program.
pub fn config_root(home: Option<&str>) -> (r: Result<String, NoHome>)
    ensures
        r is Ok == home is Some,
        r matches Ok(p) ==> p@ == config_text(home->0@),
{
    match home {
        Some(h) => {
            let config = file_path(h, ".config");
            Ok(file_path(config.as_str(), "jj-android-device"))
        },
        None => Err(NoHome),
    }
}

/// The directory that the logs of all devices lie in.
pub fn default_root(home: Option<&str>) -> (r: Result<String, NoHome>)
    ensures
        r is Ok == home is Some,
        r matches Ok(p) ==> p@ == below(config_text(home->0@), "logs"@),
{
    match config_root(home) {
        Ok(root) => Ok(file_path(root.as_str(), "logs")),
        Err(e) => Err(e),
    }
}

/// The directory that the pictures of a device lie in.
pub fn screenshot_dir(home: Option<&str>, serial: &str) -> (r: Result<String, NoHome>)
    ensures
        r is Ok == home is Some,
        r matches Ok(p) ==> p@ == below(
            below(config_text(home->0@), "screenshots"@),
            sanitized(serial@),
        ),
{
    match config_root(home) {
        Ok(root) => {
            let dir = file_path(root.as_str(), "screenshots");
            Ok(file_path(dir.as_str(), sanitize(serial).as_str()))
        },
        Err(e) => Err(e),
    }
}

/// The directory that the network logs of a device lie in.
pub fn netwatch_dir(home: Option<&str>, serial: &str) -> (r: Result<String, NoHome>)
    ensures
        r is Ok == home is Some,
        r matches Ok(p) ==> p@ == below(
            below(config_text(home->0@), "netwatch"@),
            sanitized(serial@),
        ),
{
    match config_root(home) {
        Ok(root) => {
            let dir = file_path(root.as_str(), "netwatch");
            Ok(file_path(dir.as_str(), sanitize(serial).as_str()))
        },
        Err(e) => Err(e),
    }
}

/// The directory of a device below a root.
pub fn session_dir(root: &str, serial: &str) -> (r: String)
    ensures
        r@ == below(root@, sanitized(serial@)),
{
    file_path(root, sanitize(serial).as_str())
}

/// The name of the log of a session that started at a time.
pub open spec fn log_name(stamp: Seq<char>) -> Seq<char> {
    "session-"@ + stamp + ".log"@
}

/// The name of the event log of a session that started at a time.
pub open spec fn events_name(stamp: Seq<char>) -> Seq<char> {
    "session-"@ + stamp + ".events.log"@
}

/// Whether the log of a session that starts at `ms` comes, in the order of names,
/// after that of every session that started before at the same offset, or bears the
/// same name; the names are made of stamps.
pub open spec fn log_follows_earlier(ms: int, offset: int) -> bool {
    forall|e: int|
        e <= ms && four_digit_year(e, offset) ==> is_stamp(
            #[trigger] time_text(e, offset, FILE_STAMP@),
        ) && !comes_before(
            log_name(time_text(ms, offset, FILE_STAMP@)),
            log_name(time_text(e, offset, FILE_STAMP@)),
        )
}

proof fn lemma_log_follows_earlier(ms: int, offset: int)
    requires
        four_digit_year(ms, offset),
        follows_earlier(time_text(ms, offset, FILE_STAMP@), ms, offset),
    ensures
        log_follows_earlier(ms, offset),
{
    let a = time_text(ms, offset, FILE_STAMP@);
    assert(is_stamp(a));
    assert forall|e: int| e <= ms && four_digit_year(e, offset) implies is_stamp(
        #[trigger] time_text(e, offset, FILE_STAMP@),
    ) && !comes_before(log_name(a), log_name(time_text(e, offset, FILE_STAMP@))) by {
        let b = time_text(e, offset, FILE_STAMP@);
        lemma_order_before("session-"@ + a, "session-"@ + b, ".log"@);
        lemma_order_behind("session-"@, a, b);
    }
}

/// The files of a session that starts now.
pub fn setup(root: &str, serial: &str, now: &LocalTime) -> (r: Session)
    ensures
        r.log_path@ == below(below(root@, sanitized(serial@)), log_name(now.text(FILE_STAMP@))),
        r.events_path@ == below(
            below(root@, sanitized(serial@)),
            events_name(now.text(FILE_STAMP@)),
        ),
        r.heartbeat_path@ == below(below(root@, sanitized(serial@)), ".heartbeat"@),
        r.pid_path@ == below(below(root@, sanitized(serial@)), "session.pid"@),
        r.readme_path@ == below(below(root@, sanitized(serial@)), "readme.md"@),
        r.started_local@ == now.text(ISO_TIME@),
        four_digit_year(now.millis(), now.offset()) ==> log_follows_earlier(
            now.millis(),
            now.offset(),
        ),
{
    let dir = session_dir(root, serial);
    let stamp = now.file_stamp();
    proof {
        if four_digit_year(now.millis(), now.offset()) {
            lemma_log_follows_earlier(now.millis(), now.offset());
        }
    }
    let mut log = "session-".to_string();
    log.append(stamp.as_str());
    log.append(".log");
    let mut events = "session-".to_string();
    events.append(stamp.as_str());
    events.append(".events.log");
    Session {
        log_path: file_path(dir.as_str(), log.as_str()),
        events_path: file_path(dir.as_str(), events.as_str()),
        heartbeat_path: file_path(dir.as_str(), ".heartbeat"),
        pid_path: file_path(dir.as_str(), "session.pid"),
        readme_path: file_path(dir.as_str(), "readme.md"),
        started_local: now.iso(),
    }
}

/// The process that a guard file names.
pub open spec fn holder_of(contents: Option<Seq<char>>) -> Option<nat> {
    match contents {
        Some(s) => parse_unsigned(trim_text(s), u32::MAX as nat),
        None => None,
    }
}

/// The process that a guard file names, from what the file holds where it is there.
pub fn read_pid(contents: Option<&str>) -> (r: Option<u32>)
    ensures
        r is Some == (holder_of(opt_str(contents)) is Some),
        r matches Some(n) ==> holder_of(opt_str(contents)) == Some(n as nat),
{
    match contents {
        Some(s) => {
            let cs = chars_of(s);
            parse_u32(trim(&cs))
        },
        None => None,
    }
}

/// What a guard file holds.
pub open spec fn pid_text(pid: u32) -> Seq<char> {
    dec(pid as nat) + "\n"@
}

/// Whether a guard is held by another process: its file names one, and that is
/// `alive`. A file that a process left behind does not count.
pub open spec fn is_held(contents: Option<Seq<char>>, alive: bool) -> bool {
    holder_of(contents) is Some && alive
}

/// What the guard file holds after the process `own` tried to take the guard, where
/// it held `before` and the process that it named, if any, was `alive` or not.
pub open spec fn file_after(before: Option<Seq<char>>, alive: bool, own: u32) -> Option<Seq<char>> {
    if is_held(before, alive) {
        before
    } else {
        Some(pid_text(own))
    }
}

/// The guard that lets one process at a time collect the log of a device.
pub struct PidGuard {
    path: String,
    own: u32,
}

/// Another process collects the log of the device.
#[derive(Debug)]
pub struct Busy {
    pub pid: u32,
    pub path: String,
}

impl Busy {
    pub fn message(&self) -> (r: String)
        ensures
            r@ == "该设备已有采集进程在运行（pid="@ + dec(self.pid as nat)
                + "）；同一设备同一会话仅允许一个进程。\n若确认为残留，删除 "@ + self.path@ + " 后重试"@,
    {
        let mut out = "该设备已有采集进程在运行（pid=".to_string();
        push_dec(&mut out, self.pid as u64);
        out.append("）；同一设备同一会话仅允许一个进程。\n若确认为残留，删除 ");
        out.append(self.path.as_str());
        out.append(" 后重试");
        out
    }
}

impl PidGuard {
    /// The path of the guard file.
    pub closed spec fn guarded(&self) -> Seq<char> {
        self.path@
    }

    /// The process that holds the guard.
    pub closed spec fn holder(&self) -> u32 {
        self.own
    }

    /// The guard of a path for the process `own`, from what its file holds where it
    /// is there, and whether the process that the file names is `alive`.
    pub fn acquire(path: &str, before: Option<&str>, alive: bool, own: u32) -> (r: Result<
        PidGuard,
        Busy,
    >)
        ensures
            r is Err == is_held(opt_str(before), alive),
            r matches Ok(g) ==> g.guarded() == path@ && g.holder() == own && Some(
                pid_text(g.holder()),
            ) == file_after(opt_str(before), alive, own),
            r matches Err(b) ==> holder_of(opt_str(before)) == Some(b.pid as nat) && b.path@
                == path@ && file_after(opt_str(before), alive, own) == opt_str(before),
    {
        if let Some(pid) = read_pid(before) {
            if alive {
                return Err(Busy { pid, path: path.to_string() });
            }
        }
        Ok(PidGuard { path: path.to_string(), own })
    }

    /// The path of the guard file, to be written while the guard is held and
    /// removed after.
    pub fn path(&self) -> (r: &str)
        ensures
            r@ == self.guarded(),
    {
        self.path.as_str()
    }

    /// What the guard file holds while the guard is held.
    pub fn contents(&self) -> (r: String)
        ensures
            r@ == pid_text(self.holder()),
    {
        let mut out = crate::number::dec_text(self.own as u64);
        out.append("\n");
        out
    }
}

/// The process that a guard file was written for is the one that it names, so that
/// the guard is refused while that process is alive.
pub proof fn law_guard_names_its_holder(pid: u32)
    ensures
        holder_of(Some(pid_text(pid))) == Some(pid as nat),
{
    reveal_strlit("\n");
    let d = dec(pid as nat);
    let s = pid_text(pid);
    lemma_dec(pid as nat);
    assert(is_digit(d[0]));
    assert(is_digit(d[d.len() - 1]));
    assert(s[0] == d[0]);
    lemma_run_end(s, white(), 0, 0);
    assert(s.skip(0) =~= s);
    assert(s.drop_last() =~= d);
    assert(trim_end_text(d) == d);
    assert(trim_text(s) == d);
    law_unsigned_roundtrip(pid as nat, u32::MAX as nat);
}

/// The guard lets one process at a time through. Where its file names a living
/// process it is refused, and the file stays as it was. Else it is had, and the file
/// names its holder on a line of its own; another process that tries while the
/// holder lives is refused, and leaves the file as it is. A holder that died, and a
/// file that was removed, stand in nobody's way.
pub proof fn law_guard_lets_one_through(
    before: Option<Seq<char>>,
    alive: bool,
    own: u32,
    other: u32,
)
    ensures
        is_held(before, alive) ==> file_after(before, alive, own) == before,
        !is_held(before, alive) ==> {
            let held = file_after(before, alive, own);
            &&& held == Some(dec(own as nat) + "\n"@)
            &&& holder_of(held) == Some(own as nat)
            &&& is_held(held, true)
            &&& file_after(held, true, other) == held
            &&& !is_held(held, false)
            &&& file_after(held, false, other) == Some(pid_text(other))
        },
        !is_held(None, alive),
{
    law_guard_names_its_holder(own);
}

/// The name of a directory keeps the letters, digits, full stops, hyphens and underscores
/// of a serial number, and has an underscore for every other character.
pub proof fn law_other_characters_become_underscores(s: Seq<char>, i: int, c: char)
    requires
        0 <= i < s.len(),
        s[i] == c,
    ensures
        sanitized(s)[i] == if (0x61 <= c as u32 <= 0x7a) || (0x41 <= c as u32 <= 0x5a) || (0x30
            <= c as u32 <= 0x39) || c == '.' || c == '-' || c == '_' {
            c
        } else {
            '_'
        },
{
}

/// A name stands below a path behind a slash, which is not doubled; below no path it
/// stands alone.
pub proof fn law_name_stands_behind_a_slash(dir: Seq<char>, name: Seq<char>)
    requires
        dir.len() > 0 ==> dir.last() != '/',
    ensures
        dir.len() > 0 ==> below(dir, name) == dir + seq!['/'] + name,
        below(dir + seq!['/'], name) == dir + seq!['/'] + name,
        below(Seq::empty(), name) == name,
{
    reveal_strlit("/");
    assert("/"@ =~= seq!['/']);
}

/// The directory of the program lies in `.config` below the home directory.
pub proof fn law_config_lies_below_home(home: Seq<char>)
    requires
        home.len() > 0,
        home.last() != '/',
    ensures
        config_text(home) == home + "/.config/jj-android-device"@,
{
    reveal_strlit("/.config/jj-android-device");
    reveal_strlit(".config");
    reveal_strlit("jj-android-device");
    law_name_stands_behind_a_slash(home, ".config"@);
    let c = home + seq!['/'] + ".config"@;
    assert(c.last() == 'g');
    law_name_stands_behind_a_slash(c, "jj-android-device"@);
    assert(c + seq!['/'] + "jj-android-device"@ =~= home + "/.config/jj-android-device"@);
}

/// The files of a session are named after its time, between `session-` and an ending
/// that tells the log from the events.
pub proof fn law_files_are_named_after_the_time(stamp: Seq<char>)
    ensures
        log_name(stamp) == seq!['s', 'e', 's', 's', 'i', 'o', 'n', '-'] + stamp + seq![
            '.',
            'l',
            'o',
            'g',
        ],
        events_name(stamp) == seq!['s', 'e', 's', 's', 'i', 'o', 'n', '-'] + stamp + seq![
            '.',
            'e',
            'v',
            'e',
            'n',
            't',
            's',
            '.',
            'l',
            'o',
            'g',
        ],
{
    reveal_strlit("session-");
    reveal_strlit(".log");
    reveal_strlit(".events.log");
    assert("session-"@ =~= seq!['s', 'e', 's', 's', 'i', 'o', 'n', '-']);
    assert(".log"@ =~= seq!['.', 'l', 'o', 'g']);
    assert(".events.log"@ =~= seq!['.', 'e', 'v', 'e', 'n', 't', 's', '.', 'l', 'o', 'g']);
}

/// A guard is held exactly where its file holds the number of a process, with white space
/// around it or without, and that process is alive; a file that holds anything else, and
/// no file, hold nobody off.
pub proof fn law_guard_is_held_by_a_living_process(
    a: Seq<char>,
    s: Seq<char>,
    b: Seq<char>,
    pid: u32,
    alive: bool,
)
    requires
        forall|i: int| 0 <= i < a.len() ==> is_white(#[trigger] a[i]),
        forall|i: int| 0 <= i < b.len() ==> is_white(#[trigger] b[i]),
    ensures
        s == dec(pid as nat) ==> is_held(Some(a + s + b), alive) == alive && holder_of(
            Some(a + s + b),
        ) == Some(pid as nat),
        s.len() == 0 ==> !is_held(Some(a + s + b), alive),
        s.len() > 0 && !is_white(s[0]) && !is_white(s.last()) && (exists|i: int|
            0 <= i < s.len() && !('0' <= #[trigger] s[i] <= '9') && s[i] != '+') ==> !is_held(
            Some(a + s + b),
            alive,
        ),
        !is_held(None, alive),
{
    if s == dec(pid as nat) {
        lemma_dec(pid as nat);
        assert(is_digit(s[0]) && is_digit(s[s.len() - 1]));
        law_trim_takes_white_space_away(a, s, b);
        law_unsigned_roundtrip(pid as nat, u32::MAX as nat);
    }
    if s.len() == 0 {
        law_trim_takes_white_space_away(a, s, b);
    }
    if s.len() > 0 && !is_white(s[0]) && !is_white(s.last()) && (exists|i: int|
        0 <= i < s.len() && !('0' <= #[trigger] s[i] <= '9') && s[i] != '+') {
        let i = choose|i: int| 0 <= i < s.len() && !('0' <= #[trigger] s[i] <= '9') && s[i] != '+';
        law_trim_takes_white_space_away(a, s, b);
        law_only_digits_are_read(s, s, u32::MAX as nat);
        if i > 0 {
            assert(!('0' <= s[i] <= '9'));
        }
    }
}

/// A session's files lie in the directory of its device, each under its own name.
pub proof fn law_files_lie_in_the_directory(root: &str, serial: &str, now: &LocalTime, r: Session)
    requires
        call_ensures(setup, (root, serial, now), r),
        root@.len() > 0,
        root@.last() != '/',
        serial@.len() > 0,
    ensures
        ({
            let dir = root@ + seq!['/'] + sanitized(serial@) + seq!['/'];
            &&& r.log_path@ == dir + log_name(now.text(FILE_STAMP@))
            &&& r.events_path@ == dir + events_name(now.text(FILE_STAMP@))
            &&& r.heartbeat_path@ == dir + ".heartbeat"@
            &&& r.pid_path@ == dir + "session.pid"@
            &&& r.readme_path@ == dir + "readme.md"@
            &&& r.started_local@ == now.text(ISO_TIME@)
        }),
{
    law_name_stands_behind_a_slash(root@, sanitized(serial@));
    let d = root@ + seq!['/'] + sanitized(serial@);
    law_sanitized_is_safe(serial@);
    let last = sanitized(serial@)[serial@.len() - 1];
    assert(is_safe(last));
    assert(d.last() == last);
    law_name_stands_behind_a_slash(d, log_name(now.text(FILE_STAMP@)));
    law_name_stands_behind_a_slash(d, events_name(now.text(FILE_STAMP@)));
    law_name_stands_behind_a_slash(d, ".heartbeat"@);
    law_name_stands_behind_a_slash(d, "session.pid"@);
    law_name_stands_behind_a_slash(d, "readme.md"@);
}

/// A guard is refused exactly where its file names a living process, and names that process
/// then; else it is had for the process that asked.
pub proof fn law_guard_is_refused_to_the_second(
    path: &str,
    before: Option<&str>,
    alive: bool,
    own: u32,
    r: Result<PidGuard, Busy>,
)
    requires
        call_ensures(PidGuard::acquire, (path, before, alive, own), r),
    ensures
        r is Err == (alive && holder_of(opt_str(before)) is Some),
        r matches Ok(g) ==> g.guarded() == path@ && g.holder() == own,
        r matches Err(b) ==> holder_of(opt_str(before)) == Some(b.pid as nat) && b.path@ == path@,
{
}

/// The directories of the program lie below the home directory, and without one there is
/// none.
pub proof fn law_directories_lie_below_home(
    home: Option<&str>,
    serial: &str,
    logs: Result<String, NoHome>,
    shots: Result<String, NoHome>,
    watches: Result<String, NoHome>,
)
    requires
        call_ensures(default_root, (home,), logs),
        call_ensures(screenshot_dir, (home, serial), shots),
        call_ensures(netwatch_dir, (home, serial), watches),
    ensures
        home is None ==> logs is Err && shots is Err && watches is Err,
        home matches Some(h) ==> (logs matches Ok(p) && p@ == config_text(h@) + "/logs"@),
        home matches Some(h) ==> (shots matches Ok(p) && p@ == config_text(h@) + "/screenshots/"@
            + sanitized(serial@)),
        home matches Some(h) ==> (watches matches Ok(p) && p@ == config_text(h@) + "/netwatch/"@
            + sanitized(serial@)),
{
    if let Some(h) = home {
        reveal_strlit("jj-android-device");
        reveal_strlit("/");
        reveal_strlit("logs");
        reveal_strlit("/logs");
        reveal_strlit("screenshots");
        reveal_strlit("/screenshots/");
        reveal_strlit("netwatch");
        reveal_strlit("/netwatch/");
        let c = config_text(h@);
        assert(c.last() == 'e');
        law_name_stands_behind_a_slash(c, "logs"@);
        law_name_stands_behind_a_slash(c, "screenshots"@);
        law_name_stands_behind_a_slash(c, "netwatch"@);
        assert(c + seq!['/'] + "logs"@ =~= c + "/logs"@);
        let s = c + seq!['/'] + "screenshots"@;
        assert(s.last() == 's');
        law_name_stands_behind_a_slash(s, sanitized(serial@));
        assert(s + seq!['/'] =~= c + "/screenshots/"@);
        let w = c + seq!['/'] + "netwatch"@;
        assert(w.last() == 'h');
        law_name_stands_behind_a_slash(w, sanitized(serial@));
        assert(w + seq!['/'] =~= c + "/netwatch/"@);
    }
}

} // verus!
