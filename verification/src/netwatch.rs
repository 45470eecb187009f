//! The watch over the bytes that an application sends and receives, as the system
//! counts them for each user id.

use vstd::prelude::*;
use vstd::slice::slice_subrange;
use vstd::string::*;
use crate::choice::{choose_index, chosen, ChoiceError};
use crate::decimal::digit;
use crate::device::{connection_text, model_text, Device};
use crate::names::{comes_before, lemma_ordered, names_with, ordered, NameTable};
use crate::number::{
    all_digits, dec, digits_u64, digits_value, is_digit_char, law_unsigned_roundtrip, lemma_dec,
    pad_right, parse_digits, parse_u32, parse_unsigned, push_dec, push_padded,
};
use crate::procs::{package_of, parse_package};
use crate::text::{
    chars_of, contains_text, ends_with_text, find, find_text, is_text, is_white, join, joined,
    law_absent_text_is_not_found, law_first_occurrence_is_found, law_last_part_goes_to_the_end,
    law_start_and_end_of_a_text,
    law_text_without_white_space_is_a_word, law_trim_takes_white_space_away,
    law_white_space_separates_words, lemma_contains_between, lemma_contains_find,
    lemma_contains_trans, lemma_find_from, lemma_run_end, lines,
    lines_of, occurs_at, run_end, second_part, split_second, starts_with_text, string_texts, texts,
    trim, trim_text, words, words_of,
};
use crate::util::{bytes_text, duration_text, human_bytes, human_duration, lemma_bytes_text_ends};

verus! {

/// The number whose digits follow the first occurrence of a key, where there are
/// any and the number is one of 64 bits.
pub open spec fn number_after(line: Seq<char>, key: Seq<char>) -> Option<nat> {
    match find_text(line, key) {
        Some(i) => {
            let rest = line.skip(i + key.len());
            parse_digits(rest.take(run_end(rest, digit(), 0)), u64::MAX as nat)
        },
        None => None,
    }
}

/// The number behind a key.
pub fn extract_num(line: &[char], key: &str) -> (r: Option<u64>)
    ensures
        r is Some == (number_after(line@, key@) is Some),
        r matches Some(n) ==> number_after(line@, key@) == Some(n as nat),
{
    match find(line, key) {
        Some(i) => {
            let width: usize = chars_of(key).len();
            let end: usize = line.len();
            assert(i + width <= end);
            let rest = slice_subrange(line, i + width, end);
            let mut j: usize = 0;
            while j < rest.len() && is_digit_char(rest[j])
                invariant
                    j <= rest@.len(),
                    forall|k: int| 0 <= k < j ==> digit()(#[trigger] rest@[k]),
                decreases rest@.len() - j,
            {
                j += 1;
            }
            proof {
                lemma_run_end(rest@, digit(), 0, j as int);
            }
            digits_u64(slice_subrange(rest, 0, j))
        },
        None => None,
    }
}

/// Where the count stands: whether it is inside the section that counts, whether
/// the entry is that of the user id, and the bytes received and sent so far.
pub struct Tally {
    pub inside: bool,
    pub target: bool,
    pub rx: nat,
    pub tx: nat,
}

/// Whether a line is the title of a section: one that does not start with a space
/// or a tab.
pub open spec fn is_title(line: Seq<char>) -> bool {
    line.len() == 0 || line[0] != ' ' && line[0] != '\t'
}

/// A number behind one of two keys, the first of them before the second; zero
/// where there is neither.
pub open spec fn amount_after(line: Seq<char>, key: Seq<char>, other: Seq<char>) -> nat {
    match number_after(line, key) {
        Some(n) => n,
        None => match number_after(line, other) {
            Some(n) => n,
            None => 0,
        },
    }
}

/// The count after one more line. A title says whether its section counts, a line
/// with a user id whose entry it is, and the other lines of an entry hold bytes.
pub open spec fn tallied(t: Tally, line: Seq<char>, uid: u32) -> Tally {
    if is_title(line) {
        Tally { inside: trim_text(line) == "UID stats:"@, target: false, ..t }
    } else if !t.inside {
        t
    } else {
        match number_after(line, "uid="@) {
            Some(u) => Tally { target: u == uid as nat, ..t },
            None => if t.target {
                Tally {
                    rx: t.rx + amount_after(line, "rb="@, "rxBytes="@),
                    tx: t.tx + amount_after(line, "tb="@, "txBytes="@),
                    ..t
                }
            } else {
                t
            },
        }
    }
}

/// The count over some lines.
pub open spec fn tally(ls: Seq<Seq<char>>, uid: u32) -> Tally
    decreases ls.len(),
{
    if ls.len() == 0 {
        Tally { inside: false, target: false, rx: 0, tx: 0 }
    } else {
        tallied(tally(ls.drop_last(), uid), ls.last(), uid)
    }
}

proof fn lemma_tally_grows(ls: Seq<Seq<char>>, uid: u32, i: int)
    requires
        0 <= i <= ls.len(),
    ensures
        tally(ls.take(i), uid).rx <= tally(ls, uid).rx,
        tally(ls.take(i), uid).tx <= tally(ls, uid).tx,
    decreases ls.len() - i,
{
    if i < ls.len() {
        lemma_tally_grows(ls, uid, i + 1);
        assert(ls.take(i + 1).drop_last() == ls.take(i));
    } else {
        assert(ls.take(i) == ls);
    }
}

/// The number behind one of two keys, zero where there is neither.
pub fn extract_amount(line: &[char], key: &str, other: &str) -> (r: u64)
    ensures
        r == amount_after(line@, key@, other@),
{
    match extract_num(line, key) {
        Some(n) => n,
        None => match extract_num(line, other) {
            Some(n) => n,
            None => 0,
        },
    }
}

/// Whether line `n` stands in the section that counts: the last title before it is
/// `UID stats:`.
pub open spec fn in_section(ls: Seq<Seq<char>>, n: int) -> bool {
    exists|t: int| #[trigger] opens_section(ls, t, n)
}

/// Whether `t` is the last title before line `n`, and is `UID stats:`.
pub open spec fn opens_section(ls: Seq<Seq<char>>, t: int, n: int) -> bool {
    &&& 0 <= t < n
    &&& is_title(ls[t])
    &&& trim_text(ls[t]) == "UID stats:"@
    &&& forall|k: int| t < k < n ==> !is_title(#[trigger] ls[k])
}

/// Whether line `n` stands in an entry of a user id: the nearest line before it in
/// its section that holds a user id holds this one.
pub open spec fn in_entry(ls: Seq<Seq<char>>, n: int, uid: u32) -> bool {
    exists|u: int| #[trigger] opens_entry(ls, u, n, uid)
}

/// Whether `u` is the nearest line before line `n` in the section that counts that
/// holds a user id, and holds `uid`.
pub open spec fn opens_entry(ls: Seq<Seq<char>>, u: int, n: int, uid: u32) -> bool {
    &&& 0 <= u < n
    &&& in_section(ls, u)
    &&& !is_title(ls[u])
    &&& number_after(ls[u], "uid="@) == Some(uid as nat)
    &&& forall|k: int|
        u < k < n ==> !is_title(#[trigger] ls[k]) && number_after(ls[k], "uid="@) is None
}

/// Whether the bytes on line `i` are those of a user id: the line is no title, holds
/// no user id itself, and stands in an entry of that user id.
pub open spec fn counts(ls: Seq<Seq<char>>, i: int, uid: u32) -> bool {
    !is_title(ls[i]) && number_after(ls[i], "uid="@) is None && in_entry(ls, i, uid)
}

/// The sum of the amounts behind a key on those of the first `n` lines whose bytes
/// are those of a user id.
pub open spec fn sum_of_amounts(
    ls: Seq<Seq<char>>,
    uid: u32,
    key: Seq<char>,
    other: Seq<char>,
    n: int,
) -> nat
    decreases n,
{
    if n <= 0 {
        0
    } else {
        sum_of_amounts(ls, uid, key, other, n - 1) + if counts(ls, n - 1, uid) {
            amount_after(ls[n - 1], key, other)
        } else {
            0
        }
    }
}

proof fn lemma_in_section(ls: Seq<Seq<char>>, n: int)
    requires
        0 <= n < ls.len(),
    ensures
        in_section(ls, n + 1) == if is_title(ls[n]) {
            trim_text(ls[n]) == "UID stats:"@
        } else {
            in_section(ls, n)
        },
{
    if is_title(ls[n]) {
        if trim_text(ls[n]) == "UID stats:"@ {
            assert(opens_section(ls, n, n + 1));
        }
    } else if in_section(ls, n) {
        let t = choose|t: int| #[trigger] opens_section(ls, t, n);
        assert(opens_section(ls, t, n + 1));
    }
    if in_section(ls, n + 1) {
        let t = choose|t: int| #[trigger] opens_section(ls, t, n + 1);
        if t < n {
            assert(!is_title(ls[n]));
            assert(opens_section(ls, t, n));
        }
    }
}

proof fn lemma_in_entry(ls: Seq<Seq<char>>, n: int, uid: u32)
    requires
        0 <= n < ls.len(),
    ensures
        in_entry(ls, n + 1, uid) == if is_title(ls[n]) {
            false
        } else if number_after(ls[n], "uid="@) is Some {
            in_section(ls, n) && number_after(ls[n], "uid="@) == Some(uid as nat)
        } else {
            in_entry(ls, n, uid)
        },
{
    if in_entry(ls, n + 1, uid) {
        let u = choose|u: int| #[trigger] opens_entry(ls, u, n + 1, uid);
        if u < n {
            assert(!is_title(ls[n]) && number_after(ls[n], "uid="@) is None);
            assert(opens_entry(ls, u, n, uid));
        }
    }
    if !is_title(ls[n]) {
        if number_after(ls[n], "uid="@) is Some {
            if in_section(ls, n) && number_after(ls[n], "uid="@) == Some(uid as nat) {
                assert(opens_entry(ls, n, n + 1, uid));
            }
        } else if in_entry(ls, n, uid) {
            let u = choose|u: int| #[trigger] opens_entry(ls, u, n, uid);
            assert(opens_entry(ls, u, n + 1, uid));
        }
    }
}

/// An entry stands in the section that counts.
proof fn lemma_entry_in_section(ls: Seq<Seq<char>>, n: int, uid: u32)
    requires
        in_entry(ls, n, uid),
    ensures
        in_section(ls, n),
{
    let u = choose|u: int| #[trigger] opens_entry(ls, u, n, uid);
    let t = choose|t: int| #[trigger] opens_section(ls, t, u);
    assert forall|k: int| t < k < n implies !is_title(#[trigger] ls[k]) by {
        if k > u {
            assert(number_after(ls[k], "uid="@) is None);
        }
    }
    assert(opens_section(ls, t, n));
}

proof fn lemma_tally(ls: Seq<Seq<char>>, uid: u32, n: int)
    requires
        0 <= n <= ls.len(),
    ensures
        tally(ls.take(n), uid) == (Tally {
            inside: in_section(ls, n),
            target: in_entry(ls, n, uid),
            rx: sum_of_amounts(ls, uid, "rb="@, "rxBytes="@, n),
            tx: sum_of_amounts(ls, uid, "tb="@, "txBytes="@, n),
        }),
    decreases n,
{
    if n > 0 {
        lemma_tally(ls, uid, n - 1);
        assert(ls.take(n).drop_last() == ls.take(n - 1));
        assert(ls.take(n).last() == ls[n - 1]);
        lemma_in_section(ls, n - 1);
        lemma_in_entry(ls, n - 1, uid);
        if in_entry(ls, n - 1, uid) {
            lemma_entry_in_section(ls, n - 1, uid);
        }
    }
}

/// What is counted for a user id is the sum of the amounts on the lines that are no
/// title, stand under a last title `UID stats:`, hold no user id, and follow, as the
/// nearest user id in that section, the one asked for.
pub proof fn law_counts_are_sums_of_amounts(ls: Seq<Seq<char>>, uid: u32)
    ensures
        tally(ls, uid).rx == sum_of_amounts(ls, uid, "rb="@, "rxBytes="@, ls.len() as int),
        tally(ls, uid).tx == sum_of_amounts(ls, uid, "tb="@, "txBytes="@, ls.len() as int),
{
    lemma_tally(ls, uid, ls.len() as int);
    assert(ls.take(ls.len() as int) == ls);
}

/// The bytes that a user id received and sent, where both sums are numbers of 64 bits.
pub fn sum_uid_bytes(dump: &str, uid: u32) -> (r: Option<(u64, u64)>)
    ensures
        r is Some == (tally(lines_of(dump@), uid).rx <= u64::MAX && tally(lines_of(dump@), uid).tx
            <= u64::MAX),
        r matches Some((rx, tx)) ==> rx == tally(lines_of(dump@), uid).rx && tx == tally(
            lines_of(dump@),
            uid,
        ).tx,
{
    let cs = chars_of(dump);
    let ls = lines(&cs);
    let ghost all = lines_of(dump@);
    let mut inside = false;
    let mut target = false;
    let mut rx: u64 = 0;
    let mut tx: u64 = 0;
    let mut i: usize = 0;
    #[verifier::loop_isolation(false)]
    while i < ls.len()
        invariant
            texts(ls@) == all,
            i <= ls@.len(),
            tally(all.take(i as int), uid) == (Tally {
                inside,
                target,
                rx: rx as nat,
                tx: tx as nat,
            }),
        decreases ls@.len() - i,
    {
        let line = ls[i];
        assert(line@ == texts(ls@)[i as int]);
        assert(all.take(i + 1).drop_last() == all.take(i as int));
        assert(all.take(i + 1).last() == all[i as int]);
        proof {
            lemma_tally_grows(all, uid, i + 1);
        }
        if line.len() == 0 || (line[0] != ' ' && line[0] != '\t') {
            inside = is_text(trim(line), "UID stats:");
            target = false;
        } else if inside {
            match extract_num(line, "uid=") {
                Some(u) => {
                    target = u == uid as u64;
                },
                None => {
                    if target {
                        let more_rx: u64 = extract_amount(line, "rb=", "rxBytes=");
                        let more_tx: u64 = extract_amount(line, "tb=", "txBytes=");
                        if more_rx > u64::MAX - rx || more_tx > u64::MAX - tx {
                            return None;
                        }
                        rx = rx + more_rx;
                        tx = tx + more_tx;
                    }
                },
            }
        }
        i += 1;
    }
    assert(all.take(i as int) == all);
    Some((rx, tx))
}

/// The bytes that a user id received and sent, from what `dumpsys netstats detail`
/// prints.
pub fn parse_uid_bytes(dump: &str, uid: u32) -> (r: (u64, u64))
    requires
        tally(lines_of(dump@), uid).rx <= u64::MAX,
        tally(lines_of(dump@), uid).tx <= u64::MAX,
    ensures
        r.0 == tally(lines_of(dump@), uid).rx,
        r.1 == tally(lines_of(dump@), uid).tx,
{
    sum_uid_bytes(dump, uid).unwrap()
}

/// A section under another title does not count, whatever its lines hold.
pub proof fn law_other_sections_do_not_count(
    before: Seq<Seq<char>>,
    section: Seq<Seq<char>>,
    uid: u32,
)
    requires
        section.len() > 0,
        is_title(section[0]),
        trim_text(section[0]) != "UID stats:"@,
        forall|i: int| 0 < i < section.len() ==> !is_title(#[trigger] section[i]),
    ensures
        tally(before + section, uid).rx == tally(before, uid).rx,
        tally(before + section, uid).tx == tally(before, uid).tx,
        !tally(before + section, uid).inside,
    decreases section.len(),
{
    let all = before + section;
    assert(all.last() == section.last());
    if section.len() == 1 {
        assert(all.drop_last() == before);
    } else {
        let rest = section.drop_last();
        assert(all.drop_last() == before + rest);
        assert forall|i: int| 0 < i < rest.len() implies !is_title(#[trigger] rest[i]) by {
            assert(!is_title(section[i]));
        }
        law_other_sections_do_not_count(before, rest, uid);
        assert(!is_title(section[section.len() - 1]));
    }
}

/// The user id of the connection that a line lists, where the connection is
/// established.
pub open spec fn connected_uid(line: Seq<char>) -> Option<nat> {
    let f = words_of(line);
    if f.len() < 8 || f[3] != "01"@ {
        None
    } else {
        parse_unsigned(f[7], u32::MAX as nat)
    }
}

/// The user ids of the established connections that some lines list.
pub open spec fn connected(ls: Seq<Seq<char>>) -> Set<u32>
    decreases ls.len(),
{
    if ls.len() == 0 {
        Set::empty()
    } else {
        match connected_uid(ls.last()) {
            Some(u) => connected(ls.drop_last()).insert(u as u32),
            None => connected(ls.drop_last()),
        }
    }
}

/// Whether some numbers stand in their order, none of them twice.
pub open spec fn rising(v: Seq<u32>) -> bool {
    forall|i: int, j: int| 0 <= i < j < v.len() ==> v[i] < v[j]
}

/// Puts a number in its place, unless it is there.
fn insert_uid(v: &mut Vec<u32>, u: u32)
    requires
        rising(old(v)@),
    ensures
        rising(final(v)@),
        final(v)@.to_set() == old(v)@.to_set().insert(u),
{
    let ghost a = v@;
    let mut i: usize = 0;
    while i < v.len() && v[i] < u
        invariant
            v@ == a,
            i <= a.len(),
            forall|k: int| 0 <= k < i ==> a[k] < u,
        decreases a.len() - i,
    {
        i += 1;
    }
    if i < v.len() && v[i] == u {
        assert(a[i as int] == u);
        assert(a.to_set().insert(u) =~= a.to_set());
    } else {
        v.insert(i, u);
        proof {
            let b = a.insert(i as int, u);
            assert forall|x: u32| b.to_set().contains(x) == a.to_set().insert(u).contains(x) by {
                if b.to_set().contains(x) {
                    let k = choose|k: int| 0 <= k < b.len() && b[k] == x;
                    if k < i {
                        assert(a[k] == x);
                    } else if k > i {
                        assert(a[k - 1] == x);
                    }
                }
                if a.to_set().contains(x) {
                    let k = choose|k: int| 0 <= k < a.len() && a[k] == x;
                    if k < i {
                        assert(b[k] == x);
                    } else {
                        assert(b[k + 1] == x);
                    }
                }
                assert(b[i as int] == u);
            }
            assert(b.to_set() =~= a.to_set().insert(u));
        }
    }
}

fn parse_connected(line: &[char]) -> (r: Option<u32>)
    ensures
        r is Some == (connected_uid(line@) is Some),
        r matches Some(u) ==> connected_uid(line@) == Some(u as nat),
{
    let f = words(line);
    assert(texts(f@).len() == f@.len());
    if f.len() < 8 {
        return None;
    }
    assert(texts(f@)[3] == f@[3]@ && texts(f@)[7] == f@[7]@);
    if !is_text(f[3], "01") {
        return None;
    }
    parse_u32(f[7])
}

/// The user ids that have an established connection, in their order, from what
/// `/proc/net/tcp` and `/proc/net/tcp6` hold.
pub fn established_uids(raw: &str) -> (r: Vec<u32>)
    ensures
        rising(r@),
        r@.to_set() == connected(lines_of(raw@)),
{
    let cs = chars_of(raw);
    let ls = lines(&cs);
    let ghost all = lines_of(raw@);
    let mut v: Vec<u32> = Vec::new();
    let mut i: usize = 0;
    assert(v@.to_set() =~= connected(all.take(0)));
    while i < ls.len()
        invariant
            texts(ls@) == all,
            i <= ls@.len(),
            rising(v@),
            v@.to_set() == connected(all.take(i as int)),
        decreases ls@.len() - i,
    {
        assert(ls[i as int]@ == texts(ls@)[i as int]);
        assert(all.take(i + 1).drop_last() == all.take(i as int));
        assert(all.take(i + 1).last() == all[i as int]);
        if let Some(u) = parse_connected(ls[i]) {
            insert_uid(&mut v, u);
        }
        i += 1;
    }
    assert(all.take(i as int) == all);
    v
}

/// The user id that a line gives for a package.
pub open spec fn uid_of(line: Seq<char>) -> Option<nat> {
    match second_part(trim_text(line), "uid:"@) {
        Some(rest) => parse_unsigned(trim_text(rest), u32::MAX as nat),
        None => None,
    }
}

/// The packages that some lines list with their user ids. Of two lines for one
/// package the later counts.
pub open spec fn uid_table(ls: Seq<Seq<char>>) -> Map<Seq<char>, u32>
    decreases ls.len(),
{
    if ls.len() == 0 {
        Map::empty()
    } else {
        let before = uid_table(ls.drop_last());
        match (package_of(ls.last()), uid_of(ls.last())) {
            (Some(p), Some(u)) => before.insert(p, u as u32),
            _ => before,
        }
    }
}

fn parse_uid(line: &[char]) -> (r: Option<u32>)
    ensures
        r is Some == (uid_of(line@) is Some),
        r matches Some(u) ==> uid_of(line@) == Some(u as nat),
{
    match split_second(trim(line), "uid:") {
        Some(rest) => parse_u32(trim(rest)),
        None => None,
    }
}

/// The packages that `pm list packages -U` lists, with their user ids.
pub fn parse_pm_uids(raw: &str) -> (r: NameTable)
    ensures
        r@ == uid_table(lines_of(raw@)),
{
    let cs = chars_of(raw);
    let ls = lines(&cs);
    let ghost all = lines_of(raw@);
    let mut m = NameTable::new();
    let mut i: usize = 0;
    while i < ls.len()
        invariant
            texts(ls@) == all,
            i <= ls@.len(),
            m@ == uid_table(all.take(i as int)),
        decreases ls@.len() - i,
    {
        assert(ls[i as int]@ == texts(ls@)[i as int]);
        assert(all.take(i + 1).drop_last() == all.take(i as int));
        assert(all.take(i + 1).last() == all[i as int]);
        if let (Some(p), Some(u)) = (parse_package(ls[i]), parse_uid(ls[i])) {
            m.insert(p, u);
        }
        i += 1;
    }
    assert(all.take(i as int) == all);
    m
}

/// What is watched: a user id, and what it is called.
pub struct Target {
    pub uid: u32,
    pub label: String,
}

/// What a user id is called: the names of its packages, or as many of them as
/// there is room for; without any, the number.
pub open spec fn label_text(names: Seq<Seq<char>>, uid: u32) -> Seq<char> {
    if names.len() == 0 {
        "uid:"@ + dec(uid as nat) + "（系统/无对应应用）"@
    } else if names.len() > 3 {
        joined(names.take(3), ", "@) + ", …(+"@ + dec((names.len() - 3) as nat) + ")"@
    } else {
        joined(names, ", "@)
    }
}

fn label(names: &Vec<String>, uid: u32) -> (r: String)
    ensures
        r@ == label_text(string_texts(names@), uid),
{
    let ghost all = string_texts(names@);
    if names.len() == 0 {
        let mut out = "uid:".to_string();
        push_dec(&mut out, uid as u64);
        out.append("（系统/无对应应用）");
        out
    } else if names.len() > 3 {
        let mut first: Vec<String> = Vec::new();
        first.push(names[0].clone());
        first.push(names[1].clone());
        first.push(names[2].clone());
        assert(string_texts(first@) =~= all.take(3));
        let mut out = join(&first, ", ");
        out.append(", …(+");
        push_dec(&mut out, (names.len() - 3) as u64);
        out.append(")");
        out
    } else {
        join(names, ", ")
    }
}

/// The user ids that have a connection, as they are called.
pub fn targets(uids: &Vec<u32>, table: &NameTable) -> (r: Vec<Target>)
    ensures
        r@.len() == uids@.len(),
        forall|i: int|
            0 <= i < r@.len() ==> (#[trigger] r@[i]).uid == uids@[i] && r@[i].label@ == label_text(
                ordered(names_with(table@, uids@[i])),
                uids@[i],
            ),
{
    let mut out: Vec<Target> = Vec::new();
    let mut i: usize = 0;
    while i < uids.len()
        invariant
            i <= uids@.len(),
            out@.len() == i,
            forall|k: int|
                0 <= k < i ==> (#[trigger] out@[k]).uid == uids@[k] && out@[k].label@ == label_text(
                    ordered(names_with(table@, uids@[k])),
                    uids@[k],
                ),
        decreases uids@.len() - i,
    {
        let uid: u32 = uids[i];
        let names = table.names_of(uid);
        proof {
            lemma_ordered(string_texts(names@), names_with(table@, uid));
        }
        out.push(Target { uid, label: label(&names, uid) });
        i += 1;
    }
    out
}

/// Why there is nothing to watch.
#[derive(Debug, PartialEq, Eq)]
pub enum TargetError {
    /// No application has a connection.
    NoConnection,
    /// No application has the name asked for.
    UnknownPackage(String),
}

/// What is said where there is nothing to watch.
pub open spec fn target_error_text(e: TargetError) -> Seq<char> {
    match e {
        TargetError::NoConnection =>
            "当前没有检测到有网络连接的应用；请直接指定包名：jj-android-device netwatch <包名>"@,
        TargetError::UnknownPackage(p) => "设备上未找到应用包名 "@ + p@
            + "（用 `adb shell pm list packages` 查看可选包名）"@,
    }
}

impl TargetError {
    pub fn message(&self) -> (r: String)
        ensures
            r@ == target_error_text(*self),
    {
        match self {
            TargetError::NoConnection =>
                "当前没有检测到有网络连接的应用；请直接指定包名：jj-android-device netwatch <包名>".to_string(),
            TargetError::UnknownPackage(p) => {
                let mut out = "设备上未找到应用包名 ".to_string();
                out.append(p.as_str());
                out.append("（用 `adb shell pm list packages` 查看可选包名）");
                out
            },
        }
    }
}

/// The application with a name.
pub fn named_target(table: &NameTable, package: &str) -> (r: Result<Target, TargetError>)
    ensures
        match r {
            Ok(t) => table@.dom().contains(package@) && t.uid == table@[package@] && t.label@
                == package@,
            Err(e) => !table@.dom().contains(package@) && (e matches TargetError::UnknownPackage(p)
                && p@ == package@),
        },
{
    match table.get(package) {
        Some(uid) => Ok(Target { uid: *uid, label: package.to_string() }),
        None => Err(TargetError::UnknownPackage(package.to_string())),
    }
}

/// The applications that have a connection, from what the connection tables hold.
pub fn choose_net_active(tcp: &str, table: &NameTable) -> (r: Result<Vec<Target>, TargetError>)
    ensures
        match r {
            Ok(list) => list@.len() > 0 && offered(list@, connected(lines_of(tcp@)), table@),
            Err(e) => e is NoConnection && connected(lines_of(tcp@)) == Set::<u32>::empty(),
        },
{
    let uids = established_uids(tcp);
    let list = targets(&uids, table);
    let ghost ids = Seq::new(list@.len(), |i: int| list@[i].uid);
    assert(ids =~= uids@);
    if list.len() == 0 {
        assert(uids@.to_set() =~= Set::<u32>::empty());
        Err(TargetError::NoConnection)
    } else {
        Ok(list)
    }
}

/// Whether a list offers the user ids of a set: each of them once, in their order,
/// and each under its name.
pub open spec fn offered(
    list: Seq<Target>,
    uids: Set<u32>,
    table: Map<Seq<char>, u32>,
) -> bool {
    let ids = Seq::new(list.len(), |i: int| list[i].uid);
    &&& rising(ids)
    &&& ids.to_set() == uids
    &&& forall|i: int|
        0 <= i < list.len() ==> (#[trigger] list[i]).label@ == label_text(
            ordered(names_with(table, list[i].uid)),
            list[i].uid,
        )
}

/// The entry of the `i`-th application in the list that is shown to the user.
pub open spec fn entry_text(i: nat, t: Target) -> Seq<char> {
    "  ["@ + dec(i + 1) + "] "@ + t.label@ + "  (uid "@ + dec(t.uid as nat) + ")\n"@
}

/// The entries of all applications.
pub open spec fn entries_text(ts: Seq<Target>) -> Seq<char>
    decreases ts.len(),
{
    if ts.len() == 0 {
        Seq::empty()
    } else {
        entries_text(ts.drop_last()) + entry_text((ts.len() - 1) as nat, ts.last())
    }
}

/// The question which of several applications to watch.
pub fn prompt(list: &Vec<Target>) -> (r: String)
    ensures
        r@ == "当前有网络连接的应用（选一个盯它是否收到下发）：\n"@ + entries_text(list@)
            + "输入序号 (1-"@ + dec(list@.len()) + "): "@,
{
    let mut out = "当前有网络连接的应用（选一个盯它是否收到下发）：\n".to_string();
    let ghost head = out@;
    let ghost ts = list@;
    let mut i: usize = 0;
    assert(head + Seq::<char>::empty() == head);
    while i < list.len()
        invariant
            ts == list@,
            i <= list@.len(),
            out@ == head + entries_text(ts.take(i as int)),
        decreases list@.len() - i,
    {
        let t = &list[i];
        assert(ts.take(i + 1).drop_last() == ts.take(i as int));
        assert(ts.take(i + 1).last() == *t);
        let ghost before = out@;
        out.append("  [");
        push_dec(&mut out, i as u64 + 1);
        out.append("] ");
        out.append(t.label.as_str());
        out.append("  (uid ");
        push_dec(&mut out, t.uid as u64);
        out.append(")\n");
        assert(out@ == before + entry_text(i as nat, *t));
        assert(out@ == head + (entries_text(ts.take(i as int)) + entry_text(i as nat, *t)));
        i += 1;
    }
    assert(ts.take(i as int) == ts);
    out.append("输入序号 (1-");
    push_dec(&mut out, list.len() as u64);
    out.append("): ");
    out
}

/// The application that the user's answer picks.
pub fn pick(list: Vec<Target>, answer: &str) -> (r: Result<Target, ChoiceError>)
    ensures
        match r {
            Ok(t) => chosen(answer@, list@.len()) matches Ok(i) && i < list@.len() && t
                == list@[i as int],
            Err(e) => chosen(answer@, list@.len()) == Err::<nat, ChoiceError>(e),
        },
{
    let mut list = list;
    match choose_index(answer, list.len()) {
        Ok(i) => Ok(list.remove(i)),
        Err(e) => Err(e),
    }
}

/// The seconds between two samples.
pub const SAMPLE_INTERVAL_SECS: u64 = 2;

/// The bytes received between two samples from which on they are pointed out, to
/// tell them from the noise of an idle connection.
pub const BURST_HIGHLIGHT_BYTES: u64 = 1024;

/// How far a count has grown; not at all where it was started anew.
pub open spec fn growth(before: nat, now: nat) -> nat {
    if now < before {
        0
    } else {
        (now - before) as nat
    }
}

fn grown(before: u64, now: u64) -> (r: u64)
    ensures
        r == growth(before as nat, now as nat),
{
    if now < before {
        0
    } else {
        now - before
    }
}

/// The counts at the start of a watch and at its last sample.
pub struct WatchState {
    pub base_rx: nat,
    pub base_tx: nat,
    pub last_rx: nat,
    pub last_tx: nat,
}

/// What a sample is shown as: the time, how far each count has grown since the
/// sample before, and a mark where enough was received.
pub open spec fn sample_text(time: Seq<char>, rx: nat, tx: nat) -> Seq<char> {
    time + "  rx +"@ + pad_right(bytes_text(rx), 10, ' ') + " tx +"@ + pad_right(
        bytes_text(tx),
        10,
        ' ',
    ) + if rx >= BURST_HIGHLIGHT_BYTES {
        "   ← 收到数据"@
    } else {
        Seq::empty()
    }
}

/// The name of the file that the lines of a watch are kept in.
pub fn file_name(stamp: &str) -> (r: String)
    ensures
        r@ == "netwatch-"@ + stamp@ + ".log"@,
{
    let mut out = "netwatch-".to_string();
    out.append(stamp);
    out.append(".log");
    out
}

/// A watch over one application.
pub struct Watch {
    base_rx: u64,
    base_tx: u64,
    last_rx: u64,
    last_tx: u64,
}

impl View for Watch {
    type V = WatchState;

    closed spec fn view(&self) -> WatchState {
        WatchState {
            base_rx: self.base_rx as nat,
            base_tx: self.base_tx as nat,
            last_rx: self.last_rx as nat,
            last_tx: self.last_tx as nat,
        }
    }
}

/// The rule below a block of lines.
pub const RULE: &'static str = "───────────────────────────────────────────────────────────\n";

impl Watch {
    /// A watch that starts at some counts.
    pub fn new(rx: u64, tx: u64) -> (r: Watch)
        ensures
            r@ == (WatchState {
                base_rx: rx as nat,
                base_tx: tx as nat,
                last_rx: rx as nat,
                last_tx: tx as nat,
            }),
    {
        Watch { base_rx: rx, base_tx: tx, last_rx: rx, last_tx: tx }
    }

    /// Takes a sample and gives the line that it is shown as.
    pub fn sample(&mut self, time: &str, rx: u64, tx: u64) -> (r: String)
        ensures
            final(self)@ == (WatchState { last_rx: rx as nat, last_tx: tx as nat, ..old(self)@ }),
            r@ == sample_text(
                time@,
                growth(old(self)@.last_rx, rx as nat),
                growth(old(self)@.last_tx, tx as nat),
            ),
    {
        let d_rx: u64 = grown(self.last_rx, rx);
        let d_tx: u64 = grown(self.last_tx, tx);
        self.last_rx = rx;
        self.last_tx = tx;
        let mut out = time.to_string();
        out.append("  rx +");
        push_padded(&mut out, human_bytes(d_rx).as_str(), 10);
        out.append(" tx +");
        push_padded(&mut out, human_bytes(d_tx).as_str(), 10);
        if d_rx >= BURST_HIGHLIGHT_BYTES {
            out.append("   ← 收到数据");
        } else {
            assert(out@ + Seq::<char>::empty() == out@);
        }
        out
    }

    /// The lines that a watch starts with.
    pub fn header(&self, device: &Device, target: &Target, log_path: &str) -> (r: String)
        ensures
            r@ == header_text(self@, device, target, log_path@),
    {
        let mut out =
            "── jj-android-device netwatch ─────────────────────────────\ndevice   serial=".to_string();
        out.append(device.serial.as_str());
        out.append(" model=");
        out.append(device.model_label());
        out.append(" connection=");
        out.append(device.connection_label().as_str());
        out.append("\ntarget   ");
        out.append(target.label.as_str());
        out.append("  (uid ");
        push_dec(&mut out, target.uid as u64);
        out.append(")\n说明     每 ");
        push_dec(&mut out, SAMPLE_INTERVAL_SECS);
        out.append("s 采样「累计收发字节」；rx 单次增量 ≥");
        out.append(human_bytes(BURST_HIGHLIGHT_BYTES).as_str());
        out.append(" 高亮为“收到数据”。Ctrl-C 结束。\nsaved    = ");
        out.append(log_path);
        out.append("\n基线     rx=");
        out.append(human_bytes(self.last_rx).as_str());
        out.append("  tx=");
        out.append(human_bytes(self.last_tx).as_str());
        out.append("\n");
        out.append(RULE);
        out
    }

    /// The lines that a watch of some seconds ends with.
    pub fn footer(&self, secs: u64) -> (r: String)
        ensures
            r@ == footer_text(self@, secs as nat),
    {
        let mut out =
            "\n── 结束 ────────────────────────────────────────────────────\n观测时长 = ".to_string();
        out.append(human_duration(secs).as_str());
        out.append("   期间累计 rx=+");
        out.append(human_bytes(grown(self.base_rx, self.last_rx)).as_str());
        out.append("  tx=+");
        out.append(human_bytes(grown(self.base_tx, self.last_tx)).as_str());
        out.append("\n");
        out.append(RULE);
        out
    }
}

/// The lines that a watch starts with: the device, what is watched, how samples
/// are read, where they are kept, and the counts that it starts at.
pub open spec fn header_text(
    w: WatchState,
    device: &Device,
    target: &Target,
    log_path: Seq<char>,
) -> Seq<char> {
    "── jj-android-device netwatch ─────────────────────────────\ndevice   serial="@
        + device.serial@ + " model="@ + model_text(device@) + " connection="@ + connection_text(
        device@,
    ) + "\ntarget   "@ + target.label@ + "  (uid "@ + dec(target.uid as nat) + ")\n说明     每 "@
        + dec(SAMPLE_INTERVAL_SECS as nat) + "s 采样「累计收发字节」；rx 单次增量 ≥"@ + bytes_text(
        BURST_HIGHLIGHT_BYTES as nat,
    ) + " 高亮为“收到数据”。Ctrl-C 结束。\nsaved    = "@ + log_path + "\n基线     rx="@ + bytes_text(
        w.last_rx,
    ) + "  tx="@ + bytes_text(w.last_tx) + "\n"@ + RULE@
}

/// The lines that a watch ends with: how long it was, and how far each count has
/// grown since its start.
pub open spec fn footer_text(w: WatchState, secs: nat) -> Seq<char> {
    "\n── 结束 ────────────────────────────────────────────────────\n观测时长 = "@ + duration_text(
        secs,
    ) + "   期间累计 rx=+"@ + bytes_text(growth(w.base_rx, w.last_rx)) + "  tx=+"@ + bytes_text(
        growth(w.base_tx, w.last_tx),
    ) + "\n"@ + RULE@
}

/// The growths that the samples of a count show, added up.
pub open spec fn total_growth(start: nat, samples: Seq<nat>) -> nat
    decreases samples.len(),
{
    if samples.len() == 0 {
        0
    } else {
        let before = if samples.len() == 1 {
            start
        } else {
            samples[samples.len() - 2]
        };
        total_growth(start, samples.drop_last()) + growth(before, samples.last())
    }
}

/// A watch tells at its end what its samples told one by one, as long as the
/// count was not started anew in between.
pub proof fn law_total_is_the_sum_of_samples(start: nat, samples: Seq<nat>)
    requires
        samples.len() > 0,
        start <= samples[0],
        forall|i: int, j: int| 0 <= i <= j < samples.len() ==> samples[i] <= samples[j],
    ensures
        total_growth(start, samples) == growth(start, samples.last()),
    decreases samples.len(),
{
    if samples.len() > 1 {
        let front = samples.drop_last();
        assert forall|i: int, j: int| 0 <= i <= j < front.len() implies front[i] <= front[j] by {
            assert(samples[i] <= samples[j]);
        }
        law_total_is_the_sum_of_samples(start, front);
        assert(samples[0] <= samples[samples.len() - 2]);
        assert(samples[samples.len() - 2] <= samples[samples.len() - 1]);
    } else {
        assert(samples.drop_last().len() == 0);
        assert(total_growth(start, samples.drop_last()) == 0);
    }
}

/// A number is read where it stands: behind the first occurrence of its key, up to
/// the first character that is no digit, wherever on the line that is.
pub proof fn law_number_is_read_behind_its_key(
    pre: Seq<char>,
    key: Seq<char>,
    ds: Seq<char>,
    post: Seq<char>,
)
    requires
        forall|x: Seq<char>, y: Seq<char>|
            x.len() < pre.len() ==> pre + key + ds + post != #[trigger] (x + key + y),
        forall|i: int| 0 <= i < ds.len() ==> '0' <= #[trigger] ds[i] <= '9',
        post.len() > 0 ==> !('0' <= post[0] <= '9'),
    ensures
        number_after(pre + key + ds + post, key) == if ds.len() > 0 && digits_value(ds) <= u64::MAX {
            Some(digits_value(ds))
        } else {
            None
        },
{
    let line = pre + key + ds + post;
    assert(line =~= pre + key + (ds + post));
    law_first_occurrence_is_found(pre, key, ds + post);
    let rest = line.skip((pre.len() + key.len()) as int);
    assert(rest =~= ds + post);
    assert forall|k: int| 0 <= k < ds.len() implies digit()(#[trigger] rest[k]) by {
        assert('0' <= ds[k] <= '9');
    }
    if post.len() > 0 {
        assert(rest[ds.len() as int] == post[0]);
    }
    lemma_run_end(rest, digit(), 0, ds.len() as int);
    assert(rest.take(ds.len() as int) =~= ds);
    assert(all_digits(ds)) by {
        assert forall|i: int| 0 <= i < ds.len() implies crate::number::is_digit(#[trigger] ds[i]) by {
            assert('0' <= ds[i] <= '9');
        }
    }
}

/// A line that does not hold a key has no number behind it.
pub proof fn law_no_key_no_number(line: Seq<char>, key: Seq<char>)
    requires
        forall|x: Seq<char>, y: Seq<char>| line != #[trigger] (x + key + y),
    ensures
        number_after(line, key) is None,
{
    law_absent_text_is_not_found(line, key);
}

/// The amount that is written behind a key is the amount that is read, every digit of
/// it and whatever its size; where the key is not on the line, the other key's amount
/// is; where neither is, there is none.
pub proof fn law_amount_is_read_in_full(
    pre: Seq<char>,
    key: Seq<char>,
    other: Seq<char>,
    n: nat,
    post: Seq<char>,
)
    requires
        n <= u64::MAX,
        post.len() > 0 ==> !('0' <= post[0] <= '9'),
    ensures
        (forall|x: Seq<char>, y: Seq<char>|
            x.len() < pre.len() ==> pre + key + dec(n) + post != #[trigger] (x + key + y))
            ==> amount_after(pre + key + dec(n) + post, key, other) == n,
        (forall|x: Seq<char>, y: Seq<char>|
            pre + other + dec(n) + post != #[trigger] (x + key + y)) && (forall|
            x: Seq<char>,
            y: Seq<char>,
        |
            x.len() < pre.len() ==> pre + other + dec(n) + post != #[trigger] (x + other + y))
            ==> amount_after(pre + other + dec(n) + post, key, other) == n,
        (forall|x: Seq<char>, y: Seq<char>| pre != #[trigger] (x + key + y)) && (forall|
            x: Seq<char>,
            y: Seq<char>,
        | pre != #[trigger] (x + other + y)) ==> amount_after(pre, key, other) == 0,
{
    lemma_dec(n);
    let ds = dec(n);
    assert forall|i: int| 0 <= i < ds.len() implies '0' <= #[trigger] ds[i] <= '9' by {
        assert(crate::number::is_digit(ds[i]));
    }
    if forall|x: Seq<char>, y: Seq<char>|
        x.len() < pre.len() ==> pre + key + ds + post != #[trigger] (x + key + y) {
        law_number_is_read_behind_its_key(pre, key, ds, post);
    }
    if (forall|x: Seq<char>, y: Seq<char>| pre + other + ds + post != #[trigger] (x + key + y)) && (
    forall|x: Seq<char>, y: Seq<char>|
        x.len() < pre.len() ==> pre + other + ds + post != #[trigger] (x + other + y)) {
        law_number_is_read_behind_its_key(pre, other, ds, post);
        law_no_key_no_number(pre + other + ds + post, key);
    }
    if (forall|x: Seq<char>, y: Seq<char>| pre != #[trigger] (x + key + y)) && (forall|
        x: Seq<char>,
        y: Seq<char>,
    | pre != #[trigger] (x + other + y)) {
        law_no_key_no_number(pre, key);
        law_no_key_no_number(pre, other);
    }
}

/// A line that starts with a space or a tab, and no other, belongs to the section
/// above it.
pub proof fn law_indented_lines_are_no_titles(c: char, rest: Seq<char>)
    ensures
        is_title(seq![c] + rest) == (c as u32 != 0x20 && c as u32 != 0x09),
        is_title(Seq::empty()),
{
}

/// The bytes of an entry are counted in full: under a title `UID stats:`, and behind a
/// line that gives a user id, each line that gives the bytes received and sent adds
/// what it gives, and the entries of other user ids add nothing.
pub proof fn law_bucket_adds_what_it_gives(
    ls: Seq<Seq<char>>,
    t: int,
    e: int,
    u: nat,
    uid: u32,
    line: Seq<char>,
)
    requires
        0 <= t < e < ls.len(),
        ls[t] == "UID stats:"@,
        forall|k: int| t < k < ls.len() ==> (#[trigger] ls[k]).len() > 0 && ls[k][0] == ' ',
        number_after(ls[e], "uid="@) == Some(u),
        forall|k: int| e < k < ls.len() ==> number_after(#[trigger] ls[k], "uid="@) is None,
        line.len() > 0 && line[0] == ' ',
        number_after(line, "uid="@) is None,
    ensures
        u == uid ==> tally(ls.push(line), uid).rx == tally(ls, uid).rx + amount_after(
            line,
            "rb="@,
            "rxBytes="@,
        ),
        u == uid ==> tally(ls.push(line), uid).tx == tally(ls, uid).tx + amount_after(
            line,
            "tb="@,
            "txBytes="@,
        ),
        u != uid ==> tally(ls.push(line), uid).rx == tally(ls, uid).rx && tally(
            ls.push(line),
            uid,
        ).tx == tally(ls, uid).tx,
{
    assert(ls.push(line).drop_last() =~= ls);
    let n = ls.len() as int;
    lemma_tally(ls, uid, n);
    assert(ls.take(n) =~= ls);
    reveal_strlit("UID stats:");
    let title = "UID stats:"@;
    law_trim_takes_white_space_away(Seq::empty(), title, Seq::empty());
    assert(Seq::<char>::empty() + title + Seq::<char>::empty() =~= title);
    assert(opens_section(ls, t, e));
    assert(opens_section(ls, t, n)) by {
        assert forall|k: int| t < k < n implies !is_title(#[trigger] ls[k]) by {
            assert(ls[k][0] == ' ');
        }
    }
    assert(ls[e][0] == ' ');
    if u == uid {
        assert(opens_entry(ls, e, n, uid)) by {
            assert forall|k: int| e < k < n implies !is_title(#[trigger] ls[k]) && number_after(
                ls[k],
                "uid="@,
            ) is None by {
                assert(ls[k][0] == ' ');
            }
        }
    } else if in_entry(ls, n, uid) {
        let v = choose|v: int| #[trigger] opens_entry(ls, v, n, uid);
        if v < e {
            assert(number_after(ls[e], "uid="@) is None);
        } else if v > e {
            assert(number_after(ls[v], "uid="@) is None);
        }
    }
}

/// The user ids with a connection are those that a line gives which lists an
/// established one, and no others.
pub proof fn law_connected_is_what_the_lines_list(ls: Seq<Seq<char>>, u: u32)
    ensures
        connected(ls).contains(u) == exists|i: int|
            0 <= i < ls.len() && connected_uid(#[trigger] ls[i]) == Some(u as nat),
    decreases ls.len(),
{
    if ls.len() > 0 {
        let front = ls.drop_last();
        law_connected_is_what_the_lines_list(front, u);
        if exists|i: int| 0 <= i < front.len() && connected_uid(#[trigger] front[i]) == Some(
            u as nat,
        ) {
            let i = choose|i: int|
                0 <= i < front.len() && connected_uid(#[trigger] front[i]) == Some(u as nat);
            assert(ls[i] == front[i]);
        }
        if exists|i: int| 0 <= i < ls.len() && connected_uid(#[trigger] ls[i]) == Some(u as nat) {
            let i = choose|i: int|
                0 <= i < ls.len() && connected_uid(#[trigger] ls[i]) == Some(u as nat);
            if i < ls.len() - 1 {
                assert(front[i] == ls[i]);
            }
        }
        if connected_uid(ls.last()) is Some {
            assert(ls[ls.len() - 1] == ls.last());
            assert(connected_uid(ls.last())->0 <= u32::MAX);
        }
    }
}

/// A line lists an established connection where its fourth word is `01`; its eighth
/// word then is the user id.
pub proof fn law_established_connection_is_told(line: Seq<char>, u: u32)
    ensures
        words_of(line).len() >= 8 && words_of(line)[3] == seq!['0', '1'] && words_of(line)[7] == dec(
            u as nat,
        ) ==> connected_uid(line) == Some(u as nat),
        connected_uid(line) is Some ==> words_of(line).len() >= 8 && words_of(line)[3] == seq![
            '0',
            '1',
        ],
{
    reveal_strlit("01");
    assert("01"@ =~= seq!['0', '1']);
    law_unsigned_roundtrip(u as nat, u32::MAX as nat);
}

/// A package and its user id are read from the line that lists them.
#[verifier::spinoff_prover]
#[verifier::rlimit(50)]
pub proof fn law_package_line_is_read(p: Seq<char>, u: u32)
    requires
        p.len() > 0,
        forall|i: int| 0 <= i < p.len() ==> !is_white(#[trigger] p[i]) && p[i] != ':',
    ensures
        package_of("package:"@ + p + " uid:"@ + dec(u as nat)) == Some(p),
        uid_of("package:"@ + p + " uid:"@ + dec(u as nat)) == Some(u as nat),
{
    reveal_strlit("package:");
    reveal_strlit(" uid:");
    reveal_strlit("uid:");
    let ds = dec(u as nat);
    lemma_dec(u as nat);
    let line = "package:"@ + p + " uid:"@ + ds;
    assert forall|i: int| 0 <= i < ds.len() implies !is_white(#[trigger] ds[i]) && ds[i] != ':' && ds[i] != 'u' by {
        assert(crate::number::is_digit(ds[i]));
    }
    let none = Seq::<char>::empty();
    assert(line[0] == 'p');
    assert(line.last() == ds.last());
    assert(none + line + none =~= line);
    law_trim_takes_white_space_away(none, line, none);
    let rest = p + " uid:"@ + ds;
    assert(line =~= "package:"@ + rest);
    law_start_and_end_of_a_text(line, "package:"@);
    let tail = "uid:"@ + ds;
    assert(rest =~= p + seq![' '] + tail);
    law_white_space_separates_words(p, ' ', tail);
    law_text_without_white_space_is_a_word(p);
    assert(words_of(rest)[0] == p);
    let pre = "package:"@ + p + seq![' '];
    assert(line =~= pre + "uid:"@ + ds);
    assert forall|x: Seq<char>, y: Seq<char>|
        x.len() < pre.len() implies pre + "uid:"@ + ds != #[trigger] (x + "uid:"@ + y) by {
        let other = x + "uid:"@ + y;
        if pre + "uid:"@ + ds == other {
            let k = x.len() as int + 3;
            assert(other[k] == ':');
            assert(other[k - 1] == 'd');
            assert(line[k] == ':');
            if k > 7 && k < 8 + p.len() {
                assert(line[k] == p[k - 8]);
            }
        }
    }
    law_first_occurrence_is_found(pre, "uid:"@, ds);
    assert(line.skip(pre.len() as int + 4) =~= ds);
    lemma_contains_find(ds, "uid:"@);
    lemma_find_from(ds, "uid:"@, 0);
    if find_text(ds, "uid:"@) is Some {
        let i = find_text(ds, "uid:"@)->0;
        assert(ds.subrange(i, i + 4)[0] == 'u');
        assert(ds[i] == 'u');
    }
    assert(none + ds + none =~= ds);
    law_trim_takes_white_space_away(none, ds, none);
    law_unsigned_roundtrip(u as nat, u32::MAX as nat);
}

/// The table gives for a package what the last line gives that lists it, and lists no
/// package that no line does.
pub proof fn law_last_line_of_a_package_counts(ls: Seq<Seq<char>>, p: Seq<char>)
    ensures
        uid_table(ls).contains_key(p) ==> exists|i: int|
            0 <= i < ls.len() && #[trigger] gives(ls, i, p, uid_table(ls)[p] as nat) && forall|
                j: int,
                v: nat,
            |
                i < j < ls.len() ==> !#[trigger] gives(ls, j, p, v),
        !uid_table(ls).contains_key(p) ==> forall|i: int, v: nat|
            0 <= i < ls.len() ==> !#[trigger] gives(ls, i, p, v),
    decreases ls.len(),
{
    if ls.len() > 0 {
        let front = ls.drop_last();
        law_last_line_of_a_package_counts(front, p);
        let n = ls.len() - 1;
        assert forall|i: int, v: nat| 0 <= i < n implies #[trigger] gives(ls, i, p, v) == gives(
            front,
            i,
            p,
            v,
        ) by {}
        if package_of(ls.last()) == Some(p) && uid_of(ls.last()) is Some {
            assert(uid_of(ls.last())->0 <= u32::MAX);
            assert(gives(ls, n, p, uid_table(ls)[p] as nat));
        } else {
            assert(uid_table(ls).contains_key(p) == uid_table(front).contains_key(p));
            if uid_table(front).contains_key(p) {
                let i = choose|i: int|
                    0 <= i < front.len() && #[trigger] gives(
                        front,
                        i,
                        p,
                        uid_table(front)[p] as nat,
                    ) && forall|j: int, v: nat|
                        i < j < front.len() ==> !#[trigger] gives(front, j, p, v);
                assert(gives(ls, i, p, uid_table(ls)[p] as nat));
                assert forall|j: int, v: nat| i < j < ls.len() implies !#[trigger] gives(
                    ls,
                    j,
                    p,
                    v,
                ) by {
                    if j < n {
                        assert(!gives(front, j, p, v));
                    }
                }
            } else {
                assert forall|i: int, v: nat| 0 <= i < ls.len() implies !#[trigger] gives(
                    ls,
                    i,
                    p,
                    v,
                ) by {
                    if i < n {
                        assert(!gives(front, i, p, v));
                    }
                }
            }
        }
    }
}

/// Whether line `i` lists a package with a user id.
pub open spec fn gives(ls: Seq<Seq<char>>, i: int, p: Seq<char>, v: nat) -> bool {
    package_of(ls[i]) == Some(p) && uid_of(ls[i]) == Some(v)
}

/// What a user id is called: up to three names are all told, of more the first three
/// and how many more there are; without a name the number is told.
pub proof fn law_label_tells_three_names(names: Seq<Seq<char>>, uid: u32)
    ensures
        names.len() == 0 ==> starts_with_text(label_text(names, uid), "uid:"@ + dec(uid as nat)),
        names.len() == 1 ==> label_text(names, uid) == names[0],
        names.len() == 2 ==> label_text(names, uid) == names[0] + ", "@ + names[1],
        names.len() == 3 ==> label_text(names, uid) == names[0] + ", "@ + names[1] + ", "@
            + names[2],
        names.len() > 3 ==> label_text(names, uid) == names[0] + ", "@ + names[1] + ", "@ + names[2]
            + ", …(+"@ + dec((names.len() - 3) as nat) + ")"@,
{
    let k = if names.len() > 3 {
        3
    } else {
        names.len()
    };
    let t = names.take(k as int);
    if names.len() <= 3 {
        assert(t =~= names);
    }
    reveal_with_fuel(joined, 4);
    if names.len() == 0 {
        let s = label_text(names, uid);
        let pat = "uid:"@ + dec(uid as nat);
        assert(s.subrange(0, pat.len() as int) =~= pat);
    }
    if names.len() >= 2 {
        assert(t.drop_last().last() == names[k - 2]);
    }
    if names.len() >= 3 {
        assert(t.drop_last().drop_last().last() == names[0]);
    }
}

/// A count that went from `n` to `n + d` has grown by `d`; one that fell was started
/// anew and has grown by nothing.
pub proof fn law_growth_is_the_difference(n: nat, d: nat)
    ensures
        growth(n, n + d) == d,
        growth(n + d, n) == 0,
{
}

/// A sample shows the time, what was received and what was sent, and is marked exactly
/// where a kibibyte or more was received.
#[verifier::spinoff_prover]
#[verifier::rlimit(50)]
pub proof fn law_sample_is_marked_from_a_kibibyte(time: Seq<char>, rx: nat, tx: nat)
    ensures
        starts_with_text(sample_text(time, rx, tx), time + "  rx +"@ + bytes_text(rx)),
        contains_text(sample_text(time, rx, tx), " tx +"@ + bytes_text(tx)),
        ends_with_text(sample_text(time, rx, tx), "← 收到数据"@) == (rx >= 1024),
{
    let s = sample_text(time, rx, tx);
    let a = time + "  rx +"@;
    let b = bytes_text(rx);
    let c = pad_right(b, 10, ' ');
    let d = " tx +"@;
    let e = bytes_text(tx);
    let f = pad_right(e, 10, ' ');
    reveal_strlit("   ← 收到数据");
    reveal_strlit("← 收到数据");
    reveal_strlit(" tx +");
    let mark = "   ← 收到数据"@;
    let g = if rx >= BURST_HIGHLIGHT_BYTES {
        mark
    } else {
        Seq::empty()
    };
    assert(s == a + c + d + f + g);
    let pat = a + b;
    assert(c.take(b.len() as int) =~= b);
    assert(s.subrange(0, pat.len() as int) =~= pat);
    let part = d + e;
    let at = (a + c).len() as int;
    assert(f.take(e.len() as int) =~= e);
    assert(s.subrange(at, at + part.len()) =~= part);
    assert(occurs_at(s, part, at));
    let end = "← 收到数据"@;
    let k = s.len() - end.len();
    if rx >= 1024 {
        assert(s.subrange(k, s.len() as int) =~= end);
    } else {
        lemma_bytes_text_ends(tx);
        assert(s.last() == f.last());
        assert(f.last() == ' ' || f.last() == 'B');
        if ends_with_text(s, end) {
            assert(s.subrange(k, k + end.len())[end.len() - 1] == s.last());
        }
    }
}

/// A watch tells at its end how long it was and how far each count has grown since its
/// start.
pub proof fn law_footer_tells_the_growth(w: WatchState, secs: nat, rx: nat, tx: nat)
    requires
        w.last_rx == w.base_rx + rx,
        w.last_tx == w.base_tx + tx,
    ensures
        contains_text(
            footer_text(w, secs),
            " = "@ + duration_text(secs) + "   期间累计 rx=+"@ + bytes_text(rx) + "  tx=+"@ + bytes_text(
                tx,
            ) + "\n"@,
        ),
{
    reveal_strlit("\n── 结束 ────────────────────────────────────────────────────\n观测时长 = ");
    reveal_strlit(" = ");
    let head =
        "\n── 结束 ────────────────────────────────────────────────────\n观测时长 = "@;
    let s = footer_text(w, secs);
    let part = " = "@ + duration_text(secs) + "   期间累计 rx=+"@ + bytes_text(rx) + "  tx=+"@
        + bytes_text(tx) + "\n"@;
    let mid = duration_text(secs) + "   期间累计 rx=+"@ + bytes_text(rx) + "  tx=+"@ + bytes_text(tx)
        + "\n"@;
    assert(s =~= head + mid + RULE@);
    let at = head.len() - 3;
    assert(head.skip(at) =~= " = "@);
    assert(part =~= " = "@ + mid);
    assert(s.subrange(at, at + part.len()) =~= part);
    assert(occurs_at(s, part, at));
}

/// A watch tells at its start the counts that it starts at and what is watched.
pub proof fn law_header_tells_the_counts(
    w: WatchState,
    device: &Device,
    target: &Target,
    log_path: Seq<char>,
)
    ensures
        contains_text(
            header_text(w, device, target, log_path),
            "\ntarget   "@ + target.label@ + "  (uid "@ + dec(target.uid as nat) + ")\n"@,
        ),
        contains_text(
            header_text(w, device, target, log_path),
            log_path + "\n基线     rx="@ + bytes_text(w.last_rx) + "  tx="@ + bytes_text(w.last_tx)
                + "\n"@,
        ),
{
    let s = header_text(w, device, target, log_path);
    let h1 = "── jj-android-device netwatch ─────────────────────────────\ndevice   serial="@
        + device.serial@ + " model="@ + model_text(device@) + " connection="@ + connection_text(
        device@,
    );
    let p1 = "\ntarget   "@ + target.label@ + "  (uid "@ + dec(target.uid as nat);
    let say = ")\n说明     每 "@;
    reveal_strlit(")\n说明     每 ");
    reveal_strlit(")\n");
    assert(say.take(2) =~= ")\n"@);
    let h2 = dec(SAMPLE_INTERVAL_SECS as nat) + "s 采样「累计收发字节」；rx 单次增量 ≥"@ + bytes_text(
        BURST_HIGHLIGHT_BYTES as nat,
    ) + " 高亮为“收到数据”。Ctrl-C 结束。\nsaved    = "@;
    let p2 = log_path + "\n基线     rx="@ + bytes_text(w.last_rx) + "  tx="@ + bytes_text(w.last_tx)
        + "\n"@;
    assert(s =~= h1 + p1 + say + h2 + p2 + RULE@);
    let q1 = "\ntarget   "@ + target.label@ + "  (uid "@ + dec(target.uid as nat) + ")\n"@;
    assert(q1 =~= p1 + say.take(2));
    let a1 = h1.len() as int;
    assert(s.subrange(a1, a1 + q1.len()) =~= q1);
    assert(occurs_at(s, q1, a1));
    let a2 = (h1 + p1 + say + h2).len() as int;
    assert(s.subrange(a2, a2 + p2.len()) =~= p2);
    assert(occurs_at(s, p2, a2));
}

/// The list that is shown has an entry for each application, with the number that chooses
/// it, what it is called and its user id.
pub proof fn law_list_shows_every_application(ts: Seq<Target>, i: int)
    requires
        0 <= i < ts.len(),
    ensures
        contains_text(
            entries_text(ts),
            "  ["@ + dec((i + 1) as nat) + "] "@ + ts[i].label@ + "  (uid "@ + dec(ts[i].uid as nat)
                + ")\n"@,
        ),
    decreases ts.len(),
{
    let front = ts.drop_last();
    let a = entries_text(front);
    let b = entry_text((ts.len() - 1) as nat, ts.last());
    let s = entries_text(ts);
    let entry = entry_text(i as nat, ts[i]);
    let none = Seq::<char>::empty();
    if i == ts.len() - 1 {
        assert(s =~= a + entry + none);
        lemma_contains_between(a, entry, none);
    } else {
        law_list_shows_every_application(front, i);
        assert(front[i] == ts[i]);
        assert(s =~= none + a + b);
        lemma_contains_between(none, a, b);
        lemma_contains_trans(s, a, entry);
    }
}

/// What is said of an application that is not there names it.
pub proof fn law_unknown_application_is_named(e: TargetError)
    ensures
        e matches TargetError::UnknownPackage(p) ==> contains_text(target_error_text(e), " "@ + p@),
{
    if let TargetError::UnknownPackage(p) = e {
        reveal_strlit("设备上未找到应用包名 ");
        reveal_strlit(" ");
        let a = "设备上未找到应用包名 "@;
        let b = "（用 `adb shell pm list packages` 查看可选包名）"@;
        assert(a =~= a.drop_last() + " "@);
        assert(target_error_text(e) =~= a.drop_last() + (" "@ + p@) + b);
        lemma_contains_between(a.drop_last(), " "@ + p@, b);
    }
}

/// A line gives the amount behind the one key where there is a number behind it, else the
/// amount behind the other, else none.
pub proof fn law_first_key_comes_before_the_other(line: Seq<char>, key: Seq<char>, other: Seq<char>)
    ensures
        number_after(line, key) matches Some(n) ==> amount_after(line, key, other) == n,
        number_after(line, key) is None ==> amount_after(line, key, other) == amount_after(
            line,
            other,
            key,
        ),
        number_after(line, key) is None && number_after(line, other) is None ==> amount_after(
            line,
            key,
            other,
        ) == 0,
{
}

/// The applications that are offered are those with a connection, each once and in the order
/// of their user ids, and each is called after the packages that the table has under its user
/// id, in the order of their names.
pub proof fn law_every_connected_application_is_offered(
    list: Seq<Target>,
    uids: Set<u32>,
    table: Map<Seq<char>, u32>,
    u: u32,
    i: int,
    v: Seq<Seq<char>>,
)
    requires
        offered(list, uids, table),
        0 <= i < list.len(),
        forall|a: int, b: int|
            0 <= a < b < v.len() ==> comes_before(#[trigger] v[a], #[trigger] v[b]),
        forall|x: Seq<char>| #[trigger]
            v.contains(x) == (table.contains_key(x) && table[x] == list[i].uid),
    ensures
        uids.contains(u) == exists|k: int| 0 <= k < list.len() && (#[trigger] list[k]).uid == u,
        forall|a: int, b: int| 0 <= a < b < list.len() ==> (#[trigger] list[a]).uid < (
        #[trigger] list[b]).uid,
        list[i].label@ == label_text(v, list[i].uid),
{
    let ids = Seq::new(list.len(), |k: int| list[k].uid);
    assert(ids.to_set().contains(u) == ids.contains(u));
    if ids.contains(u) {
        let k = choose|k: int| 0 <= k < ids.len() && ids[k] == u;
        assert(list[k].uid == u);
    }
    if exists|k: int| 0 <= k < list.len() && (#[trigger] list[k]).uid == u {
        let k = choose|k: int| 0 <= k < list.len() && (#[trigger] list[k]).uid == u;
        assert(ids[k] == u);
    }
    assert forall|a: int, b: int| 0 <= a < b < list.len() implies (#[trigger] list[a]).uid < (
    #[trigger] list[b]).uid by {
        assert(ids[a] < ids[b]);
    }
    let names = names_with(table, list[i].uid);
    assert forall|x: Seq<char>| v.to_set().contains(x) == names.contains(x) by {
        assert(v.contains(x) == (table.contains_key(x) && table[x] == list[i].uid));
    }
    assert(v.to_set() =~= names);
    lemma_ordered(v, names);
}

/// A line that gives a user id has an established connection and a number of 32 bits for its
/// eighth word.
pub proof fn law_connected_user_is_the_eighth_word(line: Seq<char>, u: nat)
    ensures
        connected_uid(line) == Some(u) ==> words_of(line).len() >= 8 && words_of(line)[3] == seq![
            '0',
            '1',
        ] && parse_unsigned(words_of(line)[7], 0xffff_ffff) == Some(u),
        uid_of(line) is Some ==> contains_text(trim_text(line), "uid:"@),
{
    law_established_connection_is_told(line, 0);
    lemma_find_from(trim_text(line), "uid:"@, 0);
    lemma_contains_find(trim_text(line), "uid:"@);
}

/// [`extract_amount`] gives the number that is written behind the key, whatever else stands
/// before it and behind it on the line.
pub proof fn law_extract_amount_reads_the_number(
    line: &[char],
    key: &str,
    other: &str,
    r: u64,
    pre: Seq<char>,
    n: nat,
    post: Seq<char>,
)
    requires
        call_ensures(extract_amount, (line, key, other), r),
        n <= u64::MAX,
        line@ == pre + key@ + dec(n) + post,
        post.len() > 0 ==> !('0' <= post[0] <= '9'),
        forall|x: Seq<char>, y: Seq<char>|
            x.len() < pre.len() ==> line@ != #[trigger] (x + key@ + y),
    ensures
        r == n,
{
    law_amount_is_read_in_full(pre, key@, other@, n, post);
}

/// [`parse_uid_bytes`] counts a line of bytes that is added to an entry of the user id, in
/// full, and leaves the other count as it was where the line gives but one of them.
pub proof fn law_parse_uid_bytes_adds_a_bucket(
    dump: &str,
    more: &str,
    uid: u32,
    before: (u64, u64),
    after: (u64, u64),
    t: int,
    e: int,
    line: Seq<char>,
)
    requires
        call_ensures(parse_uid_bytes, (dump, uid), before),
        call_ensures(parse_uid_bytes, (more, uid), after),
        lines_of(more@) == lines_of(dump@).push(line),
        0 <= t < e < lines_of(dump@).len(),
        lines_of(dump@)[t] == "UID stats:"@,
        forall|k: int|
            t < k < lines_of(dump@).len() ==> (#[trigger] lines_of(dump@)[k]).len() > 0 && lines_of(
                dump@,
            )[k][0] == ' ',
        number_after(lines_of(dump@)[e], "uid="@) == Some(uid as nat),
        forall|k: int|
            e < k < lines_of(dump@).len() ==> number_after(
                #[trigger] lines_of(dump@)[k],
                "uid="@,
            ) is None,
        line.len() > 0 && line[0] == ' ',
        number_after(line, "uid="@) is None,
    ensures
        number_after(line, "rb="@) matches Some(n) ==> after.0 == before.0 + n,
        number_after(line, "tb="@) matches Some(n) ==> after.1 == before.1 + n,
        number_after(line, "rb="@) is None && number_after(line, "rxBytes="@) is None ==> after.0
            == before.0,
        number_after(line, "tb="@) is None && number_after(line, "txBytes="@) is None ==> after.1
            == before.1,
{
    law_bucket_adds_what_it_gives(lines_of(dump@), t, e, uid as nat, uid, line);
    law_first_key_comes_before_the_other(line, "rb="@, "rxBytes="@);
    law_first_key_comes_before_the_other(line, "tb="@, "txBytes="@);
}

/// [`named_target`] finds an application exactly where the table has it, with its user id.
pub proof fn law_named_target_is_the_one_asked_for(
    table: &NameTable,
    package: &str,
    r: Result<Target, TargetError>,
)
    requires
        call_ensures(named_target, (table, package), r),
    ensures
        r is Ok == table@.contains_key(package@),
        r matches Ok(t) ==> t.uid == table@[package@] && t.label@ == package@,
{
}

/// The user id of a package is the number that stands behind `uid:` on its line, alone and
/// up to the end, without white space around it.
pub proof fn law_user_id_is_what_stands_behind_its_key(
    line: Seq<char>,
    pre: Seq<char>,
    rest: Seq<char>,
)
    requires
        trim_text(line) == pre + "uid:"@ + rest,
        forall|x: Seq<char>, y: Seq<char>|
            x.len() < pre.len() ==> pre + "uid:"@ + rest != #[trigger] (x + "uid:"@ + y),
        forall|x: Seq<char>, y: Seq<char>| rest != #[trigger] (x + "uid:"@ + y),
    ensures
        uid_of(line) == parse_unsigned(trim_text(rest), 0xffff_ffff),
{
    law_first_occurrence_is_found(pre, "uid:"@, rest);
    law_absent_text_is_not_found(rest, "uid:"@);
    law_last_part_goes_to_the_end(pre, "uid:"@, rest);
}

/// A sample is taken every two seconds.
pub proof fn law_settings_of_the_watch()
    ensures
        SAMPLE_INTERVAL_SECS == 2,
        BURST_HIGHLIGHT_BYTES == 1024,
{
}

} // verus!
