//! The names of the processes of a device, by their numbers.

use vstd::prelude::*;
use vstd::slice::slice_subrange;
use vstd::string::*;
use std::collections::HashMap;
use crate::number::{
    dec, is_digit, law_only_digits_are_read, law_unsigned_roundtrip, lemma_dec, parse_u32,
    parse_unsigned,
};
use crate::text::{
    black, chars_of, is_white, law_trim_takes_white_space_away, lemma_run_end, lines, lines_of,
    run_end, skip_black, string_of, texts, trim, trim_start, trim_start_text, trim_text, white,
};

verus! {

/// The seconds between two looks at the processes.
pub const POLL_INTERVAL_SECS: u64 = 10;

/// The process that a line lists: its number, white space and its name. The title
/// of the list lists none.
pub open spec fn process_of(line: Seq<char>) -> Option<(u32, Seq<char>)> {
    let l = trim_start_text(line);
    let e = run_end(l, black(), 0);
    if e >= l.len() {
        None
    } else {
        let name = trim_text(l.skip(e + 1));
        match parse_unsigned(l.take(e), u32::MAX as nat) {
            Some(pid) => if name.len() > 0 {
                Some((pid as u32, name))
            } else {
                None
            },
            None => None,
        }
    }
}

/// The processes that some lines list. Of two with one number the later counts.
pub open spec fn process_table(ls: Seq<Seq<char>>) -> Map<u32, Seq<char>>
    decreases ls.len(),
{
    if ls.len() == 0 {
        Map::empty()
    } else {
        match process_of(ls.last()) {
            Some((pid, name)) => process_table(ls.drop_last()).insert(pid, name),
            None => process_table(ls.drop_last()),
        }
    }
}

/// The names of a table, as texts.
pub open spec fn name_texts(m: Map<u32, String>) -> Map<u32, Seq<char>> {
    m.map_values(|s: String| s@)
}

fn parse_process(line: &[char]) -> (r: Option<(u32, String)>)
    ensures
        r is Some == (process_of(line@) is Some),
        r matches Some((pid, name)) ==> process_of(line@) == Some((pid, name@)),
{
    let l = trim_start(line);
    let e: usize = skip_black(l, 0);
    if e >= l.len() {
        return None;
    }
    let name = trim(slice_subrange(l, e + 1, l.len()));
    match parse_u32(slice_subrange(l, 0, e)) {
        Some(pid) => if name.len() > 0 {
            Some((pid, string_of(name)))
        } else {
            None
        },
        None => None,
    }
}

/// The processes that `ps -A -o PID,NAME` lists.
pub fn parse_ps(out: &str) -> (r: HashMap<u32, String>)
    ensures
        name_texts(r@) == process_table(lines_of(out@)),
{
    broadcast use vstd::std_specs::hash::group_hash_axioms;

    let cs = chars_of(out);
    let ls = lines(&cs);
    let ghost all = lines_of(out@);
    let mut m: HashMap<u32, String> = HashMap::new();
    let mut i: usize = 0;
    assert(name_texts(m@) =~= process_table(all.take(0)));
    while i < ls.len()
        invariant
            texts(ls@) == all,
            i <= ls@.len(),
            name_texts(m@) == process_table(all.take(i as int)),
        decreases ls@.len() - i,
    {
        assert(ls[i as int]@ == texts(ls@)[i as int]);
        assert(all.take(i + 1).drop_last() == all.take(i as int));
        assert(all.take(i + 1).last() == all[i as int]);
        let ghost before = m@;
        if let Some((pid, name)) = parse_process(ls[i]) {
            m.insert(pid, name);
            assert(name_texts(m@) =~= name_texts(before).insert(pid, name@));
        }
        i += 1;
    }
    assert(all.take(i as int) == all);
    m
}

/// The processes that an answer lists. Without an answer there is nothing new, and
/// what was known stays in force.
pub fn snapshot(answer: Option<&str>) -> (r: Option<HashMap<u32, String>>)
    ensures
        r is Some == answer is Some,
        r matches Some(m) ==> name_texts(m@) == process_table(lines_of(answer->0@)),
{
    match answer {
        Some(out) => Some(parse_ps(out)),
        None => None,
    }
}

/// A process is read from the line that lists it: white space, its number, white space and
/// its name, which may hold white space itself.
pub proof fn law_process_line_is_read(
    a: Seq<char>,
    pid: u32,
    gap: Seq<char>,
    name: Seq<char>,
    b: Seq<char>,
)
    requires
        forall|i: int| 0 <= i < a.len() ==> is_white(#[trigger] a[i]),
        gap.len() > 0,
        forall|i: int| 0 <= i < gap.len() ==> is_white(#[trigger] gap[i]),
        name.len() > 0,
        !is_white(name[0]),
        !is_white(name.last()),
        forall|i: int| 0 <= i < b.len() ==> is_white(#[trigger] b[i]),
    ensures
        process_of(a + dec(pid as nat) + gap + name + b) == Some((pid, name)),
{
    let d = dec(pid as nat);
    lemma_dec(pid as nat);
    assert forall|i: int| 0 <= i < d.len() implies !is_white(#[trigger] d[i]) by {
        assert(is_digit(d[i]));
    }
    let l = d + gap + name + b;
    assert(!is_white(d[0]));
    assert(is_white(gap[0]));
    let line = a + d + gap + name + b;
    // The line is what is listed with white space before it and behind it.
    let core = d + gap + name;
    assert(core[0] == d[0]);
    assert(core.last() == name.last());
    assert(line =~= a + core + b);
    law_trim_takes_white_space_away(a, core, b);
    assert(core + b =~= l);
    assert forall|k: int| 0 <= k < d.len() implies black()(#[trigger] l[k]) by {
        assert(l[k] == d[k]);
    }
    assert(l[d.len() as int] == gap[0]);
    lemma_run_end(l, black(), 0, d.len() as int);
    assert(l.take(d.len() as int) =~= d);
    let g = gap.skip(1);
    assert forall|i: int| 0 <= i < g.len() implies is_white(#[trigger] g[i]) by {
        assert(is_white(gap[i + 1]));
    }
    assert(l.skip(d.len() as int + 1) =~= g + name + b);
    law_trim_takes_white_space_away(g, name, b);
    law_unsigned_roundtrip(pid as nat, u32::MAX as nat);
}

/// A line whose first word is no number, such as the title of the list, lists no process.
pub proof fn law_line_without_a_number_lists_nothing(line: Seq<char>, w: Seq<char>, rest: Seq<char>)
    requires
        w.len() > 0,
        forall|i: int| 0 <= i < w.len() ==> !is_white(#[trigger] w[i]),
        rest.len() > 0 ==> is_white(rest[0]),
        line == w + rest,
        exists|i: int| 0 <= i < w.len() && !('0' <= #[trigger] w[i] <= '9') && w[i] != '+',
    ensures
        process_of(line) is None,
{
    assert(!is_white(w[0]));
    assert(line[0] == w[0]);
    lemma_run_end(line, white(), 0, 0);
    assert(line.skip(0) =~= line);
    assert forall|k: int| 0 <= k < w.len() implies black()(#[trigger] line[k]) by {
        assert(line[k] == w[k]);
    }
    if rest.len() > 0 {
        assert(line[w.len() as int] == rest[0]);
    }
    lemma_run_end(line, black(), 0, w.len() as int);
    assert(line.take(w.len() as int) =~= w);
    law_only_digits_are_read(w, w, u32::MAX as nat);
    let i = choose|i: int| 0 <= i < w.len() && !('0' <= #[trigger] w[i] <= '9') && w[i] != '+';
    if i > 0 {
        assert(!('0' <= w[i] <= '9'));
    }
}

/// Whether line `i` lists a process.
pub open spec fn lists(ls: Seq<Seq<char>>, i: int, pid: u32, name: Seq<char>) -> bool {
    process_of(ls[i]) == Some((pid, name))
}

/// The table has for a process the name that the last line gives it which lists it, and
/// has no process that no line lists.
pub proof fn law_last_line_of_a_process_counts(ls: Seq<Seq<char>>, pid: u32)
    ensures
        process_table(ls).contains_key(pid) ==> exists|i: int|
            0 <= i < ls.len() && #[trigger] lists(ls, i, pid, process_table(ls)[pid]) && forall|
                j: int,
                x: Seq<char>,
            |
                i < j < ls.len() ==> !#[trigger] lists(ls, j, pid, x),
        !process_table(ls).contains_key(pid) ==> forall|i: int, x: Seq<char>|
            0 <= i < ls.len() ==> !#[trigger] lists(ls, i, pid, x),
    decreases ls.len(),
{
    if ls.len() > 0 {
        let front = ls.drop_last();
        law_last_line_of_a_process_counts(front, pid);
        let n = ls.len() - 1;
        assert forall|i: int, x: Seq<char>| 0 <= i < n implies #[trigger] lists(ls, i, pid, x)
            == lists(front, i, pid, x) by {}
        if process_of(ls.last()) matches Some((p, _)) && p == pid {
            assert(lists(ls, n, pid, process_table(ls)[pid]));
        } else {
            assert(process_table(ls).contains_key(pid) == process_table(front).contains_key(pid));
            if process_table(front).contains_key(pid) {
                let i = choose|i: int|
                    0 <= i < front.len() && #[trigger] lists(
                        front,
                        i,
                        pid,
                        process_table(front)[pid],
                    ) && forall|j: int, x: Seq<char>|
                        i < j < front.len() ==> !#[trigger] lists(front, j, pid, x);
                assert(lists(ls, i, pid, process_table(ls)[pid]));
                assert forall|j: int, x: Seq<char>| i < j < ls.len() implies !#[trigger] lists(
                    ls,
                    j,
                    pid,
                    x,
                ) by {
                    if j < n {
                        assert(!lists(front, j, pid, x));
                    }
                }
            } else {
                assert forall|i: int, x: Seq<char>| 0 <= i < ls.len() implies !#[trigger] lists(
                    ls,
                    i,
                    pid,
                    x,
                ) by {
                    if i < n {
                        assert(!lists(front, i, pid, x));
                    }
                }
            }
        }
    }
}


/// The names of a table are the names of its entries.
pub proof fn law_table_keeps_its_names(m: Map<u32, String>, pid: u32)
    ensures
        name_texts(m).contains_key(pid) == m.contains_key(pid),
        m.contains_key(pid) ==> name_texts(m)[pid] == m[pid]@,
{
}

/// A look at the processes that brought no answer changes nothing; an answer gives the names
/// that it lists.
pub proof fn law_snapshot_needs_an_answer(answer: Option<&str>, r: Option<HashMap<u32, String>>)
    requires
        call_ensures(snapshot, (answer,), r),
    ensures
        answer is None ==> r is None,
        answer matches Some(out) ==> (r matches Some(m) && name_texts(m@) == process_table(
            lines_of(out@),
        )),
{
}

/// The processes are looked at six times a minute.
pub proof fn law_settings_of_the_look()
    ensures
        6 * POLL_INTERVAL_SECS == 60,
{
}

} // verus!
