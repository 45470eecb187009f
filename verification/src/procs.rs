//! The list of what runs on a device: the packages that have a process, or all
//! processes.

use vstd::prelude::*;
use vstd::string::*;
use crate::device::{connection_text, model_text, Device};
use crate::names::{comes_before, in_order, law_list_has_each_name_once, NameSet};
use crate::number::{dec, push_dec};
use crate::text::{
    after_prefix, before, before_first, chars_of, contains, contains_text, is_text, is_white,
    law_start_and_end_of_a_text, law_text_without_white_space_is_a_word,
    law_trim_takes_white_space_away, law_white_space_separates_words, lemma_run_bounds,
    lemma_run_end, lines, lines_of, occurs_at, other_than, run_end, starts_with_text, string_of,
    string_texts, strip_prefix, texts, trim, trim_text, words, words_of,
};
use crate::unicode::{ascii_lower, ascii_text, lower_text, lowercase, quoted, quoted_text};

verus! {

/// The names of processes on some lines, in their order. An empty line and the
/// title of the list hold none.
pub open spec fn process_names(ls: Seq<Seq<char>>) -> Seq<Seq<char>>
    decreases ls.len(),
{
    if ls.len() == 0 {
        Seq::empty()
    } else {
        let before = process_names(ls.drop_last());
        let t = trim_text(ls.last());
        if t.len() > 0 && t != "NAME"@ {
            before.push(t)
        } else {
            before
        }
    }
}

/// The names of processes that `ps -A -o NAME` lists.
pub fn parse_names(out: &str) -> (r: Vec<String>)
    ensures
        string_texts(r@) == process_names(lines_of(out@)),
{
    let cs = chars_of(out);
    let ls = lines(&cs);
    let ghost all = lines_of(out@);
    let mut names: Vec<String> = Vec::new();
    let mut i: usize = 0;
    assert(string_texts(names@) =~= process_names(all.take(0)));
    while i < ls.len()
        invariant
            texts(ls@) == all,
            i <= ls@.len(),
            string_texts(names@) == process_names(all.take(i as int)),
        decreases ls@.len() - i,
    {
        assert(ls[i as int]@ == texts(ls@)[i as int]);
        assert(all.take(i + 1).drop_last() == all.take(i as int));
        assert(all.take(i + 1).last() == all[i as int]);
        let ghost before = string_texts(names@);
        let t = trim(ls[i]);
        if t.len() > 0 && !is_text(t, "NAME") {
            names.push(string_of(t));
            assert(string_texts(names@) =~= before.push(t@));
        }
        i += 1;
    }
    assert(all.take(i as int) == all);
    names
}

/// The package that a line lists: the first word behind `package:`.
pub open spec fn package_of(line: Seq<char>) -> Option<Seq<char>> {
    match after_prefix(trim_text(line), "package:"@) {
        Some(rest) => {
            let ws = words_of(rest);
            if ws.len() > 0 {
                Some(ws[0])
            } else {
                None
            }
        },
        None => None,
    }
}

/// The packages that some lines list.
pub open spec fn packages(ls: Seq<Seq<char>>) -> Set<Seq<char>>
    decreases ls.len(),
{
    if ls.len() == 0 {
        Set::empty()
    } else {
        match package_of(ls.last()) {
            Some(p) => packages(ls.drop_last()).insert(p),
            None => packages(ls.drop_last()),
        }
    }
}

/// The package that a line lists.
pub fn parse_package(line: &[char]) -> (r: Option<String>)
    ensures
        r is Some == (package_of(line@) is Some),
        r matches Some(p) ==> package_of(line@) == Some(p@),
{
    match strip_prefix(trim(line), "package:") {
        Some(rest) => {
            let ws = words(rest);
            assert(texts(ws@).len() == ws@.len());
            if ws.len() > 0 {
                assert(texts(ws@)[0] == ws@[0]@);
                Some(string_of(ws[0]))
            } else {
                None
            }
        },
        None => None,
    }
}

/// The packages that `pm list packages` lists.
pub fn parse_pm_names(out: &str) -> (r: NameSet)
    ensures
        r@ == packages(lines_of(out@)),
{
    let cs = chars_of(out);
    let ls = lines(&cs);
    let ghost all = lines_of(out@);
    let mut set = NameSet::new();
    let mut i: usize = 0;
    while i < ls.len()
        invariant
            texts(ls@) == all,
            i <= ls@.len(),
            set@ == packages(all.take(i as int)),
        decreases ls@.len() - i,
    {
        assert(ls[i as int]@ == texts(ls@)[i as int]);
        assert(all.take(i + 1).drop_last() == all.take(i as int));
        assert(all.take(i + 1).last() == all[i as int]);
        if let Some(p) = parse_package(ls[i]) {
            set.insert(p);
        }
        i += 1;
    }
    assert(all.take(i as int) == all);
    set
}

/// The installed packages that have a process: a process belongs to the package
/// that its name gives before the first colon.
pub open spec fn active(procs: Seq<Seq<char>>, installed: Set<Seq<char>>) -> Set<Seq<char>> {
    Set::new(
        |p: Seq<char>|
            installed.contains(p) && exists|i: int|
                0 <= i < procs.len() && before_first(#[trigger] procs[i], ':') == p,
    )
}

/// A process with a suffix belongs to its package, as the one without a suffix does.
pub proof fn law_processes_of_a_package(
    procs: Seq<Seq<char>>,
    installed: Set<Seq<char>>,
    package: Seq<char>,
    suffix: Seq<char>,
)
    requires
        forall|i: int| 0 <= i < package.len() ==> #[trigger] package[i] != ':',
        installed.contains(package),
        procs.contains(package) || procs.contains(package + ":"@ + suffix),
    ensures
        active(procs, installed).contains(package),
{
    reveal_strlit(":");
    let named = package + ":"@ + suffix;
    assert forall|i: int| 0 <= i < package.len() implies other_than(':')(#[trigger] named[i]) by {
        assert(named[i] == package[i]);
    }
    lemma_run_end(named, other_than(':'), 0, package.len() as int);
    assert(named.take(package.len() as int) =~= package);
    lemma_run_end(package, other_than(':'), 0, package.len() as int);
    assert(package.take(package.len() as int) =~= package);
    let i = choose|i: int| 0 <= i < procs.len() && (procs[i] == package || procs[i] == named);
    assert(before_first(procs[i], ':') == package);
}

/// The installed packages that have a process, in the order of their names.
pub fn active_packages(proc_names: &Vec<String>, installed: &NameSet) -> (r: Vec<String>)
    ensures
        in_order(string_texts(r@), active(string_texts(proc_names@), installed@)),
{
    let mut set = NameSet::new();
    let ghost procs = string_texts(proc_names@);
    let mut i: usize = 0;
    assert(set@ =~= active(procs.take(0), installed@));
    while i < proc_names.len()
        invariant
            procs == string_texts(proc_names@),
            i <= procs.len(),
            set@ == active(procs.take(i as int), installed@),
        decreases proc_names@.len() - i,
    {
        let cs = chars_of(proc_names[i].as_str());
        let base = string_of(before(&cs, ':'));
        let ghost held = set@;
        assert(base@ == before_first(procs[i as int], ':'));
        if installed.contains(base.as_str()) {
            set.insert(base);
        }
        proof {
            let now = procs.take(i + 1);
            let past = procs.take(i as int);
            assert forall|p: Seq<char>| set@.contains(p) == active(now, installed@).contains(p) by {
                if active(past, installed@).contains(p) {
                    let k = choose|k: int|
                        0 <= k < past.len() && before_first(#[trigger] past[k], ':') == p;
                    assert(now[k] == past[k]);
                }
                if active(now, installed@).contains(p) {
                    let k = choose|k: int|
                        0 <= k < now.len() && before_first(#[trigger] now[k], ':') == p;
                    if k < i {
                        assert(past[k] == now[k]);
                    }
                }
                assert(now[i as int] == procs[i as int]);
            }
            assert(set@ =~= active(now, installed@));
        }
        i += 1;
    }
    assert(procs.take(i as int) =~= procs);
    set.list()
}

/// Some names, in their order and each of them once.
pub fn sorted_names(names: &Vec<String>) -> (r: Vec<String>)
    ensures
        in_order(string_texts(r@), string_texts(names@).to_set()),
{
    let mut set = NameSet::new();
    let ghost all = string_texts(names@);
    let mut i: usize = 0;
    assert(set@ =~= all.take(0).to_set());
    while i < names.len()
        invariant
            all == string_texts(names@),
            i <= all.len(),
            set@ == all.take(i as int).to_set(),
        decreases names@.len() - i,
    {
        set.insert(names[i].clone());
        proof {
            let past = all.take(i as int);
            let now = all.take(i + 1);
            assert forall|p: Seq<char>| set@.contains(p) == now.to_set().contains(p) by {
                if past.to_set().contains(p) {
                    let k = choose|k: int| 0 <= k < past.len() && past[k] == p;
                    assert(now[k] == p);
                }
                if now.to_set().contains(p) {
                    let k = choose|k: int| 0 <= k < now.len() && now[k] == p;
                    if k < i {
                        assert(past[k] == p);
                    }
                }
                assert(now[i as int] == all[i as int]);
            }
            assert(set@ =~= now.to_set());
        }
        i += 1;
    }
    assert(all.take(i as int) =~= all);
    set.list()
}

/// The names whose lower case holds a text, in their order.
pub open spec fn matching(
    names: Seq<Seq<char>>,
    lowered: Seq<Seq<char>>,
    needle: Seq<char>,
) -> Seq<Seq<char>>
    decreases names.len(),
{
    if names.len() == 0 || lowered.len() != names.len() {
        Seq::empty()
    } else {
        let before = matching(names.drop_last(), lowered.drop_last(), needle);
        if contains_text(lowered.last(), needle) {
            before.push(names.last())
        } else {
            before
        }
    }
}

/// The lower case of some texts.
pub open spec fn lower_texts(names: Seq<Seq<char>>) -> Seq<Seq<char>> {
    names.map_values(|n: Seq<char>| lower_text(n))
}

/// The names whose lower case, given as `lowered`, holds the text `needle`.
pub fn filter_lowered(names: &Vec<String>, lowered: &Vec<String>, needle: &str) -> (r: Vec<String>)
    requires
        lowered@.len() == names@.len(),
    ensures
        string_texts(r@) == matching(string_texts(names@), string_texts(lowered@), needle@),
{
    let ghost all = string_texts(names@);
    let ghost low = string_texts(lowered@);
    let mut out: Vec<String> = Vec::new();
    let mut i: usize = 0;
    assert(string_texts(out@) =~= matching(all.take(0), low.take(0), needle@));
    while i < names.len()
        invariant
            all == string_texts(names@),
            low == string_texts(lowered@),
            lowered@.len() == names@.len(),
            i <= names@.len(),
            string_texts(out@) == matching(all.take(i as int), low.take(i as int), needle@),
        decreases names@.len() - i,
    {
        assert(all.take(i + 1).drop_last() == all.take(i as int));
        assert(all.take(i + 1).last() == names@[i as int]@);
        assert(low.take(i + 1).drop_last() == low.take(i as int));
        assert(low.take(i + 1).last() == lowered@[i as int]@);
        let ghost before = string_texts(out@);
        let cs = chars_of(lowered[i].as_str());
        if contains(&cs, needle) {
            out.push(names[i].clone());
            assert(string_texts(out@) =~= before.push(names@[i as int]@));
        }
        i += 1;
    }
    assert(all.take(i as int) == all);
    assert(low.take(i as int) == low);
    out
}

/// The names that hold a text, whatever the case of the letters.
pub fn filter_names(names: &Vec<String>, needle: &str) -> (r: Vec<String>)
    ensures
        string_texts(r@) == matching(
            string_texts(names@),
            lower_texts(string_texts(names@)),
            lower_text(needle@),
        ),
        // Of a text of ASCII characters the case of the letters makes no difference.
        ascii_text(needle@) ==> string_texts(r@) == matching(
            string_texts(names@),
            lower_texts(string_texts(names@)),
            needle@.map_values(|c: char| ascii_lower(c)),
        ),
        needle@.len() == 0 ==> string_texts(r@) == string_texts(names@),
{
    let low = lowercase(needle);
    proof {
        if needle@.len() == 0 {
            assert(low@ =~= Seq::<char>::empty());
            law_empty_text_keeps_every_name(
                string_texts(names@),
                lower_texts(string_texts(names@)),
            );
        }
    }
    let mut lowered: Vec<String> = Vec::new();
    let ghost all = lower_texts(string_texts(names@));
    let mut i: usize = 0;
    while i < names.len()
        invariant
            all == lower_texts(string_texts(names@)),
            i <= names@.len(),
            string_texts(lowered@) == all.take(i as int),
        decreases names@.len() - i,
    {
        let ghost before = string_texts(lowered@);
        lowered.push(lowercase(names[i].as_str()));
        assert(string_texts(lowered@) =~= before.push(all[i as int]));
        assert(all.take(i + 1) =~= all.take(i as int).push(all[i as int]));
        i += 1;
    }
    assert(all.take(i as int) =~= all);
    assert(string_texts(lowered@).len() == lowered@.len());
    filter_lowered(names, &lowered, low.as_str())
}

/// Whether a name stands where the lower case holds a text.
spec fn hit(
    names: Seq<Seq<char>>,
    lowered: Seq<Seq<char>>,
    needle: Seq<char>,
    n: Seq<char>,
) -> bool {
    exists|j: int|
        0 <= j < names.len() && #[trigger] names[j] == n && contains_text(lowered[j], needle)
}

proof fn lemma_matching(
    names: Seq<Seq<char>>,
    lowered: Seq<Seq<char>>,
    needle: Seq<char>,
    n: Seq<char>,
)
    requires
        lowered.len() == names.len(),
    ensures
        matching(names, lowered, needle).contains(n) == hit(names, lowered, needle, n),
    decreases names.len(),
{
    if names.len() > 0 {
        let front = names.drop_last();
        let low = lowered.drop_last();
        lemma_matching(front, low, needle, n);
        let kept = matching(front, low, needle);
        let all = matching(names, lowered, needle);
        let last = names.len() - 1;
        if all.contains(n) {
            let i = choose|i: int| 0 <= i < all.len() && all[i] == n;
            if i < kept.len() {
                assert(kept[i] == n);
                let j = choose|j: int|
                    0 <= j < front.len() && #[trigger] front[j] == n && contains_text(
                        low[j],
                        needle,
                    );
                assert(names[j] == n);
            } else {
                assert(names[last] == n);
            }
        }
        if hit(names, lowered, needle, n) {
            let j = choose|j: int|
                0 <= j < names.len() && #[trigger] names[j] == n && contains_text(
                    lowered[j],
                    needle,
                );
            if j < last {
                assert(front[j] == n);
                let i = choose|i: int| 0 <= i < kept.len() && kept[i] == n;
                assert(all[i] == n);
            } else {
                assert(all[all.len() - 1] == n);
            }
        }
    }
}

/// A filter keeps the names whose lower case holds the lower case of its text, and
/// no others.
pub proof fn law_filter_keeps_what_matches(names: Seq<Seq<char>>, needle: Seq<char>, n: Seq<char>)
    ensures
        matching(names, lower_texts(names), lower_text(needle)).contains(n) == (names.contains(n)
            && contains_text(lower_text(n), lower_text(needle))),
{
    let lowered = lower_texts(names);
    let low = lower_text(needle);
    lemma_matching(names, lowered, low, n);
    if names.contains(n) && contains_text(lower_text(n), low) {
        let j = choose|j: int| 0 <= j < names.len() && names[j] == n;
        assert(names[j] == n && contains_text(lowered[j], low));
    }
}

/// Whether `idx` are the positions, in order, of the names that a filter keeps: those
/// whose lower case holds a text, and no others.
pub open spec fn selects(
    idx: Seq<int>,
    names: Seq<Seq<char>>,
    lowered: Seq<Seq<char>>,
    needle: Seq<char>,
    kept: Seq<Seq<char>>,
) -> bool {
    &&& idx.len() == kept.len()
    &&& forall|a: int, b: int| 0 <= a < b < idx.len() ==> idx[a] < idx[b]
    &&& forall|a: int|
        0 <= a < idx.len() ==> 0 <= #[trigger] idx[a] < names.len() && names[idx[a]] == kept[a]
    &&& forall|j: int|
        0 <= j < names.len() ==> idx.contains(j) == contains_text(#[trigger] lowered[j], needle)
}

/// A filter gives a part of the list of names, in the same order, with repeated names
/// repeated and each name as it was: exactly those at whose position the lower case
/// holds the text.
pub proof fn law_filter_gives_a_sublist(
    names: Seq<Seq<char>>,
    lowered: Seq<Seq<char>>,
    needle: Seq<char>,
)
    requires
        lowered.len() == names.len(),
    ensures
        exists|idx: Seq<int>| #[trigger]
            selects(idx, names, lowered, needle, matching(names, lowered, needle)),
    decreases names.len(),
{
    let kept = matching(names, lowered, needle);
    if names.len() == 0 {
        assert(selects(Seq::empty(), names, lowered, needle, kept));
    } else {
        let n = names.len() - 1;
        let front = names.drop_last();
        let low = lowered.drop_last();
        law_filter_gives_a_sublist(front, low, needle);
        let past = matching(front, low, needle);
        let old_idx = choose|idx: Seq<int>| #[trigger] selects(idx, front, low, needle, past);
        let hit_last = contains_text(lowered.last(), needle);
        let idx = if hit_last {
            old_idx.push(n)
        } else {
            old_idx
        };
        assert forall|a: int| 0 <= a < idx.len() implies 0 <= #[trigger] idx[a] < names.len()
            && names[idx[a]] == kept[a] by {
            if a < old_idx.len() {
                assert(idx[a] == old_idx[a]);
                assert(front[old_idx[a]] == past[a]);
            }
        }
        assert forall|a: int, b: int| 0 <= a < b < idx.len() implies idx[a] < idx[b] by {
            assert(idx[a] == old_idx[a]);
            if b < old_idx.len() {
                assert(idx[b] == old_idx[b]);
            }
        }
        assert forall|j: int| 0 <= j < names.len() implies idx.contains(j) == contains_text(
            #[trigger] lowered[j],
            needle,
        ) by {
            if j < n {
                assert(low[j] == lowered[j]);
                if old_idx.contains(j) {
                    let a = choose|a: int| 0 <= a < old_idx.len() && old_idx[a] == j;
                    assert(idx[a] == j);
                }
                if idx.contains(j) {
                    let a = choose|a: int| 0 <= a < idx.len() && idx[a] == j;
                    assert(a < old_idx.len());
                    assert(old_idx[a] == j);
                }
            } else {
                if hit_last {
                    assert(idx[old_idx.len() as int] == n);
                } else if idx.contains(j) {
                    let a = choose|a: int| 0 <= a < idx.len() && idx[a] == j;
                    assert(old_idx[a] < front.len());
                }
            }
        }
        assert(selects(idx, names, lowered, needle, kept));
    }
}

/// Filtering again by the same text changes nothing.
pub proof fn law_filter_twice_is_filter_once(names: Seq<Seq<char>>, needle: Seq<char>)
    ensures
        ({
            let once = matching(names, lower_texts(names), lower_text(needle));
            matching(once, lower_texts(once), lower_text(needle)) == once
        }),
    decreases names.len(),
{
    let low = lower_text(needle);
    if names.len() > 0 {
        let front = names.drop_last();
        law_filter_twice_is_filter_once(front, needle);
        assert(lower_texts(names).drop_last() =~= lower_texts(front));
        assert(lower_texts(names).last() == lower_text(names.last()));
        let past = matching(front, lower_texts(front), low);
        let once = matching(names, lower_texts(names), low);
        if contains_text(lower_text(names.last()), low) {
            assert(once.drop_last() =~= past);
            assert(lower_texts(once).drop_last() =~= lower_texts(past));
            assert(lower_texts(once).last() == lower_text(names.last()));
        }
    }
}

/// A filter by the empty text keeps every name.
pub proof fn law_empty_text_keeps_every_name(names: Seq<Seq<char>>, lowered: Seq<Seq<char>>)
    requires
        lowered.len() == names.len(),
    ensures
        matching(names, lowered, Seq::empty()) == names,
    decreases names.len(),
{
    if names.len() > 0 {
        law_empty_text_keeps_every_name(names.drop_last(), lowered.drop_last());
        let l = lowered.last();
        assert(l.subrange(0, 0) =~= Seq::<char>::empty());
        assert(occurs_at(l, Seq::empty(), 0));
        assert(names.drop_last().push(names.last()) =~= names);
    }
}

/// Two texts of ASCII characters that differ in the case of letters alone keep the
/// same names, where the lower case of each is that of its letters.
pub proof fn law_case_of_ascii_letters_is_ignored(
    names: Seq<Seq<char>>,
    a: Seq<char>,
    b: Seq<char>,
)
    requires
        a.len() == b.len(),
        forall|i: int| 0 <= i < a.len() ==> ascii_lower(#[trigger] a[i]) == ascii_lower(b[i]),
    ensures
        matching(names, lower_texts(names), a.map_values(|c: char| ascii_lower(c))) == matching(
            names,
            lower_texts(names),
            b.map_values(|c: char| ascii_lower(c)),
        ),
{
    assert(a.map_values(|c: char| ascii_lower(c)) =~= b.map_values(|c: char| ascii_lower(c)));
}

/// A list of names and what is said of it.
pub struct Listing {
    pub names: Vec<String>,
    pub summary: String,
}

/// The names of all processes, and how many there are.
pub fn list_all(proc_raw: &str) -> (r: Listing)
    ensures
        in_order(string_texts(r.names@), process_names(lines_of(proc_raw@)).to_set()),
        r.summary@ == "processes  "@ + dec(process_names(lines_of(proc_raw@)).len()) + " total / "@
            + dec(r.names@.len()) + " unique"@,
{
    let procs = parse_names(proc_raw);
    assert(string_texts(procs@).len() == procs@.len());
    let names = sorted_names(&procs);
    let mut summary = "processes  ".to_string();
    push_dec(&mut summary, procs.len() as u64);
    summary.append(" total / ");
    push_dec(&mut summary, names.len() as u64);
    summary.append(" unique");
    Listing { names, summary }
}

/// The packages that have a process, and how many there are of them, of processes
/// and of packages.
pub fn list_active(proc_raw: &str, pkg_raw: &str) -> (r: Listing)
    ensures
        in_order(
            string_texts(r.names@),
            active(process_names(lines_of(proc_raw@)), packages(lines_of(pkg_raw@))),
        ),
        r.summary@ == "packages   "@ + dec(r.names@.len()) + " active（进程 "@ + dec(
            process_names(lines_of(proc_raw@)).len(),
        ) + "，已装 "@ + dec(packages(lines_of(pkg_raw@)).len()) + "）"@,
{
    let procs = parse_names(proc_raw);
    assert(string_texts(procs@).len() == procs@.len());
    let installed = parse_pm_names(pkg_raw);
    let names = active_packages(&procs, &installed);
    let mut summary = "packages   ".to_string();
    push_dec(&mut summary, names.len() as u64);
    summary.append(" active（进程 ");
    push_dec(&mut summary, procs.len() as u64);
    summary.append("，已装 ");
    push_dec(&mut summary, installed.len() as u64);
    summary.append("）");
    Listing { names, summary }
}

/// The names of a list that hold a text, where one is asked for, and how many
/// there are.
pub fn narrowed(list: Listing, filter: Option<&str>) -> (r: Listing)
    ensures
        match filter {
            Some(f) => {
                &&& string_texts(r.names@) == matching(
                    string_texts(list.names@),
                    lower_texts(string_texts(list.names@)),
                    lower_text(f@),
                )
                &&& r.summary@ == list.summary@ + "；filter="@ + quoted_text(f@) + " 命中 "@ + dec(
                    r.names@.len(),
                )
            },
            None => r == list,
        },
{
    match filter {
        Some(f) => {
            let names = filter_names(&list.names, f);
            let mut summary = list.summary;
            summary.append("；filter=");
            summary.append(quoted(f).as_str());
            summary.append(" 命中 ");
            push_dec(&mut summary, names.len() as u64);
            Listing { names, summary }
        },
        None => list,
    }
}

/// What is shown beside a list of names.
pub fn report(device: &Device, summary: &str) -> (r: String)
    ensures
        r@ == "── jj-android-device procs ────────────────────────────────\ndevice     serial="@
            + device.serial@ + " model="@ + model_text(device@) + " connection="@ + connection_text(
            device@,
        ) + "\n"@ + summary@
            + "\n───────────────────────────────────────────────────────────\n"@,
{
    let mut out =
        "── jj-android-device procs ────────────────────────────────\ndevice     serial=".to_string();
    out.append(device.serial.as_str());
    out.append(" model=");
    out.append(device.model_label());
    out.append(" connection=");
    out.append(device.connection_label().as_str());
    out.append("\n");
    out.append(summary);
    out.append("\n───────────────────────────────────────────────────────────\n");
    out
}

/// The names of processes are those of the lines one by one, without white space around
/// them; an empty line and the title `NAME` give none.
pub proof fn law_names_are_read_line_by_line(
    x: Seq<Seq<char>>,
    y: Seq<Seq<char>>,
    a: Seq<char>,
    n: Seq<char>,
    b: Seq<char>,
)
    requires
        forall|i: int| 0 <= i < a.len() ==> is_white(#[trigger] a[i]),
        forall|i: int| 0 <= i < b.len() ==> is_white(#[trigger] b[i]),
        n.len() > 0 ==> !is_white(n[0]) && !is_white(n.last()),
    ensures
        process_names(x + y) == process_names(x) + process_names(y),
        process_names(seq![a + n + b]) == if n.len() > 0 && n != seq!['N', 'A', 'M', 'E'] {
            seq![n]
        } else {
            Seq::empty()
        },
    decreases y.len(),
{
    reveal_strlit("NAME");
    assert("NAME"@ =~= seq!['N', 'A', 'M', 'E']);
    law_trim_takes_white_space_away(a, n, b);
    let one = seq![a + n + b];
    assert(one.drop_last() =~= Seq::<Seq<char>>::empty());
    assert(process_names(one.drop_last()) =~= Seq::<Seq<char>>::empty());
    assert(Seq::<Seq<char>>::empty().push(n) =~= seq![n]);
    if y.len() == 0 {
        assert(x + y =~= x);
        assert(process_names(x) + process_names(y) =~= process_names(x));
    } else {
        assert((x + y).drop_last() =~= x + y.drop_last());
        assert((x + y).last() == y.last());
        law_names_are_read_line_by_line(x, y.drop_last(), a, n, b);
        assert(process_names(x + y) =~= process_names(x) + process_names(y));
    }
}

/// A package is the word behind `package:` on a line that starts so, whatever follows it
/// behind white space; other lines list none.
pub proof fn law_package_is_the_word_behind_its_key(
    a: Seq<char>,
    p: Seq<char>,
    rest: Seq<char>,
    line: Seq<char>,
)
    requires
        forall|i: int| 0 <= i < a.len() ==> is_white(#[trigger] a[i]),
        p.len() > 0,
        forall|i: int| 0 <= i < p.len() ==> !is_white(#[trigger] p[i]),
        rest.len() > 0 ==> is_white(rest[0]) && !is_white(rest.last()),
    ensures
        package_of(a + ("package:"@ + p + rest)) == Some(p),
        !starts_with_text(trim_text(line), "package:"@) ==> package_of(line) is None,
{
    reveal_strlit("package:");
    let none = Seq::<char>::empty();
    let t = "package:"@ + p + rest;
    assert(!is_white(p[p.len() - 1]));
    assert(t[0] == 'p');
    assert(t.last() == if rest.len() > 0 {
        rest.last()
    } else {
        p.last()
    });
    law_trim_takes_white_space_away(a, t, none);
    assert(a + t + none =~= a + t);
    let v = p + rest;
    assert(t =~= "package:"@ + v);
    law_start_and_end_of_a_text(t, "package:"@);
    law_text_without_white_space_is_a_word(p);
    if rest.len() > 0 {
        assert(v =~= p + seq![rest[0]] + rest.skip(1));
        law_white_space_separates_words(p, rest[0], rest.skip(1));
        assert(words_of(v)[0] == p);
    } else {
        assert(v =~= p);
    }
}

/// The packages are those that a line lists, and no others.
pub proof fn law_packages_are_what_the_lines_list(ls: Seq<Seq<char>>, p: Seq<char>)
    ensures
        packages(ls).contains(p) == exists|i: int|
            0 <= i < ls.len() && package_of(#[trigger] ls[i]) == Some(p),
    decreases ls.len(),
{
    if ls.len() > 0 {
        let front = ls.drop_last();
        law_packages_are_what_the_lines_list(front, p);
        if exists|i: int| 0 <= i < front.len() && package_of(#[trigger] front[i]) == Some(p) {
            let i = choose|i: int| 0 <= i < front.len() && package_of(#[trigger] front[i]) == Some(p);
            assert(ls[i] == front[i]);
        }
        if exists|i: int| 0 <= i < ls.len() && package_of(#[trigger] ls[i]) == Some(p) {
            let i = choose|i: int| 0 <= i < ls.len() && package_of(#[trigger] ls[i]) == Some(p);
            if i < ls.len() - 1 {
                assert(front[i] == ls[i]);
            }
        }
        if package_of(ls.last()) is Some {
            assert(ls[ls.len() - 1] == ls.last());
        }
    }
}

/// A package that is listed as running is installed, and a process bears its name, alone or
/// with a colon and more behind it.
pub proof fn law_active_package_has_a_process(
    procs: Seq<Seq<char>>,
    installed: Set<Seq<char>>,
    p: Seq<char>,
)
    ensures
        active(procs, installed).contains(p) ==> installed.contains(p) && exists|i: int|
            0 <= i < procs.len() && (#[trigger] procs[i] == p || starts_with_text(
                procs[i],
                p + seq![':'],
            )),
{
    if active(procs, installed).contains(p) {
        let i = choose|i: int| 0 <= i < procs.len() && before_first(#[trigger] procs[i], ':') == p;
        let s = procs[i];
        let e = run_end(s, other_than(':'), 0);
        lemma_run_bounds(s, other_than(':'), 0);
        if e < s.len() {
            let pat = p + seq![':'];
            assert(s.subrange(0, pat.len() as int) =~= pat);
        } else {
            assert(s.take(e) =~= s);
        }
    }
}

/// A list that is narrowed keeps the names whose lower case holds that of the text, and
/// without a text it stays as it was.
pub proof fn law_narrowed_list_keeps_what_matches(
    list: Listing,
    filter: Option<&str>,
    r: Listing,
    n: Seq<char>,
)
    requires
        call_ensures(narrowed, (list, filter), r),
    ensures
        filter is None ==> r == list,
        filter matches Some(f) ==> string_texts(r.names@).contains(n) == (string_texts(
            list.names@,
        ).contains(n) && contains_text(lower_text(n), lower_text(f@))),
        filter matches Some(f) ==> r.summary@ == list.summary@ + "；filter="@ + quoted_text(f@)
            + " 命中 "@ + dec(r.names@.len()),
{
    if let Some(f) = filter {
        law_filter_keeps_what_matches(string_texts(list.names@), f@, n);
    }
}

/// The packages that are listed are those that are installed and have a process, each once.
pub proof fn law_listed_packages_run(proc_raw: &str, pkg_raw: &str, r: Listing, p: Seq<char>)
    requires
        call_ensures(list_active, (proc_raw, pkg_raw), r),
    ensures
        string_texts(r.names@).contains(p) == active(
            process_names(lines_of(proc_raw@)),
            packages(lines_of(pkg_raw@)),
        ).contains(p),
        forall|i: int, j: int|
            0 <= i < j < r.names@.len() ==> comes_before(
                #[trigger] string_texts(r.names@)[i],
                #[trigger] string_texts(r.names@)[j],
            ),
{
    law_list_has_each_name_once(
        string_texts(r.names@),
        active(process_names(lines_of(proc_raw@)), packages(lines_of(pkg_raw@))),
        p,
    );
}

/// The processes that are listed are those that a line names, each once, and the summary
/// counts the lines and the names.
pub proof fn law_listed_processes_are_named(proc_raw: &str, r: Listing, p: Seq<char>)
    requires
        call_ensures(list_all, (proc_raw,), r),
    ensures
        string_texts(r.names@).contains(p) == process_names(lines_of(proc_raw@)).contains(p),
        forall|i: int, j: int|
            0 <= i < j < r.names@.len() ==> comes_before(
                #[trigger] string_texts(r.names@)[i],
                #[trigger] string_texts(r.names@)[j],
            ),
        r.summary@ == "processes  "@ + dec(process_names(lines_of(proc_raw@)).len()) + " total / "@
            + dec(r.names@.len()) + " unique"@,
{
    let all = process_names(lines_of(proc_raw@));
    law_list_has_each_name_once(string_texts(r.names@), all.to_set(), p);
    assert(all.to_set().contains(p) == all.contains(p));
}

} // verus!
