//! Text as a sequence of characters: the vocabulary that the parsers of this
//! crate are stated in, and its executable counterpart on slices of `char`.

use vstd::prelude::*;
use vstd::slice::slice_subrange;
use vstd::string::*;

verus! {

/// The Unicode `White_Space` property.
pub open spec fn is_white(c: char) -> bool {
    let u = c as u32;
    ||| 0x09 <= u <= 0x0d
    ||| u == 0x20
    ||| u == 0x85
    ||| u == 0xa0
    ||| u == 0x1680
    ||| 0x2000 <= u <= 0x200a
    ||| u == 0x2028
    ||| u == 0x2029
    ||| u == 0x202f
    ||| u == 0x205f
    ||| u == 0x3000
}

/// The predicate "is white space".
pub open spec fn white() -> spec_fn(char) -> bool {
    |c: char| is_white(c)
}

/// The predicate "is not white space".
pub open spec fn black() -> spec_fn(char) -> bool {
    |c: char| !is_white(c)
}

/// The predicate "is not the character `d`".
pub open spec fn other_than(d: char) -> spec_fn(char) -> bool {
    |c: char| c != d
}

/// Where the longest run of elements satisfying `p` that starts at `i` ends.
pub open spec fn run_end<T>(s: Seq<T>, p: spec_fn(T) -> bool, i: int) -> int
    decreases s.len() - i,
{
    if 0 <= i < s.len() && p(s[i]) {
        run_end(s, p, i + 1)
    } else {
        i
    }
}

/// The end of a run is the one position that the run reaches and stops at.
pub proof fn lemma_run_end<T>(s: Seq<T>, p: spec_fn(T) -> bool, i: int, j: int)
    requires
        0 <= i <= j <= s.len(),
        forall|k: int| i <= k < j ==> p(#[trigger] s[k]),
        j == s.len() || !p(s[j]),
    ensures
        run_end(s, p, i) == j,
    decreases j - i,
{
    if i < j {
        lemma_run_end(s, p, i + 1, j);
    }
}

/// What a run is made of, and that it stays inside the sequence.
pub proof fn lemma_run_bounds<T>(s: Seq<T>, p: spec_fn(T) -> bool, i: int)
    requires
        0 <= i <= s.len(),
    ensures
        i <= run_end(s, p, i) <= s.len(),
        forall|k: int| i <= k < run_end(s, p, i) ==> p(#[trigger] s[k]),
        run_end(s, p, i) == s.len() || !p(s[run_end(s, p, i)]),
    decreases s.len() - i,
{
    if i < s.len() && p(s[i]) {
        lemma_run_bounds(s, p, i + 1);
    }
}

/// The characters of a string, one by one.
pub fn chars_of(s: &str) -> (r: Vec<char>)
    ensures
        r@ == s@,
{
    let mut v: Vec<char> = Vec::new();
    for c in it: s.chars()
        invariant
            it.seq() == s@,
            v@ == it.seq().take(it.index() as int),
    {
        v.push(c);
    }
    v
}

/// Whether `c` is white space.
pub fn is_whitespace(c: char) -> (r: bool)
    ensures
        r == is_white(c),
{
    let u: u32 = c as u32;
    (0x09 <= u && u <= 0x0d) || u == 0x20 || u == 0x85 || u == 0xa0 || u == 0x1680 || (0x2000 <= u
        && u <= 0x200a) || u == 0x2028 || u == 0x2029 || u == 0x202f || u == 0x205f || u == 0x3000
}

/// `String::push` of std: appends one character to the end of the string.
pub assume_specification[ String::push ](s: &mut String, c: char)
    ensures
        final(s)@ == old(s)@.push(c),
;

/// The string that a slice of characters spells.
pub fn string_of(s: &[char]) -> (r: String)
    ensures
        r@ == s@,
{
    let mut out = String::new();
    let mut i: usize = 0;
    while i < s.len()
        invariant
            i <= s.len(),
            out@ == s@.take(i as int),
        decreases s.len() - i,
    {
        out.push(s[i]);
        i += 1;
        assert(s@.take(i as int) == s@.take(i - 1).push(s@[i - 1]));
    }
    assert(s@.take(i as int) == s@);
    out
}

/// The texts that a list of slices holds.
pub open spec fn texts(v: Seq<&[char]>) -> Seq<Seq<char>> {
    Seq::new(v.len(), |i: int| v[i]@)
}

/// The texts that a list of strings holds.
pub open spec fn string_texts(v: Seq<String>) -> Seq<Seq<char>> {
    Seq::new(v.len(), |i: int| v[i]@)
}

/// The position after the run of white space that starts at `i`.
pub fn skip_white(s: &[char], i: usize) -> (r: usize)
    requires
        i <= s@.len(),
    ensures
        i <= r <= s@.len(),
        r == run_end(s@, white(), i as int),
{
    let mut j: usize = i;
    while j < s.len() && is_whitespace(s[j])
        invariant
            i <= j <= s@.len(),
            forall|k: int| i <= k < j ==> white()(#[trigger] s@[k]),
        decreases s@.len() - j,
    {
        j += 1;
    }
    proof {
        lemma_run_end(s@, white(), i as int, j as int);
    }
    j
}

/// The position after the run of other characters that starts at `i`.
pub fn skip_black(s: &[char], i: usize) -> (r: usize)
    requires
        i <= s@.len(),
    ensures
        i <= r <= s@.len(),
        r == run_end(s@, black(), i as int),
{
    let mut j: usize = i;
    while j < s.len() && !is_whitespace(s[j])
        invariant
            i <= j <= s@.len(),
            forall|k: int| i <= k < j ==> black()(#[trigger] s@[k]),
        decreases s@.len() - j,
    {
        j += 1;
    }
    proof {
        lemma_run_end(s@, black(), i as int, j as int);
    }
    j
}

/// The position of the first `d` at or after `i`, or the length where there is none.
pub fn seek(s: &[char], d: char, i: usize) -> (r: usize)
    requires
        i <= s@.len(),
    ensures
        i <= r <= s@.len(),
        r == run_end(s@, other_than(d), i as int),
        r < s@.len() ==> s@[r as int] == d,
{
    let mut j: usize = i;
    while j < s.len() && s[j] != d
        invariant
            i <= j <= s@.len(),
            forall|k: int| i <= k < j ==> other_than(d)(#[trigger] s@[k]),
        decreases s@.len() - j,
    {
        j += 1;
    }
    proof {
        lemma_run_end(s@, other_than(d), i as int, j as int);
    }
    j
}

/// The text without the white space that it starts with.
pub open spec fn trim_start_text(s: Seq<char>) -> Seq<char> {
    s.skip(run_end(s, white(), 0))
}

/// The text without the white space that it ends with.
pub open spec fn trim_end_text(s: Seq<char>) -> Seq<char>
    decreases s.len(),
{
    if s.len() > 0 && is_white(s.last()) {
        trim_end_text(s.drop_last())
    } else {
        s
    }
}

/// The text without white space at either end.
pub open spec fn trim_text(s: Seq<char>) -> Seq<char> {
    trim_end_text(trim_start_text(s))
}

pub fn trim_start(s: &[char]) -> (r: &[char])
    ensures
        r@ == trim_start_text(s@),
{
    let b: usize = skip_white(s, 0);
    slice_subrange(s, b, s.len())
}

pub fn trim_end(s: &[char]) -> (r: &[char])
    ensures
        r@ == trim_end_text(s@),
{
    let mut n: usize = s.len();
    assert(s@.take(n as int) == s@);
    while n > 0 && is_whitespace(s[n - 1])
        invariant
            n <= s@.len(),
            trim_end_text(s@.take(n as int)) == trim_end_text(s@),
        decreases n,
    {
        assert(s@.take(n as int).drop_last() == s@.take(n - 1));
        n -= 1;
    }
    slice_subrange(s, 0, n)
}

/// The slice without white space at either end.
pub fn trim(s: &[char]) -> (r: &[char])
    ensures
        r@ == trim_text(s@),
{
    trim_end(trim_start(s))
}

/// The words of a text from position `i` on: its longest runs without white space.
pub open spec fn words_from(s: Seq<char>, i: int) -> Seq<Seq<char>>
    decreases s.len() - i,
    when 0 <= i <= s.len()
    via words_from_decreases
{
    let b = run_end(s, white(), i);
    let e = run_end(s, black(), b);
    if b >= s.len() {
        Seq::empty()
    } else {
        seq![s.subrange(b, e)] + words_from(s, e)
    }
}

#[via_fn]
proof fn words_from_decreases(s: Seq<char>, i: int) {
    lemma_run_bounds(s, white(), i);
    let b = run_end(s, white(), i);
    lemma_run_bounds(s, black(), b);
}

/// The words of a text: its longest runs without white space, in order.
pub open spec fn words_of(s: Seq<char>) -> Seq<Seq<char>> {
    words_from(s, 0)
}

/// The words of a text, as parts of it.
pub fn words(s: &[char]) -> (r: Vec<&[char]>)
    ensures
        texts(r@) == words_of(s@),
{
    let mut out: Vec<&[char]> = Vec::new();
    let mut i: usize = 0;
    assert(texts(out@) + words_from(s@, 0) == words_of(s@));
    loop
        invariant
            i <= s@.len(),
            texts(out@) + words_from(s@, i as int) == words_of(s@),
        ensures
            texts(out@) == words_of(s@),
        decreases s@.len() - i,
    {
        let b: usize = skip_white(s, i);
        let e: usize = skip_black(s, b);
        if b >= s.len() {
            assert(texts(out@) + Seq::<Seq<char>>::empty() == texts(out@));
            break;
        }
        proof {
            lemma_run_bounds(s@, black(), b as int);
        }
        let ghost before = out@;
        let w = slice_subrange(s, b, e);
        out.push(w);
        assert(texts(out@) == texts(before).push(w@));
        assert(texts(out@) + words_from(s@, e as int) == texts(before) + (seq![w@] + words_from(s@, e as int)));
        i = e;
    }
    out
}

/// A line without the carriage return that it ends with.
pub open spec fn strip_cr(s: Seq<char>) -> Seq<char> {
    if s.len() > 0 && s.last() == '\r' {
        s.drop_last()
    } else {
        s
    }
}

/// The lines of a text from position `i` on. A line feed ends a line, together
/// with a carriage return before it; what follows the last line feed is a line
/// only where it is not empty.
pub open spec fn lines_from(s: Seq<char>, i: int) -> Seq<Seq<char>>
    decreases s.len() - i,
    when 0 <= i <= s.len()
    via lines_from_decreases
{
    let e = run_end(s, other_than('\n'), i);
    if i >= s.len() {
        Seq::empty()
    } else if e < s.len() {
        seq![strip_cr(s.subrange(i, e))] + lines_from(s, e + 1)
    } else {
        seq![s.subrange(i, e)]
    }
}

#[via_fn]
proof fn lines_from_decreases(s: Seq<char>, i: int) {
    lemma_run_bounds(s, other_than('\n'), i);
}

/// The lines of a text, without their line endings.
pub open spec fn lines_of(s: Seq<char>) -> Seq<Seq<char>> {
    lines_from(s, 0)
}

/// The lines of a text, as parts of it.
pub fn lines(s: &[char]) -> (r: Vec<&[char]>)
    ensures
        texts(r@) == lines_of(s@),
{
    let mut out: Vec<&[char]> = Vec::new();
    let mut i: usize = 0;
    assert(texts(out@) + lines_from(s@, 0) == lines_of(s@));
    while i < s.len()
        invariant
            i <= s@.len(),
            texts(out@) + lines_from(s@, i as int) == lines_of(s@),
        decreases s@.len() - i,
    {
        let e: usize = seek(s, '\n', i);
        let ghost before = out@;
        if e < s.len() {
            let mut f: usize = e;
            if f > i && s[f - 1] == '\r' {
                f -= 1;
            }
            let l = slice_subrange(s, i, f);
            assert(l@ == strip_cr(s@.subrange(i as int, e as int)));
            out.push(l);
            assert(texts(out@) == texts(before).push(l@));
            assert(texts(out@) + lines_from(s@, e + 1) == texts(before) + (seq![l@] + lines_from(
                s@,
                e + 1,
            )));
            i = e + 1;
        } else {
            let l = slice_subrange(s, i, e);
            out.push(l);
            assert(texts(out@) == texts(before) + seq![l@]);
            assert(lines_from(s@, e as int) == Seq::<Seq<char>>::empty());
            assert(texts(out@) + lines_from(s@, e as int) == texts(out@));
            i = e;
        }
    }
    assert(texts(out@) + Seq::<Seq<char>>::empty() == texts(out@));
    out
}

/// Whether `pat` stands in `s` at position `i`.
pub open spec fn occurs_at(s: Seq<char>, pat: Seq<char>, i: int) -> bool {
    &&& 0 <= i
    &&& i + pat.len() <= s.len()
    &&& s.subrange(i, i + pat.len()) == pat
}

/// Whether `pat` stands anywhere in `s`.
pub open spec fn contains_text(s: Seq<char>, pat: Seq<char>) -> bool {
    exists|i: int| occurs_at(s, pat, i)
}

/// The first position at or after `i` where `pat` stands in `s`.
pub open spec fn find_from(s: Seq<char>, pat: Seq<char>, i: int) -> Option<int>
    decreases s.len() + 1 - i,
{
    if i + pat.len() > s.len() {
        None
    } else if occurs_at(s, pat, i) {
        Some(i)
    } else {
        find_from(s, pat, i + 1)
    }
}

/// The first position where `pat` stands in `s`.
pub open spec fn find_text(s: Seq<char>, pat: Seq<char>) -> Option<int> {
    find_from(s, pat, 0)
}

/// A search finds the first occurrence, and finds one where there is one.
pub proof fn lemma_find_from(s: Seq<char>, pat: Seq<char>, i: int)
    requires
        0 <= i,
    ensures
        find_from(s, pat, i) matches Some(j) ==> i <= j && occurs_at(s, pat, j) && (forall|k: int|
            i <= k < j ==> !occurs_at(s, pat, k)),
        find_from(s, pat, i) is None ==> forall|k: int| i <= k ==> !occurs_at(s, pat, k),
    decreases s.len() + 1 - i,
{
    if i + pat.len() <= s.len() && !occurs_at(s, pat, i) {
        lemma_find_from(s, pat, i + 1);
    }
}

/// Where the search first succeeds, it returns that position.
pub proof fn lemma_find_skip(s: Seq<char>, pat: Seq<char>, i: int, j: int)
    requires
        0 <= i <= j,
        j + pat.len() <= s.len() + 1,
        forall|k: int| i <= k < j ==> !occurs_at(s, pat, k),
    ensures
        find_from(s, pat, i) == find_from(s, pat, j),
    decreases j - i,
{
    if i < j {
        lemma_find_skip(s, pat, i + 1, j);
    }
}

/// A text occurs in another exactly where the search for it succeeds.
pub proof fn lemma_contains_find(s: Seq<char>, pat: Seq<char>)
    ensures
        contains_text(s, pat) == (find_text(s, pat) is Some),
{
    lemma_find_from(s, pat, 0);
    if contains_text(s, pat) {
        let i = choose|i: int| occurs_at(s, pat, i);
        assert(occurs_at(s, pat, i));
    }
}

fn stands_at(s: &[char], pat: &[char], i: usize) -> (r: bool)
    requires
        i + pat@.len() <= s@.len(),
    ensures
        r == occurs_at(s@, pat@, i as int),
{
    let mut j: usize = 0;
    while j < pat.len()
        invariant
            i + pat@.len() <= s.len(),
            j <= pat@.len(),
            forall|k: int| 0 <= k < j ==> s@[i + k] == pat@[k],
        decreases pat@.len() - j,
    {
        if s[i + j] != pat[j] {
            assert(s@.subrange(i as int, i + pat@.len())[j as int] != pat@[j as int]);
            return false;
        }
        j += 1;
    }
    assert(s@.subrange(i as int, i + pat@.len()) =~= pat@);
    true
}

/// The first position where `pat` stands in `s`.
pub fn find(s: &[char], pat: &str) -> (r: Option<usize>)
    ensures
        r is Some == (find_text(s@, pat@) is Some),
        r matches Some(i) ==> find_text(s@, pat@) == Some(i as int) && occurs_at(
            s@,
            pat@,
            i as int,
        ),
{
    let p: Vec<char> = chars_of(pat);
    let mut i: usize = 0;
    proof {
        lemma_find_from(s@, pat@, 0);
    }
    if p.len() > s.len() {
        return None;
    }
    let last: usize = s.len() - p.len();
    while i <= last
        invariant
            p@ == pat@,
            last == s@.len() - p@.len(),
            i <= last + 1,
            forall|k: int| 0 <= k < i ==> !occurs_at(s@, pat@, k),
        decreases last + 1 - i,
    {
        if stands_at(s, &p, i) {
            proof {
                lemma_find_skip(s@, pat@, 0, i as int);
            }
            return Some(i);
        }
        if i == last {
            proof {
                lemma_find_skip(s@, pat@, 0, i as int);
                assert(find_from(s@, pat@, i + 1) is None);
            }
            return None;
        }
        i += 1;
    }
    None
}

/// Whether `pat` stands anywhere in `s`.
pub fn contains(s: &[char], pat: &str) -> (r: bool)
    ensures
        r == contains_text(s@, pat@),
{
    proof {
        lemma_contains_find(s@, pat@);
    }
    find(s, pat).is_some()
}

/// Whether the slice spells `t`.
pub fn is_text(s: &[char], t: &str) -> (r: bool)
    ensures
        r == (s@ == t@),
{
    let p: Vec<char> = chars_of(t);
    if p.len() != s.len() {
        return false;
    }
    let r = stands_at(s, &p, 0);
    assert(s@.subrange(0, s@.len() as int) == s@);
    r
}

/// Whether `s` starts with `pat`.
pub open spec fn starts_with_text(s: Seq<char>, pat: Seq<char>) -> bool {
    occurs_at(s, pat, 0)
}

/// Whether `s` ends with `pat`.
pub open spec fn ends_with_text(s: Seq<char>, pat: Seq<char>) -> bool {
    occurs_at(s, pat, s.len() - pat.len())
}

pub fn starts_with(s: &[char], pat: &str) -> (r: bool)
    ensures
        r == starts_with_text(s@, pat@),
{
    let p: Vec<char> = chars_of(pat);
    p.len() <= s.len() && stands_at(s, &p, 0)
}

pub fn ends_with(s: &[char], pat: &str) -> (r: bool)
    ensures
        r == ends_with_text(s@, pat@),
{
    let p: Vec<char> = chars_of(pat);
    p.len() <= s.len() && stands_at(s, &p, s.len() - p.len())
}

/// What follows `pat` at the start of `s`.
pub open spec fn after_prefix(s: Seq<char>, pat: Seq<char>) -> Option<Seq<char>> {
    if starts_with_text(s, pat) {
        Some(s.skip(pat.len() as int))
    } else {
        None
    }
}

/// What follows `pat` at the start of `s`, if `s` starts with it.
pub fn strip_prefix<'a>(s: &'a [char], pat: &str) -> (r: Option<&'a [char]>)
    ensures
        r is Some == (after_prefix(s@, pat@) is Some),
        r matches Some(t) ==> after_prefix(s@, pat@) == Some(t@),
{
    let p: Vec<char> = chars_of(pat);
    if p.len() <= s.len() && stands_at(s, &p, 0) {
        Some(slice_subrange(s, p.len(), s.len()))
    } else {
        None
    }
}

/// The text before the first `d` and the text after it.
pub open spec fn split_first(s: Seq<char>, d: char) -> Option<(Seq<char>, Seq<char>)> {
    let i = run_end(s, other_than(d), 0);
    if i < s.len() {
        Some((s.take(i), s.skip(i + 1)))
    } else {
        None
    }
}

/// The parts of `s` around its first `d`.
pub fn split_once(s: &[char], d: char) -> (r: Option<(&[char], &[char])>)
    ensures
        r is Some == (split_first(s@, d) is Some),
        r matches Some((a, b)) ==> split_first(s@, d) == Some((a@, b@)),
{
    let i: usize = seek(s, d, 0);
    if i < s.len() {
        Some((slice_subrange(s, 0, i), slice_subrange(s, i + 1, s.len())))
    } else {
        None
    }
}

/// What stands before the first `d`, or all of the text.
pub open spec fn before_first(s: Seq<char>, d: char) -> Seq<char> {
    s.take(run_end(s, other_than(d), 0))
}

/// What stands before the first `d`, or all of the slice.
pub fn before(s: &[char], d: char) -> (r: &[char])
    ensures
        r@ == before_first(s@, d),
{
    let i: usize = seek(s, d, 0);
    slice_subrange(s, 0, i)
}

/// What stands after the last `d`.
pub open spec fn after_last(s: Seq<char>, d: char) -> Option<Seq<char>>
    decreases s.len(),
{
    if s.len() == 0 {
        None
    } else if s.last() == d {
        Some(Seq::empty())
    } else {
        match after_last(s.drop_last(), d) {
            Some(t) => Some(t.push(s.last())),
            None => None,
        }
    }
}

/// The last occurrence splits the text into what precedes it and what follows.
pub proof fn lemma_after_last(s: Seq<char>, d: char, i: int)
    requires
        0 <= i < s.len(),
        s[i] == d,
        forall|k: int| i < k < s.len() ==> #[trigger] s[k] != d,
    ensures
        after_last(s, d) == Some(s.skip(i + 1)),
    decreases s.len(),
{
    if s.last() == d {
        assert(i == s.len() - 1);
        assert(s.skip(i + 1) == Seq::<char>::empty());
    } else {
        assert forall|k: int| i < k < s.drop_last().len() implies #[trigger] s.drop_last()[k] != d by {
            assert(s[k] != d);
        }
        lemma_after_last(s.drop_last(), d, i);
        assert(s.drop_last().skip(i + 1).push(s.last()) == s.skip(i + 1));
    }
}

/// Where the character does not occur there is nothing after it.
pub proof fn lemma_after_last_none(s: Seq<char>, d: char)
    requires
        forall|k: int| 0 <= k < s.len() ==> #[trigger] s[k] != d,
    ensures
        after_last(s, d) is None,
    decreases s.len(),
{
    if s.len() > 0 {
        assert forall|k: int| 0 <= k < s.drop_last().len() implies #[trigger] s.drop_last()[k] != d by {
            assert(s[k] != d);
        }
        lemma_after_last_none(s.drop_last(), d);
        assert(s.last() != d);
    }
}

/// What stands after the last `d` of `s`.
pub fn rsplit_tail(s: &[char], d: char) -> (r: Option<&[char]>)
    ensures
        r is Some == (after_last(s@, d) is Some),
        r matches Some(t) ==> after_last(s@, d) == Some(t@),
{
    let mut n: usize = s.len();
    while n > 0
        invariant
            n <= s@.len(),
            forall|k: int| n <= k < s@.len() ==> #[trigger] s@[k] != d,
        decreases n,
    {
        if s[n - 1] == d {
            proof {
                lemma_after_last(s@, d, n - 1);
            }
            return Some(slice_subrange(s, n, s.len()));
        }
        n -= 1;
    }
    proof {
        lemma_after_last_none(s@, d);
    }
    None
}

/// What stands between the first and the second occurrence of `pat`, or up to the end.
pub open spec fn second_part(s: Seq<char>, pat: Seq<char>) -> Option<Seq<char>> {
    match find_text(s, pat) {
        Some(i) => {
            let rest = s.skip(i + pat.len());
            match find_text(rest, pat) {
                Some(j) => Some(rest.take(j)),
                None => Some(rest),
            }
        },
        None => None,
    }
}

/// What stands between the first two occurrences of `pat`.
pub fn split_second<'a>(s: &'a [char], pat: &str) -> (r: Option<&'a [char]>)
    ensures
        r is Some == (second_part(s@, pat@) is Some),
        r matches Some(t) ==> second_part(s@, pat@) == Some(t@),
{
    match find(s, pat) {
        Some(i) => {
            let width: usize = chars_of(pat).len();
            let end: usize = s.len();
            assert(i + width <= end);
            let rest = slice_subrange(s, i + width, end);
            match find(rest, pat) {
                Some(j) => Some(slice_subrange(rest, 0, j)),
                None => Some(rest),
            }
        },
        None => None,
    }
}

/// The predicate "is the character `d`".
pub open spec fn equal_to(d: char) -> spec_fn(char) -> bool {
    |c: char| c == d
}

/// The text without the `d`s that it starts with.
pub open spec fn strip_start_text(s: Seq<char>, d: char) -> Seq<char> {
    s.skip(run_end(s, equal_to(d), 0))
}

/// The text without the `d`s that it ends with.
pub open spec fn strip_end_text(s: Seq<char>, d: char) -> Seq<char>
    decreases s.len(),
{
    if s.len() > 0 && s.last() == d {
        strip_end_text(s.drop_last(), d)
    } else {
        s
    }
}

/// The slice without the `d`s that it starts with.
pub fn strip_start(s: &[char], d: char) -> (r: &[char])
    ensures
        r@ == strip_start_text(s@, d),
{
    let mut j: usize = 0;
    while j < s.len() && s[j] == d
        invariant
            j <= s@.len(),
            forall|k: int| 0 <= k < j ==> equal_to(d)(#[trigger] s@[k]),
        decreases s@.len() - j,
    {
        j += 1;
    }
    proof {
        lemma_run_end(s@, equal_to(d), 0, j as int);
    }
    slice_subrange(s, j, s.len())
}

/// The slice without the `d`s that it ends with.
pub fn strip_end(s: &[char], d: char) -> (r: &[char])
    ensures
        r@ == strip_end_text(s@, d),
{
    let mut n: usize = s.len();
    assert(s@.take(n as int) == s@);
    while n > 0 && s[n - 1] == d
        invariant
            n <= s@.len(),
            strip_end_text(s@.take(n as int), d) == strip_end_text(s@, d),
        decreases n,
    {
        assert(s@.take(n as int).drop_last() == s@.take(n - 1));
        n -= 1;
    }
    slice_subrange(s, 0, n)
}

/// What `f` finds in the first of some lines in which it finds anything.
pub open spec fn first_some<A>(ls: Seq<Seq<char>>, f: spec_fn(Seq<char>) -> Option<A>) -> Option<A>
    decreases ls.len(),
{
    if ls.len() == 0 {
        None
    } else if f(ls[0]) is Some {
        f(ls[0])
    } else {
        first_some(ls.skip(1), f)
    }
}

/// What `f` finds in the last of some lines in which it finds anything.
pub open spec fn last_some<A>(ls: Seq<Seq<char>>, f: spec_fn(Seq<char>) -> Option<A>) -> Option<A>
    decreases ls.len(),
{
    if ls.len() == 0 {
        None
    } else if f(ls.last()) is Some {
        f(ls.last())
    } else {
        last_some(ls.drop_last(), f)
    }
}

/// Some texts one after the other, with `sep` between them.
pub open spec fn joined(parts: Seq<Seq<char>>, sep: Seq<char>) -> Seq<char>
    decreases parts.len(),
{
    if parts.len() == 0 {
        Seq::empty()
    } else if parts.len() == 1 {
        parts[0]
    } else {
        joined(parts.drop_last(), sep) + sep + parts.last()
    }
}

/// Some strings one after the other, with `sep` between them.
pub fn join(parts: &Vec<String>, sep: &str) -> (r: String)
    ensures
        r@ == joined(string_texts(parts@), sep@),
{
    let mut out = String::new();
    let ghost all = string_texts(parts@);
    let mut i: usize = 0;
    while i < parts.len()
        invariant
            all == string_texts(parts@),
            i <= parts@.len(),
            out@ == joined(all.take(i as int), sep@),
        decreases parts@.len() - i,
    {
        assert(all.take(i + 1).drop_last() == all.take(i as int));
        assert(all.take(i + 1).last() == parts@[i as int]@);
        let ghost before = out@;
        if i > 0 {
            out.append(sep);
        }
        out.append(parts[i].as_str());
        assert(i == 0 ==> out@ == all.take(1)[0]);
        i += 1;
    }
    assert(all.take(i as int) == all);
    out
}

/// Whether a text holds no line feed.
pub open spec fn one_line(s: Seq<char>) -> bool {
    forall|i: int| 0 <= i < s.len() ==> #[trigger] s[i] != '\n'
}

/// A run that starts behind `p` ends where it ends without `p`.
pub proof fn lemma_run_behind<T>(p: Seq<T>, s: Seq<T>, f: spec_fn(T) -> bool, j: int)
    requires
        0 <= j <= s.len(),
    ensures
        run_end(p + s, f, p.len() + j) == p.len() + run_end(s, f, j),
{
    lemma_run_bounds(s, f, j);
    let e = run_end(s, f, j);
    assert forall|k: int| p.len() + j <= k < p.len() + e implies f(#[trigger] (p + s)[k]) by {
        assert((p + s)[k] == s[k - p.len()]);
    }
    lemma_run_end(p + s, f, p.len() + j, p.len() + e);
}

/// A run that stops before the end of `s`, or at the end of `s` before an element
/// that stops it, ends where it ends without what follows `s`.
pub proof fn lemma_run_before<T>(s: Seq<T>, q: Seq<T>, f: spec_fn(T) -> bool, i: int)
    requires
        0 <= i <= s.len(),
        run_end(s, f, i) < s.len() || q.len() == 0 || !f(q[0]),
    ensures
        run_end(s + q, f, i) == run_end(s, f, i),
{
    lemma_run_bounds(s, f, i);
    let e = run_end(s, f, i);
    assert forall|k: int| i <= k < e implies f(#[trigger] (s + q)[k]) by {
        assert((s + q)[k] == s[k]);
    }
    if e < s.len() {
        assert((s + q)[e] == s[e]);
    } else if q.len() > 0 {
        assert((s + q)[e] == q[0]);
    }
    lemma_run_end(s + q, f, i, e);
}

proof fn lemma_words_behind(p: Seq<char>, s: Seq<char>, j: int)
    requires
        0 <= j <= s.len(),
    ensures
        words_from(p + s, p.len() + j) == words_from(s, j),
    decreases s.len() - j,
{
    let b = run_end(s, white(), j);
    lemma_run_bounds(s, white(), j);
    let e = run_end(s, black(), b);
    lemma_run_bounds(s, black(), b);
    lemma_run_behind(p, s, white(), j);
    lemma_run_behind(p, s, black(), b);
    if b < s.len() {
        lemma_words_behind(p, s, e);
        assert((p + s).subrange(p.len() + b, p.len() + e) =~= s.subrange(b, e));
    }
}

proof fn lemma_words_split(a: Seq<char>, c: char, b: Seq<char>, i: int)
    requires
        0 <= i <= a.len(),
        is_white(c),
    ensures
        words_from(a + seq![c] + b, i) == words_from(a, i) + words_from(b, 0),
    decreases a.len() - i,
{
    let q = seq![c] + b;
    let s = a + seq![c] + b;
    assert(s =~= a + q);
    let x = run_end(a, white(), i);
    lemma_run_bounds(a, white(), i);
    if x < a.len() {
        lemma_run_before(a, q, white(), i);
        let y = run_end(a, black(), x);
        lemma_run_bounds(a, black(), x);
        lemma_run_before(a, q, black(), x);
        lemma_words_split(a, c, b, y);
        assert(s.subrange(x, y) =~= a.subrange(x, y));
        assert((seq![a.subrange(x, y)] + words_from(a, y)) + words_from(b, 0) =~= seq![
            a.subrange(x, y),
        ] + (words_from(a, y) + words_from(b, 0)));
    } else {
        let p = a + seq![c];
        assert(s =~= p + b);
        // The white space at the end of `a`, the separator and what starts `b`.
        let z = run_end(b, white(), 0);
        lemma_run_bounds(b, white(), 0);
        assert forall|k: int| i <= k < p.len() + z implies white()(#[trigger] s[k]) by {
            if k < a.len() {
                assert(s[k] == a[k]);
            } else if k > a.len() {
                assert(s[k] == b[k - p.len()]);
            }
        }
        if z < b.len() {
            assert(s[p.len() + z] == b[z]);
        }
        lemma_run_end(s, white(), i, p.len() + z);
        lemma_run_behind(p, b, black(), z);
        let e = run_end(b, black(), z);
        lemma_run_bounds(b, black(), z);
        assert(words_from(a, i) =~= Seq::<Seq<char>>::empty());
        if z < b.len() {
            lemma_words_behind(p, b, e);
            assert(s.subrange(p.len() + z, p.len() + e) =~= b.subrange(z, e));
        }
        assert(words_from(s, i) =~= words_from(b, 0));
        assert(Seq::<Seq<char>>::empty() + words_from(b, 0) =~= words_from(b, 0));
    }
}

/// White space separates words: the words of two texts with white space between them
/// are the words of the one and then those of the other.
pub proof fn law_white_space_separates_words(a: Seq<char>, c: char, b: Seq<char>)
    requires
        is_white(c),
    ensures
        words_of(a + seq![c] + b) == words_of(a) + words_of(b),
{
    lemma_words_split(a, c, b, 0);
}

/// A text without white space is one word, and the empty text has none.
pub proof fn law_text_without_white_space_is_a_word(w: Seq<char>)
    requires
        forall|i: int| 0 <= i < w.len() ==> !is_white(#[trigger] w[i]),
    ensures
        words_of(w) == if w.len() == 0 {
            Seq::<Seq<char>>::empty()
        } else {
            seq![w]
        },
{
    if w.len() > 0 {
        lemma_run_end(w, white(), 0, 0);
        assert forall|k: int| 0 <= k < w.len() implies black()(#[trigger] w[k]) by {
            assert(!is_white(w[k]));
        }
        lemma_run_end(w, black(), 0, w.len() as int);
        lemma_run_end(w, white(), w.len() as int, w.len() as int);
        assert(w.subrange(0, w.len() as int) =~= w);
        assert(words_from(w, w.len() as int) =~= Seq::<Seq<char>>::empty());
        assert(seq![w] + Seq::<Seq<char>>::empty() =~= seq![w]);
    } else {
        lemma_run_end(w, white(), 0, 0);
    }
}

/// Which characters are white space, by their numbers.
pub proof fn law_white_space_by_number(c: char)
    ensures
        is_white(c) == set![
            0x9u32,
            0xa,
            0xb,
            0xc,
            0xd,
            0x20,
            0x85,
            0xa0,
            0x1680,
            0x2000,
            0x2001,
            0x2002,
            0x2003,
            0x2004,
            0x2005,
            0x2006,
            0x2007,
            0x2008,
            0x2009,
            0x200a,
            0x2028,
            0x2029,
            0x202f,
            0x205f,
            0x3000,
        ].contains(c as u32),
{
}

proof fn lemma_trim_end(s: Seq<char>, b: Seq<char>)
    requires
        forall|i: int| 0 <= i < b.len() ==> is_white(#[trigger] b[i]),
        s.len() == 0 || !is_white(s.last()),
    ensures
        trim_end_text(s + b) == s,
    decreases b.len(),
{
    if b.len() == 0 {
        assert(s + b =~= s);
    } else {
        assert(is_white(b[b.len() - 1]));
        assert((s + b).drop_last() =~= s + b.drop_last());
        assert forall|i: int| 0 <= i < b.drop_last().len() implies is_white(
            #[trigger] b.drop_last()[i],
        ) by {
            assert(is_white(b[i]));
        }
        lemma_trim_end(s, b.drop_last());
    }
}

/// White space around a text is trimmed, and nothing else: what stands between white
/// space and starts and ends with other characters is what is left.
pub proof fn law_trim_takes_white_space_away(a: Seq<char>, s: Seq<char>, b: Seq<char>)
    requires
        forall|i: int| 0 <= i < a.len() ==> is_white(#[trigger] a[i]),
        forall|i: int| 0 <= i < b.len() ==> is_white(#[trigger] b[i]),
        s.len() > 0 ==> !is_white(s[0]) && !is_white(s.last()),
    ensures
        trim_text(a + s + b) == s,
        s.len() > 0 ==> trim_start_text(a + s + b) == s + b,
        s.len() > 0 ==> trim_end_text(a + s + b) == a + s,
{
    let t = a + s + b;
    let n = if s.len() > 0 {
        a.len()
    } else {
        t.len()
    };
    assert forall|k: int| 0 <= k < n implies white()(#[trigger] t[k]) by {
        if k < a.len() {
            assert(t[k] == a[k]);
        } else {
            assert(t[k] == b[k - a.len()]);
        }
    }
    if s.len() > 0 {
        assert(t[a.len() as int] == s[0]);
    }
    lemma_run_end(t, white(), 0, n as int);
    if s.len() > 0 {
        assert(t.skip(n as int) =~= s + b);
        assert((a + s).last() == s.last());
        lemma_trim_end(a + s, b);
    } else {
        assert(t.skip(n as int) =~= s);
    }
    lemma_trim_end(s, b);
    if s.len() == 0 {
        assert(s + Seq::<char>::empty() =~= s);
        lemma_trim_end(s, Seq::empty());
    }
}

proof fn lemma_lines_behind(p: Seq<char>, s: Seq<char>, j: int)
    requires
        0 <= j <= s.len(),
    ensures
        lines_from(p + s, p.len() + j) == lines_from(s, j),
    decreases s.len() - j,
{
    let e = run_end(s, other_than('\n'), j);
    lemma_run_bounds(s, other_than('\n'), j);
    lemma_run_behind(p, s, other_than('\n'), j);
    if j < s.len() {
        assert((p + s).subrange(p.len() + j, p.len() + e) =~= s.subrange(j, e));
        if e < s.len() {
            lemma_lines_behind(p, s, e + 1);
        }
    }
}

/// A line feed ends a line: what is up to it, without a carriage return before it, is
/// a line, and the lines of what follows it follow.
pub proof fn law_line_feed_ends_a_line(l: Seq<char>, rest: Seq<char>)
    requires
        forall|i: int| 0 <= i < l.len() ==> #[trigger] l[i] != '\n',
    ensures
        lines_of(l + seq!['\n'] + rest) == seq![
            if l.len() > 0 && l.last() == '\r' {
                l.drop_last()
            } else {
                l
            },
        ] + lines_of(rest),
{
    let s = l + seq!['\n'] + rest;
    assert forall|k: int| 0 <= k < l.len() implies other_than('\n')(#[trigger] s[k]) by {
        assert(s[k] == l[k]);
    }
    assert(s[l.len() as int] == '\n');
    lemma_run_end(s, other_than('\n'), 0, l.len() as int);
    assert(s.subrange(0, l.len() as int) =~= l);
    let p = l + seq!['\n'];
    assert(s =~= p + rest);
    lemma_lines_behind(p, rest, 0);
}

/// A text without a line feed is one line, and the empty text has none.
pub proof fn law_text_without_line_feed_is_a_line(l: Seq<char>)
    requires
        forall|i: int| 0 <= i < l.len() ==> #[trigger] l[i] != '\n',
    ensures
        lines_of(l) == if l.len() == 0 {
            Seq::<Seq<char>>::empty()
        } else {
            seq![l]
        },
{
    assert forall|k: int| 0 <= k < l.len() implies other_than('\n')(#[trigger] l[k]) by {
        assert(l[k] != '\n');
    }
    lemma_run_end(l, other_than('\n'), 0, l.len() as int);
    assert(l.subrange(0, l.len() as int) =~= l);
}

/// A text holds another exactly where it is that other with something before and
/// something behind it.
pub proof fn law_contains_is_in_between(s: Seq<char>, pat: Seq<char>)
    ensures
        contains_text(s, pat) == exists|a: Seq<char>, b: Seq<char>| s == #[trigger] (a + pat + b),
{
    if contains_text(s, pat) {
        let i = choose|i: int| occurs_at(s, pat, i);
        let a = s.take(i);
        let b = s.skip(i + pat.len());
        assert(s.subrange(i, i + pat.len()) == pat);
        assert(s =~= a + pat + b);
    }
    if exists|a: Seq<char>, b: Seq<char>| s == #[trigger] (a + pat + b) {
        let (a, b) = choose|a: Seq<char>, b: Seq<char>| s == #[trigger] (a + pat + b);
        assert(s.subrange(a.len() as int, (a.len() + pat.len()) as int) =~= pat);
        assert(occurs_at(s, pat, a.len() as int));
    }
}

/// The first occurrence of a text is found: where `pat` stands behind `a`, and nowhere
/// earlier, the length of `a` is found.
pub proof fn law_first_occurrence_is_found(a: Seq<char>, pat: Seq<char>, b: Seq<char>)
    requires
        forall|x: Seq<char>, y: Seq<char>|
            x.len() < a.len() ==> a + pat + b != #[trigger] (x + pat + y),
    ensures
        find_text(a + pat + b, pat) == Some(a.len() as int),
{
    let s = a + pat + b;
    assert(s.subrange(a.len() as int, (a.len() + pat.len()) as int) =~= pat);
    assert(occurs_at(s, pat, a.len() as int));
    lemma_find_from(s, pat, 0);
    if let Some(i) = find_text(s, pat) {
        if i < a.len() {
            let x = s.take(i);
            let y = s.skip(i + pat.len());
            assert(s.subrange(i, i + pat.len()) == pat);
            assert(s =~= x + pat + y);
        }
    }
}

/// A text that stands nowhere is not found.
pub proof fn law_absent_text_is_not_found(s: Seq<char>, pat: Seq<char>)
    requires
        forall|x: Seq<char>, y: Seq<char>| s != #[trigger] (x + pat + y),
    ensures
        find_text(s, pat) is None,
        !contains_text(s, pat),
{
    lemma_find_from(s, pat, 0);
    law_contains_is_in_between(s, pat);
    lemma_contains_find(s, pat);
}

/// A text is split at the first of some characters, and what stands behind the last
/// of them, or before the first, is told.
pub proof fn law_text_is_split_at_a_character(a: Seq<char>, d: char, b: Seq<char>)
    ensures
        (forall|i: int| 0 <= i < a.len() ==> #[trigger] a[i] != d) ==> split_first(
            a + seq![d] + b,
            d,
        ) == Some((a, b)) && before_first(a + seq![d] + b, d) == a,
        (forall|i: int| 0 <= i < b.len() ==> #[trigger] b[i] != d) ==> after_last(
            a + seq![d] + b,
            d,
        ) == Some(b),
        (forall|i: int| 0 <= i < a.len() ==> #[trigger] a[i] != d) ==> split_first(a, d) is None
            && before_first(a, d) == a && after_last(a, d) is None,
{
    let s = a + seq![d] + b;
    assert(s[a.len() as int] == d);
    if forall|i: int| 0 <= i < a.len() ==> #[trigger] a[i] != d {
        assert forall|k: int| 0 <= k < a.len() implies other_than(d)(#[trigger] s[k]) by {
            assert(s[k] == a[k]);
        }
        lemma_run_end(s, other_than(d), 0, a.len() as int);
        assert(s.take(a.len() as int) =~= a);
        assert(s.skip(a.len() as int + 1) =~= b);
        assert forall|k: int| 0 <= k < a.len() implies other_than(d)(#[trigger] a[k]) by {
            assert(a[k] != d);
        }
        lemma_run_end(a, other_than(d), 0, a.len() as int);
        assert(a.take(a.len() as int) =~= a);
        lemma_after_last_none(a, d);
    }
    if forall|i: int| 0 <= i < b.len() ==> #[trigger] b[i] != d {
        assert forall|k: int| a.len() < k < s.len() implies #[trigger] s[k] != d by {
            assert(s[k] == b[k - a.len() - 1]);
        }
        lemma_after_last(s, d, a.len() as int);
        assert(s.skip(a.len() as int + 1) =~= b);
    }
}

/// A text starts with another, or ends with it, exactly where it is that other with
/// something behind, or before, it; what follows the start is what is behind it.
pub proof fn law_start_and_end_of_a_text(s: Seq<char>, pat: Seq<char>)
    ensures
        starts_with_text(s, pat) == exists|b: Seq<char>| s == #[trigger] (pat + b),
        ends_with_text(s, pat) == exists|a: Seq<char>| s == #[trigger] (a + pat),
        forall|b: Seq<char>| s == #[trigger] (pat + b) ==> after_prefix(s, pat) == Some(b),
{
    if starts_with_text(s, pat) {
        assert(s.subrange(0, pat.len() as int) == pat);
        assert(s =~= pat + s.skip(pat.len() as int));
    }
    if ends_with_text(s, pat) {
        let i = s.len() - pat.len();
        assert(s.subrange(i, i + pat.len()) == pat);
        assert(s =~= s.take(i) + pat);
    }
    assert forall|b: Seq<char>| s == #[trigger] (pat + b) implies after_prefix(s, pat) == Some(
        b,
    ) && starts_with_text(s, pat) by {
        assert(s.subrange(0, pat.len() as int) =~= pat);
        assert(s.skip(pat.len() as int) =~= b);
    }
    assert forall|a: Seq<char>| s == #[trigger] (a + pat) implies ends_with_text(s, pat) by {
        assert(s.subrange(a.len() as int, (a.len() + pat.len()) as int) =~= pat);
    }
}

/// The characters that are stripped from an end of a text are those that stand there,
/// and no others.
pub proof fn law_characters_are_stripped(n: nat, s: Seq<char>, m: nat, d: char)
    requires
        s.len() > 0 ==> s[0] != d && s.last() != d,
    ensures
        s.len() > 0 ==> strip_start_text(Seq::new(n, |i: int| d) + s, d) == s,
        strip_end_text(s + Seq::new(m, |i: int| d), d) == s,
    decreases m,
{
    let a = Seq::new(n, |i: int| d);
    let t = a + s;
    if s.len() > 0 {
        assert forall|k: int| 0 <= k < n implies equal_to(d)(#[trigger] t[k]) by {
            assert(t[k] == a[k]);
        }
        assert(t[n as int] == s[0]);
        lemma_run_end(t, equal_to(d), 0, n as int);
        assert(t.skip(n as int) =~= s);
    }
    let b = Seq::new(m, |i: int| d);
    if m > 0 {
        let c = Seq::new((m - 1) as nat, |i: int| d);
        assert((s + b).drop_last() =~= s + c);
        assert((s + b).last() == d);
        law_characters_are_stripped(n, s, (m - 1) as nat, d);
    } else {
        assert(s + b =~= s);
    }
}

/// Some texts are joined by a separator between each two of them: a list in two parts
/// gives the one, the separator and the other.
pub proof fn law_joined_in_two_parts(a: Seq<Seq<char>>, b: Seq<Seq<char>>, sep: Seq<char>)
    requires
        a.len() > 0,
        b.len() > 0,
    ensures
        joined(a + b, sep) == joined(a, sep) + sep + joined(b, sep),
        joined(seq![a[0]], sep) == a[0],
    decreases b.len(),
{
    let s = a + b;
    assert(s.last() == b.last());
    if b.len() == 1 {
        assert(s.drop_last() =~= a);
    } else {
        assert(s.drop_last() =~= a + b.drop_last());
        law_joined_in_two_parts(a, b.drop_last(), sep);
        let x = joined(a, sep);
        let y = joined(b.drop_last(), sep);
        assert((x + sep + y) + sep + b.last() =~= x + sep + (y + sep + b.last()));
    }
}

/// What stands between the first two occurrences of a text is told; with one
/// occurrence, what stands behind it.
pub proof fn law_second_part_is_in_between(
    a: Seq<char>,
    pat: Seq<char>,
    b: Seq<char>,
    c: Seq<char>,
)
    requires
        find_text(a + pat + (b + pat + c), pat) == Some(a.len() as int),
        find_text(b + pat + c, pat) == Some(b.len() as int),
    ensures
        second_part(a + pat + (b + pat + c), pat) == Some(b),
{
    let s = a + pat + (b + pat + c);
    assert(s.skip((a.len() + pat.len()) as int) =~= b + pat + c);
    assert((b + pat + c).take(b.len() as int) =~= b);
}

/// A text that holds another holds what that other holds.
pub proof fn lemma_contains_trans(s: Seq<char>, t: Seq<char>, p: Seq<char>)
    requires
        contains_text(s, t),
        contains_text(t, p),
    ensures
        contains_text(s, p),
{
    let i = choose|i: int| occurs_at(s, t, i);
    let j = choose|j: int| occurs_at(t, p, j);
    assert(s.subrange(i, i + t.len()) == t);
    assert(s.subrange(i + j, i + j + p.len()) =~= t.subrange(j, j + p.len()));
    assert(occurs_at(s, p, i + j));
}

/// A text between two others is held by the whole.
pub proof fn lemma_contains_between(a: Seq<char>, p: Seq<char>, b: Seq<char>)
    ensures
        contains_text(a + p + b, p),
{
    let s = a + p + b;
    assert(s.subrange(a.len() as int, (a.len() + p.len()) as int) =~= p);
    assert(occurs_at(s, p, a.len() as int));
}

/// A text starts with its first part and ends with its last.
pub proof fn lemma_first_and_last_part(a: Seq<char>, b: Seq<char>)
    ensures
        starts_with_text(a + b, a),
        ends_with_text(a + b, b),
{
    let s = a + b;
    assert(s.subrange(0, a.len() as int) =~= a);
    assert(s.subrange(a.len() as int, s.len() as int) =~= b);
}

/// A list of texts has the text of each part at the place of the part.
pub proof fn law_texts_stand_where_their_parts_do(v: Seq<&[char]>, w: Seq<String>, i: int)
    ensures
        texts(v).len() == v.len(),
        0 <= i < v.len() ==> texts(v)[i] == v[i]@,
        string_texts(w).len() == w.len(),
        0 <= i < w.len() ==> string_texts(w)[i] == w[i]@,
{
}

/// A text is one line exactly where it does not hold a line feed.
pub proof fn law_one_line_holds_no_line_feed(a: Seq<char>, b: Seq<char>)
    ensures
        !one_line(a + seq!['\n'] + b),
        one_line(a) && one_line(b) ==> one_line(a + b),
        one_line(Seq::empty()),
{
    let s = a + seq!['\n'] + b;
    assert(s[a.len() as int] == '\n');
}

/// What is found in the first, or in the last, of some lines is what is found in a line
/// before, or behind, which nothing is found; in lines without a find there is none.
pub proof fn law_first_and_last_find<A>(
    x: Seq<Seq<char>>,
    l: Seq<char>,
    y: Seq<Seq<char>>,
    f: spec_fn(Seq<char>) -> Option<A>,
)
    ensures
        (forall|i: int| 0 <= i < x.len() ==> f(#[trigger] x[i]) is None) ==> first_some(
            x + seq![l] + y,
            f,
        ) == if f(l) is Some {
            f(l)
        } else {
            first_some(y, f)
        },
        (forall|i: int| 0 <= i < y.len() ==> f(#[trigger] y[i]) is None) ==> last_some(
            x + seq![l] + y,
            f,
        ) == if f(l) is Some {
            f(l)
        } else {
            last_some(x, f)
        },
    decreases x.len() + y.len(),
{
    let s = x + seq![l] + y;
    if forall|i: int| 0 <= i < x.len() ==> f(#[trigger] x[i]) is None {
        if x.len() == 0 {
            assert(s[0] == l);
            assert(s.skip(1) =~= y);
        } else {
            assert(s[0] == x[0]);
            assert(f(x[0]) is None);
            let x1 = x.skip(1);
            assert(s.skip(1) =~= x1 + seq![l] + y);
            assert forall|i: int| 0 <= i < x1.len() implies f(#[trigger] x1[i]) is None by {
                assert(f(x[i + 1]) is None);
            }
            law_first_and_last_find(x1, l, y, f);
        }
    }
    if forall|i: int| 0 <= i < y.len() ==> f(#[trigger] y[i]) is None {
        if y.len() == 0 {
            assert(s.last() == l);
            assert(s.drop_last() =~= x);
        } else {
            assert(s.last() == y.last());
            assert(f(y[y.len() - 1]) is None);
            let y1 = y.drop_last();
            assert(s.drop_last() =~= x + seq![l] + y1);
            assert forall|i: int| 0 <= i < y1.len() implies f(#[trigger] y1[i]) is None by {
                assert(f(y[i]) is None);
            }
            law_first_and_last_find(x, l, y1, f);
        }
    }
}


/// With one occurrence of a text, what stands behind it is told; with none, nothing.
pub proof fn law_last_part_goes_to_the_end(a: Seq<char>, pat: Seq<char>, b: Seq<char>)
    ensures
        find_text(a + pat + b, pat) == Some(a.len() as int) && find_text(b, pat) is None
            ==> second_part(a + pat + b, pat) == Some(b),
        find_text(a, pat) is None ==> second_part(a, pat) is None,
{
    let s = a + pat + b;
    assert(s.skip((a.len() + pat.len()) as int) =~= b);
}

} // verus!
