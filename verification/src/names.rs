//! Names in their order: the order of texts, sets of names that can be listed in
//! it, and tables from names to numbers.

use vstd::prelude::*;
use vstd::string::*;
use crate::text::{chars_of, is_text, string_texts};

verus! {

/// Whether `a` comes before `b`: by the first character in which they differ, and
/// a text comes before those that it starts.
pub open spec fn comes_before(a: Seq<char>, b: Seq<char>) -> bool
    decreases a.len(),
{
    if b.len() == 0 {
        false
    } else if a.len() == 0 {
        true
    } else if a[0] != b[0] {
        a[0] < b[0]
    } else {
        comes_before(a.skip(1), b.skip(1))
    }
}

/// No text comes before itself, and of two texts that differ exactly one comes
/// before the other.
pub proof fn law_order_is_total(a: Seq<char>, b: Seq<char>)
    ensures
        !comes_before(a, a),
        a != b ==> comes_before(a, b) != comes_before(b, a),
    decreases a.len(),
{
    if a.len() > 0 {
        law_order_is_total(a.skip(1), a.skip(1));
    }
    if a.len() > 0 && b.len() > 0 && a[0] == b[0] {
        law_order_is_total(a.skip(1), b.skip(1));
        if a.skip(1) == b.skip(1) {
            assert(a =~= seq![a[0]] + a.skip(1));
            assert(b =~= seq![b[0]] + b.skip(1));
        }
    } else if a.len() == 0 && b.len() == 0 {
        assert(a =~= b);
    }
}

/// What comes before a text comes before all that the text comes before.
pub proof fn law_order_is_transitive(a: Seq<char>, b: Seq<char>, c: Seq<char>)
    requires
        comes_before(a, b),
        comes_before(b, c),
    ensures
        comes_before(a, c),
    decreases a.len(),
{
    if a.len() > 0 && a[0] == b[0] && b[0] == c[0] {
        law_order_is_transitive(a.skip(1), b.skip(1), c.skip(1));
    }
}

/// What stands before two texts makes no difference to their order.
pub proof fn lemma_order_behind(p: Seq<char>, a: Seq<char>, b: Seq<char>)
    ensures
        comes_before(p + a, p + b) == comes_before(a, b),
    decreases p.len(),
{
    if p.len() > 0 {
        lemma_order_behind(p.skip(1), a, b);
        assert((p + a).skip(1) =~= p.skip(1) + a);
        assert((p + b).skip(1) =~= p.skip(1) + b);
    } else {
        assert(p + a =~= a);
        assert(p + b =~= b);
    }
}

/// What stands behind two texts of one length makes no difference to their order.
pub proof fn lemma_order_before(a: Seq<char>, b: Seq<char>, q: Seq<char>)
    requires
        a.len() == b.len(),
    ensures
        comes_before(a + q, b + q) == comes_before(a, b),
    decreases a.len(),
{
    if a.len() > 0 {
        lemma_order_before(a.skip(1), b.skip(1), q);
        assert((a + q).skip(1) =~= a.skip(1) + q);
        assert((b + q).skip(1) =~= b.skip(1) + q);
    } else {
        assert(a + q =~= q);
        assert(b + q =~= q);
        law_order_is_total(q, q);
    }
}

/// Whether `a` comes before `b`.
pub fn before_text(a: &str, b: &str) -> (r: bool)
    ensures
        r == comes_before(a@, b@),
{
    let x = chars_of(a);
    let y = chars_of(b);
    let mut i: usize = 0;
    assert(x@.skip(0) == a@ && y@.skip(0) == b@);
    while i < x.len() && i < y.len() && x[i] == y[i]
        invariant
            i <= x@.len(),
            i <= y@.len(),
            comes_before(x@.skip(i as int), y@.skip(i as int)) == comes_before(a@, b@),
        decreases x@.len() - i,
    {
        assert(x@.skip(i as int).skip(1) == x@.skip(i + 1));
        assert(y@.skip(i as int).skip(1) == y@.skip(i + 1));
        i += 1;
    }
    if i >= y.len() {
        false
    } else if i >= x.len() {
        true
    } else {
        x[i] < y[i]
    }
}

/// Whether some texts stand in their order, none of them twice.
pub open spec fn ascending(v: Seq<Seq<char>>) -> bool {
    forall|i: int, j: int| 0 <= i < j < v.len() ==> comes_before(#[trigger] v[i], #[trigger] v[j])
}

/// Whether a list holds the texts of a set, in their order and each of them once.
pub open spec fn in_order(v: Seq<Seq<char>>, s: Set<Seq<char>>) -> bool {
    &&& ascending(v)
    &&& v.to_set() == s
}

/// A set has one list that holds its texts in order.
pub proof fn law_one_list_in_order(a: Seq<Seq<char>>, b: Seq<Seq<char>>, s: Set<Seq<char>>)
    requires
        in_order(a, s),
        in_order(b, s),
    ensures
        a == b,
    decreases a.len(),
{
    if a.len() == 0 {
        if b.len() > 0 {
            assert(b.to_set().contains(b[0]));
            assert(a.to_set().contains(b[0]));
        }
    } else {
        assert(a.to_set().contains(a.last()));
        assert(b.to_set().contains(a.last()));
        assert(b.to_set().contains(b.last()));
        assert(a.to_set().contains(b.last()));
        let i = choose|i: int| 0 <= i < b.len() && b[i] == a.last();
        let j = choose|j: int| 0 <= j < a.len() && a[j] == b.last();
        law_order_is_total(a.last(), b.last());
        if i < b.len() - 1 {
            assert(comes_before(b[i], b[b.len() - 1]));
        }
        if j < a.len() - 1 {
            assert(comes_before(a[j], a[a.len() - 1]));
        }
        assert(a.last() == b.last());
        let x = a.drop_last();
        let y = b.drop_last();
        assert forall|t: Seq<char>| x.to_set().contains(t) implies y.to_set().contains(t) by {
            let k = choose|k: int| 0 <= k < x.len() && x[k] == t;
            assert(a[k] == t);
            assert(comes_before(a[k], a[a.len() - 1]));
            assert(a.to_set().contains(t));
            assert(b.to_set().contains(t));
            let m = choose|m: int| 0 <= m < b.len() && b[m] == t;
            law_order_is_total(t, t);
            assert(y[m] == t);
        }
        assert forall|t: Seq<char>| y.to_set().contains(t) implies x.to_set().contains(t) by {
            let k = choose|k: int| 0 <= k < y.len() && y[k] == t;
            assert(b[k] == t);
            assert(comes_before(b[k], b[b.len() - 1]));
            assert(b.to_set().contains(t));
            assert(a.to_set().contains(t));
            let m = choose|m: int| 0 <= m < a.len() && a[m] == t;
            law_order_is_total(t, t);
            assert(x[m] == t);
        }
        assert(x.to_set() =~= y.to_set());
        law_one_list_in_order(x, y, x.to_set());
        assert(a =~= x.push(a.last()));
        assert(b =~= y.push(b.last()));
    }
}

/// The list that holds the texts of a set in their order.
pub open spec fn ordered(s: Set<Seq<char>>) -> Seq<Seq<char>> {
    choose|v: Seq<Seq<char>>| in_order(v, s)
}

/// A list that holds the texts of a set in their order is the one that does.
pub proof fn lemma_ordered(v: Seq<Seq<char>>, s: Set<Seq<char>>)
    requires
        in_order(v, s),
    ensures
        v == ordered(s),
{
    law_one_list_in_order(v, ordered(s), s);
}

/// A set of names.
pub struct NameSet {
    names: Vec<String>,
}

impl View for NameSet {
    type V = Set<Seq<char>>;

    closed spec fn view(&self) -> Set<Seq<char>> {
        string_texts(self.names@).to_set()
    }
}

proof fn lemma_unique(v: Seq<Seq<char>>)
    requires
        ascending(v),
    ensures
        v.no_duplicates(),
{
    assert forall|i: int, j: int| 0 <= i < v.len() && 0 <= j < v.len() && i != j implies v[i]
        != v[j] by {
        law_order_is_total(v[i], v[j]);
        if i < j {
            assert(comes_before(v[i], v[j]));
        } else {
            assert(comes_before(v[j], v[i]));
        }
    }
}

/// A text put in its place keeps a list in order.
proof fn lemma_insert(v: Seq<Seq<char>>, i: int, t: Seq<char>)
    requires
        ascending(v),
        0 <= i <= v.len(),
        forall|k: int| 0 <= k < i ==> comes_before(#[trigger] v[k], t),
        i < v.len() ==> comes_before(t, v[i]),
    ensures
        ascending(v.insert(i, t)),
        v.insert(i, t).to_set() == v.to_set().insert(t),
{
    let w = v.insert(i, t);
    assert forall|a: int, b: int| 0 <= a < b < w.len() implies comes_before(
        #[trigger] w[a],
        #[trigger] w[b],
    ) by {
        if b == i {
            assert(comes_before(v[a], t));
        } else if a == i {
            if b > i + 1 {
                assert(comes_before(v[i], v[b - 1]));
                law_order_is_transitive(t, v[i], v[b - 1]);
            }
        } else {
            let x = if a < i {
                a
            } else {
                a - 1
            };
            let y = if b < i {
                b
            } else {
                b - 1
            };
            assert(comes_before(v[x], v[y]));
        }
    }
    assert forall|u: Seq<char>| w.to_set().contains(u) == v.to_set().insert(t).contains(u) by {
        if w.to_set().contains(u) {
            let k = choose|k: int| 0 <= k < w.len() && w[k] == u;
            if k < i {
                assert(v[k] == u);
            } else if k > i {
                assert(v[k - 1] == u);
            }
        }
        if v.to_set().contains(u) {
            let k = choose|k: int| 0 <= k < v.len() && v[k] == u;
            if k < i {
                assert(w[k] == u);
            } else {
                assert(w[k + 1] == u);
            }
        }
        assert(w[i] == t);
    }
    assert(w.to_set() =~= v.to_set().insert(t));
}

impl NameSet {
    #[verifier::type_invariant]
    spec fn inv(self) -> bool {
        ascending(string_texts(self.names@))
    }

    /// The set without names.
    pub fn new() -> (r: NameSet)
        ensures
            r@ == Set::<Seq<char>>::empty(),
    {
        let r = NameSet { names: Vec::new() };
        assert(r@ =~= Set::<Seq<char>>::empty());
        r
    }

    /// The position of the first name that does not come before `name`.
    fn place(&self, name: &str) -> (r: usize)
        ensures
            r <= self.names@.len(),
            forall|k: int| 0 <= k < r ==> comes_before(#[trigger] string_texts(self.names@)[k], name@),
            r < self.names@.len() ==> !comes_before(string_texts(self.names@)[r as int], name@),
    {
        let mut i: usize = 0;
        while i < self.names.len() && before_text(self.names[i].as_str(), name)
            invariant
                i <= self.names@.len(),
                forall|k: int|
                    0 <= k < i ==> comes_before(#[trigger] string_texts(self.names@)[k], name@),
            decreases self.names@.len() - i,
        {
            i += 1;
        }
        i
    }

    /// Whether the name at `i`, if there is one, is `name`.
    fn stands_at(&self, i: usize, name: &str) -> (r: bool)
        ensures
            r == (i < self.names@.len() && self.names@[i as int]@ == name@),
    {
        if i < self.names.len() {
            let cs = chars_of(self.names[i].as_str());
            is_text(&cs, name)
        } else {
            false
        }
    }

    /// Adds a name.
    pub fn insert(&mut self, name: String)
        ensures
            final(self)@ == old(self)@.insert(name@),
    {
        proof {
            use_type_invariant(&*self);
        }
        let i: usize = self.place(name.as_str());
        let ghost v = string_texts(self.names@);
        if self.stands_at(i, name.as_str()) {
            assert(v[i as int] == name@);
            assert(v.to_set().insert(name@) =~= v.to_set());
        } else {
            proof {
                if i < v.len() {
                    law_order_is_total(v[i as int], name@);
                }
                lemma_insert(v, i as int, name@);
            }
            let mut names: Vec<String> = Vec::new();
            std::mem::swap(&mut self.names, &mut names);
            names.insert(i, name);
            assert(string_texts(names@) =~= v.insert(i as int, name@));
            self.names = names;
        }
    }

    /// Whether a name is in the set.
    pub fn contains(&self, name: &str) -> (r: bool)
        ensures
            r == self@.contains(name@),
    {
        proof {
            use_type_invariant(self);
        }
        let i: usize = self.place(name);
        let ghost v = string_texts(self.names@);
        let r = self.stands_at(i, name);
        proof {
            if r {
                assert(v[i as int] == name@);
            } else if v.to_set().contains(name@) {
                let k = choose|k: int| 0 <= k < v.len() && v[k] == name@;
                law_order_is_total(name@, name@);
                if k > i {
                    assert(comes_before(v[i as int], v[k]));
                }
            }
        }
        r
    }

    /// The number of names.
    pub fn len(&self) -> (r: usize)
        ensures
            self@.finite(),
            r == self@.len(),
    {
        proof {
            use_type_invariant(self);
            lemma_unique(string_texts(self.names@));
            string_texts(self.names@).unique_seq_to_set();
        }
        self.names.len()
    }

    /// The names in their order.
    pub fn list(&self) -> (r: Vec<String>)
        ensures
            in_order(string_texts(r@), self@),
    {
        proof {
            use_type_invariant(self);
        }
        let mut out: Vec<String> = Vec::new();
        let mut i: usize = 0;
        while i < self.names.len()
            invariant
                i <= self.names@.len(),
                string_texts(out@) == string_texts(self.names@).take(i as int),
            decreases self.names@.len() - i,
        {
            let ghost before = string_texts(out@);
            out.push(self.names[i].clone());
            assert(string_texts(out@) =~= before.push(self.names@[i as int]@));
            assert(string_texts(self.names@).take(i + 1) =~= string_texts(self.names@).take(
                i as int,
            ).push(string_texts(self.names@)[i as int]));
            i += 1;
        }
        assert(string_texts(self.names@).take(i as int) =~= string_texts(self.names@));
        out
    }
}

/// Whether a key stands in a table.
spec fn holds_key(v: Seq<(String, u32)>, k: Seq<char>) -> bool {
    exists|i: int| 0 <= i < v.len() && (#[trigger] v[i]).0@ == k
}

/// Where a key stands in a table.
spec fn key_place(v: Seq<(String, u32)>, k: Seq<char>) -> int {
    choose|i: int| 0 <= i < v.len() && (#[trigger] v[i]).0@ == k
}

/// Whether no key stands in a table twice.
spec fn distinct_keys(v: Seq<(String, u32)>) -> bool {
    forall|i: int, j: int|
        0 <= i < j < v.len() ==> (#[trigger] v[i]).0@ != (#[trigger] v[j]).0@
}

/// A table from names to numbers.
pub struct NameTable {
    entries: Vec<(String, u32)>,
}

impl View for NameTable {
    type V = Map<Seq<char>, u32>;

    closed spec fn view(&self) -> Map<Seq<char>, u32> {
        Map::new(
            |k: Seq<char>| holds_key(self.entries@, k),
            |k: Seq<char>| self.entries@[key_place(self.entries@, k)].1,
        )
    }
}

impl NameTable {
    #[verifier::type_invariant]
    spec fn inv(self) -> bool {
        distinct_keys(self.entries@)
    }

    /// The empty table.
    pub fn new() -> (r: NameTable)
        ensures
            r@ == Map::<Seq<char>, u32>::empty(),
    {
        let r = NameTable { entries: Vec::new() };
        assert(r@ =~= Map::<Seq<char>, u32>::empty());
        r
    }

    /// The position of a name, or the number of entries where it has none.
    fn place(&self, name: &str) -> (r: usize)
        ensures
            r <= self.entries@.len(),
            r < self.entries@.len() ==> self.entries@[r as int].0@ == name@,
            r == self.entries@.len() ==> !holds_key(self.entries@, name@),
    {
        let mut i: usize = 0;
        while i < self.entries.len()
            invariant
                i <= self.entries@.len(),
                forall|k: int| 0 <= k < i ==> (#[trigger] self.entries@[k]).0@ != name@,
            decreases self.entries@.len() - i,
        {
            let cs = chars_of(self.entries[i].0.as_str());
            if is_text(&cs, name) {
                return i;
            }
            i += 1;
        }
        i
    }

    /// Sets the number of a name.
    pub fn insert(&mut self, name: String, value: u32)
        ensures
            final(self)@ == old(self)@.insert(name@, value),
    {
        proof {
            use_type_invariant(&*self);
        }
        let i: usize = self.place(name.as_str());
        let ghost v = self.entries@;
        let ghost k = name@;
        let mut entries: Vec<(String, u32)> = Vec::new();
        std::mem::swap(&mut self.entries, &mut entries);
        if i < entries.len() {
            entries.set(i, (name, value));
        } else {
            entries.push((name, value));
            assert forall|a: int, b: int| 0 <= a < b < entries@.len() implies (#[trigger] entries@[a]).0@
                != (#[trigger] entries@[b]).0@ by {
                assert(entries@[a] == v[a]);
            }
        }
        self.entries = entries;
        proof {
            let w = self.entries@;
            assert(w[i as int].0@ == k && w[i as int].1 == value);
            assert forall|x: Seq<char>| holds_key(w, x) == (holds_key(v, x) || x == k) by {
                if holds_key(w, x) {
                    let p = key_place(w, x);
                    assert(p == i || w[p] == v[p]);
                }
                if holds_key(v, x) {
                    let p = key_place(v, x);
                    assert(w[p].0@ == v[p].0@);
                }
            }
            assert forall|x: Seq<char>| holds_key(w, x) implies self@[x] == old(self)@.insert(
                k,
                value,
            )[x] by {
                let p = key_place(w, x);
                if x == k {
                    assert(w[i as int].0@ == w[p].0@);
                    assert(p == i);
                } else {
                    let q = key_place(v, x);
                    assert(holds_key(v, x));
                    assert(w[q].0@ == x);
                    assert(p == q);
                }
            }
            assert(self@ =~= old(self)@.insert(k, value));
        }
    }

    /// The number of a name.
    pub fn get(&self, name: &str) -> (r: Option<&u32>)
        ensures
            r is Some == self@.dom().contains(name@),
            r matches Some(n) ==> *n == self@[name@],
    {
        proof {
            use_type_invariant(self);
        }
        let i: usize = self.place(name);
        if i < self.entries.len() {
            proof {
                let p = key_place(self.entries@, name@);
                assert(holds_key(self.entries@, name@));
                assert(self.entries@[p].0@ == self.entries@[i as int].0@);
                assert(p == i);
            }
            Some(&self.entries[i].1)
        } else {
            None
        }
    }

    /// The number of entries.
    pub fn len(&self) -> (r: usize)
        ensures
            self@.dom().finite(),
            r == self@.dom().len(),
    {
        proof {
            use_type_invariant(self);
            let keys = Seq::new(self.entries@.len(), |i: int| self.entries@[i].0@);
            assert forall|i: int, j: int| 0 <= i < keys.len() && 0 <= j < keys.len() && i
                != j implies keys[i] != keys[j] by {
                if i < j {
                    assert(self.entries@[i].0@ != self.entries@[j].0@);
                } else {
                    assert(self.entries@[j].0@ != self.entries@[i].0@);
                }
            }
            keys.unique_seq_to_set();
            assert forall|x: Seq<char>| keys.to_set().contains(x) == self@.dom().contains(x) by {
                if self@.dom().contains(x) {
                    let p = key_place(self.entries@, x);
                    assert(keys[p] == x);
                }
                if keys.to_set().contains(x) {
                    let p = choose|p: int| 0 <= p < keys.len() && keys[p] == x;
                    assert(self.entries@[p].0@ == x);
                }
            }
            assert(keys.to_set() =~= self@.dom());
        }
        self.entries.len()
    }

    /// The names that have the number `value`, in their order.
    pub fn names_of(&self, value: u32) -> (r: Vec<String>)
        ensures
            in_order(string_texts(r@), names_with(self@, value)),
    {
        proof {
            use_type_invariant(self);
        }
        let mut set = NameSet::new();
        let ghost v = self.entries@;
        let mut i: usize = 0;
        while i < self.entries.len()
            invariant
                v == self.entries@,
                distinct_keys(v),
                i <= v.len(),
                forall|x: Seq<char>|
                    set@.contains(x) == (exists|k: int|
                        0 <= k < i && (#[trigger] v[k]).0@ == x && v[k].1 == value),
            decreases self.entries@.len() - i,
        {
            let ghost before = set@;
            if self.entries[i].1 == value {
                set.insert(self.entries[i].0.clone());
            }
            assert forall|x: Seq<char>|
                set@.contains(x) == (exists|k: int|
                    0 <= k < i + 1 && (#[trigger] v[k]).0@ == x && v[k].1 == value) by {
                if before.contains(x) {
                    let k = choose|k: int|
                        0 <= k < i && (#[trigger] v[k]).0@ == x && v[k].1 == value;
                    assert(v[k].0@ == x);
                }
                if set@.contains(x) && !before.contains(x) {
                    assert(v[i as int].0@ == x);
                }
            }
            i += 1;
        }
        proof {
            assert forall|x: Seq<char>| set@.contains(x) == names_with(self@, value).contains(x) by {
                if set@.contains(x) {
                    let k = choose|k: int|
                        0 <= k < i && (#[trigger] v[k]).0@ == x && v[k].1 == value;
                    assert(holds_key(v, x));
                    let p = key_place(v, x);
                    assert(v[p].0@ == v[k].0@);
                    assert(p == k);
                }
                if names_with(self@, value).contains(x) {
                    let p = key_place(v, x);
                    assert(v[p].0@ == x && v[p].1 == value);
                }
            }
            assert(set@ =~= names_with(self@, value));
        }
        set.list()
    }
}

/// The names that have the number `value` in a table.
pub open spec fn names_with(m: Map<Seq<char>, u32>, value: u32) -> Set<Seq<char>> {
    Set::new(|x: Seq<char>| m.dom().contains(x) && m[x] == value)
}

/// The order of two texts is that of the numbers of the first characters in which they
/// differ; of two of which one starts the other, the shorter comes first.
pub proof fn law_first_difference_decides(
    p: Seq<char>,
    c: char,
    x: Seq<char>,
    d: char,
    y: Seq<char>,
)
    ensures
        c != d ==> comes_before(p + (seq![c] + x), p + (seq![d] + y)) == ((c as u32) < (d as u32)),
        comes_before(p, p + (seq![d] + y)),
        !comes_before(p + (seq![d] + y), p),
{
    lemma_order_behind(p, seq![c] + x, seq![d] + y);
    let none = Seq::<char>::empty();
    assert(p + none =~= p);
    lemma_order_behind(p, none, seq![d] + y);
    lemma_order_behind(p, seq![d] + y, none);
}

/// A list of names in order has each name of its set at one place, behind every name that
/// comes before it.
pub proof fn law_list_has_each_name_once(v: Seq<Seq<char>>, s: Set<Seq<char>>, n: Seq<char>)
    requires
        in_order(v, s),
    ensures
        s.contains(n) == v.contains(n),
        forall|i: int, j: int|
            0 <= i < v.len() && 0 <= j < v.len() && #[trigger] comes_before(v[i], v[j]) ==> i < j,
        forall|i: int, j: int| 0 <= i < j < v.len() ==> #[trigger] v[i] != #[trigger] v[j],
{
    assert(v.to_set().contains(n) == v.contains(n));
    assert forall|i: int, j: int|
        0 <= i < v.len() && 0 <= j < v.len() && #[trigger] comes_before(v[i], v[j]) implies i < j by {
        law_order_is_total(v[i], v[j]);
        if j < i {
            assert(comes_before(v[j], v[i]));
            law_order_is_transitive(v[i], v[j], v[i]);
        }
    }
    assert forall|i: int, j: int| 0 <= i < j < v.len() implies #[trigger] v[i] != #[trigger] v[j] by {
        law_order_is_total(v[i], v[j]);
    }
}

} // verus!
