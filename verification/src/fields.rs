//! Ordered key/value tables as the session parser sees them.
//!
//! A table is modelled as a `Map` from key text to value text.  Lookups that
//! walk a table pick, among the keys that qualify, the one that comes first in
//! the order of `Ord for str` (the iteration order of a sorted map); this is
//! `least_key_where` below.
use vstd::prelude::*;
use crate::text::{
    chars_eq_ignore_ascii_case, chars_equal, chars_lt, chars_of, eq_ignore_ascii_case, lemma_text_lt_asymmetric,
    lemma_text_lt_total, lemma_text_lt_transitive, string_from_chars, text_lt, to_lower, ascii_lower,
};

verus! {

/// The map that an association list denotes: later pairs override earlier ones.
pub open spec fn assoc_map<V>(s: Seq<(Seq<char>, V)>) -> Map<Seq<char>, V>
    decreases s.len(),
{
    if s.len() == 0 {
        Map::empty()
    } else {
        assoc_map(s.drop_last()).insert(s.last().0, s.last().1)
    }
}

/// The keys of `assoc_map(s)` are exactly the keys that occur in `s`.
pub proof fn lemma_assoc_map_dom<V>(s: Seq<(Seq<char>, V)>, k: Seq<char>)
    ensures
        assoc_map(s).contains_key(k) <==> exists|i: int| 0 <= i < s.len() && (#[trigger] s[i]).0 == k,
    decreases s.len(),
{
    if s.len() > 0 {
        lemma_assoc_map_dom(s.drop_last(), k);
        if exists|i: int| 0 <= i < s.len() && (#[trigger] s[i]).0 == k {
            let i = choose|i: int| 0 <= i < s.len() && (#[trigger] s[i]).0 == k;
            if i < s.len() - 1 {
                assert(s.drop_last()[i] == s[i]);
            }
        }
        if exists|i: int| 0 <= i < s.drop_last().len() && (#[trigger] s.drop_last()[i]).0 == k {
            let i = choose|i: int| 0 <= i < s.drop_last().len() && (#[trigger] s.drop_last()[i]).0 == k;
            assert(s[i] == s.drop_last()[i]);
        }
    }
}

/// The value of a key in `assoc_map(s)` is the one of its last occurrence.
pub proof fn lemma_assoc_map_value<V>(s: Seq<(Seq<char>, V)>, i: int)
    requires
        0 <= i < s.len(),
        forall|j: int| i < j < s.len() ==> (#[trigger] s[j]).0 != s[i].0,
    ensures
        assoc_map(s).contains_key(s[i].0),
        assoc_map(s)[s[i].0] == s[i].1,
    decreases s.len(),
{
    if i < s.len() - 1 {
        assert forall|j: int| i < j < s.drop_last().len() implies (#[trigger] s.drop_last()[j]).0
            != s.drop_last()[i].0 by {
            assert(s.drop_last()[j] == s[j]);
        }
        lemma_assoc_map_value(s.drop_last(), i);
        assert(s.drop_last()[i] == s[i]);
        assert(s.last() == s[s.len() - 1]);
    }
}

/// The map that an association list denotes has finitely many keys.
pub proof fn lemma_assoc_map_finite<V>(s: Seq<(Seq<char>, V)>)
    ensures
        assoc_map(s).dom().finite(),
    decreases s.len(),
{
    if s.len() > 0 {
        lemma_assoc_map_finite(s.drop_last());
    }
}

/// A finite non-empty set of texts has a least element in the order of `Ord for str`.
pub proof fn lemma_least_element_exists(s: Set<Seq<char>>)
    requires
        s.finite(),
        s.len() > 0,
    ensures
        exists|k: Seq<char>| s.contains(k) && forall|k2: Seq<char>| #[trigger] s.contains(k2) ==> k2 == k || text_lt(k, k2),
    decreases s.len(),
{
    let x = s.choose();
    let r = s.remove(x);
    if r.len() == 0 {
        assert forall|k2: Seq<char>| #[trigger] s.contains(k2) implies k2 == x || text_lt(x, k2) by {
            if k2 != x {
                assert(r.contains(k2));
            }
        }
    } else {
        lemma_least_element_exists(r);
        let y = choose|k: Seq<char>| r.contains(k) && forall|k2: Seq<char>| #[trigger] r.contains(k2) ==> k2 == k || text_lt(k, k2);
        if text_lt(x, y) {
            assert forall|k2: Seq<char>| #[trigger] s.contains(k2) implies k2 == x || text_lt(x, k2) by {
                if k2 != x {
                    assert(r.contains(k2));
                    if k2 != y {
                        lemma_text_lt_transitive(x, y, k2);
                    }
                }
            }
        } else {
            lemma_text_lt_total(x, y);
            assert forall|k2: Seq<char>| #[trigger] s.contains(k2) implies k2 == y || text_lt(y, k2) by {
                if k2 != x {
                    assert(r.contains(k2));
                }
            }
        }
    }
}

/// `k` is, among the keys of `m` that satisfy `p`, the first in the order of `Ord for str`.
pub open spec fn is_least_where<V>(m: Map<Seq<char>, V>, p: spec_fn(Seq<char>) -> bool, k: Seq<char>) -> bool {
    &&& m.contains_key(k)
    &&& p(k)
    &&& forall|k2: Seq<char>| #[trigger] m.contains_key(k2) && p(k2) ==> k2 == k || text_lt(k, k2)
}

/// The first key of `m`, in the order of `Ord for str`, that satisfies `p`
/// (what `iter().find(..)` gives on a sorted map).
pub open spec fn least_key_where<V>(m: Map<Seq<char>, V>, p: spec_fn(Seq<char>) -> bool) -> Option<Seq<char>> {
    if exists|k: Seq<char>| is_least_where(m, p, k) {
        Some(choose|k: Seq<char>| is_least_where(m, p, k))
    } else {
        None
    }
}

/// There is at most one least key, so `least_key_where` finds it.
pub proof fn lemma_least_key_where<V>(m: Map<Seq<char>, V>, p: spec_fn(Seq<char>) -> bool, k: Seq<char>)
    requires
        is_least_where(m, p, k),
    ensures
        least_key_where(m, p) == Some(k),
{
    let c = choose|c: Seq<char>| is_least_where(m, p, c);
    assert(is_least_where(m, p, c));
    if c != k {
        assert(m.contains_key(k) && p(k));
        assert(m.contains_key(c) && p(c));
        lemma_text_lt_asymmetric(c, k);
    }
}

/// In a table with finitely many keys, a key that satisfies `p` means that
/// `least_key_where` finds one: `None` means that no key satisfies `p`.
pub proof fn lemma_least_key_exists<V>(m: Map<Seq<char>, V>, p: spec_fn(Seq<char>) -> bool, k: Seq<char>)
    requires
        m.dom().finite(),
        m.contains_key(k),
        p(k),
    ensures
        least_key_where(m, p) matches Some(least) && is_least_where(m, p, least),
{
    let s = m.dom().filter(p);
    assert(s.subset_of(m.dom()));
    vstd::set_lib::lemma_set_subset_finite(m.dom(), s);
    assert(s.contains(k));
    assert(s.len() > 0) by {
        if s.len() == 0 {
            assert(s =~= Set::<Seq<char>>::empty());
        }
    }
    lemma_least_element_exists(s);
    let least = choose|l: Seq<char>| s.contains(l) && forall|k2: Seq<char>| #[trigger] s.contains(k2) ==> k2 == l || text_lt(l, k2);
    assert forall|k2: Seq<char>| #[trigger] m.contains_key(k2) && p(k2) implies k2 == least || text_lt(least, k2) by {
        assert(s.contains(k2));
    }
    assert(is_least_where(m, p, least));
    lemma_least_key_where(m, p, least);
}

/// `str::eq_ignore_ascii_case` against a fixed name, as a key test.
pub open spec fn same_ascii_case(name: Seq<char>) -> spec_fn(Seq<char>) -> bool {
    |k: Seq<char>| eq_ignore_ascii_case(k, name)
}

/// The key under which an exact lookup of `name` succeeds, or else the first key
/// equal to it up to ASCII case (`get(name)` followed by a case-insensitive `find`).
pub open spec fn lookup_key<V>(m: Map<Seq<char>, V>, name: Seq<char>) -> Option<Seq<char>> {
    if m.contains_key(name) {
        Some(name)
    } else {
        least_key_where(m, same_ascii_case(name))
    }
}

/// In a table with finitely many keys, a key equal to `name` up to ASCII case
/// means that `lookup_key` finds a key: `None` means that none matches.
pub proof fn lemma_lookup_key_finds_match<V>(m: Map<Seq<char>, V>, name: Seq<char>, k: Seq<char>)
    requires
        m.dom().finite(),
        m.contains_key(k),
        eq_ignore_ascii_case(k, name),
    ensures
        lookup_key(m, name) is Some,
{
    if !m.contains_key(name) {
        lemma_least_key_exists(m, same_ascii_case(name), k);
    }
}

/// Whether `c` is an ASCII letter or digit.
pub open spec fn is_ascii_alphanumeric(c: char) -> bool {
    ('0' <= c && c <= '9') || ('A' <= c && c <= 'Z') || ('a' <= c && c <= 'z')
}

/// The key with everything but ASCII letters and digits removed, lower-cased.
pub open spec fn normalized_key(s: Seq<char>) -> Seq<char>
    decreases s.len(),
{
    if s.len() == 0 {
        Seq::empty()
    } else if is_ascii_alphanumeric(s.last()) {
        normalized_key(s.drop_last()).push(to_lower(s.last()))
    } else {
        normalized_key(s.drop_last())
    }
}

/// The word `password`.
pub open spec fn password_word() -> Seq<char> {
    seq!['p', 'a', 's', 's', 'w', 'o', 'r', 'd']
}

/// A key that names a password: its normalized form is `password` or begins with it.
pub open spec fn is_password_key(k: Seq<char>) -> bool {
    let n = normalized_key(k);
    n == password_word() || (n.len() >= password_word().len() && n.take(
        password_word().len() as int,
    ) == password_word())
}

/// Normalising a key keeps, in order, its ASCII letters and digits, lower-cased,
/// and drops every other character: it works character by character.
pub proof fn law_normalized_key_keeps_ascii_alphanumerics(a: Seq<char>, b: Seq<char>, c: char)
    ensures
        normalized_key(Seq::<char>::empty()) == Seq::<char>::empty(),
        normalized_key(a + b) == normalized_key(a) + normalized_key(b),
        ('0' <= c && c <= '9') || ('a' <= c && c <= 'z') ==> normalized_key(seq![c]) == seq![c],
        'A' <= c && c <= 'Z' ==> normalized_key(seq![c]) == seq![((c as u32) + 32) as char],
        !(('0' <= c && c <= '9') || ('a' <= c && c <= 'z') || ('A' <= c && c <= 'Z')) ==> normalized_key(seq![c])
            == Seq::<char>::empty(),
    decreases b.len(),
{
    assert(seq![c].drop_last() =~= Seq::<char>::empty());
    assert(seq![c].last() == c);
    assert(normalized_key(Seq::<char>::empty()) == Seq::<char>::empty());
    assert(Seq::<char>::empty().push(to_lower(c)) =~= seq![to_lower(c)]);
    if b.len() == 0 {
        assert(a + b =~= a);
        assert(normalized_key(a) + normalized_key(b) =~= normalized_key(a));
    } else {
        law_normalized_key_keeps_ascii_alphanumerics(a, b.drop_last(), c);
        assert((a + b).drop_last() =~= a + b.drop_last());
        assert((a + b).last() == b.last());
        assert(normalized_key(a + b) =~= normalized_key(a) + normalized_key(b));
    }
}

/// A key is a password key exactly when its normalized form (ASCII letters and
/// digits, lower-cased) begins with `password`: `Password`, `password_2` or
/// `PASSWORD-HASH` are, `Passphrase` or `pwd` are not.
pub proof fn law_password_keys_begin_with_password(key: Seq<char>)
    ensures
        is_password_key(key) <==> {
            let n = normalized_key(key);
            &&& n.len() >= 8
            &&& n[0] == 'p' && n[1] == 'a' && n[2] == 's' && n[3] == 's'
            &&& n[4] == 'w' && n[5] == 'o' && n[6] == 'r' && n[7] == 'd'
        },
{
    let n = normalized_key(key);
    if n.len() >= 8 && n[0] == 'p' && n[1] == 'a' && n[2] == 's' && n[3] == 's' && n[4] == 'w' && n[5] == 'o'
        && n[6] == 'r' && n[7] == 'd' {
        assert(n.take(8) =~= password_word());
    }
    if n == password_word() {
        assert(n.take(8) =~= password_word());
    }
    if n.len() >= 8 && n.take(8) == password_word() {
        assert(n.take(8)[0] == n[0]);
        assert(n.take(8)[1] == n[1]);
        assert(n.take(8)[2] == n[2]);
        assert(n.take(8)[3] == n[3]);
        assert(n.take(8)[4] == n[4]);
        assert(n.take(8)[5] == n[5]);
        assert(n.take(8)[6] == n[6]);
        assert(n.take(8)[7] == n[7]);
    }
}

pub open spec fn password_keys() -> spec_fn(Seq<char>) -> bool {
    |k: Seq<char>| is_password_key(k)
}

/// A test that a key may pass.
pub enum KeyTest {
    /// Equal to the given text up to ASCII case.
    SameAsciiCase(Vec<char>),
    /// A password key (see `is_password_key`).
    Password,
}

impl KeyTest {
    pub open spec fn as_spec(&self) -> spec_fn(Seq<char>) -> bool {
        match self {
            KeyTest::SameAsciiCase(name) => same_ascii_case(name@),
            KeyTest::Password => password_keys(),
        }
    }

    /// Whether `key` passes the test.
    pub fn accepts(&self, key: &Vec<char>) -> (r: bool)
        ensures
            r == (self.as_spec())(key@),
    {
        match self {
            KeyTest::SameAsciiCase(name) => chars_eq_ignore_ascii_case(key, name),
            KeyTest::Password => {
                let n = normalized_chars(key);
                let word = vec!['p', 'a', 's', 's', 'w', 'o', 'r', 'd'];
                assert(word@ =~= password_word());
                if n.len() < word.len() {
                    assert(n@ != password_word());
                    return false;
                }
                let mut i: usize = 0;
                while i < word.len()
                    invariant
                        word@ == password_word(),
                        n@ == normalized_key(key@),
                        self.as_spec() == password_keys(),
                        n.len() >= word.len(),
                        i <= word.len(),
                        forall|j: int| 0 <= j < i ==> n@[j] == word@[j],
                    decreases word.len() - i,
                {
                    if n[i] != word[i] {
                        assert(n@.take(8)[i as int] != password_word()[i as int]);
                        assert(n@.take(8) != password_word());
                        assert(n@ != password_word());
                        return false;
                    }
                    i = i + 1;
                }
                assert(n@.take(8) =~= password_word());
                true
            },
        }
    }
}

/// `normalized_key` of `key`.
pub fn normalized_chars(key: &Vec<char>) -> (r: Vec<char>)
    ensures
        r@ == normalized_key(key@),
{
    let mut r: Vec<char> = Vec::new();
    let mut i: usize = 0;
    while i < key.len()
        invariant
            i <= key.len(),
            r@ == normalized_key(key@.take(i as int)),
        decreases key.len() - i,
    {
        let c = key[i];
        assert(key@.take(i + 1).drop_last() =~= key@.take(i as int));
        assert(key@.take(i + 1).last() == c);
        if ('0' <= c && c <= '9') || ('A' <= c && c <= 'Z') || ('a' <= c && c <= 'z') {
            r.push(ascii_lower(c));
        }
        i = i + 1;
    }
    assert(key@.take(key.len() as int) =~= key@);
    r
}

/// A copy of `v`.
pub fn copy_chars(v: &Vec<char>) -> (r: Vec<char>)
    ensures
        r@ == v@,
{
    let mut r: Vec<char> = Vec::new();
    let mut i: usize = 0;
    while i < v.len()
        invariant
            i <= v.len(),
            r@ == v@.take(i as int),
        decreases v.len() - i,
    {
        r.push(v[i]);
        i = i + 1;
        assert(r@ =~= v@.take(i as int));
    }
    assert(v@.take(v.len() as int) =~= v@);
    r
}

/// Among `keys`, the position of one that passes `test` and comes first in
/// the order of `Ord for str`; `None` when no key passes.
pub fn least_passing(keys: &Vec<Vec<char>>, test: &KeyTest) -> (r: Option<usize>)
    ensures
        match r {
            Some(i) => {
                &&& i < keys.len()
                &&& (test.as_spec())(keys@[i as int]@)
                &&& forall|j: int|
                    0 <= j < keys.len() && (test.as_spec())(#[trigger] keys@[j]@) ==> keys@[j]@
                        == keys@[i as int]@ || text_lt(keys@[i as int]@, keys@[j]@)
            },
            None => forall|j: int| 0 <= j < keys.len() ==> !(test.as_spec())(#[trigger] keys@[j]@),
        },
{
    let mut best: Option<usize> = None;
    let mut j: usize = 0;
    while j < keys.len()
        invariant
            j <= keys.len(),
            match best {
                Some(i) => {
                    &&& i < j
                    &&& (test.as_spec())(keys@[i as int]@)
                    &&& forall|l: int|
                        0 <= l < j && (test.as_spec())(#[trigger] keys@[l]@) ==> keys@[l]@
                            == keys@[i as int]@ || text_lt(keys@[i as int]@, keys@[l]@)
                },
                None => forall|l: int| 0 <= l < j ==> !(test.as_spec())(#[trigger] keys@[l]@),
            },
        decreases keys.len() - j,
    {
        if test.accepts(&keys[j]) {
            match best {
                None => {
                    best = Some(j);
                },
                Some(i) => {
                    if chars_lt(&keys[j], &keys[i]) {
                        proof {
                            assert forall|l: int|
                                0 <= l < j + 1 && (test.as_spec())(#[trigger] keys@[l]@) implies keys@[l]@
                                == keys@[j as int]@ || text_lt(keys@[j as int]@, keys@[l]@) by {
                                if l < j && keys@[l]@ != keys@[i as int]@ {
                                    lemma_text_lt_transitive(keys@[j as int]@, keys@[i as int]@, keys@[l]@);
                                }
                            }
                        }
                        best = Some(j);
                    } else {
                        proof {
                            if keys@[j as int]@ != keys@[i as int]@ {
                                lemma_text_lt_total(keys@[j as int]@, keys@[i as int]@);
                            }
                        }
                    }
                },
            }
        }
        j = j + 1;
    }
    best
}

/// A table of fields: key text to value text.
pub struct FieldMap {
    entries: Vec<(Vec<char>, Vec<char>)>,
}

/// The pairs of views of an association list.
pub open spec fn pair_views(entries: Seq<(Vec<char>, Vec<char>)>) -> Seq<(Seq<char>, Seq<char>)> {
    entries.map_values(|e: (Vec<char>, Vec<char>)| (e.0@, e.1@))
}

impl View for FieldMap {
    type V = Map<Seq<char>, Seq<char>>;

    closed spec fn view(&self) -> Map<Seq<char>, Seq<char>> {
        assoc_map(pair_views(self.entries@))
    }
}

/// A table has finitely many keys.
pub proof fn lemma_field_map_finite(m: &FieldMap)
    ensures
        m@.dom().finite(),
{
    lemma_assoc_map_finite(pair_views(m.entries@));
}

impl FieldMap {
    /// An empty table.
    pub fn new() -> (r: FieldMap)
        ensures
            r@ == Map::<Seq<char>, Seq<char>>::empty(),
    {
        let r = FieldMap { entries: Vec::new() };
        assert(pair_views(r.entries@) =~= Seq::empty());
        r
    }

    /// The table that an association list denotes (later pairs win).
    pub fn from_pairs(entries: Vec<(Vec<char>, Vec<char>)>) -> (r: FieldMap)
        ensures
            r@ == assoc_map(pair_views(entries@)),
    {
        FieldMap { entries }
    }

    /// Position of the last entry whose key is `key`.
    fn last_index_of(&self, key: &Vec<char>) -> (r: Option<usize>)
        ensures
            match r {
                Some(i) => i < self.entries.len() && self.entries@[i as int].0@ == key@ && forall|j: int|
                    i < j < self.entries.len() ==> (#[trigger] self.entries@[j]).0@ != key@,
                None => forall|j: int| 0 <= j < self.entries.len() ==> (#[trigger] self.entries@[j]).0@ != key@,
            },
    {
        let mut j = self.entries.len();
        while j > 0
            invariant
                j <= self.entries.len(),
                forall|l: int| j <= l < self.entries.len() ==> (#[trigger] self.entries@[l]).0@ != key@,
            decreases j,
        {
            if chars_equal(&self.entries[j - 1].0, key) {
                return Some(j - 1);
            }
            j = j - 1;
        }
        None
    }

    /// The value stored under `key`, if any.
    pub fn get_chars(&self, key: &Vec<char>) -> (r: Option<Vec<char>>)
        ensures
            match r {
                Some(v) => self@.contains_key(key@) && self@[key@] == v@,
                None => !self@.contains_key(key@),
            },
    {
        let ghost pv = pair_views(self.entries@);
        proof {
            lemma_assoc_map_dom(pv, key@);
        }
        match self.last_index_of(key) {
            Some(i) => {
                proof {
                    assert forall|j: int| i < j < pv.len() implies (#[trigger] pv[j]).0 != pv[i as int].0 by {
                        assert(pv[j].0 == self.entries@[j].0@);
                    }
                    lemma_assoc_map_value(pv, i as int);
                }
                Some(copy_chars(&self.entries[i].1))
            },
            None => {
                proof {
                    if exists|j: int| 0 <= j < pv.len() && (#[trigger] pv[j]).0 == key@ {
                        let j = choose|j: int| 0 <= j < pv.len() && (#[trigger] pv[j]).0 == key@;
                        assert(pv[j].0 == self.entries@[j].0@);
                    }
                }
                None
            },
        }
    }

    /// The value stored under `key`, if any.
    pub fn get(&self, key: &str) -> (r: Option<String>)
        ensures
            r matches Some(v) ==> self@.contains_key(key@) && self@[key@] == v@,
            r is None ==> !self@.contains_key(key@),
    {
        let k = chars_of(key);
        match self.get_chars(&k) {
            Some(v) => {
                assert(v@.subrange(0, v.len() as int) =~= v@);
                Some(string_from_chars(&v, 0, v.len()))
            },
            None => None,
        }
    }

    /// The keys of the table, possibly with repetitions.
    fn keys(&self) -> (r: Vec<Vec<char>>)
        ensures
            r.len() == self.entries.len(),
            forall|i: int| 0 <= i < r.len() ==> (#[trigger] r@[i])@ == self.entries@[i].0@,
    {
        let mut r: Vec<Vec<char>> = Vec::new();
        let mut i: usize = 0;
        while i < self.entries.len()
            invariant
                i <= self.entries.len(),
                r.len() == i,
                forall|l: int| 0 <= l < i ==> (#[trigger] r@[l])@ == self.entries@[l].0@,
            decreases self.entries.len() - i,
        {
            r.push(copy_chars(&self.entries[i].0));
            i = i + 1;
        }
        r
    }

    /// The first key (in the order of `Ord for str`) that passes `test`.
    pub fn least_key(&self, test: &KeyTest) -> (r: Option<Vec<char>>)
        ensures
            match r {
                Some(k) => least_key_where(self@, test.as_spec()) == Some(k@),
                None => least_key_where(self@, test.as_spec()) is None,
            },
    {
        let keys = self.keys();
        let ghost pv = pair_views(self.entries@);
        let ghost p = test.as_spec();
        proof {
            assert forall|k: Seq<char>| self@.contains_key(k) <==> exists|i: int|
                0 <= i < keys.len() && (#[trigger] keys@[i])@ == k by {
                lemma_assoc_map_dom(pv, k);
                if exists|i: int| 0 <= i < pv.len() && (#[trigger] pv[i]).0 == k {
                    let i = choose|i: int| 0 <= i < pv.len() && (#[trigger] pv[i]).0 == k;
                    assert(keys@[i]@ == k);
                }
                if exists|i: int| 0 <= i < keys.len() && (#[trigger] keys@[i])@ == k {
                    let i = choose|i: int| 0 <= i < keys.len() && (#[trigger] keys@[i])@ == k;
                    assert(pv[i].0 == k);
                }
            }
        }
        match least_passing(&keys, test) {
            Some(i) => {
                proof {
                    let k = keys@[i as int]@;
                    assert forall|k2: Seq<char>| #[trigger] self@.contains_key(k2) && p(k2) implies k2 == k
                        || text_lt(k, k2) by {
                        let j = choose|j: int| 0 <= j < keys.len() && (#[trigger] keys@[j])@ == k2;
                    }
                    assert(is_least_where(self@, p, k));
                    lemma_least_key_where(self@, p, k);
                }
                Some(copy_chars(&keys[i]))
            },
            None => {
                proof {
                    if exists|k: Seq<char>| is_least_where(self@, p, k) {
                        let k = choose|k: Seq<char>| is_least_where(self@, p, k);
                        let j = choose|j: int| 0 <= j < keys.len() && (#[trigger] keys@[j])@ == k;
                    }
                }
                None
            },
        }
    }
}

} // verus!
