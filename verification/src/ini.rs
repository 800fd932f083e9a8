//! The INI dialect of Xshell session files: sections of `key=value` lines,
//! and the lookups that the session parser makes in them.
use vstd::prelude::*;
use crate::fields::{
    lemma_assoc_map_finite, assoc_map, copy_chars, is_password_key, least_key_where, least_passing, lemma_assoc_map_dom,
    lemma_least_key_where, lookup_key, normalized_chars, normalized_key, pair_views, password_keys,
    FieldMap, KeyTest, is_least_where, same_ascii_case,
};
use crate::text::{
    lemma_index_of, lemma_strip_idempotent, lemma_strip_is_subrange, chars_equal, chars_of, find_char, index_of, split_on, string_from_chars, strip_range, text_lt, trim,
    CharClass,
};

verus! {

/// Sections by name, each a table of fields.
pub type SectionMap = Map<Seq<char>, Map<Seq<char>, Seq<char>>>;

/// A value with one pair of matching surrounding quotes (`"` or `'`) removed,
/// after trimming.
pub open spec fn unquoted(value: Seq<char>) -> Seq<char> {
    let t = trim(value);
    if t.len() >= 2 && ((t[0] == '"' && t.last() == '"') || (t[0] == '\'' && t.last() == '\'')) {
        t.subrange(1, t.len() - 1)
    } else {
        t
    }
}

/// What one line of text does to the parser state: the current section and the sections so far.
pub open spec fn line_step(state: (Seq<char>, SectionMap), raw: Seq<char>) -> (Seq<char>, SectionMap) {
    let line = trim(raw);
    let current = state.0;
    let sections = state.1;
    if line.len() == 0 || line[0] == ';' || line[0] == '#' {
        state
    } else if line.len() >= 2 && line[0] == '[' && line.last() == ']' {
        let name = trim(line.subrange(1, line.len() - 1));
        (
            name,
            if sections.contains_key(name) {
                sections
            } else {
                sections.insert(name, Map::empty())
            },
        )
    } else {
        match index_of(line, '=') {
            None => state,
            Some(i) => {
                let key = trim(line.take(i));
                if key.len() == 0 {
                    state
                } else {
                    let fields = if sections.contains_key(current) {
                        sections[current]
                    } else {
                        Map::empty()
                    };
                    (current, sections.insert(current, fields.insert(key, unquoted(trim(line.skip(i + 1))))))
                }
            },
        }
    }
}

/// The parser state after the given lines, one after the other.
pub open spec fn apply_lines(state: (Seq<char>, SectionMap), lines: Seq<Seq<char>>) -> (Seq<char>, SectionMap)
    decreases lines.len(),
{
    if lines.len() == 0 {
        state
    } else {
        apply_lines(line_step(state, lines[0]), lines.skip(1))
    }
}

/// Before the first line: the unnamed section, empty, is current.
pub open spec fn initial_state() -> (Seq<char>, SectionMap) {
    (Seq::empty(), Map::empty().insert(Seq::empty(), Map::empty()))
}

/// The sections of an INI text, its lines being the pieces between `\n`s.
pub open spec fn ini_sections(text: Seq<char>) -> SectionMap {
    apply_lines(initial_state(), split_on(text, '\n')).1
}

/// The fields of the first section that `names` designates, trying each name
/// in turn: an exact match first, then the first section name (in order) equal
/// to it up to ASCII case; an empty table when none matches.
pub open spec fn section_fields_of(sections: SectionMap, names: Seq<Seq<char>>) -> Map<Seq<char>, Seq<char>>
    decreases names.len(),
{
    if names.len() == 0 {
        Map::empty()
    } else {
        match lookup_key(sections, names[0]) {
            Some(k) => sections[k],
            None => section_fields_of(sections, names.skip(1)),
        }
    }
}

/// The value of the first of `keys` that the table holds, each key matched
/// exactly first and then up to ASCII case.
pub open spec fn first_field_of(fields: Map<Seq<char>, Seq<char>>, keys: Seq<Seq<char>>) -> Option<Seq<char>>
    decreases keys.len(),
{
    if keys.len() == 0 {
        None
    } else {
        match lookup_key(fields, keys[0]) {
            Some(k) => Some(fields[k]),
            None => first_field_of(fields, keys.skip(1)),
        }
    }
}

/// How a session stores its password.
#[derive(Clone, Copy, Debug, PartialEq, Eq, Structural)]
pub enum PasswordField {
    /// No password key.
    Omitted,
    /// A password key with a blank value.
    Empty,
    /// A password key with a value, which Xshell stores encrypted.
    Encrypted,
}

/// The password field of a table: the first password key (see
/// `is_password_key`) decides, by whether its value is blank.
pub open spec fn password_field_of(fields: Map<Seq<char>, Seq<char>>) -> Option<PasswordField> {
    match least_key_where(fields, password_keys()) {
        None => None,
        Some(k) => if trim(fields[k]).len() == 0 {
            Some(PasswordField::Empty)
        } else {
            Some(PasswordField::Encrypted)
        },
    }
}

/// Views of the texts in a list.
pub open spec fn text_views(v: Seq<Vec<char>>) -> Seq<Seq<char>> {
    v.map_values(|t: Vec<char>| t@)
}

/// Views of the texts in a list of string slices.
pub open spec fn str_views(v: Seq<&str>) -> Seq<Seq<char>> {
    v.map_values(|t: &str| t@)
}

/// Views of `(section, key, value)` triples.
pub open spec fn triple_views(v: Seq<(Vec<char>, Vec<char>, Vec<char>)>) -> Seq<(Seq<char>, Seq<char>, Seq<char>)> {
    v.map_values(|t: (Vec<char>, Vec<char>, Vec<char>)| (t.0@, t.1@, t.2@))
}

/// The `(key, value)` pairs, in order, of the triples that belong to section `name`.
pub open spec fn section_pairs(t: Seq<(Seq<char>, Seq<char>, Seq<char>)>, name: Seq<char>) -> Seq<(Seq<char>, Seq<char>)>
    decreases t.len(),
{
    if t.len() == 0 {
        Seq::empty()
    } else if t.last().0 == name {
        section_pairs(t.drop_last(), name).push((t.last().1, t.last().2))
    } else {
        section_pairs(t.drop_last(), name)
    }
}

/// The sections that a list of section names and a list of field triples denote.
pub open spec fn sections_of(names: Seq<Seq<char>>, t: Seq<(Seq<char>, Seq<char>, Seq<char>)>) -> SectionMap {
    Map::new(|n: Seq<char>| names.contains(n), |n: Seq<char>| assoc_map(section_pairs(t, n)))
}

/// A section that no triple belongs to has no pairs.
pub proof fn lemma_section_pairs_absent(t: Seq<(Seq<char>, Seq<char>, Seq<char>)>, name: Seq<char>)
    requires
        forall|i: int| 0 <= i < t.len() ==> (#[trigger] t[i]).0 != name,
    ensures
        section_pairs(t, name) == Seq::<(Seq<char>, Seq<char>)>::empty(),
    decreases t.len(),
{
    if t.len() > 0 {
        assert forall|i: int| 0 <= i < t.drop_last().len() implies (#[trigger] t.drop_last()[i]).0 != name by {
            assert(t.drop_last()[i] == t[i]);
        }
        lemma_section_pairs_absent(t.drop_last(), name);
        assert(t.last() == t[t.len() - 1]);
    }
}

/// The sections of an INI document.
pub struct IniSections {
    names: Vec<Vec<char>>,
    entries: Vec<(Vec<char>, Vec<char>, Vec<char>)>,
}

impl View for IniSections {
    type V = SectionMap;

    closed spec fn view(&self) -> SectionMap {
        sections_of(text_views(self.names@), triple_views(self.entries@))
    }
}

/// `v[start..end]` as a vector of its own.
pub fn sub_chars(v: &Vec<char>, start: usize, end: usize) -> (r: Vec<char>)
    requires
        start <= end <= v.len(),
    ensures
        r@ == v@.subrange(start as int, end as int),
{
    let mut r: Vec<char> = Vec::new();
    let mut i = start;
    while i < end
        invariant
            start <= i <= end <= v.len(),
            r@ == v@.subrange(start as int, i as int),
        decreases end - i,
    {
        r.push(v[i]);
        i = i + 1;
        assert(r@ =~= v@.subrange(start as int, i as int));
    }
    r
}

/// The bounds of `unquoted(v[start..end])` inside `v`.
pub fn unquote_range(v: &Vec<char>, start: usize, end: usize) -> (r: (usize, usize))
    requires
        start <= end <= v.len(),
    ensures
        start <= r.0 <= r.1 <= end,
        v@.subrange(r.0 as int, r.1 as int) == unquoted(v@.subrange(start as int, end as int)),
{
    let (a, b) = strip_range(v, start, end, CharClass::WhiteSpace);
    let ghost t = v@.subrange(a as int, b as int);
    if b - a >= 2 && ((v[a] == '"' && v[b - 1] == '"') || (v[a] == '\'' && v[b - 1] == '\'')) {
        assert(t[0] == v@[a as int] && t.last() == v@[b - 1]);
        assert(t.subrange(1, t.len() - 1) =~= v@.subrange(a + 1, b - 1));
        (a + 1, b - 1)
    } else {
        proof {
            if t.len() >= 2 {
                assert(t[0] == v@[a as int] && t.last() == v@[b - 1]);
            }
        }
        (a, b)
    }
}

/// Removes one pair of matching surrounding quotes from a trimmed value.
pub fn unquote(value: &str) -> (r: String)
    ensures
        r@ == unquoted(value@),
{
    let v = chars_of(value);
    let (a, b) = unquote_range(&v, 0, v.len());
    assert(v@.subrange(0, v.len() as int) =~= v@);
    string_from_chars(&v, a, b)
}

/// Whether some text of `names` equals `name`.
fn contains_text(names: &Vec<Vec<char>>, name: &Vec<char>) -> (r: bool)
    ensures
        r == text_views(names@).contains(name@),
{
    let mut j: usize = 0;
    while j < names.len()
        invariant
            j <= names.len(),
            forall|l: int| 0 <= l < j ==> (#[trigger] names@[l])@ != name@,
        decreases names.len() - j,
    {
        if chars_equal(&names[j], name) {
            assert(text_views(names@)[j as int] == name@);
            return true;
        }
        j = j + 1;
    }
    proof {
        if text_views(names@).contains(name@) {
            let l = choose|l: int| 0 <= l < text_views(names@).len() && text_views(names@)[l] == name@;
            assert(names@[l]@ == name@);
        }
    }
    false
}

/// Applies the line `v[start..end]` to the parser state.
fn apply_line(
    v: &Vec<char>,
    start: usize,
    end: usize,
    current: &mut Vec<char>,
    names: &mut Vec<Vec<char>>,
    entries: &mut Vec<(Vec<char>, Vec<char>, Vec<char>)>,
)
    requires
        start <= end <= v.len(),
        text_views(old(names)@).contains(old(current)@),
        forall|i: int| 0 <= i < old(entries).len() ==> text_views(old(names)@).contains(#[trigger] old(entries)@[i].0@),
    ensures
        text_views(final(names)@).contains(final(current)@),
        forall|i: int| 0 <= i < final(entries).len() ==> text_views(final(names)@).contains(#[trigger] final(entries)@[i].0@),
        (final(current)@, sections_of(text_views(final(names)@), triple_views(final(entries)@))) == line_step(
            (old(current)@, sections_of(text_views(old(names)@), triple_views(old(entries)@))),
            v@.subrange(start as int, end as int),
        ),
{
    let ghost raw = v@.subrange(start as int, end as int);
    let ghost nv = text_views(names@);
    let ghost tv = triple_views(entries@);
    let ghost before = (current@, sections_of(nv, tv));
    let (a, b) = strip_range(v, start, end, CharClass::WhiteSpace);
    let ghost line = v@.subrange(a as int, b as int);
    assert(line == trim(raw));
    if a == b || v[a] == ';' || v[a] == '#' {
        assert(line.len() == 0 || line[0] == v@[a as int]);
        return;
    }
    assert(line[0] == v@[a as int]);
    if b - a >= 2 && v[a] == '[' && v[b - 1] == ']' {
        assert(line.last() == v@[b - 1]);
        let (na, nb) = strip_range(v, a + 1, b - 1, CharClass::WhiteSpace);
        assert(line.subrange(1, line.len() - 1) =~= v@.subrange(a + 1, b - 1));
        let name = sub_chars(v, na, nb);
        let ghost was_there = nv.contains(name@);
        let name_copy = copy_chars(&name);
        names.push(name_copy);
        *current = name;
        proof {
            let nv2 = text_views(names@);
            assert(nv2 =~= nv.push(name@));
            assert(nv2.contains(name@)) by {
                assert(nv2[nv.len() as int] == name@);
            }
            assert forall|i: int| 0 <= i < entries.len() implies nv2.contains(#[trigger] entries@[i].0@) by {
                let l = choose|l: int| 0 <= l < nv.len() && nv[l] == entries@[i].0@;
                assert(nv2[l] == nv[l]);
            }
            let old_map = sections_of(nv, tv);
            let new_map = sections_of(nv2, tv);
            if was_there {
                assert forall|n: Seq<char>| nv2.contains(n) <==> nv.contains(n) by {
                    if nv2.contains(n) {
                        let l = choose|l: int| 0 <= l < nv2.len() && nv2[l] == n;
                        if l < nv.len() {
                            assert(nv[l] == n);
                        }
                    }
                    if nv.contains(n) {
                        let l = choose|l: int| 0 <= l < nv.len() && nv[l] == n;
                        assert(nv2[l] == n);
                    }
                }
                assert(new_map =~= old_map);
            } else {
                assert forall|i: int| 0 <= i < tv.len() implies (#[trigger] tv[i]).0 != name@ by {
                    assert(tv[i].0 == entries@[i].0@);
                }
                lemma_section_pairs_absent(tv, name@);
                assert(assoc_map(Seq::<(Seq<char>, Seq<char>)>::empty()) == Map::<Seq<char>, Seq<char>>::empty());
                assert forall|n: Seq<char>| nv2.contains(n) <==> (nv.contains(n) || n == name@) by {
                    if nv2.contains(n) {
                        let l = choose|l: int| 0 <= l < nv2.len() && nv2[l] == n;
                        if l < nv.len() {
                            assert(nv[l] == n);
                        }
                    }
                    if nv.contains(n) {
                        let l = choose|l: int| 0 <= l < nv.len() && nv[l] == n;
                        assert(nv2[l] == n);
                    }
                }
                assert(new_map =~= old_map.insert(name@, Map::empty()));
            }
        }
        return;
    }
    let eq = find_char(v, a, b, '=');
    assert(v@.subrange(a as int, b as int) == line);
    if eq == b {
        return;
    }
    let ghost i = eq - a;
    assert(line.take(i) =~= v@.subrange(a as int, eq as int));
    assert(line.skip(i + 1) =~= v@.subrange(eq + 1, b as int));
    let (ka, kb) = strip_range(v, a, eq, CharClass::WhiteSpace);
    if ka == kb {
        return;
    }
    let (va, vb) = strip_range(v, eq + 1, b, CharClass::WhiteSpace);
    let (ua, ub) = unquote_range(v, va, vb);
    let key = sub_chars(v, ka, kb);
    let value = sub_chars(v, ua, ub);
    let section = copy_chars(current);
    let ghost sec = current@;
    entries.push((section, key, value));
    proof {
        let tv2 = triple_views(entries@);
        assert(tv2 =~= tv.push((sec, key@, value@)));
        assert(tv2.drop_last() =~= tv);
        assert forall|k: int| 0 <= k < entries.len() implies nv.contains(#[trigger] entries@[k].0@) by {
            if k < tv.len() {
                assert(entries@[k] == old(entries)@[k]);
            }
        }
        let old_map = sections_of(nv, tv);
        let new_map = sections_of(nv, tv2);
        assert(section_pairs(tv2, sec) == section_pairs(tv, sec).push((key@, value@)));
        let fields = old_map[sec];
        assert(assoc_map(section_pairs(tv, sec).push((key@, value@))) == assoc_map(section_pairs(tv, sec)).insert(
            key@,
            value@,
        )) by {
            assert(section_pairs(tv, sec).push((key@, value@)).drop_last() =~= section_pairs(tv, sec));
        }
        assert forall|n: Seq<char>| n != sec implies section_pairs(tv2, n) == section_pairs(tv, n) by {}
        assert(new_map =~= old_map.insert(sec, fields.insert(key@, value@)));
    }
}

/// Parses INI text into sections: `[name]` lines open a section (names
/// trimmed), `key=value` lines add a field to the current section (key
/// trimmed, value trimmed and unquoted, a later key overriding an earlier one),
/// and blank lines, `;` and `#` comments and other lines are skipped.  Fields
/// before the first section header belong to the unnamed section `""`, which
/// always exists.
pub fn parse_ini_sections(text: &str) -> (r: IniSections)
    ensures
        r@ == ini_sections(text@),
        r@.dom().finite(),
        forall|n: Seq<char>| #[trigger] r@.contains_key(n) ==> r@[n].dom().finite(),
{
    let v = chars_of(text);
    let r = parse_ini_chars(&v);
    proof {
        lemma_sections_finite(&r);
    }
    r
}

/// `parse_ini_sections` on the characters of a text.
pub fn parse_ini_chars(v: &Vec<char>) -> (r: IniSections)
    ensures
        r@ == ini_sections(v@),
{
    let mut current: Vec<char> = Vec::new();
    let mut names: Vec<Vec<char>> = Vec::new();
    names.push(Vec::new());
    let mut entries: Vec<(Vec<char>, Vec<char>, Vec<char>)> = Vec::new();
    proof {
        assert(text_views(names@) =~= seq![Seq::<char>::empty()]);
        assert(text_views(names@)[0] == current@);
        assert(triple_views(entries@) =~= Seq::empty());
        let m = sections_of(text_views(names@), triple_views(entries@));
        assert(section_pairs(triple_views(entries@), Seq::<char>::empty()) == Seq::<(Seq<char>, Seq<char>)>::empty());
        assert forall|n: Seq<char>| text_views(names@).contains(n) <==> n == Seq::<char>::empty() by {
            if text_views(names@).contains(n) {
                let l = choose|l: int| 0 <= l < text_views(names@).len() && text_views(names@)[l] == n;
            }
        }
        assert(m =~= initial_state().1);
        assert(v@.subrange(0, v.len() as int) =~= v@);
    }
    let mut pos: usize = 0;
    loop
        invariant_except_break
            pos <= v.len(),
            apply_lines(
                (current@, sections_of(text_views(names@), triple_views(entries@))),
                split_on(v@.subrange(pos as int, v.len() as int), '\n'),
            ) == apply_lines(initial_state(), split_on(v@, '\n')),
        invariant
            text_views(names@).contains(current@),
            forall|i: int| 0 <= i < entries.len() ==> text_views(names@).contains(#[trigger] entries@[i].0@),
        ensures
            sections_of(text_views(names@), triple_views(entries@)) == ini_sections(v@),
        decreases v.len() - pos,
    {
        let end = find_char(v, pos, v.len(), '\n');
        let ghost rest = v@.subrange(pos as int, v.len() as int);
        let ghost state = (current@, sections_of(text_views(names@), triple_views(entries@)));
        assert(rest.take(end - pos) =~= v@.subrange(pos as int, end as int));
        apply_line(v, pos, end, &mut current, &mut names, &mut entries);
        if end == v.len() {
            proof {
                assert(split_on(rest, '\n') == seq![rest]);
                assert(rest =~= v@.subrange(pos as int, end as int));
                assert(seq![rest].skip(1) =~= Seq::<Seq<char>>::empty());
                let next = line_step(state, rest);
                assert(apply_lines(next, Seq::<Seq<char>>::empty()) == next);
                assert(apply_lines(state, seq![rest]) == apply_lines(next, seq![rest].skip(1)));
                assert(next == (current@, sections_of(text_views(names@), triple_views(entries@))));
            }
            break;
        }
        proof {
            assert(rest.skip(end - pos + 1) =~= v@.subrange(end + 1, v.len() as int));
            let tail = split_on(v@.subrange(end + 1, v.len() as int), '\n');
            assert(split_on(rest, '\n') == seq![rest.take(end - pos)] + tail);
            assert((seq![rest.take(end - pos)] + tail).skip(1) =~= tail);
        }
        pos = end + 1;
    }
    IniSections { names, entries }
}

impl IniSections {
    /// The name under which `lookup_key` finds `name` among the sections.
    pub fn lookup(&self, name: &Vec<char>) -> (r: Option<Vec<char>>)
        ensures
            match r {
                Some(k) => lookup_key(self@, name@) == Some(k@),
                None => lookup_key(self@, name@) is None,
            },
    {
        let ghost nv = text_views(self.names@);
        if contains_text(&self.names, name) {
            return Some(copy_chars(name));
        }
        let test = KeyTest::SameAsciiCase(copy_chars(name));
        let ghost p = test.as_spec();
        assert(p == same_ascii_case(name@));
        match least_passing(&self.names, &test) {
            Some(i) => {
                proof {
                    let k = self.names@[i as int]@;
                    assert(nv[i as int] == k);
                    assert forall|k2: Seq<char>| #[trigger] self@.contains_key(k2) && p(k2) implies k2 == k
                        || text_lt(k, k2) by {
                        let j = choose|j: int| 0 <= j < nv.len() && nv[j] == k2;
                        assert(self.names@[j]@ == k2);
                    }
                    assert(is_least_where(self@, p, k));
                    lemma_least_key_where(self@, p, k);
                }
                Some(copy_chars(&self.names[i]))
            },
            None => {
                proof {
                    if exists|k: Seq<char>| is_least_where(self@, p, k) {
                        let k = choose|k: Seq<char>| is_least_where(self@, p, k);
                        let j = choose|j: int| 0 <= j < nv.len() && nv[j] == k;
                        assert(self.names@[j]@ == k);
                    }
                }
                None
            },
        }
    }

    /// The fields of the section named exactly `name`, if there is one.
    pub fn get(&self, name: &str) -> (r: Option<FieldMap>)
        ensures
            match r {
                Some(fields) => self@.contains_key(name@) && fields@ == self@[name@],
                None => !self@.contains_key(name@),
            },
    {
        let n = chars_of(name);
        if contains_text(&self.names, &n) {
            Some(self.fields_of(&n))
        } else {
            None
        }
    }

    /// The fields of section `name` (which must exist).
    pub fn fields_of(&self, name: &Vec<char>) -> (r: FieldMap)
        requires
            self@.contains_key(name@),
        ensures
            r@ == self@[name@],
    {
        let ghost tv = triple_views(self.entries@);
        let mut pairs: Vec<(Vec<char>, Vec<char>)> = Vec::new();
        let mut j: usize = 0;
        while j < self.entries.len()
            invariant
                j <= self.entries.len(),
                tv == triple_views(self.entries@),
                pair_views(pairs@) == section_pairs(tv.take(j as int), name@),
            decreases self.entries.len() - j,
        {
            assert(tv.take(j + 1).drop_last() =~= tv.take(j as int));
            assert(tv.take(j + 1).last() == tv[j as int]);
            if chars_equal(&self.entries[j].0, name) {
                let k = copy_chars(&self.entries[j].1);
                let val = copy_chars(&self.entries[j].2);
                let ghost before = pairs@;
                pairs.push((k, val));
                assert(pair_views(pairs@) =~= pair_views(before).push((k@, val@)));
            }
            j = j + 1;
        }
        assert(tv.take(self.entries.len() as int) =~= tv);
        FieldMap::from_pairs(pairs)
    }
}

/// The fields of the first section that `names` designates (see `section_fields_of`).
pub fn section_fields(sections: &IniSections, names: &[&str]) -> (r: FieldMap)
    ensures
        r@ == section_fields_of(sections@, str_views(names@)),
        r@.dom().finite(),
{
    let ghost all = str_views(names@);
    let mut i: usize = 0;
    assert(all.skip(0) =~= all);
    while i < names.len()
        invariant
            i <= names.len(),
            all == str_views(names@),
            section_fields_of(sections@, all) == section_fields_of(sections@, all.skip(i as int)),
        decreases names.len() - i,
    {
        let name = chars_of(names[i]);
        assert(all.skip(i as int)[0] == name@);
        assert(all.skip(i as int).skip(1) =~= all.skip(i + 1));
        match sections.lookup(&name) {
            Some(k) => {
                let fields = sections.fields_of(&k);
                proof {
                    crate::fields::lemma_field_map_finite(&fields);
                }
                return fields;
            },
            None => {},
        }
        i = i + 1;
    }
    let fields = FieldMap::new();
    proof {
        crate::fields::lemma_field_map_finite(&fields);
    }
    fields
}

impl FieldMap {
    /// The key under which `lookup_key` finds `name` in the table.
    pub fn lookup(&self, name: &Vec<char>) -> (r: Option<Vec<char>>)
        ensures
            match r {
                Some(k) => lookup_key(self@, name@) == Some(k@),
                None => lookup_key(self@, name@) is None,
            },
    {
        match self.get_chars(name) {
            Some(_) => Some(copy_chars(name)),
            None => {
                let test = KeyTest::SameAsciiCase(copy_chars(name));
                assert(test.as_spec() == same_ascii_case(name@));
                self.least_key(&test)
            },
        }
    }
}

/// The value of the first of `keys` that the table holds (see `first_field_of`).
pub fn first_field_chars(fields: &FieldMap, keys: &[&str]) -> (r: Option<Vec<char>>)
    ensures
        match r {
            Some(v) => first_field_of(fields@, str_views(keys@)) == Some(v@),
            None => first_field_of(fields@, str_views(keys@)) is None,
        },
{
    let ghost all = str_views(keys@);
    let mut i: usize = 0;
    assert(all.skip(0) =~= all);
    while i < keys.len()
        invariant
            i <= keys.len(),
            all == str_views(keys@),
            first_field_of(fields@, all) == first_field_of(fields@, all.skip(i as int)),
        decreases keys.len() - i,
    {
        let key = chars_of(keys[i]);
        assert(all.skip(i as int)[0] == key@);
        assert(all.skip(i as int).skip(1) =~= all.skip(i + 1));
        match fields.lookup(&key) {
            Some(k) => {
                return fields.get_chars(&k);
            },
            None => {},
        }
        i = i + 1;
    }
    None
}

/// The value of the first of `keys` that the table holds (see `first_field_of`).
pub fn first_field(fields: &FieldMap, keys: &[&str]) -> (r: Option<String>)
    ensures
        r matches Some(v) ==> first_field_of(fields@, str_views(keys@)) == Some(v@),
        r is None ==> first_field_of(fields@, str_views(keys@)) is None,
{
    match first_field_chars(fields, keys) {
        Some(v) => {
            assert(v@.subrange(0, v.len() as int) =~= v@);
            Some(string_from_chars(&v, 0, v.len()))
        },
        None => None,
    }
}

/// How the table stores a password (see `password_field_of`).
pub fn password_field(fields: &FieldMap) -> (r: Option<PasswordField>)
    ensures
        r == password_field_of(fields@),
{
    let test = KeyTest::Password;
    assert(test.as_spec() == password_keys());
    match fields.least_key(&test) {
        None => None,
        Some(k) => {
            match fields.get_chars(&k) {
                Some(value) => {
                    let (a, b) = strip_range(&value, 0, value.len(), CharClass::WhiteSpace);
                    assert(value@.subrange(0, value.len() as int) =~= value@);
                    if a == b {
                        Some(PasswordField::Empty)
                    } else {
                        Some(PasswordField::Encrypted)
                    }
                },
                None => {
                    proof {
                        let p = password_keys();
                        let c = choose|c: Seq<char>| is_least_where(fields@, p, c);
                    }
                    None
                },
            }
        },
    }
}

/// Only password keys decide the password field: adding, changing or removing
/// a key whose normalized form does not begin with `password` (such as
/// `Passphrase` or `pwd`) leaves it as it was.
pub proof fn law_other_keys_do_not_decide_the_password(
    fields: Map<Seq<char>, Seq<char>>,
    key: Seq<char>,
    value: Seq<char>,
)
    requires
        ({
            let n = normalized_key(key);
            !(n.len() >= 8 && n[0] == 'p' && n[1] == 'a' && n[2] == 's' && n[3] == 's' && n[4] == 'w' && n[5] == 'o'
                && n[6] == 'r' && n[7] == 'd')
        }),
    ensures
        password_field_of(fields.insert(key, value)) == password_field_of(fields.remove(key)),
{
    crate::fields::law_password_keys_begin_with_password(key);
    let p = password_keys();
    let with = fields.insert(key, value);
    let without = fields.remove(key);
    assert(!p(key));
    assert forall|k2: Seq<char>| p(k2) implies (with.contains_key(k2) <==> without.contains_key(k2)) by {
        assert(k2 != key);
    }
    assert forall|x: Seq<char>| is_least_where(with, p, x) implies is_least_where(without, p, x) by {
        assert forall|k2: Seq<char>| #[trigger] without.contains_key(k2) && p(k2) implies k2 == x || text_lt(x, k2) by {
            assert(with.contains_key(k2));
        }
    }
    assert forall|x: Seq<char>| is_least_where(without, p, x) implies is_least_where(with, p, x) by {
        assert forall|k2: Seq<char>| #[trigger] with.contains_key(k2) && p(k2) implies k2 == x || text_lt(x, k2) by {
            assert(without.contains_key(k2));
        }
    }
    if exists|x: Seq<char>| is_least_where(with, p, x) {
        let x = choose|x: Seq<char>| is_least_where(with, p, x);
        lemma_least_key_where(with, p, x);
        lemma_least_key_where(without, p, x);
        assert(x != key);
        assert(with[x] == without[x]);
    } else {
        assert(!exists|x: Seq<char>| is_least_where(without, p, x));
    }
}

/// A key with everything but ASCII letters and digits removed, lower-cased.
pub fn normalize_key(key: &str) -> (r: String)
    ensures
        r@ == normalized_key(key@),
{
    let v = chars_of(key);
    let n = normalized_chars(&v);
    assert(n@.subrange(0, n.len() as int) =~= n@);
    string_from_chars(&n, 0, n.len())
}

/// Applying lines never drops a section.
pub proof fn lemma_apply_lines_keeps_sections(state: (Seq<char>, SectionMap), lines: Seq<Seq<char>>, name: Seq<char>)
    requires
        state.1.contains_key(name),
    ensures
        apply_lines(state, lines).1.contains_key(name),
    decreases lines.len(),
{
    if lines.len() > 0 {
        lemma_apply_lines_keeps_sections(line_step(state, lines[0]), lines.skip(1), name);
    }
}

/// Every parsed document has the unnamed section `""` (where fields before
/// the first header go), even when it is empty.
pub proof fn law_unnamed_section_always_present(text: Seq<char>)
    ensures
        ini_sections(text).contains_key(Seq::<char>::empty()),
{
    lemma_apply_lines_keeps_sections(initial_state(), split_on(text, '\n'), Seq::<char>::empty());
}

/// A value wrapped in one pair of matching quotes comes out as what they enclose.
pub proof fn law_quoted_value_is_unquoted(inner: Seq<char>, quote: char)
    requires
        quote == '"' || quote == '\'',
    ensures
        unquoted(seq![quote] + inner + seq![quote]) == inner,
{
    let s = seq![quote] + inner + seq![quote];
    assert(s[0] == quote);
    assert(s.last() == quote);
    crate::text::lemma_strip_unchanged(s, CharClass::WhiteSpace);
    assert(s.subrange(1, s.len() - 1) =~= inner);
}

/// A line that the parser passes over: blank, a comment (`;` or `#` first),
/// or neither a `[...]` header nor a line with a key before its first `=`.
pub open spec fn is_ignorable_line(raw: Seq<char>) -> bool {
    let line = trim(raw);
    &&& !raw.contains('\n')
    &&& {
        ||| line.len() == 0
        ||| line[0] == ';'
        ||| line[0] == '#'
        ||| {
            &&& !(line.len() >= 2 && line[0] == '[' && line.last() == ']')
            &&& match index_of(line, '=') {
                None => true,
                Some(i) => trim(line.take(i)).len() == 0,
            }
        }
    }
}

/// Applying two runs of lines is applying the first, then the second.
pub proof fn lemma_apply_lines_append(
    state: (Seq<char>, SectionMap),
    first: Seq<Seq<char>>,
    second: Seq<Seq<char>>,
)
    ensures
        apply_lines(state, first + second) == apply_lines(apply_lines(state, first), second),
    decreases first.len(),
{
    if first.len() > 0 {
        assert((first + second)[0] == first[0]);
        assert((first + second).skip(1) =~= first.skip(1) + second);
        lemma_apply_lines_append(line_step(state, first[0]), first.skip(1), second);
    } else {
        assert(first + second =~= second);
    }
}

/// Inserting a line that the parser passes over (see `is_ignorable_line`) at
/// any line boundary of a text (between two lines, before the first, or after
/// the last) leaves its sections and fields unchanged.
pub proof fn law_ignorable_line_changes_nothing(before: Seq<char>, line: Seq<char>, after: Seq<char>)
    requires
        is_ignorable_line(line),
    ensures
        ini_sections(before + seq!['\n'] + line + seq!['\n'] + after) == ini_sections(before + seq!['\n'] + after),
        ini_sections(line + seq!['\n'] + after) == ini_sections(after),
        ini_sections(before + seq!['\n'] + line) == ini_sections(before),
{
    let nl = '\n';
    let pb = split_on(before, nl);
    let pa = split_on(after, nl);
    crate::text::lemma_split_on_single(line, nl);
    crate::text::lemma_split_on_joined(line, after, nl);
    crate::text::lemma_split_on_joined(before, line + seq![nl] + after, nl);
    crate::text::lemma_split_on_joined(before, after, nl);
    crate::text::lemma_split_on_joined(before, line, nl);
    assert(before + seq![nl] + line + seq![nl] + after =~= before + seq![nl] + (line + seq![nl] + after));
    let s0 = apply_lines(initial_state(), pb);
    assert(line_step(s0, line) == s0);
    assert(line_step(initial_state(), line) == initial_state());
    // before, line, after
    lemma_apply_lines_append(initial_state(), pb, seq![line] + pa);
    lemma_apply_lines_append(s0, seq![line], pa);
    assert(apply_lines(s0, seq![line]) == s0) by {
        let rest = seq![line].skip(1);
        assert(rest =~= Seq::<Seq<char>>::empty());
        assert(apply_lines(s0, rest) == s0);
        assert(seq![line][0] == line);
    }
    assert(pb + (seq![line] + pa) =~= pb + seq![line] + pa);
    lemma_apply_lines_append(initial_state(), pb, pa);
    // line, after
    lemma_apply_lines_append(initial_state(), seq![line], pa);
    assert(apply_lines(initial_state(), seq![line]) == initial_state()) by {
        let rest = seq![line].skip(1);
        assert(rest =~= Seq::<Seq<char>>::empty());
        assert(apply_lines(initial_state(), rest) == initial_state());
        assert(seq![line][0] == line);
    }
    // before, line
    lemma_apply_lines_append(initial_state(), pb, seq![line]);
}

/// Parsed documents have finitely many sections, each with finitely many fields.
pub proof fn lemma_sections_finite(sections: &IniSections)
    ensures
        sections@.dom().finite(),
        forall|n: Seq<char>| #[trigger] sections@.contains_key(n) ==> sections@[n].dom().finite(),
{
    let nv = text_views(sections.names@);
    let tv = triple_views(sections.entries@);
    assert(sections@.dom() =~= nv.to_set());
    vstd::seq_lib::seq_to_set_is_finite(nv);
    assert forall|n: Seq<char>| #[trigger] sections@.contains_key(n) implies sections@[n].dom().finite() by {
        lemma_assoc_map_finite(section_pairs(tv, n));
    }
}

/// Section names are trimmed; field keys are non-empty, trimmed and hold no `=`.
pub open spec fn tidy_sections(sections: SectionMap) -> bool {
    forall|n: Seq<char>|
        #[trigger] sections.contains_key(n) ==> trim(n) == n && forall|k: Seq<char>|
            #[trigger] sections[n].contains_key(k) ==> k.len() > 0 && trim(k) == k && !k.contains('=')
}

/// A trimmed text is its own trim.
proof fn lemma_trimmed(s: Seq<char>)
    ensures
        trim(trim(s)) == trim(s),
{
    lemma_strip_idempotent(s, CharClass::WhiteSpace);
}

/// One line keeps the sections tidy and the current section name trimmed.
proof fn lemma_line_step_tidy(state: (Seq<char>, SectionMap), raw: Seq<char>)
    requires
        trim(state.0) == state.0,
        tidy_sections(state.1),
    ensures
        trim(line_step(state, raw).0) == line_step(state, raw).0,
        tidy_sections(line_step(state, raw).1),
{
    let line = trim(raw);
    let current = state.0;
    let sections = state.1;
    if line.len() == 0 || line[0] == ';' || line[0] == '#' {
    } else if line.len() >= 2 && line[0] == '[' && line.last() == ']' {
        let name = trim(line.subrange(1, line.len() - 1));
        lemma_trimmed(line.subrange(1, line.len() - 1));
        let next = line_step(state, raw).1;
        assert forall|n: Seq<char>| #[trigger] next.contains_key(n) implies trim(n) == n && forall|k: Seq<char>|
            #[trigger] next[n].contains_key(k) ==> k.len() > 0 && trim(k) == k && !k.contains('=') by {
            if n != name {
                assert(sections.contains_key(n));
            } else if !sections.contains_key(name) {
                assert(next[n] == Map::<Seq<char>, Seq<char>>::empty());
            }
        }
    } else {
        match index_of(line, '=') {
            None => {},
            Some(i) => {
                let x = line.take(i);
                let key = trim(x);
                if key.len() > 0 {
                    lemma_index_of(line, '=');
                    lemma_trimmed(x);
                    lemma_strip_is_subrange(x, CharClass::WhiteSpace);
                    let a = crate::text::strip_offset(x, CharClass::WhiteSpace);
                    assert(!key.contains('=')) by {
                        if key.contains('=') {
                            let j = choose|j: int| 0 <= j < key.len() && key[j] == '=';
                            assert(key[j] == x[a + j]);
                            assert(x[a + j] == line[a + j]);
                        }
                    }
                    let fields = if sections.contains_key(current) {
                        sections[current]
                    } else {
                        Map::empty()
                    };
                    let next = line_step(state, raw).1;
                    assert(next == sections.insert(current, fields.insert(key, unquoted(trim(line.skip(i + 1))))));
                    assert forall|n: Seq<char>| #[trigger] next.contains_key(n) implies trim(n) == n && forall|k: Seq<char>|
                        #[trigger] next[n].contains_key(k) ==> k.len() > 0 && trim(k) == k && !k.contains('=') by {
                        if n != current {
                            assert(sections.contains_key(n));
                        } else {
                            assert forall|k: Seq<char>| #[trigger] next[n].contains_key(k) implies k.len() > 0 && trim(k)
                                == k && !k.contains('=') by {
                                if k != key {
                                    assert(fields.contains_key(k));
                                    assert(sections.contains_key(current));
                                }
                            }
                        }
                    }
                }
            },
        }
    }
}

/// Lines applied one after the other keep the sections tidy.
proof fn lemma_apply_lines_tidy(state: (Seq<char>, SectionMap), lines: Seq<Seq<char>>)
    requires
        trim(state.0) == state.0,
        tidy_sections(state.1),
    ensures
        tidy_sections(apply_lines(state, lines).1),
    decreases lines.len(),
{
    if lines.len() > 0 {
        lemma_line_step_tidy(state, lines[0]);
        lemma_apply_lines_tidy(line_step(state, lines[0]), lines.skip(1));
    }
}

/// Every section name of a parsed document is trimmed, and every field key is
/// non-empty, trimmed and free of `=`.
pub proof fn law_names_and_keys_are_trimmed(text: Seq<char>)
    ensures
        tidy_sections(ini_sections(text)),
{
    let init = initial_state();
    lemma_trimmed(Seq::<char>::empty());
    assert(trim(Seq::<char>::empty()) == Seq::<char>::empty());
    assert forall|n: Seq<char>| #[trigger] init.1.contains_key(n) implies trim(n) == n && forall|k: Seq<char>|
        #[trigger] init.1[n].contains_key(k) ==> k.len() > 0 && trim(k) == k && !k.contains('=') by {
        assert(n == Seq::<char>::empty());
        assert(init.1[n] == Map::<Seq<char>, Seq<char>>::empty());
    }
    lemma_apply_lines_tidy(init, split_on(text, '\n'));
}

} // verus!
