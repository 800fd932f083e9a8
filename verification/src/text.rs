//! Character-level text model: Unicode white space, trimming, ASCII case
//! folding, line splitting, lexicographic order and decimal port numbers.
//!
//! Every string is modelled by its sequence of Unicode scalar values
//! (`Seq<char>`), which is what `str` and `String` views give in vstd.
use vstd::prelude::*;

verus! {

/// The Unicode `White_Space` property: the characters that `char::is_whitespace`
/// accepts and that `str::trim` removes.
pub open spec fn is_white_space(c: char) -> bool {
    ||| ('\u{9}' <= c && c <= '\u{d}')
    ||| c == ' '
    ||| c == '\u{85}'
    ||| c == '\u{a0}'
    ||| c == '\u{1680}'
    ||| ('\u{2000}' <= c && c <= '\u{200a}')
    ||| c == '\u{2028}'
    ||| c == '\u{2029}'
    ||| c == '\u{202f}'
    ||| c == '\u{205f}'
    ||| c == '\u{3000}'
}

/// A set of characters that may be stripped from both ends of a text.
#[derive(Clone, Copy, PartialEq, Eq, Debug)]
pub enum CharClass {
    /// Unicode white space (what `str::trim` removes).
    WhiteSpace,
    /// The two ASCII quote marks `"` and `'`.
    Quote,
    /// The two square brackets `[` and `]`.
    Bracket,
}

impl CharClass {
    pub open spec fn holds(self, c: char) -> bool {
        match self {
            CharClass::WhiteSpace => is_white_space(c),
            CharClass::Quote => c == '"' || c == '\'',
            CharClass::Bracket => c == '[' || c == ']',
        }
    }

    /// Whether `c` belongs to this class.
    pub fn contains(&self, c: char) -> (r: bool)
        ensures
            r == self.holds(c),
    {
        match self {
            CharClass::WhiteSpace => {
                ('\u{9}' <= c && c <= '\u{d}') || c == ' ' || c == '\u{85}' || c == '\u{a0}'
                    || c == '\u{1680}' || ('\u{2000}' <= c && c <= '\u{200a}') || c == '\u{2028}'
                    || c == '\u{2029}' || c == '\u{202f}' || c == '\u{205f}' || c == '\u{3000}'
            },
            CharClass::Quote => c == '"' || c == '\'',
            CharClass::Bracket => c == '[' || c == ']',
        }
    }
}

/// `s` without its leading characters of `class`.
pub open spec fn strip_start(s: Seq<char>, class: CharClass) -> Seq<char>
    decreases s.len(),
{
    if s.len() > 0 && class.holds(s[0]) {
        strip_start(s.skip(1), class)
    } else {
        s
    }
}

/// `s` without its trailing characters of `class`.
pub open spec fn strip_end(s: Seq<char>, class: CharClass) -> Seq<char>
    decreases s.len(),
{
    if s.len() > 0 && class.holds(s.last()) {
        strip_end(s.drop_last(), class)
    } else {
        s
    }
}

/// `s` without the characters of `class` at either end (`str::trim_matches`).
pub open spec fn strip(s: Seq<char>, class: CharClass) -> Seq<char> {
    strip_end(strip_start(s, class), class)
}

/// `str::trim`: `s` without leading and trailing white space.
pub open spec fn trim(s: Seq<char>) -> Seq<char> {
    strip(s, CharClass::WhiteSpace)
}

/// `strip_start` keeps a suffix of `s` that does not begin with a character of `class`.
pub proof fn lemma_strip_start_shape(s: Seq<char>, class: CharClass)
    ensures
        strip_start(s, class).len() <= s.len(),
        strip_start(s, class) == s.skip(s.len() - strip_start(s, class).len()),
        strip_start(s, class).len() > 0 ==> !class.holds(strip_start(s, class)[0]),
    decreases s.len(),
{
    if s.len() > 0 && class.holds(s[0]) {
        lemma_strip_start_shape(s.skip(1), class);
        let t = strip_start(s.skip(1), class);
        assert(s.skip(1).skip(s.skip(1).len() - t.len()) =~= s.skip(s.len() - t.len()));
    } else {
        assert(s.skip(0) =~= s);
    }
}

/// `strip_end` keeps a prefix of `s` that does not end with a character of `class`.
pub proof fn lemma_strip_end_shape(s: Seq<char>, class: CharClass)
    ensures
        strip_end(s, class).len() <= s.len(),
        strip_end(s, class) == s.take(strip_end(s, class).len() as int),
        strip_end(s, class).len() > 0 ==> !class.holds(strip_end(s, class).last()),
    decreases s.len(),
{
    if s.len() > 0 && class.holds(s.last()) {
        lemma_strip_end_shape(s.drop_last(), class);
        let t = strip_end(s.drop_last(), class);
        assert(s.drop_last().take(t.len() as int) =~= s.take(t.len() as int));
    } else {
        assert(s.take(s.len() as int) =~= s);
    }
}

/// Stripping a text that neither begins nor ends with a character of `class` changes nothing.
pub proof fn lemma_strip_unchanged(s: Seq<char>, class: CharClass)
    requires
        s.len() > 0 ==> !class.holds(s[0]) && !class.holds(s.last()),
    ensures
        strip(s, class) == s,
{
}

/// Stripping twice is stripping once.
pub proof fn lemma_strip_idempotent(s: Seq<char>, class: CharClass)
    ensures
        strip(strip(s, class), class) == strip(s, class),
        strip(s, class).len() > 0 ==> !class.holds(strip(s, class)[0]) && !class.holds(strip(s, class).last()),
{
    let a = strip_start(s, class);
    lemma_strip_start_shape(s, class);
    lemma_strip_end_shape(a, class);
    let t = strip_end(a, class);
    if t.len() > 0 {
        assert(t[0] == a[0]);
    }
    lemma_strip_unchanged(t, class);
}

/// Where the stripped text begins inside `s`.
pub open spec fn strip_offset(s: Seq<char>, class: CharClass) -> int {
    s.len() - strip_start(s, class).len()
}

/// Stripping keeps a contiguous stretch of the text.
pub proof fn lemma_strip_is_subrange(s: Seq<char>, class: CharClass)
    ensures
        0 <= strip_offset(s, class),
        strip_offset(s, class) + strip(s, class).len() <= s.len(),
        strip(s, class) == s.subrange(strip_offset(s, class), strip_offset(s, class) + strip(s, class).len()),
{
    let y = strip_start(s, class);
    lemma_strip_start_shape(s, class);
    lemma_strip_end_shape(y, class);
    let t = strip_end(y, class);
    let a = s.len() - y.len();
    assert(t =~= s.subrange(a, a + t.len()));
}

/// The bounds, inside `v[start..end]`, of that range stripped of `class` at both ends.
pub fn strip_range(v: &Vec<char>, start: usize, end: usize, class: CharClass) -> (r: (usize, usize))
    requires
        start <= end <= v.len(),
    ensures
        start <= r.0 <= r.1 <= end,
        v@.subrange(r.0 as int, r.1 as int) == strip(v@.subrange(start as int, end as int), class),
{
    let mut a = start;
    while a < end && class.contains(v[a])
        invariant
            start <= a <= end <= v.len(),
            strip_start(v@.subrange(start as int, end as int), class) == strip_start(
                v@.subrange(a as int, end as int),
                class,
            ),
        decreases end - a,
    {
        assert(v@.subrange(a as int, end as int).skip(1) =~= v@.subrange(a + 1, end as int));
        a = a + 1;
    }
    let mut b = end;
    while b > a && class.contains(v[b - 1])
        invariant
            start <= a <= b <= end <= v.len(),
            strip_start(v@.subrange(start as int, end as int), class) == v@.subrange(
                a as int,
                end as int,
            ),
            strip_end(v@.subrange(a as int, end as int), class) == strip_end(
                v@.subrange(a as int, b as int),
                class,
            ),
        decreases b - a,
    {
        assert(v@.subrange(a as int, b as int).drop_last() =~= v@.subrange(a as int, b - 1));
        b = b - 1;
    }
    (a, b)
}

/// ASCII lower-casing of one character (`char::to_ascii_lowercase`).
pub open spec fn to_lower(c: char) -> char {
    if 'A' <= c && c <= 'Z' {
        ((c as u32) + 32) as char
    } else {
        c
    }
}

/// ASCII lower-casing of a text (`str::to_ascii_lowercase`).
pub open spec fn lower_all(s: Seq<char>) -> Seq<char> {
    s.map_values(|c: char| to_lower(c))
}

/// `str::eq_ignore_ascii_case`.
pub open spec fn eq_ignore_ascii_case(a: Seq<char>, b: Seq<char>) -> bool {
    a.len() == b.len() && forall|i: int| 0 <= i < a.len() ==> to_lower(#[trigger] a[i]) == to_lower(b[i])
}

pub fn ascii_lower(c: char) -> (r: char)
    ensures
        r == to_lower(c),
{
    if 'A' <= c && c <= 'Z' {
        let u: u8 = c as u8;
        (u + 32) as char
    } else {
        c
    }
}

/// Whether two texts are equal.
pub fn chars_equal(a: &Vec<char>, b: &Vec<char>) -> (r: bool)
    ensures
        r == (a@ == b@),
{
    if a.len() != b.len() {
        return false;
    }
    let mut i: usize = 0;
    while i < a.len()
        invariant
            a.len() == b.len(),
            i <= a.len(),
            forall|j: int| 0 <= j < i ==> a@[j] == b@[j],
        decreases a.len() - i,
    {
        if a[i] != b[i] {
            return false;
        }
        i = i + 1;
    }
    assert(a@ =~= b@);
    true
}

/// Whether two texts are equal up to ASCII case.
pub fn chars_eq_ignore_ascii_case(a: &Vec<char>, b: &Vec<char>) -> (r: bool)
    ensures
        r == eq_ignore_ascii_case(a@, b@),
{
    if a.len() != b.len() {
        return false;
    }
    let mut i: usize = 0;
    while i < a.len()
        invariant
            a.len() == b.len(),
            i <= a.len(),
            forall|j: int| 0 <= j < i ==> to_lower(#[trigger] a@[j]) == to_lower(b@[j]),
        decreases a.len() - i,
    {
        if ascii_lower(a[i]) != ascii_lower(b[i]) {
            return false;
        }
        i = i + 1;
    }
    true
}

/// The ASCII lower-case form of `v`.
pub fn chars_to_lower(v: &Vec<char>) -> (r: Vec<char>)
    ensures
        r@ == lower_all(v@),
{
    let mut r: Vec<char> = Vec::new();
    let mut i: usize = 0;
    while i < v.len()
        invariant
            i <= v.len(),
            r@ =~= lower_all(v@.take(i as int)),
        decreases v.len() - i,
    {
        r.push(ascii_lower(v[i]));
        i = i + 1;
        assert(r@ =~= lower_all(v@.take(i as int)));
    }
    assert(v@.take(v.len() as int) =~= v@);
    r
}

/// The characters of a string slice.
pub fn chars_of(s: &str) -> (v: Vec<char>)
    ensures
        v@ == s@,
{
    let mut v: Vec<char> = Vec::new();
    for c in it: s.chars()
        invariant
            v@ == it.seq().take(it.index() as int),
    {
        v.push(c);
    }
    v
}

/// `String::from_iter` over the characters `v[start..end]`.
#[verifier::external_body]
pub(crate) fn string_from_chars(v: &Vec<char>, start: usize, end: usize) -> (s: String)
    requires
        start <= end <= v.len(),
    ensures
        s@ == v@.subrange(start as int, end as int),
{
    v[start..end].iter().collect::<String>()
}

/// Index of the first occurrence of `c` in `s`.
pub open spec fn index_of(s: Seq<char>, c: char) -> Option<int>
    decreases s.len(),
{
    if s.len() == 0 {
        None
    } else if s[0] == c {
        Some(0)
    } else {
        match index_of(s.skip(1), c) {
            Some(i) => Some(i + 1),
            None => None,
        }
    }
}

/// `index_of` gives the first position that holds `c`, and `None` when none does.
pub proof fn lemma_index_of(s: Seq<char>, c: char)
    ensures
        index_of(s, c) matches Some(i) ==> 0 <= i < s.len() && s[i] == c && forall|j: int|
            0 <= j < i ==> s[j] != c,
        index_of(s, c) is None ==> forall|j: int| 0 <= j < s.len() ==> s[j] != c,
    decreases s.len(),
{
    if s.len() > 0 && s[0] != c {
        lemma_index_of(s.skip(1), c);
        if let Some(i) = index_of(s.skip(1), c) {
            assert forall|j: int| 0 <= j < i + 1 implies s[j] != c by {
                if j > 0 {
                    assert(s[j] == s.skip(1)[j - 1]);
                }
            }
        } else {
            assert forall|j: int| 0 <= j < s.len() implies s[j] != c by {
                if j > 0 {
                    assert(s[j] == s.skip(1)[j - 1]);
                }
            }
        }
    }
}

/// The converse of `lemma_index_of`: a first occurrence is what `index_of` finds.
pub proof fn lemma_index_of_first(s: Seq<char>, c: char, i: int)
    requires
        0 <= i <= s.len(),
        i < s.len() ==> s[i] == c,
        forall|j: int| 0 <= j < i ==> s[j] != c,
    ensures
        index_of(s, c) == (if i < s.len() { Some(i) } else { None::<int> }),
{
    lemma_index_of(s, c);
    if let Some(k) = index_of(s, c) {
        if k < i {
        } else if k > i {
            assert(s[i] == c);
        }
    }
}

/// `str::split(c)`: the pieces of `s` between occurrences of `c`.
pub open spec fn split_on(s: Seq<char>, c: char) -> Seq<Seq<char>>
    decreases s.len(),
{
    match index_of(s, c) {
        None => seq![s],
        Some(i) => {
            proof {
                lemma_index_of(s, c);
            }
            seq![s.take(i)] + split_on(s.skip(i + 1), c)
        },
    }
}

/// A text without `c` is one piece.
pub proof fn lemma_split_on_single(s: Seq<char>, c: char)
    requires
        !s.contains(c),
    ensures
        split_on(s, c) == seq![s],
{
    lemma_index_of_first(s, c, s.len() as int);
}

/// Joining two texts with `c` joins their pieces.
pub proof fn lemma_split_on_joined(a: Seq<char>, b: Seq<char>, c: char)
    ensures
        split_on(a + seq![c] + b, c) == split_on(a, c) + split_on(b, c),
    decreases a.len(),
{
    let j = a + seq![c] + b;
    lemma_index_of(a, c);
    match index_of(a, c) {
        None => {
            lemma_index_of_first(j, c, a.len() as int);
            assert(j.take(a.len() as int) =~= a);
            assert(j.skip(a.len() as int + 1) =~= b);
        },
        Some(i) => {
            lemma_index_of_first(j, c, i);
            assert(j.take(i) =~= a.take(i));
            assert(j.skip(i + 1) =~= a.skip(i + 1) + seq![c] + b);
            lemma_split_on_joined(a.skip(i + 1), b, c);
            assert(split_on(j, c) =~= split_on(a, c) + split_on(b, c));
        },
    }
}

/// Position of the first `c` in `v[start..end]`, or `end` when there is none.
pub fn find_char(v: &Vec<char>, start: usize, end: usize, c: char) -> (r: usize)
    requires
        start <= end <= v.len(),
    ensures
        start <= r <= end,
        r < end ==> v@[r as int] == c,
        forall|j: int| start <= j < r ==> v@[j] != c,
        index_of(v@.subrange(start as int, end as int), c) == (if r < end {
            Some(r - start)
        } else {
            None::<int>
        }),
{
    let mut i = start;
    while i < end && v[i] != c
        invariant
            start <= i <= end <= v.len(),
            forall|j: int| start <= j < i ==> v@[j] != c,
        decreases end - i,
    {
        i = i + 1;
    }
    proof {
        let s = v@.subrange(start as int, end as int);
        assert forall|j: int| 0 <= j < i - start implies s[j] != c by {
            assert(s[j] == v@[start + j]);
        }
        lemma_index_of_first(s, c, i - start);
    }
    i
}

/// Strict lexicographic order on texts, comparing characters by code point.
/// On strings this is the order of `Ord for str` (UTF-8 keeps code point order).
pub open spec fn text_lt(a: Seq<char>, b: Seq<char>) -> bool
    decreases a.len(),
{
    if a.len() == 0 {
        b.len() > 0
    } else if b.len() == 0 {
        false
    } else if a[0] == b[0] {
        text_lt(a.skip(1), b.skip(1))
    } else {
        a[0] < b[0]
    }
}

/// `text_lt` is irreflexive and asymmetric.
pub proof fn lemma_text_lt_asymmetric(a: Seq<char>, b: Seq<char>)
    ensures
        !(text_lt(a, b) && text_lt(b, a)),
        !text_lt(a, a),
    decreases a.len(),
{
    if a.len() > 0 {
        lemma_text_lt_asymmetric(a.skip(1), a.skip(1));
        if b.len() > 0 && a[0] == b[0] {
            lemma_text_lt_asymmetric(a.skip(1), b.skip(1));
        }
    }
}

/// `text_lt` is transitive.
pub proof fn lemma_text_lt_transitive(a: Seq<char>, b: Seq<char>, c: Seq<char>)
    requires
        text_lt(a, b),
        text_lt(b, c),
    ensures
        text_lt(a, c),
    decreases a.len(),
{
    if a.len() > 0 && b.len() > 0 && c.len() > 0 && a[0] == b[0] && b[0] == c[0] {
        lemma_text_lt_transitive(a.skip(1), b.skip(1), c.skip(1));
    }
}

/// Any two different texts are ordered one way or the other.
pub proof fn lemma_text_lt_total(a: Seq<char>, b: Seq<char>)
    requires
        a != b,
    ensures
        text_lt(a, b) || text_lt(b, a),
    decreases a.len(),
{
    if a.len() > 0 && b.len() > 0 && a[0] == b[0] {
        if a.skip(1) == b.skip(1) {
            assert(a =~= seq![a[0]] + a.skip(1));
            assert(b =~= seq![b[0]] + b.skip(1));
        }
        lemma_text_lt_total(a.skip(1), b.skip(1));
    } else if a.len() == 0 && b.len() == 0 {
        assert(a =~= b);
    }
}

/// Whether `a` comes strictly before `b` in the order of `Ord for str`.
pub fn chars_lt(a: &Vec<char>, b: &Vec<char>) -> (r: bool)
    ensures
        r == text_lt(a@, b@),
{
    let mut i: usize = 0;
    assert(a@.skip(0) =~= a@);
    assert(b@.skip(0) =~= b@);
    while i < a.len() && i < b.len() && a[i] == b[i]
        invariant
            i <= a.len(),
            i <= b.len(),
            text_lt(a@, b@) == text_lt(a@.skip(i as int), b@.skip(i as int)),
        decreases a.len() - i,
    {
        assert(a@.skip(i as int).skip(1) =~= a@.skip(i + 1));
        assert(b@.skip(i as int).skip(1) =~= b@.skip(i + 1));
        i = i + 1;
    }
    if i == a.len() {
        i < b.len()
    } else if i == b.len() {
        false
    } else {
        a[i] < b[i]
    }
}

/// Whether `c` is a decimal digit.
pub open spec fn is_digit(c: char) -> bool {
    '0' <= c && c <= '9'
}

/// The number that a string of decimal digits denotes.
pub open spec fn decimal_value(s: Seq<char>) -> nat
    decreases s.len(),
{
    if s.len() == 0 {
        0
    } else {
        decimal_value(s.drop_last()) * 10 + ((s.last() as u32) - ('0' as u32)) as nat
    }
}

/// Whether every character of `s` is a decimal digit.
pub open spec fn all_digits(s: Seq<char>) -> bool {
    forall|i: int| 0 <= i < s.len() ==> is_digit(#[trigger] s[i])
}

/// `s` without one leading `+` sign, if it has one.
pub open spec fn unsigned_part(s: Seq<char>) -> Seq<char> {
    if s.len() > 0 && s[0] == '+' {
        s.skip(1)
    } else {
        s
    }
}

/// `<u16 as FromStr>::from_str`: an optional `+` followed by at least one
/// decimal digit, denoting a number that fits in 16 bits.
pub open spec fn parse_u16(s: Seq<char>) -> Option<u16> {
    let digits = unsigned_part(s);
    if digits.len() > 0 && all_digits(digits) && decimal_value(digits) <= u16::MAX {
        Some(decimal_value(digits) as u16)
    } else {
        None
    }
}

/// Parses `v[start..end]` as a `u16` the way `str::parse::<u16>` does.
pub fn parse_u16_range(v: &Vec<char>, start: usize, end: usize) -> (r: Option<u16>)
    requires
        start <= end <= v.len(),
    ensures
        r == parse_u16(v@.subrange(start as int, end as int)),
{
    let ghost s = v@.subrange(start as int, end as int);
    let mut first = start;
    if start < end && v[start] == '+' {
        first = start + 1;
    }
    let ghost digits = v@.subrange(first as int, end as int);
    assert(digits =~= unsigned_part(s));
    if first == end {
        assert(digits.len() == 0);
        return None;
    }
    let mut value: u32 = 0;
    let mut over = false;
    let mut i = first;
    while i < end
        invariant
            start <= first <= i <= end <= v.len(),
            digits == v@.subrange(first as int, end as int),
            s == v@.subrange(start as int, end as int),
            digits == unsigned_part(s),
            forall|j: int| first <= j < i ==> is_digit(#[trigger] v@[j]),
            over ==> decimal_value(v@.subrange(first as int, i as int)) > u16::MAX,
            !over ==> value == decimal_value(v@.subrange(first as int, i as int)),
            !over ==> value <= u16::MAX,
        decreases end - i,
    {
        let c = v[i];
        if !('0' <= c && c <= '9') {
            assert(digits[i - first] == c);
            assert(!is_digit(digits[i - first]));
            assert(!all_digits(digits));
            return None;
        }
        let ghost prev = v@.subrange(first as int, i as int);
        assert(v@.subrange(first as int, i + 1).drop_last() =~= prev);
        if !over {
            let d = (c as u32) - ('0' as u32);
            value = value * 10 + d;
            if value > 65535 {
                over = true;
            }
        }
        i = i + 1;
    }
    assert(v@.subrange(first as int, end as int) =~= digits);
    if over {
        None
    } else {
        Some(value as u16)
    }
}

} // verus!
