//! Strings as sequences of characters.
//!
//! Contracts across the library speak of text through `Seq<char>`, the view of
//! `str` and `String`. This module holds the spec functions for the text
//! operations that the other modules share, and executable functions proved
//! against them.

use vstd::prelude::*;

verus! {

/// `String::push` appends one character.
pub assume_specification[ String::push ](s: &mut String, ch: char)
    ensures
        final(s)@ == old(s)@.push(ch),
;

/// `String::push_str` appends the characters of a string slice.
pub assume_specification[ String::push_str ](s: &mut String, string: &str)
    ensures
        final(s)@ == old(s)@ + string@,
;

/// The text that `str::to_lowercase` gives for the text `s`.
pub uninterp spec fn unicode_lowercase(s: Seq<char>) -> Seq<char>;

/// The text in small letters: an ASCII text letter by letter, another by Unicode's rules.
pub open spec fn lowercase(s: Seq<char>) -> Seq<char> {
    if all_ascii(s) {
        ascii_lowercase(s)
    } else {
        unicode_lowercase(s)
    }
}

/// Lowercases by Unicode's rules; wraps `str::to_lowercase`. The result depends on
/// the text alone, and an ASCII text keeps its length, each letter replaced by its
/// lowercase form. Of other texts it is not said that what comes out, or a part of it, stays
/// as it is when it is lowercased again.
#[verifier::external_body]
pub(crate) fn to_lower(s: &str) -> (r: String)
    ensures
        r@ == if all_ascii(s@) {
            ascii_lowercase(s@)
        } else {
            unicode_lowercase(s@)
        },
{
    s.to_lowercase()
}

/// What `char::is_alphanumeric` answers for `c`.
pub uninterp spec fn alphanumeric(c: char) -> bool;

/// Tests for a letter or a numeral by Unicode's properties; wraps
/// `char::is_alphanumeric`. ASCII characters are alphanumeric exactly when they are
/// letters or digits.
#[verifier::external_body]
pub(crate) fn is_alnum(c: char) -> (b: bool)
    ensures
        b == alphanumeric(c),
        (c as u32) <= 127 ==> b == ascii_alphanumeric(c),
{
    c.is_alphanumeric()
}

/// Whether Unicode calls a character alphabetic.
pub uninterp spec fn alphabetic(c: char) -> bool;

/// Wraps `char::is_alphabetic`, whose answer depends on the character alone.
#[verifier::external_body]
pub(crate) fn is_alpha(c: char) -> (b: bool)
    ensures
        b == alphabetic(c),
{
    c.is_alphabetic()
}

pub open spec fn ascii_alphanumeric(c: char) -> bool {
    ('0' <= c && c <= '9') || ('a' <= c && c <= 'z') || ('A' <= c && c <= 'Z')
}

pub open spec fn all_ascii(s: Seq<char>) -> bool {
    forall|i: int| 0 <= i < s.len() ==> (#[trigger] s[i]) as u32 <= 127
}

pub open spec fn ascii_lower(c: char) -> char {
    if 'A' <= c && c <= 'Z' {
        ((c as u32) + 32) as char
    } else {
        c
    }
}

pub open spec fn ascii_lowercase(s: Seq<char>) -> Seq<char> {
    s.map_values(|c: char| ascii_lower(c))
}

/// The characters of a string slice, in order.
pub fn chars_of(s: &str) -> (v: Vec<char>)
    ensures
        v@ == s@,
{
    let mut v: Vec<char> = Vec::new();
    for c in it: s.chars()
        invariant
            it.seq() == s@,
            v@ == it.seq().take(it.index()),
    {
        v.push(c);
    }
    v
}

/// The string made of the given characters.
pub fn string_of(cs: &[char]) -> (s: String)
    ensures
        s@ == cs@,
{
    let mut s = String::new();
    let mut i: usize = 0;
    while i < cs.len()
        invariant
            i <= cs.len(),
            s@ == cs@.take(i as int),
        decreases cs.len() - i,
    {
        s.push(cs[i]);
        i += 1;
    }
    s
}

/// Whether two string slices hold the same text.
pub fn str_eq(a: &str, b: &str) -> (r: bool)
    ensures
        r == (a@ == b@),
{
    a.to_owned() == b.to_owned()
}


/// The characters with Unicode's property `White_Space`.
pub open spec fn is_space(c: char) -> bool {
    let u = c as u32;
    ||| 9 <= u <= 13
    ||| u == 32
    ||| u == 0x85
    ||| u == 0xA0
    ||| u == 0x1680
    ||| 0x2000 <= u <= 0x200A
    ||| u == 0x2028
    ||| u == 0x2029
    ||| u == 0x202F
    ||| u == 0x205F
    ||| u == 0x3000
}

pub fn is_whitespace(c: char) -> (b: bool)
    ensures
        b == is_space(c),
{
    let u: u32 = c as u32;
    (9 <= u && u <= 13) || u == 32 || u == 0x85 || u == 0xA0 || u == 0x1680 || (0x2000 <= u && u
        <= 0x200A) || u == 0x2028 || u == 0x2029 || u == 0x202F || u == 0x205F || u == 0x3000
}

/// A class of characters, as a predicate.
pub type Class = spec_fn(char) -> bool;

/// The class of whitespace.
pub open spec fn space() -> Class {
    |c: char| is_space(c)
}

/// The class that holds `x` alone.
pub open spec fn only(x: char) -> Class {
    |c: char| c == x
}

/// The class of the characters in `set`.
pub open spec fn one_of(set: Seq<char>) -> Class {
    |c: char| set.contains(c)
}

/// Whitespace, and the characters in `set`.
pub open spec fn space_or(set: Seq<char>) -> Class {
    |c: char| is_space(c) || set.contains(c)
}

/// All that is neither alphanumeric nor an underscore.
pub open spec fn non_word() -> Class {
    |c: char| !alphanumeric(c) && c != '_'
}

/// The whitespace of ASCII.
pub open spec fn is_ascii_space(c: char) -> bool {
    c == ' ' || c == '\t' || c == '\n' || c == '\r' || c == '\x0C'
}

/// All that is neither alphanumeric nor whitespace of ASCII.
pub open spec fn non_token() -> Class {
    |c: char| !alphanumeric(c) && !is_ascii_space(c)
}

/// All that is neither alphanumeric nor a quote.
pub open spec fn non_query() -> Class {
    |c: char| !alphanumeric(c) && c != '\'' && c != '"'
}

/// A class of characters that text is trimmed of or split at.
pub enum CharClass {
    Space,
    Only(char),
    OneOf(Vec<char>),
    SpaceOr(Vec<char>),
    NonWord,
    NonToken,
    NonQuery,
}

impl CharClass {
    pub open spec fn class(&self) -> Class {
        match self {
            CharClass::Space => space(),
            CharClass::Only(x) => only(*x),
            CharClass::OneOf(set) => one_of(set@),
            CharClass::SpaceOr(set) => space_or(set@),
            CharClass::NonWord => non_word(),
            CharClass::NonToken => non_token(),
            CharClass::NonQuery => non_query(),
        }
    }

    pub fn has(&self, c: char) -> (b: bool)
        ensures
            b == (self.class())(c),
    {
        match self {
            CharClass::Space => is_whitespace(c),
            CharClass::Only(x) => c == *x,
            CharClass::OneOf(set) => char_in(c, set),
            CharClass::SpaceOr(set) => is_whitespace(c) || char_in(c, set),
            CharClass::NonWord => !is_alnum(c) && c != '_',
            CharClass::NonQuery => !is_alnum(c) && c != '\'' && c != '"',
            CharClass::NonToken => !is_alnum(c) && !(c == ' ' || c == '\t' || c == '\n' || c
                == '\r' || c == '\x0C'),
        }
    }
}

pub fn char_in(c: char, set: &[char]) -> (b: bool)
    ensures
        b == set@.contains(c),
{
    let mut i: usize = 0;
    while i < set.len()
        invariant
            i <= set.len(),
            forall|j: int| 0 <= j < i ==> set@[j] != c,
        decreases set.len() - i,
    {
        if set[i] == c {
            assert(set@[i as int] == c);
            return true;
        }
        i += 1;
    }
    false
}

/// `s` without its leading characters of the class.
pub open spec fn trim_start_by(s: Seq<char>, class: Class) -> Seq<char>
    decreases s.len(),
{
    if s.len() > 0 && class(s[0]) {
        trim_start_by(s.drop_first(), class)
    } else {
        s
    }
}

/// `s` without its trailing characters of the class.
pub open spec fn trim_end_by(s: Seq<char>, class: Class) -> Seq<char>
    decreases s.len(),
{
    if s.len() > 0 && class(s.last()) {
        trim_end_by(s.drop_last(), class)
    } else {
        s
    }
}

pub open spec fn trim_by(s: Seq<char>, class: Class) -> Seq<char> {
    trim_end_by(trim_start_by(s, class), class)
}

/// `s` without leading and trailing whitespace.
pub open spec fn trim(s: Seq<char>) -> Seq<char> {
    trim_by(s, space())
}

pub open spec fn trim_start(s: Seq<char>) -> Seq<char> {
    trim_start_by(s, space())
}

/// The index at which `trim_start_by` begins.
pub fn start_index(cs: &[char], class: &CharClass) -> (r: usize)
    ensures
        r <= cs.len(),
        trim_start_by(cs@, class.class()) == cs@.skip(r as int),
{
    let mut i: usize = 0;
    assert(cs@.skip(0) == cs@);
    while i < cs.len()
        invariant
            i <= cs.len(),
            trim_start_by(cs@, class.class()) == trim_start_by(cs@.skip(i as int), class.class()),
        decreases cs.len() - i,
    {
        if !class.has(cs[i]) {
            return i;
        }
        assert(cs@.skip(i as int).drop_first() == cs@.skip(i + 1));
        i += 1;
    }
    i
}

/// The index at which `trim_end_by` ends.
pub fn end_index(cs: &[char], class: &CharClass) -> (r: usize)
    ensures
        r <= cs.len(),
        trim_end_by(cs@, class.class()) == cs@.take(r as int),
{
    let mut i: usize = cs.len();
    assert(cs@.take(i as int) == cs@);
    while i > 0
        invariant
            i <= cs.len(),
            trim_end_by(cs@, class.class()) == trim_end_by(cs@.take(i as int), class.class()),
        decreases i,
    {
        if !class.has(cs[i - 1]) {
            return i;
        }
        assert(cs@.take(i as int).drop_last() == cs@.take(i - 1));
        i -= 1;
    }
    i
}

pub fn slice_chars(cs: &[char], from: usize, to: usize) -> (r: Vec<char>)
    requires
        from <= to <= cs.len(),
    ensures
        r@ == cs@.subrange(from as int, to as int),
{
    let mut r: Vec<char> = Vec::new();
    let mut i: usize = from;
    while i < to
        invariant
            from <= i <= to <= cs.len(),
            r@ == cs@.subrange(from as int, i as int),
        decreases to - i,
    {
        r.push(cs[i]);
        i += 1;
    }
    r
}

pub fn slice_text(cs: &[char], from: usize, to: usize) -> (r: String)
    requires
        from <= to <= cs.len(),
    ensures
        r@ == cs@.subrange(from as int, to as int),
{
    let v = slice_chars(cs, from, to);
    string_of(&v)
}

pub fn trim_start_of(s: &str, class: &CharClass) -> (r: String)
    ensures
        r@ == trim_start_by(s@, class.class()),
{
    let cs = chars_of(s);
    let i = start_index(&cs, class);
    slice_text(&cs, i, cs.len())
}

pub fn trim_end_of(s: &str, class: &CharClass) -> (r: String)
    ensures
        r@ == trim_end_by(s@, class.class()),
{
    let cs = chars_of(s);
    let i = end_index(&cs, class);
    slice_text(&cs, 0, i)
}

pub fn trim_of(s: &str, class: &CharClass) -> (r: String)
    ensures
        r@ == trim_by(s@, class.class()),
{
    let t = trim_start_of(s, class);
    trim_end_of(&t, class)
}

pub fn trim_space(s: &str) -> (r: String)
    ensures
        r@ == trim(s@),
{
    trim_of(s, &CharClass::Space)
}

/// Whether the text holds no whitespace.
pub open spec fn has_no_space(s: Seq<char>) -> bool {
    forall|i: int| 0 <= i < s.len() ==> !is_space(#[trigger] s[i])
}

pub proof fn lemma_trim_is_same(s: Seq<char>)
    requires
        has_no_space(s),
    ensures
        trim(s) == s,
{
    if s.len() > 0 {
        assert(!is_space(s[0]));
        assert(!is_space(s[s.len() - 1]));
    }
}

pub proof fn lemma_ascii_lower(c: char)
    requires
        c as u32 <= 127,
    ensures
        ascii_lower(c) as u32 <= 127,
        ascii_lower(ascii_lower(c)) == ascii_lower(c),
        is_space(ascii_lower(c)) == is_space(c),
        forall|x: char| !('a' <= x && x <= 'z') && !('A' <= x && x <= 'Z') ==> (ascii_lower(c)
            == x <==> c == #[trigger] ascii_lower(x)),
{
}

pub proof fn lemma_trim_end(s: Seq<char>, class: Class)
    ensures
        ({
            let r = trim_end_by(s, class);
            &&& r.len() <= s.len()
            &&& r == s.take(r.len() as int)
            &&& r.len() > 0 ==> !class(r.last())
            &&& s.len() > 0 && !class(s[0]) ==> r.len() > 0
        }),
    decreases s.len(),
{
    if s.len() > 0 && class(s.last()) {
        lemma_trim_end(s.drop_last(), class);
        let r = trim_end_by(s.drop_last(), class);
        assert(s.drop_last().take(r.len() as int) =~= s.take(r.len() as int));
    } else {
        assert(s.take(s.len() as int) =~= s);
    }
}

proof fn lemma_trim_start(s: Seq<char>, class: Class)
    ensures
        trim_start_by(s, class).len() > 0 ==> !class(trim_start_by(s, class)[0]),
    decreases s.len(),
{
    if s.len() > 0 && class(s[0]) {
        lemma_trim_start(s.drop_first(), class);
    }
}

pub proof fn lemma_trim_first(s: Seq<char>)
    ensures
        trim(s).len() > 0 ==> !is_space(trim(s)[0]),
{
    lemma_trim_start(s, space());
    lemma_trim_end(trim_start(s), space());
    if trim(s).len() > 0 {
        assert(trim(s)[0] == trim_start(s)[0]);
    }
}

/// Whether `r` is what lies in `s` between the characters of the class at its two ends.
pub open spec fn is_trimmed(s: Seq<char>, class: Class, r: Seq<char>) -> bool {
    exists|a: int, b: int| #[trigger] is_trimmed_at(s, class, r, a, b)
}

pub open spec fn is_trimmed_at(s: Seq<char>, class: Class, r: Seq<char>, a: int, b: int) -> bool {
    &&& 0 <= a <= b <= s.len()
    &&& r == s.subrange(a, b)
    &&& forall|i: int| 0 <= i < a || b <= i < s.len() ==> class(#[trigger] s[i])
    &&& a < b ==> !class(s[a]) && !class(s[b - 1])
}

proof fn lemma_start_at(s: Seq<char>, class: Class) -> (a: int)
    ensures
        0 <= a <= s.len(),
        trim_start_by(s, class) == s.skip(a),
        forall|i: int| 0 <= i < a ==> class(#[trigger] s[i]),
        a < s.len() ==> !class(s[a]),
    decreases s.len(),
{
    if s.len() > 0 && class(s[0]) {
        let rest = s.drop_first();
        let a = lemma_start_at(rest, class);
        assert(rest.skip(a) =~= s.skip(a + 1));
        assert forall|i: int| 0 <= i < a + 1 implies class(#[trigger] s[i]) by {
            if i > 0 {
                assert(rest[i - 1] == s[i]);
            }
        }
        if a < rest.len() {
            assert(rest[a] == s[a + 1]);
        }
        a + 1
    } else {
        assert(s.skip(0) =~= s);
        0
    }
}

proof fn lemma_end_at(s: Seq<char>, class: Class) -> (b: int)
    ensures
        0 <= b <= s.len(),
        trim_end_by(s, class) == s.take(b),
        forall|i: int| b <= i < s.len() ==> class(#[trigger] s[i]),
        b > 0 ==> !class(s[b - 1]),
    decreases s.len(),
{
    if s.len() > 0 && class(s.last()) {
        let rest = s.drop_last();
        let b = lemma_end_at(rest, class);
        assert(rest.take(b) =~= s.take(b));
        assert forall|i: int| b <= i < s.len() implies class(#[trigger] s[i]) by {
            if i < s.len() - 1 {
                assert(rest[i] == s[i]);
            }
        }
        if b > 0 {
            assert(rest[b - 1] == s[b - 1]);
        }
        b
    } else {
        assert(s.take(s.len() as int) =~= s);
        s.len() as int
    }
}

/// Trimming takes the characters of the class off both ends, all of them and no others.
pub proof fn law_trim_takes_the_ends(s: Seq<char>, class: Class)
    ensures
        is_trimmed(s, class, trim_by(s, class)),
{
    let a = lemma_start_at(s, class);
    let rest = s.skip(a);
    let n = lemma_end_at(rest, class);
    let b = a + n;
    assert(rest.take(n) =~= s.subrange(a, b));
    assert forall|i: int| 0 <= i < a || b <= i < s.len() implies class(#[trigger] s[i]) by {
        if b <= i {
            assert(rest[i - a] == s[i]);
        }
    }
    if a < b {
        assert(rest[n - 1] == s[b - 1]);
    }
    assert(is_trimmed_at(s, class, trim_by(s, class), a, b));
}

/// Something is left of a text unless it is blank.
pub proof fn lemma_blank(s: Seq<char>)
    ensures
        trim(s).len() > 0 <==> exists|i: int| 0 <= i < s.len() && !is_space(#[trigger] s[i]),
{
    law_trim_takes_the_ends(s, space());
    let (a, b) = choose|a: int, b: int| #[trigger] is_trimmed_at(s, space(), trim(s), a, b);
    if a < b {
        assert(!is_space(s[a]));
    } else {
        assert forall|i: int| 0 <= i < s.len() implies is_space(#[trigger] s[i]) by {
            assert(space()(s[i]));
        }
    }
}

/// Whether `p` stands in `s` at index `i`.
pub open spec fn occurs_at(s: Seq<char>, p: Seq<char>, i: int) -> bool {
    0 <= i && i + p.len() <= s.len() && s.subrange(i, i + p.len()) == p
}

pub open spec fn starts_with(s: Seq<char>, p: Seq<char>) -> bool {
    occurs_at(s, p, 0)
}

pub open spec fn ends_with(s: Seq<char>, p: Seq<char>) -> bool {
    occurs_at(s, p, s.len() - p.len())
}

/// The first index at or behind `i` at which `p` stands in `s`.
pub open spec fn find_from(s: Seq<char>, p: Seq<char>, i: int) -> Option<int>
    decreases s.len() - i + 1,
{
    if i < 0 || i + p.len() > s.len() {
        None
    } else if s.subrange(i, i + p.len()) == p {
        Some(i)
    } else {
        find_from(s, p, i + 1)
    }
}

pub open spec fn find(s: Seq<char>, p: Seq<char>) -> Option<int> {
    find_from(s, p, 0)
}

pub open spec fn contains(s: Seq<char>, p: Seq<char>) -> bool {
    find(s, p) is Some
}

/// A found index is the least one at which the pattern stands, and where none is
/// found the pattern stands nowhere.
pub proof fn lemma_find_from(s: Seq<char>, p: Seq<char>, i: int)
    requires
        0 <= i,
    ensures
        match find_from(s, p, i) {
            Some(k) => i <= k && occurs_at(s, p, k) && forall|j: int|
                i <= j < k ==> !#[trigger] occurs_at(s, p, j),
            None => forall|j: int| i <= j ==> !#[trigger] occurs_at(s, p, j),
        },
    decreases s.len() - i + 1,
{
    if i + p.len() > s.len() {
    } else if s.subrange(i, i + p.len()) == p {
    } else {
        lemma_find_from(s, p, i + 1);
        assert(!occurs_at(s, p, i));
    }
}

pub fn matches_at(cs: &[char], p: &[char], i: usize) -> (b: bool)
    ensures
        b == occurs_at(cs@, p@, i as int),
{
    if i > cs.len() || p.len() > cs.len() - i {
        return false;
    }
    let mut j: usize = 0;
    while j < p.len()
        invariant
            j <= p.len(),
            i + p.len() <= cs.len(),
            forall|k: int| 0 <= k < j ==> cs@[i + k] == p@[k],
        decreases p.len() - j,
    {
        if cs[i + j] != p[j] {
            assert(cs@.subrange(i as int, i + p.len())[j as int] != p@[j as int]);
            return false;
        }
        j += 1;
    }
    assert(cs@.subrange(i as int, i + p.len()) =~= p@);
    true
}

pub fn find_at(cs: &[char], p: &[char], from: usize) -> (r: Option<usize>)
    ensures
        match r {
            Some(k) => find_from(cs@, p@, from as int) == Some(k as int) && from <= k && k + p.len()
                <= cs.len(),
            None => find_from(cs@, p@, from as int) is None,
        },
{
    let mut i: usize = from;
    while i <= cs.len() && p.len() <= cs.len() - i
        invariant
            from <= i,
            find_from(cs@, p@, from as int) == find_from(cs@, p@, i as int),
        decreases cs.len() - i + 1,
    {
        if matches_at(cs, p, i) {
            return Some(i);
        }
        if i == cs.len() {
            assert(find_from(cs@, p@, i + 1) is None);
            return None;
        }
        i += 1;
    }
    None
}

pub fn has_prefix(s: &str, p: &str) -> (b: bool)
    ensures
        b == starts_with(s@, p@),
{
    let cs = chars_of(s);
    let ps = chars_of(p);
    matches_at(&cs, &ps, 0)
}

pub fn has_suffix(s: &str, p: &str) -> (b: bool)
    ensures
        b == ends_with(s@, p@),
{
    let cs = chars_of(s);
    let ps = chars_of(p);
    if ps.len() > cs.len() {
        return false;
    }
    matches_at(&cs, &ps, cs.len() - ps.len())
}

pub fn has_text(s: &str, p: &str) -> (b: bool)
    ensures
        b == contains(s@, p@),
{
    let cs = chars_of(s);
    let ps = chars_of(p);
    find_at(&cs, &ps, 0).is_some()
}

/// The texts of a sequence of strings.
pub open spec fn texts(v: Seq<String>) -> Seq<Seq<char>> {
    Seq::new(v.len(), |i: int| v[i]@)
}

pub broadcast proof fn lemma_texts_push(v: Seq<String>, s: String)
    ensures
        #[trigger] texts(v.push(s)) == texts(v).push(s@),
{
    assert(texts(v.push(s)) =~= texts(v).push(s@));
}

/// The parts of `s` between its characters of the class, empty ones included.
pub open spec fn split_by(s: Seq<char>, class: Class) -> Seq<Seq<char>>
    decreases s.len(),
{
    if s.len() == 0 {
        seq![Seq::<char>::empty()]
    } else {
        let before = split_by(s.drop_last(), class);
        if class(s.last()) {
            before.push(Seq::<char>::empty())
        } else {
            before.drop_last().push(before.last().push(s.last()))
        }
    }
}

/// Splitting cuts a text at each character of the class: the parts hold none of them, and
/// put together with the characters at which the text was cut they are the text.
pub proof fn law_split_cuts_at_the_class(s: Seq<char>, class: Class)
    ensures
        split_by(s, class).len() == s.filter(class).len() + 1,
        forall|i: int, j: int|
            0 <= i < split_by(s, class).len() && 0 <= j < split_by(s, class)[i].len() ==> !class(
                #[trigger] split_by(s, class)[i][j],
            ),
        stitched(split_by(s, class), s.filter(class)) == s,
    decreases s.len(),
{
    reveal(Seq::filter);
    let parts = split_by(s, class);
    if s.len() > 0 {
        let init = s.drop_last();
        law_split_cuts_at_the_class(init, class);
        let before = split_by(init, class);
        let cuts = init.filter(class);
        assert(s =~= init.push(s.last()));
        if class(s.last()) {
            assert(s.filter(class) == cuts.push(s.last()));
            assert(parts.drop_last() =~= before);
            assert(cuts.push(s.last()).drop_last() =~= cuts);
            assert(stitched(parts, s.filter(class)) =~= s);
        } else {
            assert(s.filter(class) == cuts);
            if before.len() == 1 {
                assert(stitched(parts, cuts) =~= s);
            } else {
                assert(parts.drop_last() =~= before.drop_last());
                assert(stitched(parts, cuts) =~= s);
            }
            assert forall|i: int, j: int|
                0 <= i < parts.len() && 0 <= j < parts[i].len() implies !class(
                #[trigger] parts[i][j],
            ) by {
                if i < parts.len() - 1 || j < before.last().len() {
                    assert(parts[i][j] == before[i][j]);
                }
            }
        }
    }
}

/// Parts with single characters between them.
pub open spec fn stitched(parts: Seq<Seq<char>>, cuts: Seq<char>) -> Seq<char>
    decreases parts.len(),
{
    if parts.len() == 0 {
        Seq::empty()
    } else if parts.len() == 1 {
        parts[0]
    } else {
        stitched(parts.drop_last(), cuts.drop_last()).push(cuts.last()) + parts.last()
    }
}

pub fn split_of(s: &str, class: &CharClass) -> (r: Vec<String>)
    ensures
        texts(r@) == split_by(s@, class.class()),
        r.len() > 0,
{
    broadcast use lemma_texts_push;

    let cs = chars_of(s);
    let mut r: Vec<String> = Vec::new();
    let mut cur = String::new();
    let mut i: usize = 0;
    assert(texts(r@) == Seq::<Seq<char>>::empty());
    assert(cs@.take(0) == Seq::<char>::empty());
    assert(texts(r@).push(cur@) == split_by(cs@.take(0), class.class()));
    while i < cs.len()
        invariant
            i <= cs.len(),
            texts(r@).push(cur@) == split_by(cs@.take(i as int), class.class()),
        decreases cs.len() - i,
    {
        assert(cs@.take(i + 1).drop_last() == cs@.take(i as int));
        assert(texts(r@).push(cur@).drop_last() == texts(r@));
        let c = cs[i];
        if class.has(c) {
            r.push(cur);
            cur = String::new();
        } else {
            cur.push(c);
        }
        i += 1;
    }
    assert(cs@.take(i as int) == cs@);
    r.push(cur);
    r
}

/// `s` without one trailing carriage return.
pub open spec fn strip_cr(s: Seq<char>) -> Seq<char> {
    if s.len() > 0 && s.last() == '\r' {
        s.drop_last()
    } else {
        s
    }
}

/// The lines of `s`: a line ends at `\n` or `\r\n`, and the end of the last line is
/// optional.
pub open spec fn lines(s: Seq<char>) -> Seq<Seq<char>> {
    let parts = split_by(s, only('\n'));
    let ended = parts.drop_last().map_values(|l: Seq<char>| strip_cr(l));
    if parts.last().len() == 0 {
        ended
    } else {
        ended.push(parts.last())
    }
}

pub fn lines_of(s: &str) -> (r: Vec<String>)
    ensures
        texts(r@) == lines(s@),
{
    broadcast use lemma_texts_push;

    let parts = split_of(s, &CharClass::Only('\n'));
    let ghost spec_parts = split_by(s@, only('\n'));
    let mut r: Vec<String> = Vec::new();
    let mut i: usize = 0;
    while i < parts.len() - 1
        invariant
            i < parts.len(),
            texts(parts@) == spec_parts,
            texts(r@) == spec_parts.take(i as int).map_values(|l: Seq<char>| strip_cr(l)),
        decreases parts.len() - i,
    {
        let cs = chars_of(&parts[i]);
        assert(texts(parts@)[i as int] == parts@[i as int]@);
        let line = if cs.len() > 0 && cs[cs.len() - 1] == '\r' {
            slice_text(&cs, 0, cs.len() - 1)
        } else {
            string_of(&cs)
        };
        assert(line@ == strip_cr(spec_parts[i as int]));
        assert(spec_parts.take(i + 1).map_values(|l: Seq<char>| strip_cr(l))
            =~= spec_parts.take(i as int).map_values(|l: Seq<char>| strip_cr(l)).push(line@));
        r.push(line);
        i += 1;
    }
    assert(texts(parts@)[i as int] == parts@[i as int]@);
    assert(spec_parts.take(i as int) == spec_parts.drop_last());
    if !parts[i].as_str().is_empty() {
        r.push(parts[i].clone());
    }
    r
}

/// The length of the UTF-8 encoding of `s`.
pub open spec fn byte_len(s: Seq<char>) -> nat {
    vstd::utf8::encode_utf8(s).len()
}

/// The number of bytes as a machine counts them.
pub open spec fn byte_size(s: Seq<char>) -> usize {
    byte_len(s) as usize
}

/// `parts`, one behind the other, with `sep` between them.
pub open spec fn join(parts: Seq<Seq<char>>, sep: Seq<char>) -> Seq<char>
    decreases parts.len(),
{
    if parts.len() == 0 {
        Seq::empty()
    } else if parts.len() == 1 {
        parts[0]
    } else {
        join(parts.drop_last(), sep) + sep + parts.last()
    }
}

pub fn join_of(parts: &[String], sep: &str) -> (r: String)
    ensures
        r@ == join(texts(parts@), sep@),
{
    let mut r = String::new();
    let mut i: usize = 0;
    while i < parts.len()
        invariant
            i <= parts.len(),
            r@ == join(texts(parts@).take(i as int), sep@),
        decreases parts.len() - i,
    {
        let ghost done = texts(parts@).take(i as int);
        let ghost more = texts(parts@).take(i + 1);
        assert(more.drop_last() == done);
        assert(more.last() == parts@[i as int]@);
        if i > 0 {
            r.push_str(sep);
        }
        r.push_str(&parts[i]);
        assert(r@ =~= join(more, sep@));
        i += 1;
    }
    assert(texts(parts@).take(i as int) == texts(parts@));
    r
}

pub open spec fn digit(n: nat) -> char {
    ('0' as u32 + n) as char
}

/// `n` in decimal.
pub open spec fn nat_text(n: nat) -> Seq<char>
    decreases n,
{
    if n < 10 {
        seq![digit(n)]
    } else {
        nat_text(n / 10).push(digit(n % 10))
    }
}

fn digit_of(n: u64) -> (c: char)
    requires
        n < 10,
    ensures
        c == digit(n as nat),
{
    match n {
        0 => '0',
        1 => '1',
        2 => '2',
        3 => '3',
        4 => '4',
        5 => '5',
        6 => '6',
        7 => '7',
        8 => '8',
        _ => '9',
    }
}

pub fn u64_text(n: u64) -> (r: String)
    ensures
        r@ == nat_text(n as nat),
    decreases n,
{
    let mut r = if n < 10 {
        String::new()
    } else {
        u64_text(n / 10)
    };
    r.push(digit_of(n % 10));
    r
}

pub open spec fn all_digits(s: Seq<char>) -> bool {
    forall|i: int| 0 <= i < s.len() ==> is_digit(#[trigger] s[i])
}

pub open spec fn is_digit(c: char) -> bool {
    '0' <= c && c <= '9'
}

pub fn is_all_digits(cs: &Vec<char>) -> (r: bool)
    ensures
        r == all_digits(cs@),
{
    let mut i: usize = 0;
    while i < cs.len()
        invariant
            i <= cs.len(),
            forall|k: int| 0 <= k < i ==> is_digit(#[trigger] cs@[k]),
        decreases cs.len() - i,
    {
        if !('0' <= cs[i] && cs[i] <= '9') {
            assert(!is_digit(cs@[i as int]));
            return false;
        }
        i += 1;
    }
    true
}

/// The number that decimal digits make.
pub open spec fn decimal(ds: Seq<char>) -> nat
    decreases ds.len(),
{
    if ds.len() == 0 {
        0
    } else {
        decimal(ds.drop_last()) * 10 + (ds.last() as u32 - '0' as u32) as nat
    }
}

/// The number that a text is, where it is one of 64 bits; a plus may stand before it.
pub open spec fn u64_of(t: Seq<char>) -> Option<u64> {
    let ds = if t.len() > 0 && t[0] == '+' {
        t.skip(1)
    } else {
        t
    };
    if ds.len() > 0 && all_digits(ds) && decimal(ds) <= u64::MAX {
        Some(decimal(ds) as u64)
    } else {
        None
    }
}

proof fn lemma_decimal_grows(ds: Seq<char>, n: int)
    requires
        0 <= n <= ds.len(),
        all_digits(ds),
    ensures
        decimal(ds.take(n)) <= decimal(ds),
    decreases ds.len() - n,
{
    if n < ds.len() {
        lemma_decimal_grows(ds, n + 1);
        assert(ds.take(n + 1).drop_last() =~= ds.take(n));
        assert(is_digit(ds[n]));
    } else {
        assert(ds.take(n) =~= ds);
    }
}

pub fn read_u64(t: &str) -> (r: Option<u64>)
    ensures
        r == u64_of(t@),
{
    let cs = chars_of(t);
    let ds = if cs.len() > 0 && cs[0] == '+' {
        slice_chars(&cs, 1, cs.len())
    } else {
        slice_chars(&cs, 0, cs.len())
    };
    proof {
        assert(cs@.subrange(0, cs@.len() as int) =~= cs@);
        if cs@.len() > 0 {
            assert(cs@.subrange(1, cs@.len() as int) =~= cs@.skip(1));
        }
    }
    if ds.len() == 0 || !is_all_digits(&ds) {
        return None;
    }
    let mut v: u128 = 0;
    let mut i: usize = 0;
    assert(ds@.take(0) =~= Seq::<char>::empty());
    while i < ds.len()
        invariant
            i <= ds.len(),
            all_digits(ds@),
            v == decimal(ds@.take(i as int)),
            v <= u64::MAX,
            ds@.len() > 0,
            u64_of(t@) == if decimal(ds@) <= u64::MAX {
                Some(decimal(ds@) as u64)
            } else {
                None
            },
        decreases ds.len() - i,
    {
        proof {
            assert(is_digit(ds@[i as int]));
            assert(ds@.take(i + 1).drop_last() =~= ds@.take(i as int));
            lemma_decimal_grows(ds@, i + 1);
        }
        v = v * 10 + (ds[i] as u32 - '0' as u32) as u128;
        if v > u64::MAX as u128 {
            return None;
        }
        i += 1;
    }
    assert(ds@.take(i as int) =~= ds@);
    Some(v as u64)
}

/// The last index at which `c` stands in `s`.
pub open spec fn last_index(s: Seq<char>, c: char) -> Option<int>
    decreases s.len(),
{
    if s.len() == 0 {
        None
    } else if s.last() == c {
        Some(s.len() - 1)
    } else {
        last_index(s.drop_last(), c)
    }
}

/// The last place of a character is one where it stands and behind which it does not; where
/// there is none it stands nowhere.
pub proof fn law_the_last_place_is_found(s: Seq<char>, c: char)
    ensures
        match last_index(s, c) {
            Some(i) => 0 <= i < s.len() && s[i] == c && forall|k: int|
                i < k < s.len() ==> #[trigger] s[k] != c,
            None => forall|k: int| 0 <= k < s.len() ==> #[trigger] s[k] != c,
        },
    decreases s.len(),
{
    if s.len() > 0 && s.last() != c {
        let init = s.drop_last();
        law_the_last_place_is_found(init, c);
        assert forall|k: int| 0 <= k < init.len() implies #[trigger] s[k] == init[k] by {}
    }
}

pub fn last_index_of(cs: &[char], c: char) -> (r: Option<usize>)
    ensures
        match r {
            Some(k) => last_index(cs@, c) == Some(k as int) && k < cs.len() && cs@[k as int] == c,
            None => last_index(cs@, c) is None,
        },
{
    let mut i: usize = cs.len();
    assert(cs@.take(i as int) == cs@);
    while i > 0
        invariant
            i <= cs.len(),
            last_index(cs@, c) == last_index(cs@.take(i as int), c),
        decreases i,
    {
        if cs[i - 1] == c {
            return Some(i - 1);
        }
        assert(cs@.take(i as int).drop_last() == cs@.take(i - 1));
        i -= 1;
    }
    None
}

/// The first index at or behind `i` of a character of the class.
pub open spec fn index_from(s: Seq<char>, class: Class, i: int) -> Option<int>
    decreases s.len() - i,
{
    if i < 0 || i >= s.len() {
        None
    } else if class(s[i]) {
        Some(i)
    } else {
        index_from(s, class, i + 1)
    }
}

/// The first place from `i` on of a character of the class is one where such a character
/// stands and before which none does.
pub proof fn law_the_first_place_is_found(s: Seq<char>, class: Class, i: int)
    requires
        0 <= i,
    ensures
        match index_from(s, class, i) {
            Some(k) => i <= k < s.len() && class(s[k]) && forall|j: int|
                i <= j < k ==> !class(#[trigger] s[j]),
            None => forall|j: int| i <= j < s.len() ==> !class(#[trigger] s[j]),
        },
    decreases s.len() - i,
{
    if i < s.len() && !class(s[i]) {
        law_the_first_place_is_found(s, class, i + 1);
    }
}

pub fn index_at(cs: &[char], class: &CharClass, from: usize) -> (r: Option<usize>)
    ensures
        match r {
            Some(k) => index_from(cs@, class.class(), from as int) == Some(k as int) && from <= k
                && k < cs.len() && (class.class())(cs@[k as int]),
            None => index_from(cs@, class.class(), from as int) is None,
        },
{
    let mut i: usize = from;
    while i < cs.len()
        invariant
            from <= i,
            index_from(cs@, class.class(), from as int) == index_from(cs@, class.class(), i as int),
        decreases cs.len() - i,
    {
        if class.has(cs[i]) {
            return Some(i);
        }
        i += 1;
    }
    None
}

/// `s` with every `a` replaced by `b`.
pub open spec fn replace_char(s: Seq<char>, a: char, b: char) -> Seq<char> {
    s.map_values(|c: char| if c == a { b } else { c })
}

pub fn replace_char_of(s: &str, a: char, b: char) -> (r: String)
    ensures
        r@ == replace_char(s@, a, b),
{
    let cs = chars_of(s);
    let mut r = String::new();
    let mut i: usize = 0;
    while i < cs.len()
        invariant
            i <= cs.len(),
            cs@ == s@,
            r@ == replace_char(cs@.take(i as int), a, b),
        decreases cs.len() - i,
    {
        let c = if cs[i] == a { b } else { cs[i] };
        assert(replace_char(cs@.take(i + 1), a, b) =~= replace_char(cs@.take(i as int), a, b).push(
            c,
        ));
        r.push(c);
        i += 1;
    }
    assert(cs@.take(i as int) == cs@);
    r
}

/// The first `max` characters of `s`, with an ellipsis where something was cut off.
pub open spec fn ellipsized(s: Seq<char>, max: nat) -> Seq<char> {
    if s.len() <= max {
        s
    } else {
        s.take(max as int).push('…')
    }
}

pub fn ellipsize(s: &str, max: usize) -> (r: String)
    ensures
        r@ == ellipsized(s@, max as nat),
{
    let cs = chars_of(s);
    if cs.len() <= max {
        string_of(&cs)
    } else {
        let mut r = slice_text(&cs, 0, max);
        r.push('…');
        r
    }
}

/// The first `max` characters of `s`.
pub fn take_chars(s: &str, max: usize) -> (r: String)
    ensures
        r@ == (if s@.len() <= max {
            s@
        } else {
            s@.take(max as int)
        }),
{
    let cs = chars_of(s);
    if cs.len() <= max {
        string_of(&cs)
    } else {
        slice_text(&cs, 0, max)
    }
}

/// The last index at or before `i` at which `p` stands in `s`.
pub open spec fn rfind_from(s: Seq<char>, p: Seq<char>, i: int) -> Option<int>
    decreases i + 1,
{
    if i < 0 {
        None
    } else if occurs_at(s, p, i) {
        Some(i)
    } else {
        rfind_from(s, p, i - 1)
    }
}

/// The last index at which `p` stands in `s`.
pub open spec fn rfind(s: Seq<char>, p: Seq<char>) -> Option<int> {
    rfind_from(s, p, s.len() as int)
}

pub fn rfind_of(cs: &[char], p: &[char]) -> (r: Option<usize>)
    ensures
        match r {
            Some(k) => rfind(cs@, p@) == Some(k as int) && k + p.len() <= cs.len(),
            None => rfind(cs@, p@) is None,
        },
{
    let mut i: usize = cs.len();
    loop
        invariant
            i <= cs.len(),
            rfind(cs@, p@) == rfind_from(cs@, p@, i as int),
        decreases i,
    {
        if matches_at(cs, p, i) {
            return Some(i);
        }
        if i == 0 {
            assert(rfind_from(cs@, p@, -1) is None);
            return None;
        }
        i -= 1;
    }
}

pub fn ascii_lower_of(c: char) -> (r: char)
    ensures
        r == ascii_lower(c),
{
    if 'A' <= c && c <= 'Z' {
        let b: u8 = c as u8;
        (b + 32) as char
    } else {
        c
    }
}

/// Lowercases the ASCII letters.
pub fn ascii_lowercase_of(s: &str) -> (r: String)
    ensures
        r@ == ascii_lowercase(s@),
{
    let cs = chars_of(s);
    let mut r = String::new();
    let mut i: usize = 0;
    while i < cs.len()
        invariant
            i <= cs.len(),
            r@ == ascii_lowercase(cs@.take(i as int)),
        decreases cs.len() - i,
    {
        let c = ascii_lower_of(cs[i]);
        assert(ascii_lowercase(cs@.take(i + 1)) =~= ascii_lowercase(cs@.take(i as int)).push(c));
        r.push(c);
        i += 1;
    }
    assert(cs@.take(i as int) == cs@);
    r
}

/// What `String::from_utf8_lossy` makes of bytes.
pub uninterp spec fn replaced_utf8(bytes: Seq<u8>) -> Seq<char>;

/// The text that bytes are read as: well-formed ones as they stand, others with replacement
/// characters for what is malformed.
pub open spec fn lossy_utf8(bytes: Seq<u8>) -> Seq<char> {
    if vstd::utf8::valid_utf8(bytes) {
        vstd::utf8::decode_utf8(bytes)
    } else {
        replaced_utf8(bytes)
    }
}

/// Decodes UTF-8, with a replacement character for what is malformed; wraps
/// `String::from_utf8_lossy`. The result depends on the bytes alone, and well-formed
/// bytes are decoded as they stand.
#[verifier::external_body]
pub(crate) fn decode_lossy(bytes: &[u8]) -> (r: String)
    ensures
        r@ == if vstd::utf8::valid_utf8(bytes@) {
            vstd::utf8::decode_utf8(bytes@)
        } else {
            replaced_utf8(bytes@)
        },
{
    String::from_utf8_lossy(bytes).into_owned()
}

/// The texts without repetitions; the first occurrence of each stays.
pub open spec fn distinct(s: Seq<Seq<char>>) -> Seq<Seq<char>>
    decreases s.len(),
{
    if s.len() == 0 {
        Seq::empty()
    } else {
        let before = distinct(s.drop_last());
        if before.contains(s.last()) {
            before
        } else {
            before.push(s.last())
        }
    }
}

pub proof fn lemma_distinct(s: Seq<Seq<char>>)
    ensures
        distinct(s).no_duplicates(),
        forall|x: Seq<char>| #[trigger] distinct(s).contains(x) <==> s.contains(x),
    decreases s.len(),
{
    if s.len() > 0 {
        let before = distinct(s.drop_last());
        let all = distinct(s);
        lemma_distinct(s.drop_last());
        assert forall|x: Seq<char>| #[trigger] all.contains(x) <==> s.contains(x) by {
            if s.contains(x) {
                let i = choose|i: int| 0 <= i < s.len() && s[i] == x;
                if i < s.len() - 1 {
                    assert(s.drop_last()[i] == x);
                    assert(s.drop_last().contains(x));
                    assert(before.contains(x));
                    let k = choose|k: int| 0 <= k < before.len() && before[k] == x;
                    assert(all[k] == x);
                } else if before.contains(x) {
                    assert(all.contains(x));
                } else {
                    assert(all[before.len() as int] == x);
                }
            }
            if all.contains(x) {
                let k = choose|k: int| 0 <= k < all.len() && all[k] == x;
                if k < before.len() {
                    assert(before[k] == x);
                    assert(before.contains(x));
                    assert(s.drop_last().contains(x));
                    let i = choose|i: int| 0 <= i < s.drop_last().len() && s.drop_last()[i] == x;
                    assert(s[i] == x);
                } else {
                    assert(s[s.len() - 1] == x);
                }
            }
        }
    }
}

pub fn lists_text(v: &Vec<String>, s: &String) -> (r: bool)
    ensures
        r == texts(v@).contains(s@),
{
    let mut i: usize = 0;
    while i < v.len()
        invariant
            i <= v.len(),
            forall|k: int| 0 <= k < i ==> (#[trigger] texts(v@)[k]) != s@,
        decreases v.len() - i,
    {
        if v[i] == *s {
            assert(texts(v@)[i as int] == s@);
            return true;
        }
        i += 1;
    }
    false
}

/// Adds a text unless it is there.
pub fn push_distinct(v: &mut Vec<String>, s: String)
    ensures
        texts(final(v)@) == (if texts(old(v)@).contains(s@) {
            texts(old(v)@)
        } else {
            texts(old(v)@).push(s@)
        }),
{
    broadcast use lemma_texts_push;

    if !lists_text(v, &s) {
        v.push(s);
    }
}

/// Adding to a list without repetitions is adding before they are taken out.
pub proof fn lemma_distinct_push(s: Seq<Seq<char>>, x: Seq<char>)
    ensures
        distinct(s.push(x)) == (if distinct(s).contains(x) {
            distinct(s)
        } else {
            distinct(s).push(x)
        }),
{
    assert(s.push(x).drop_last() == s);
}

/// The text without the prefix, where it begins with it.
pub open spec fn strip_prefix(s: Seq<char>, p: Seq<char>) -> Option<Seq<char>> {
    if starts_with(s, p) {
        Some(s.skip(p.len() as int))
    } else {
        None
    }
}

pub fn strip_prefix_of(s: &str, p: &str) -> (r: Option<String>)
    ensures
        match r {
            Some(t) => strip_prefix(s@, p@) == Some(t@),
            None => strip_prefix(s@, p@) is None,
        },
{
    if has_prefix(s, p) {
        let cs = chars_of(s);
        let n = chars_of(p).len();
        let t = slice_text(&cs, n, cs.len());
        assert(t@ =~= s@.skip(p@.len() as int));
        Some(t)
    } else {
        None
    }
}

/// The text without the suffix, as often as it ends with it.
pub open spec fn trim_suffix(s: Seq<char>, p: Seq<char>) -> Seq<char>
    decreases s.len(),
{
    if p.len() > 0 && ends_with(s, p) {
        trim_suffix(s.take(s.len() - p.len()), p)
    } else {
        s
    }
}

pub fn trim_suffix_of(s: &str, p: &str) -> (r: String)
    ensures
        r@ == trim_suffix(s@, p@),
{
    let cs = chars_of(s);
    let ps = chars_of(p);
    let mut n: usize = cs.len();
    assert(cs@.take(n as int) == s@);
    while ps.len() > 0 && n >= ps.len() && matches_at(&cs, &ps, n - ps.len())
        invariant
            n <= cs.len(),
            cs@ == s@,
            ps@ == p@,
            trim_suffix(s@, p@) == trim_suffix(cs@.take(n as int), p@),
        decreases n,
    {
        let m = n - ps.len();
        proof {
            let t = cs@.take(n as int);
            assert(t.subrange(m as int, n as int) =~= cs@.subrange(m as int, n as int));
            assert(ends_with(t, p@));
            assert(t.take(t.len() - p@.len()) =~= cs@.take(m as int));
        }
        n = m;
    }
    proof {
        let t = cs@.take(n as int);
        if p@.len() > 0 && ends_with(t, p@) {
            assert(t.subrange(n - p@.len(), n as int) =~= cs@.subrange(n - p@.len(), n as int));
            assert(occurs_at(cs@, ps@, n - ps.len()));
        }
    }
    let r = slice_text(&cs, 0, n);
    assert(r@ =~= cs@.take(n as int));
    r
}

/// Whether a text comes before another one.
pub open spec fn text_lt(a: Seq<char>, b: Seq<char>) -> bool {
    crate::rows::key_lt(crate::rows::text_key(a), crate::rows::text_key(b))
}

pub fn text_less(a: &str, b: &str) -> (r: bool)
    ensures
        r == text_lt(a@, b@),
{
    let ka = crate::rows::text_key_of(a);
    let kb = crate::rows::text_key_of(b);
    crate::rows::key_is_less(&ka, &kb)
}

/// How often a text stands in a list.
pub open spec fn count_of(s: Seq<Seq<char>>, x: Seq<char>) -> nat
    decreases s.len(),
{
    if s.len() == 0 {
        0
    } else {
        count_of(s.drop_last(), x) + if s.last() == x {
            1nat
        } else {
            0
        }
    }
}

pub fn count_text(v: &Vec<String>, x: &String) -> (n: usize)
    ensures
        n == count_of(texts(v@), x@),
        n <= v@.len(),
{
    let mut n: usize = 0;
    let mut i: usize = 0;
    assert(texts(v@).take(0) =~= Seq::empty());
    while i < v.len()
        invariant
            i <= v.len(),
            n <= i,
            n == count_of(texts(v@).take(i as int), x@),
        decreases v.len() - i,
    {
        assert(texts(v@).take(i + 1).drop_last() =~= texts(v@).take(i as int));
        if v[i] == *x {
            n += 1;
        }
        i += 1;
    }
    assert(texts(v@).take(i as int) == texts(v@));
    n
}

/// Different numbers are written differently.
pub proof fn lemma_nat_text_injective(a: nat, b: nat)
    requires
        nat_text(a) == nat_text(b),
    ensures
        a == b,
    decreases a,
{
    lemma_nat_text_len(a);
    lemma_nat_text_len(b);
    if a < 10 && b < 10 {
        assert(nat_text(a)[0] == digit(a));
        assert(nat_text(b)[0] == digit(b));
    } else if a >= 10 && b >= 10 {
        assert(nat_text(a).drop_last() =~= nat_text(a / 10));
        assert(nat_text(b).drop_last() =~= nat_text(b / 10));
        assert(nat_text(a).last() == digit(a % 10));
        assert(nat_text(b).last() == digit(b % 10));
        lemma_nat_text_injective(a / 10, b / 10);
    }
}

proof fn lemma_nat_text_len(n: nat)
    ensures
        nat_text(n).len() >= 1,
        nat_text(n).len() == 1 <==> n < 10,
    decreases n,
{
    if n >= 10 {
        lemma_nat_text_len(n / 10);
    }
}

/// What stands behind the last `c`, or the whole text where there is none.
pub open spec fn after_last(s: Seq<char>, c: char) -> Seq<char> {
    match last_index(s, c) {
        Some(i) => s.skip(i + 1),
        None => s,
    }
}

pub fn after_last_of(s: &str, c: char) -> (r: String)
    ensures
        r@ == after_last(s@, c),
{
    let cs = chars_of(s);
    match last_index_of(&cs, c) {
        Some(i) => {
            let r = slice_text(&cs, i + 1, cs.len());
            assert(r@ =~= s@.skip(i + 1));
            r
        },
        None => s.to_owned(),
    }
}

/// What stands before the first `c`, or the whole text where there is none.
pub open spec fn before_first(s: Seq<char>, c: char) -> Seq<char> {
    match index_from(s, only(c), 0) {
        Some(i) => s.take(i),
        None => s,
    }
}

pub fn before_first_of(s: &str, c: char) -> (r: String)
    ensures
        r@ == before_first(s@, c),
{
    let cs = chars_of(s);
    match index_at(&cs, &CharClass::Only(c), 0) {
        Some(i) => {
            let r = slice_text(&cs, 0, i);
            assert(r@ =~= s@.take(i as int));
            r
        },
        None => s.to_owned(),
    }
}

/// The text in front of the first `p`, or the whole text where there is none.
pub open spec fn before_text(s: Seq<char>, p: Seq<char>) -> Seq<char> {
    match find(s, p) {
        Some(i) => s.take(i),
        None => s,
    }
}

pub fn before_text_of(s: &str, p: &str) -> (r: String)
    ensures
        r@ == before_text(s@, p@),
{
    let cs = chars_of(s);
    let ps = chars_of(p);
    match find_at(&cs, &ps, 0) {
        Some(i) => {
            let r = slice_text(&cs, 0, i);
            assert(r@ =~= s@.take(i as int));
            r
        },
        None => s.to_owned(),
    }
}

/// The text without the prefix, as often as it begins with it.
pub open spec fn trim_prefix(s: Seq<char>, p: Seq<char>) -> Seq<char>
    decreases s.len(),
{
    if p.len() > 0 && starts_with(s, p) {
        trim_prefix(s.skip(p.len() as int), p)
    } else {
        s
    }
}

pub fn trim_prefix_of(s: &str, p: &str) -> (r: String)
    ensures
        r@ == trim_prefix(s@, p@),
{
    let cs = chars_of(s);
    let ps = chars_of(p);
    let mut i: usize = 0;
    assert(cs@.skip(0) == s@);
    while ps.len() > 0 && matches_at(&cs, &ps, i)
        invariant
            i <= cs.len(),
            cs@ == s@,
            ps@ == p@,
            trim_prefix(s@, p@) == trim_prefix(cs@.skip(i as int), p@),
        decreases cs.len() - i,
    {
        proof {
            let t = cs@.skip(i as int);
            assert(t.subrange(0, p@.len() as int) =~= cs@.subrange(i as int, i + p@.len()));
            assert(starts_with(t, p@));
            assert(t.skip(p@.len() as int) =~= cs@.skip(i + p@.len()));
        }
        i = i + ps.len();
    }
    proof {
        let t = cs@.skip(i as int);
        if p@.len() > 0 && starts_with(t, p@) {
            assert(t.subrange(0, p@.len() as int) =~= cs@.subrange(i as int, i + p@.len()));
            assert(occurs_at(cs@, ps@, i as int));
        }
    }
    let r = slice_text(&cs, i, cs.len());
    assert(r@ =~= cs@.skip(i as int));
    r
}

/// A number in decimal, with its sign where it is negative.
pub open spec fn int_text(n: int) -> Seq<char> {
    if n < 0 {
        seq!['-'] + nat_text((-n) as nat)
    } else {
        nat_text(n as nat)
    }
}

pub fn i64_text(n: i64) -> (r: String)
    ensures
        r@ == int_text(n as int),
{
    if n < 0 {
        let m: u64 = (-(n as i128)) as u64;
        let mut r = "-".to_owned();
        let t = u64_text(m);
        r.push_str(&t);
        proof {
            reveal_strlit("-");
        }
        assert(r@ =~= int_text(n as int));
        r
    } else {
        u64_text(n as u64)
    }
}

/// A hexadecimal digit in small letters.
pub open spec fn hex_digit(n: nat) -> char {
    if n < 10 {
        digit(n)
    } else {
        ('a' as u32 + (n - 10)) as char
    }
}

/// `n` in hexadecimal.
pub open spec fn hex_text(n: nat) -> Seq<char>
    decreases n,
{
    if n < 16 {
        seq![hex_digit(n)]
    } else {
        hex_text(n / 16).push(hex_digit(n % 16))
    }
}

fn hex_digit_of(n: u64) -> (c: char)
    requires
        n < 16,
    ensures
        c == hex_digit(n as nat),
{
    if n < 10 {
        digit_of(n)
    } else if n == 10 {
        'a'
    } else if n == 11 {
        'b'
    } else if n == 12 {
        'c'
    } else if n == 13 {
        'd'
    } else if n == 14 {
        'e'
    } else {
        'f'
    }
}

pub fn u64_hex(n: u64) -> (r: String)
    ensures
        r@ == hex_text(n as nat),
    decreases n,
{
    if n < 16 {
        let mut r = String::new();
        r.push(hex_digit_of(n));
        assert(r@ =~= hex_text(n as nat));
        r
    } else {
        let mut r = u64_hex(n / 16);
        r.push(hex_digit_of(n % 16));
        r
    }
}

} // verus!
