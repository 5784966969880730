//! Character-sequence utilities with specifications.
//!
//! Text is handled as sequences of `char`.  Every operation here mirrors the
//! behaviour of the corresponding `str` method of the standard library
//! (`trim`, `lines`, `find`, `split_whitespace`, ...), stated over `Seq<char>`.
use vstd::prelude::*;

verus! {

// ───────────────────────────── character classes ─────────────────────────────

/// The Unicode `White_Space` property, which `char::is_whitespace` tests:
/// the ASCII tab, line feed, vertical tab, form feed, carriage return and
/// space, and U+0085, U+00A0, U+1680, U+2000 to U+200A, U+2028, U+2029,
/// U+202F, U+205F and U+3000.
pub open spec fn char_is_whitespace(c: char) -> bool {
    ('\t' <= c && c <= '\r') || c == ' ' || c == '\u{85}' || c == '\u{A0}' || c == '\u{1680}' || (
    '\u{2000}' <= c && c <= '\u{200A}') || c == '\u{2028}' || c == '\u{2029}' || c == '\u{202F}'
        || c == '\u{205F}' || c == '\u{3000}'
}

/// The Unicode alphanumeric test, as `char::is_alphanumeric` decides it.
pub uninterp spec fn char_is_alphanumeric(c: char) -> bool;

/// Whether `c` has the Unicode `White_Space` property, the test that
/// `char::is_whitespace` documents.
pub(crate) fn is_whitespace(c: char) -> (b: bool)
    ensures
        b == char_is_whitespace(c),
{
    ('\t' <= c && c <= '\r') || c == ' ' || c == '\u{85}' || c == '\u{A0}' || c == '\u{1680}' || (
    '\u{2000}' <= c && c <= '\u{200A}') || c == '\u{2028}' || c == '\u{2029}' || c == '\u{202F}'
        || c == '\u{205F}' || c == '\u{3000}'
}

/// Calls `char::is_alphanumeric`.  ASCII letters and digits are
/// alphanumeric; the other printable ASCII characters are not.
#[verifier::external_body]
pub(crate) fn is_alphanumeric(c: char) -> (b: bool)
    ensures
        b == char_is_alphanumeric(c),
        (('a' <= c && c <= 'z') || ('A' <= c && c <= 'Z') || ('0' <= c && c <= '9')) ==> b,
        (' ' <= c && c <= '~' && !(('a' <= c && c <= 'z') || ('A' <= c && c <= 'Z') || ('0'
            <= c && c <= '9'))) ==> !b,
{
    c.is_alphanumeric()
}

/// ASCII lowercase code of a character (other characters keep their code).
pub open spec fn lower_code(c: char) -> u32 {
    if 'A' <= c && c <= 'Z' {
        (c as u32 + 32) as u32
    } else {
        c as u32
    }
}

/// Exec version of [`lower_code`].
pub fn ascii_lower_code(c: char) -> (r: u32)
    ensures
        r == lower_code(c),
{
    if 'A' <= c && c <= 'Z' {
        (c as u32) + 32
    } else {
        c as u32
    }
}

/// Whether `c` is an ASCII letter (`char::is_ascii_alphabetic`).
pub open spec fn is_ascii_alpha(c: char) -> bool {
    ('a' <= c && c <= 'z') || ('A' <= c && c <= 'Z')
}

/// Whether `c` is an ASCII digit.
pub open spec fn is_digit(c: char) -> bool {
    '0' <= c && c <= '9'
}

// ──────────────────────────── conversions ────────────────────────────────────

/// Calls `String::push`.
#[verifier::external_body]
pub(crate) fn push_char(s: &mut String, c: char)
    ensures
        final(s)@ == old(s)@.push(c),
{
    s.push(c)
}

/// The characters of a string.
pub fn chars_of(s: &str) -> (v: Vec<char>)
    ensures
        v@ == s@,
{
    let mut v: Vec<char> = Vec::new();
    for c in it: s.chars()
        invariant
            v@ == it.seq().take(it.index() as int),
            it.seq() == s@,
    {
        v.push(c);
    }
    v
}

/// A string made of the given characters.
pub fn string_of(v: &[char]) -> (s: String)
    ensures
        s@ == v@,
{
    let mut s = String::new();
    let mut i: usize = 0;
    while i < v.len()
        invariant
            i <= v@.len(),
            s@ == v@.take(i as int),
        decreases v@.len() - i,
    {
        push_char(&mut s, v[i]);
        i = i + 1;
        assert(v@.take(i as int) == v@.take(i - 1 as int).push(v@[i - 1]));
    }
    assert(v@.take(v@.len() as int) == v@);
    s
}

/// A copy of `s[from..to]`.
pub fn slice_copy(s: &[char], from: usize, to: usize) -> (r: Vec<char>)
    requires
        from <= to <= s@.len(),
    ensures
        r@ == s@.subrange(from as int, to as int),
{
    let mut r: Vec<char> = Vec::new();
    let mut i = from;
    while i < to
        invariant
            from <= i <= to <= s@.len(),
            r@ == s@.subrange(from as int, i as int),
        decreases to - i,
    {
        r.push(s[i]);
        i = i + 1;
        assert(r@ == s@.subrange(from as int, i as int));
    }
    r
}

// ──────────────────────────────── trimming ───────────────────────────────────

/// Index of the first non-whitespace character at or after `i`
/// (`s.len()` when there is none).
pub open spec fn skip_ws_from(s: Seq<char>, i: int) -> int
    decreases s.len() - i,
{
    if i < 0 || i >= s.len() {
        s.len() as int
    } else if char_is_whitespace(s[i]) {
        skip_ws_from(s, i + 1)
    } else {
        i
    }
}

/// End of `s[..j]` once trailing whitespace is dropped.
pub open spec fn trim_end_from(s: Seq<char>, j: int) -> int
    decreases j,
{
    if j <= 0 || j > s.len() {
        0
    } else if char_is_whitespace(s[j - 1]) {
        trim_end_from(s, j - 1)
    } else {
        j
    }
}

/// `str::trim_start`.
pub open spec fn trim_start_spec(s: Seq<char>) -> Seq<char> {
    s.subrange(skip_ws_from(s, 0), s.len() as int)
}

/// `str::trim_end`.
pub open spec fn trim_end_spec(s: Seq<char>) -> Seq<char> {
    s.subrange(0, trim_end_from(s, s.len() as int))
}

/// `str::trim`.
pub open spec fn trim_spec(s: Seq<char>) -> Seq<char> {
    trim_end_spec(trim_start_spec(s))
}

/// Trimming never lengthens.
pub proof fn lemma_trim_len(s: Seq<char>)
    ensures
        trim_spec(s).len() <= s.len(),
{
    lemma_skip_ws_bounds(s, 0);
    let t = trim_start_spec(s);
    lemma_trim_end_bounds(t, t.len() as int);
}

pub proof fn lemma_skip_ws_bounds(s: Seq<char>, i: int)
    requires
        0 <= i <= s.len(),
    ensures
        i <= skip_ws_from(s, i) <= s.len(),
        forall|k: int| i <= k < skip_ws_from(s, i) ==> char_is_whitespace(#[trigger] s[k]),
        skip_ws_from(s, i) < s.len() ==> !char_is_whitespace(s[skip_ws_from(s, i)]),
    decreases s.len() - i,
{
    if i < s.len() && char_is_whitespace(s[i]) {
        lemma_skip_ws_bounds(s, i + 1);
    }
}

pub proof fn lemma_trim_end_bounds(s: Seq<char>, j: int)
    requires
        0 <= j <= s.len(),
    ensures
        0 <= trim_end_from(s, j) <= j,
        forall|k: int| trim_end_from(s, j) <= k < j ==> char_is_whitespace(#[trigger] s[k]),
        trim_end_from(s, j) > 0 ==> !char_is_whitespace(s[trim_end_from(s, j) - 1]),
    decreases j,
{
    if j > 0 && char_is_whitespace(s[j - 1]) {
        lemma_trim_end_bounds(s, j - 1);
    }
}

/// Index of the first character of `s` that is not whitespace.
pub fn trim_start_index(s: &[char]) -> (i: usize)
    ensures
        i == skip_ws_from(s@, 0),
        i <= s@.len(),
{
    let mut i: usize = 0;
    while i < s.len() && is_whitespace(s[i])
        invariant
            i <= s@.len(),
            skip_ws_from(s@, i as int) == skip_ws_from(s@, 0),
        decreases s@.len() - i,
    {
        i = i + 1;
    }
    i
}

/// Length of `s` once trailing whitespace is dropped.
pub fn trim_end_index(s: &[char]) -> (j: usize)
    ensures
        j == trim_end_from(s@, s@.len() as int),
        j <= s@.len(),
{
    let mut j: usize = s.len();
    while j > 0 && is_whitespace(s[j - 1])
        invariant
            j <= s@.len(),
            trim_end_from(s@, j as int) == trim_end_from(s@, s@.len() as int),
        decreases j,
    {
        j = j - 1;
    }
    j
}

/// `str::trim`: `s` without leading and trailing whitespace.
pub fn trim(s: &[char]) -> (r: Vec<char>)
    ensures
        r@ == trim_spec(s@),
{
    let a = trim_start_index(s);
    let t = &s[a..s.len()];
    assert(t@ == trim_start_spec(s@));
    let b = trim_end_index(t);
    proof {
        lemma_trim_end_bounds(t@, t@.len() as int);
    }
    slice_copy(t, 0, b)
}

/// `str::trim_start`.
pub fn trim_start(s: &[char]) -> (r: Vec<char>)
    ensures
        r@ == trim_start_spec(s@),
{
    let a = trim_start_index(s);
    slice_copy(s, a, s.len())
}

/// `str::trim_end`.
pub fn trim_end(s: &[char]) -> (r: Vec<char>)
    ensures
        r@ == trim_end_spec(s@),
{
    let b = trim_end_index(s);
    proof {
        lemma_trim_end_bounds(s@, s@.len() as int);
    }
    slice_copy(s, 0, b)
}


// ──────────────────────────── prefixes and search ────────────────────────────

/// `p` occurs in `s` at position `i`.
pub open spec fn matches_at(s: Seq<char>, p: Seq<char>, i: int) -> bool {
    0 <= i && i + p.len() <= s.len() && s.subrange(i, i + p.len()) == p
}

/// `str::starts_with`.
pub open spec fn starts_with_spec(s: Seq<char>, p: Seq<char>) -> bool {
    matches_at(s, p, 0)
}

/// `str::ends_with`.
pub open spec fn ends_with_spec(s: Seq<char>, p: Seq<char>) -> bool {
    matches_at(s, p, s.len() - p.len())
}

/// First occurrence of `p` in `s` at or after `i` (`str::find` from `i`).
pub open spec fn find_from(s: Seq<char>, p: Seq<char>, i: int) -> Option<int>
    decreases s.len() + 1 - i,
{
    if i < 0 || i + p.len() > s.len() {
        None
    } else if matches_at(s, p, i) {
        Some(i)
    } else {
        find_from(s, p, i + 1)
    }
}

/// `str::find`.
pub open spec fn find_spec(s: Seq<char>, p: Seq<char>) -> Option<int> {
    find_from(s, p, 0)
}

/// `str::contains`.
pub open spec fn contains_spec(s: Seq<char>, p: Seq<char>) -> bool {
    find_spec(s, p) is Some
}

/// Last position of the character `c` in `s[..j]` (`str::rfind` of a char).
pub open spec fn rfind_char_before(s: Seq<char>, c: char, j: int) -> Option<int>
    decreases j,
{
    if j <= 0 || j > s.len() {
        None
    } else if s[j - 1] == c {
        Some(j - 1)
    } else {
        rfind_char_before(s, c, j - 1)
    }
}

/// `str::rfind` of a character.
pub open spec fn rfind_char_spec(s: Seq<char>, c: char) -> Option<int> {
    rfind_char_before(s, c, s.len() as int)
}

pub proof fn lemma_find_from_bounds(s: Seq<char>, p: Seq<char>, i: int)
    requires
        0 <= i,
    ensures
        find_from(s, p, i) matches Some(k) ==> i <= k && matches_at(s, p, k) && forall|m: int|
            i <= m < k ==> !matches_at(s, p, m),
        find_from(s, p, i) is None ==> forall|m: int| i <= m ==> !matches_at(s, p, m),
    decreases s.len() + 1 - i,
{
    if i + p.len() <= s.len() && !matches_at(s, p, i) {
        lemma_find_from_bounds(s, p, i + 1);
    }
}

pub proof fn lemma_rfind_bounds(s: Seq<char>, c: char, j: int)
    requires
        0 <= j <= s.len(),
    ensures
        rfind_char_before(s, c, j) matches Some(k) ==> 0 <= k < j && s[k] == c && forall|m: int|
            k < m < j ==> s[m] != c,
        rfind_char_before(s, c, j) is None ==> forall|m: int| 0 <= m < j ==> s[m] != c,
    decreases j,
{
    if j > 0 && s[j - 1] != c {
        lemma_rfind_bounds(s, c, j - 1);
    }
}

/// A character that `s` contains has a last position.
pub proof fn lemma_contains_char_rfind(s: Seq<char>, c: char)
    requires
        contains_spec(s, seq![c]),
    ensures
        rfind_char_spec(s, c) matches Some(k) && 0 <= k < s.len() && s[k] == c,
{
    lemma_find_from_bounds(s, seq![c], 0);
    let k = find_spec(s, seq![c]).unwrap();
    assert(s.subrange(k, k + 1)[0] == s[k]);
    lemma_rfind_bounds(s, c, s.len() as int);
}

/// Whether `p` occurs in `s` at position `i`.
pub fn matches_at_exec(s: &[char], p: &[char], i: usize) -> (b: bool)
    ensures
        b == matches_at(s@, p@, i as int),
{
    if i > s.len() || p.len() > s.len() - i {
        return false;
    }
    let mut k: usize = 0;
    while k < p.len()
        invariant
            i <= s@.len(),
            i + p@.len() <= s@.len(),
            k <= p@.len(),
            forall|m: int| 0 <= m < k ==> s@[i + m] == p@[m],
        decreases p@.len() - k,
    {
        let n = s.len();
        assert(i + k < n);
        if s[i + k] != p[k] {
            assert(s@.subrange(i as int, i + p@.len())[k as int] != p@[k as int]);
            return false;
        }
        k = k + 1;
    }
    assert(s@.subrange(i as int, i + p@.len()) =~= p@);
    true
}

/// `str::starts_with`.
pub fn starts_with(s: &[char], p: &[char]) -> (b: bool)
    ensures
        b == starts_with_spec(s@, p@),
{
    matches_at_exec(s, p, 0)
}

/// `str::ends_with`.
pub fn ends_with(s: &[char], p: &[char]) -> (b: bool)
    ensures
        b == ends_with_spec(s@, p@),
{
    if p.len() > s.len() {
        return false;
    }
    matches_at_exec(s, p, s.len() - p.len())
}

/// `str::find`: the first position at which `p` occurs in `s`.
pub fn find(s: &[char], p: &[char]) -> (r: Option<usize>)
    ensures
        r matches Some(k) ==> find_spec(s@, p@) == Some(k as int),
        r is None ==> find_spec(s@, p@) is None,
{
    find_after(s, p, 0)
}

/// The first position at or after `from` at which `p` occurs in `s`.
pub fn find_after(s: &[char], p: &[char], from: usize) -> (r: Option<usize>)
    ensures
        r matches Some(k) ==> find_from(s@, p@, from as int) == Some(k as int),
        r is None ==> find_from(s@, p@, from as int) is None,
{
    let mut i = from;
    while i <= s.len() && p.len() <= s.len() - i
        invariant
            from <= i,
            find_from(s@, p@, i as int) == find_from(s@, p@, from as int),
        decreases s@.len() + 1 - i,
    {
        if matches_at_exec(s, p, i) {
            return Some(i);
        }
        proof {
            if p@.len() == 0 {
                assert(s@.subrange(i as int, i as int) =~= p@);
            }
        }
        i = i + 1;
    }
    None
}

/// `str::contains`.
pub fn contains(s: &[char], p: &[char]) -> (b: bool)
    ensures
        b == contains_spec(s@, p@),
{
    find(s, p).is_some()
}

/// `str::contains` of a single character.
pub fn contains_char(s: &[char], c: char) -> (b: bool)
    ensures
        b == contains_spec(s@, seq![c]),
{
    let p = [c];
    assert(p@ =~= seq![c]);
    contains(s, &p)
}

/// `str::find` of a single character.
pub fn find_char(s: &[char], c: char) -> (r: Option<usize>)
    ensures
        r matches Some(k) ==> find_spec(s@, seq![c]) == Some(k as int),
        r is None ==> find_spec(s@, seq![c]) is None,
{
    let p = [c];
    assert(p@ =~= seq![c]);
    find(s, &p)
}

/// `str::rfind` of a single character.
pub fn rfind_char(s: &[char], c: char) -> (r: Option<usize>)
    ensures
        r matches Some(k) ==> rfind_char_spec(s@, c) == Some(k as int),
        r is None ==> rfind_char_spec(s@, c) is None,
{
    let mut j = s.len();
    while j > 0 && s[j - 1] != c
        invariant
            j <= s@.len(),
            rfind_char_before(s@, c, j as int) == rfind_char_spec(s@, c),
        decreases j,
    {
        j = j - 1;
    }
    if j == 0 {
        None
    } else {
        Some(j - 1)
    }
}

// ─────────────────────────── case-insensitive tests ──────────────────────────

/// `s` begins with `p`, comparing ASCII letters without regard to case.
pub open spec fn starts_with_ci_spec(s: Seq<char>, p: Seq<char>) -> bool {
    p.len() <= s.len() && forall|k: int| 0 <= k < p.len() ==> lower_code(#[trigger] s[k]) == lower_code(p[k])
}

/// `s` and `p` are equal, comparing ASCII letters without regard to case
/// (`str::eq_ignore_ascii_case`).
pub open spec fn eq_ci_spec(s: Seq<char>, p: Seq<char>) -> bool {
    s.len() == p.len() && starts_with_ci_spec(s, p)
}

/// Whether `s` begins with `p`, ignoring ASCII case.
pub fn starts_with_ci(s: &[char], p: &[char]) -> (b: bool)
    ensures
        b == starts_with_ci_spec(s@, p@),
{
    if p.len() > s.len() {
        return false;
    }
    let mut k: usize = 0;
    while k < p.len()
        invariant
            p@.len() <= s@.len(),
            k <= p@.len(),
            forall|m: int| 0 <= m < k ==> lower_code(#[trigger] s@[m]) == lower_code(p@[m]),
        decreases p@.len() - k,
    {
        if ascii_lower_code(s[k]) != ascii_lower_code(p[k]) {
            return false;
        }
        k = k + 1;
    }
    true
}

/// `str::eq_ignore_ascii_case`.
pub fn eq_ci(s: &[char], p: &[char]) -> (b: bool)
    ensures
        b == eq_ci_spec(s@, p@),
{
    s.len() == p.len() && starts_with_ci(s, p)
}

/// The code of the lowercase of `c` where that is one character and `c`
/// could lower to an ASCII letter: the ASCII capitals and the Kelvin sign
/// (`K`, which lowers to `k`) are lowered; other characters keep their
/// code. (The one other character whose lowercase starts with an ASCII
/// letter, `İ`, lowers to two characters.)
pub open spec fn lower_full_code(c: char) -> u32 {
    if 'A' <= c && c <= 'Z' {
        (c as u32 + 32) as u32
    } else if c == '\u{212A}' {
        107
    } else {
        c as u32
    }
}

/// `s.to_lowercase().starts_with(p)` for a lowercase ASCII word `p`.
pub open spec fn starts_with_lower_spec(s: Seq<char>, p: Seq<char>) -> bool {
    p.len() <= s.len() && forall|k: int| 0 <= k < p.len() ==> lower_full_code(#[trigger] s[k]) == p[k] as u32
}

/// `s.to_lowercase() == p` for a lowercase ASCII word `p`.
pub open spec fn eq_lower_spec(s: Seq<char>, p: Seq<char>) -> bool {
    s.len() == p.len() && starts_with_lower_spec(s, p)
}

fn lower_full(c: char) -> (r: u32)
    ensures
        r == lower_full_code(c),
{
    if 'A' <= c && c <= 'Z' {
        (c as u32) + 32
    } else if c == '\u{212A}' {
        107
    } else {
        c as u32
    }
}

/// Whether the lowercase of `s` begins with the lowercase ASCII word `p`.
pub fn starts_with_lower(s: &[char], p: &[char]) -> (b: bool)
    ensures
        b == starts_with_lower_spec(s@, p@),
{
    if p.len() > s.len() {
        return false;
    }
    let mut k: usize = 0;
    while k < p.len()
        invariant
            p@.len() <= s@.len(),
            k <= p@.len(),
            forall|m: int| 0 <= m < k ==> lower_full_code(#[trigger] s@[m]) == p@[m] as u32,
        decreases p@.len() - k,
    {
        if lower_full(s[k]) != p[k] as u32 {
            return false;
        }
        k = k + 1;
    }
    true
}

/// Whether the lowercase of `s` is the lowercase ASCII word `p`.
pub fn eq_lower(s: &[char], p: &[char]) -> (b: bool)
    ensures
        b == eq_lower_spec(s@, p@),
{
    s.len() == p.len() && starts_with_lower(s, p)
}

/// Exact equality of two character sequences.
pub fn eq_chars(s: &[char], p: &[char]) -> (b: bool)
    ensures
        b == (s@ == p@),
{
    if s.len() != p.len() {
        return false;
    }
    let b = matches_at_exec(s, p, 0);
    proof {
        if !b {
            assert(s@.subrange(0, s@.len() as int) =~= s@);
        } else {
            assert(s@.subrange(0, s@.len() as int) =~= s@);
        }
    }
    b
}


// ──────────────────────────────── splitting ──────────────────────────────────

/// First index at or after `i` holding `c` (`s.len()` when there is none).
pub open spec fn next_char_from(s: Seq<char>, c: char, i: int) -> int
    decreases s.len() - i,
{
    if i < 0 || i >= s.len() {
        s.len() as int
    } else if s[i] == c {
        i
    } else {
        next_char_from(s, c, i + 1)
    }
}

/// First index at or after `i` holding whitespace (`s.len()` when none).
pub open spec fn next_ws_from(s: Seq<char>, i: int) -> int
    decreases s.len() - i,
{
    if i < 0 || i >= s.len() {
        s.len() as int
    } else if char_is_whitespace(s[i]) {
        i
    } else {
        next_ws_from(s, i + 1)
    }
}

pub proof fn lemma_next_char_bounds(s: Seq<char>, c: char, i: int)
    requires
        0 <= i <= s.len(),
    ensures
        i <= next_char_from(s, c, i) <= s.len(),
        next_char_from(s, c, i) < s.len() ==> s[next_char_from(s, c, i)] == c,
        forall|k: int| i <= k < next_char_from(s, c, i) ==> s[k] != c,
    decreases s.len() - i,
{
    if i < s.len() && s[i] != c {
        lemma_next_char_bounds(s, c, i + 1);
    }
}

pub proof fn lemma_next_ws_bounds(s: Seq<char>, i: int)
    requires
        0 <= i <= s.len(),
    ensures
        i <= next_ws_from(s, i) <= s.len(),
        next_ws_from(s, i) < s.len() ==> char_is_whitespace(s[next_ws_from(s, i)]),
        forall|k: int| i <= k < next_ws_from(s, i) ==> !char_is_whitespace(#[trigger] s[k]),
    decreases s.len() - i,
{
    if i < s.len() && !char_is_whitespace(s[i]) {
        lemma_next_ws_bounds(s, i + 1);
    }
}

/// A line without the carriage return that precedes its line feed.
pub open spec fn strip_cr(l: Seq<char>) -> Seq<char> {
    if l.len() > 0 && l.last() == '\r' {
        l.drop_last()
    } else {
        l
    }
}

/// The lines of `s[i..]`, as `str::lines` yields them.
pub open spec fn lines_from(s: Seq<char>, i: int) -> Seq<Seq<char>>
    decreases s.len() - i,
{
    if i < 0 || i >= s.len() {
        seq![]
    } else {
        let k = next_char_from(s, '\n', i);
        if k >= s.len() {
            seq![s.subrange(i, s.len() as int)]
        } else {
            proof {
                lemma_next_char_bounds(s, '\n', i);
            }
            seq![strip_cr(s.subrange(i, k))] + lines_from(s, k + 1)
        }
    }
}

/// `str::lines`.
pub open spec fn lines_spec(s: Seq<char>) -> Seq<Seq<char>> {
    lines_from(s, 0)
}

/// All but the first of a sequence of lines (`skip(1)`); empty when there
/// are none.
pub open spec fn after_first(ls: Seq<Seq<char>>) -> Seq<Seq<char>> {
    if ls.len() == 0 {
        ls
    } else {
        ls.skip(1)
    }
}

/// The pieces of `s[i..]` between occurrences of `c` (`str::split(c)`).
pub open spec fn split_char_from(s: Seq<char>, c: char, i: int) -> Seq<Seq<char>>
    decreases s.len() - i,
{
    if i < 0 || i > s.len() {
        seq![]
    } else {
        let k = next_char_from(s, c, i);
        if k >= s.len() {
            seq![s.subrange(i, s.len() as int)]
        } else {
            proof {
                lemma_next_char_bounds(s, c, i);
            }
            seq![s.subrange(i, k)] + split_char_from(s, c, k + 1)
        }
    }
}

/// Splitting at `c` always gives at least one piece.
pub proof fn lemma_split_from_nonempty(s: Seq<char>, c: char, i: int)
    requires
        0 <= i <= s.len(),
    ensures
        split_char_from(s, c, i).len() >= 1,
{
    lemma_next_char_bounds(s, c, i);
}

/// Splitting a string that holds `c` at `c` gives at least two pieces.
pub proof fn lemma_split_contains(s: Seq<char>, c: char)
    requires
        contains_spec(s, seq![c]),
    ensures
        split_char_spec(s, c).len() >= 2,
{
    lemma_find_from_bounds(s, seq![c], 0);
    let k = find_spec(s, seq![c])->0;
    assert(s.subrange(k, k + 1) =~= seq![c]);
    assert(s[k] == s.subrange(k, k + 1)[0]);
    lemma_next_char_bounds(s, c, 0);
    assert(next_char_from(s, c, 0) < s.len());
    lemma_split_from_nonempty(s, c, next_char_from(s, c, 0) + 1);
}

/// `str::split` on a character.
pub open spec fn split_char_spec(s: Seq<char>, c: char) -> Seq<Seq<char>> {
    split_char_from(s, c, 0)
}

/// The whitespace-separated words of `s[i..]`.
pub open spec fn words_from(s: Seq<char>, i: int) -> Seq<Seq<char>>
    decreases s.len() - i,
{
    if i < 0 || i > s.len() {
        seq![]
    } else {
        let a = skip_ws_from(s, i);
        if a >= s.len() {
            seq![]
        } else {
            let b = next_ws_from(s, a);
            proof {
                lemma_skip_ws_bounds(s, i);
                lemma_next_ws_bounds(s, a);
                assert(next_ws_from(s, a + 1) == b);
            }
            seq![s.subrange(a, b)] + words_from(s, b)
        }
    }
}

/// `str::split_whitespace`.
pub open spec fn split_whitespace_spec(s: Seq<char>) -> Seq<Seq<char>> {
    words_from(s, 0)
}

/// The view of every element of a vector of character vectors.
pub open spec fn views_of(v: Seq<Vec<char>>) -> Seq<Seq<char>> {
    v.map_values(|x: Vec<char>| x@)
}

/// The first index at or after `i` holding `c`, or `s.len()`.
pub fn next_char_index(s: &[char], c: char, i: usize) -> (k: usize)
    requires
        i <= s@.len(),
    ensures
        k == next_char_from(s@, c, i as int),
{
    let mut k = i;
    while k < s.len() && s[k] != c
        invariant
            i <= k <= s@.len(),
            next_char_from(s@, c, k as int) == next_char_from(s@, c, i as int),
        decreases s@.len() - k,
    {
        k = k + 1;
    }
    k
}

/// The first index at or after `i` holding whitespace, or `s.len()`.
pub fn next_ws_index(s: &[char], i: usize) -> (k: usize)
    requires
        i <= s@.len(),
    ensures
        k == next_ws_from(s@, i as int),
{
    let mut k = i;
    while k < s.len() && !is_whitespace(s[k])
        invariant
            i <= k <= s@.len(),
            next_ws_from(s@, k as int) == next_ws_from(s@, i as int),
        decreases s@.len() - k,
    {
        k = k + 1;
    }
    k
}

/// The first index at or after `i` that is not whitespace, or `s.len()`.
pub fn skip_ws_index(s: &[char], i: usize) -> (k: usize)
    requires
        i <= s@.len(),
    ensures
        k == skip_ws_from(s@, i as int),
{
    let mut k = i;
    while k < s.len() && is_whitespace(s[k])
        invariant
            i <= k <= s@.len(),
            skip_ws_from(s@, k as int) == skip_ws_from(s@, i as int),
        decreases s@.len() - k,
    {
        k = k + 1;
    }
    k
}

/// A line without the carriage return that precedes its line feed.
fn strip_cr_exec(l: Vec<char>) -> (r: Vec<char>)
    ensures
        r@ == strip_cr(l@),
{
    let mut l = l;
    if l.len() > 0 && l[l.len() - 1] == '\r' {
        l.pop();
    }
    l
}

/// `str::lines`: the lines of `s`.
pub fn lines(s: &[char]) -> (r: Vec<Vec<char>>)
    ensures
        views_of(r@) == lines_spec(s@),
{
    let mut r: Vec<Vec<char>> = Vec::new();
    let mut i: usize = 0;
    while i < s.len()
        invariant
            i <= s@.len(),
            views_of(r@) + lines_from(s@, i as int) == lines_spec(s@),
        decreases s@.len() - i,
    {
        let k = next_char_index(s, '\n', i);
        proof {
            lemma_next_char_bounds(s@, '\n', i as int);
        }
        let ghost before = views_of(r@);
        if k >= s.len() {
            r.push(slice_copy(s, i, s.len()));
            proof {
                assert(views_of(r@) =~= before.push(s@.subrange(i as int, s@.len() as int)));
                assert(lines_from(s@, s@.len() as int) =~= seq![]);
                assert(views_of(r@) + lines_from(s@, s@.len() as int) =~= before + lines_from(s@, i as int));
            }
            i = s.len();
        } else {
            r.push(strip_cr_exec(slice_copy(s, i, k)));
            proof {
                assert(views_of(r@) =~= before.push(strip_cr(s@.subrange(i as int, k as int))));
                assert(views_of(r@) + lines_from(s@, k + 1) =~= before + lines_from(s@, i as int));
            }
            i = k + 1;
        }
    }
    proof {
        assert(lines_from(s@, i as int) =~= seq![]);
        assert(views_of(r@) + seq![] =~= views_of(r@));
    }
    r
}

/// `str::split` on a character.
pub fn split_char(s: &[char], c: char) -> (r: Vec<Vec<char>>)
    ensures
        views_of(r@) == split_char_spec(s@, c),
        r@.len() >= 1,
{
    let mut r: Vec<Vec<char>> = Vec::new();
    let mut i: usize = 0;
    loop
        invariant
            i <= s@.len(),
            views_of(r@) + split_char_from(s@, c, i as int) == split_char_spec(s@, c),
        decreases s@.len() - i,
    {
        let k = next_char_index(s, c, i);
        proof {
            lemma_next_char_bounds(s@, c, i as int);
        }
        let ghost before = views_of(r@);
        if k >= s.len() {
            r.push(slice_copy(s, i, s.len()));
            proof {
                assert(views_of(r@) =~= before.push(s@.subrange(i as int, s@.len() as int)));
                assert(views_of(r@) =~= before + split_char_from(s@, c, i as int));
                assert(views_of(r@) + seq![] =~= views_of(r@));
            }
            return r;
        } else {
            r.push(slice_copy(s, i, k));
            proof {
                assert(views_of(r@) =~= before.push(s@.subrange(i as int, k as int)));
                assert(views_of(r@) + split_char_from(s@, c, k + 1) =~= before + split_char_from(
                    s@,
                    c,
                    i as int,
                ));
            }
            i = k + 1;
        }
    }
}

/// `str::split_whitespace`.
pub fn split_whitespace(s: &[char]) -> (r: Vec<Vec<char>>)
    ensures
        views_of(r@) == split_whitespace_spec(s@),
{
    let mut r: Vec<Vec<char>> = Vec::new();
    let mut i: usize = 0;
    loop
        invariant
            i <= s@.len(),
            views_of(r@) + words_from(s@, i as int) == split_whitespace_spec(s@),
        decreases s@.len() - i,
    {
        let a = skip_ws_index(s, i);
        proof {
            lemma_skip_ws_bounds(s@, i as int);
        }
        if a >= s.len() {
            proof {
                assert(words_from(s@, i as int) =~= seq![]);
                assert(views_of(r@) + seq![] =~= views_of(r@));
            }
            return r;
        }
        let b = next_ws_index(s, a);
        proof {
            lemma_next_ws_bounds(s@, a as int);
            assert(next_ws_from(s@, a + 1) == b);
        }
        let ghost before = views_of(r@);
        r.push(slice_copy(s, a, b));
        proof {
            assert(views_of(r@) =~= before.push(s@.subrange(a as int, b as int)));
            assert(views_of(r@) + words_from(s@, b as int) =~= before + words_from(s@, i as int));
        }
        i = b;
    }
}


// ────────────────────────────── replacement ──────────────────────────────────

/// `s[i..]` with every non-overlapping occurrence of `p` (scanned from the
/// left) replaced by `r` (`str::replace`, for a non-empty pattern).
pub open spec fn replace_from(s: Seq<char>, p: Seq<char>, r: Seq<char>, i: int) -> Seq<char>
    decreases s.len() - i,
{
    if i < 0 || i >= s.len() || p.len() == 0 {
        if 0 <= i < s.len() {
            s.subrange(i, s.len() as int)
        } else {
            seq![]
        }
    } else if matches_at(s, p, i) {
        r + replace_from(s, p, r, i + p.len())
    } else {
        seq![s[i]] + replace_from(s, p, r, i + 1)
    }
}

/// `str::replace`.
pub open spec fn replace_spec(s: Seq<char>, p: Seq<char>, r: Seq<char>) -> Seq<char> {
    replace_from(s, p, r, 0)
}

/// Appends `t` to `v`.
pub fn extend_chars(v: &mut Vec<char>, t: &[char])
    ensures
        final(v)@ == old(v)@ + t@,
{
    let mut k: usize = 0;
    while k < t.len()
        invariant
            k <= t@.len(),
            v@ == old(v)@ + t@.take(k as int),
        decreases t@.len() - k,
    {
        v.push(t[k]);
        k = k + 1;
        assert(t@.take(k as int) == t@.take(k - 1 as int).push(t@[k - 1]));
    }
    assert(t@.take(t@.len() as int) == t@);
}

/// `str::replace` for a non-empty pattern.
pub fn replace(s: &[char], p: &[char], r: &[char]) -> (out: Vec<char>)
    requires
        p@.len() > 0,
    ensures
        out@ == replace_spec(s@, p@, r@),
{
    let mut out: Vec<char> = Vec::new();
    let mut i: usize = 0;
    while i < s.len()
        invariant
            i <= s@.len(),
            p@.len() > 0,
            out@ + replace_from(s@, p@, r@, i as int) == replace_spec(s@, p@, r@),
        decreases s@.len() - i,
    {
        let ghost before = out@;
        if matches_at_exec(s, p, i) {
            extend_chars(&mut out, r);
            assert(out@ + replace_from(s@, p@, r@, i + p@.len()) =~= before + replace_from(
                s@,
                p@,
                r@,
                i as int,
            ));
            i = i + p.len();
        } else {
            out.push(s[i]);
            assert(out@ + replace_from(s@, p@, r@, i + 1) =~= before + replace_from(
                s@,
                p@,
                r@,
                i as int,
            ));
            i = i + 1;
        }
    }
    assert(out@ + replace_from(s@, p@, r@, i as int) =~= out@);
    out
}

// ─────────────────────────── trimming a character ────────────────────────────

/// Index of the first character at or after `i` that is not `c`.
pub open spec fn skip_char_from(s: Seq<char>, c: char, i: int) -> int
    decreases s.len() - i,
{
    if i < 0 || i >= s.len() {
        s.len() as int
    } else if s[i] == c {
        skip_char_from(s, c, i + 1)
    } else {
        i
    }
}

/// End of `s[..j]` once trailing copies of `c` are dropped, not going below `lo`.
pub open spec fn trim_char_end_from(s: Seq<char>, c: char, lo: int, j: int) -> int
    decreases j - lo,
{
    if j <= lo || j > s.len() {
        lo
    } else if s[j - 1] == c {
        trim_char_end_from(s, c, lo, j - 1)
    } else {
        j
    }
}

/// `str::trim_matches` on a character.
pub open spec fn trim_matches_spec(s: Seq<char>, c: char) -> Seq<char> {
    let a = skip_char_from(s, c, 0);
    s.subrange(a, trim_char_end_from(s, c, a, s.len() as int))
}

pub proof fn lemma_skip_char_bounds(s: Seq<char>, c: char, i: int)
    requires
        0 <= i <= s.len(),
    ensures
        i <= skip_char_from(s, c, i) <= s.len(),
    decreases s.len() - i,
{
    if i < s.len() && s[i] == c {
        lemma_skip_char_bounds(s, c, i + 1);
    }
}

pub proof fn lemma_trim_char_end_bounds(s: Seq<char>, c: char, lo: int, j: int)
    requires
        0 <= lo <= j <= s.len(),
    ensures
        lo <= trim_char_end_from(s, c, lo, j) <= j,
    decreases j - lo,
{
    if j > lo && s[j - 1] == c {
        lemma_trim_char_end_bounds(s, c, lo, j - 1);
    }
}

/// `str::trim_matches` on a character.
pub fn trim_matches(s: &[char], c: char) -> (r: Vec<char>)
    ensures
        r@ == trim_matches_spec(s@, c),
{
    let mut a: usize = 0;
    while a < s.len() && s[a] == c
        invariant
            a <= s@.len(),
            skip_char_from(s@, c, a as int) == skip_char_from(s@, c, 0),
        decreases s@.len() - a,
    {
        a = a + 1;
    }
    let mut b: usize = s.len();
    while b > a && s[b - 1] == c
        invariant
            a <= b <= s@.len(),
            trim_char_end_from(s@, c, a as int, b as int) == trim_char_end_from(
                s@,
                c,
                a as int,
                s@.len() as int,
            ),
        decreases b - a,
    {
        b = b - 1;
    }
    slice_copy(s, a, b)
}

// ─────────────────────────── trimming a character set ─────────────────────────

/// Whether `c` is one of the characters of `set`.
pub fn in_set(c: char, set: &[char]) -> (b: bool)
    ensures
        b == set@.contains(c),
{
    let mut i: usize = 0;
    while i < set.len()
        invariant
            i <= set@.len(),
            forall|k: int| 0 <= k < i ==> set@[k] != c,
        decreases set@.len() - i,
    {
        if set[i] == c {
            return true;
        }
        i = i + 1;
    }
    false
}

/// Index of the first character at or after `i` that is not in `set`.
pub open spec fn skip_set_from(s: Seq<char>, set: Seq<char>, i: int) -> int
    decreases s.len() - i,
{
    if i < 0 || i >= s.len() {
        s.len() as int
    } else if set.contains(s[i]) {
        skip_set_from(s, set, i + 1)
    } else {
        i
    }
}

/// End of `s[..j]` once trailing characters in `set` are dropped.
pub open spec fn trim_set_end_from(s: Seq<char>, set: Seq<char>, j: int) -> int
    decreases j,
{
    if j <= 0 || j > s.len() {
        0
    } else if set.contains(s[j - 1]) {
        trim_set_end_from(s, set, j - 1)
    } else {
        j
    }
}

/// `str::trim_start_matches` with a set of characters.
pub open spec fn trim_start_matches_spec(s: Seq<char>, set: Seq<char>) -> Seq<char> {
    s.subrange(skip_set_from(s, set, 0), s.len() as int)
}

/// `str::trim_end_matches` with a set of characters.
pub open spec fn trim_end_matches_spec(s: Seq<char>, set: Seq<char>) -> Seq<char> {
    s.subrange(0, trim_set_end_from(s, set, s.len() as int))
}

pub proof fn lemma_skip_set_bounds(s: Seq<char>, set: Seq<char>, i: int)
    requires
        0 <= i <= s.len(),
    ensures
        i <= skip_set_from(s, set, i) <= s.len(),
    decreases s.len() - i,
{
    if i < s.len() && set.contains(s[i]) {
        lemma_skip_set_bounds(s, set, i + 1);
    }
}

pub proof fn lemma_trim_set_end_bounds(s: Seq<char>, set: Seq<char>, j: int)
    requires
        0 <= j <= s.len(),
    ensures
        0 <= trim_set_end_from(s, set, j) <= j,
    decreases j,
{
    if j > 0 && set.contains(s[j - 1]) {
        lemma_trim_set_end_bounds(s, set, j - 1);
    }
}

/// `str::trim_start_matches` with a set of characters.
pub fn trim_start_matches(s: &[char], set: &[char]) -> (r: Vec<char>)
    ensures
        r@ == trim_start_matches_spec(s@, set@),
{
    let mut a: usize = 0;
    while a < s.len() && in_set(s[a], set)
        invariant
            a <= s@.len(),
            skip_set_from(s@, set@, a as int) == skip_set_from(s@, set@, 0),
        decreases s@.len() - a,
    {
        a = a + 1;
    }
    slice_copy(s, a, s.len())
}

/// `str::trim_end_matches` with a set of characters.
pub fn trim_end_matches(s: &[char], set: &[char]) -> (r: Vec<char>)
    ensures
        r@ == trim_end_matches_spec(s@, set@),
{
    let mut b: usize = s.len();
    while b > 0 && in_set(s[b - 1], set)
        invariant
            b <= s@.len(),
            trim_set_end_from(s@, set@, b as int) == trim_set_end_from(s@, set@, s@.len() as int),
        decreases b,
    {
        b = b - 1;
    }
    slice_copy(s, 0, b)
}

// ──────────────────────────────── numbers ────────────────────────────────────

/// The decimal digit character for `d < 10`.
pub open spec fn digit_char(d: int) -> char {
    (48 + d) as char
}

/// The decimal representation of `n` (`u64::to_string`).
pub open spec fn decimal_spec(n: nat) -> Seq<char>
    decreases n,
{
    if n < 10 {
        seq![digit_char(n as int)]
    } else {
        decimal_spec(n / 10).push(digit_char((n % 10) as int))
    }
}

fn digit_to_char(d: u64) -> (c: char)
    requires
        d < 10,
    ensures
        c == digit_char(d as int),
{
    let table: [char; 10] = ['0', '1', '2', '3', '4', '5', '6', '7', '8', '9'];
    assert(table@[d as int] == digit_char(d as int)) by {
        assert(table@ =~= seq!['0', '1', '2', '3', '4', '5', '6', '7', '8', '9']);
    }
    table[d as usize]
}

/// `u64::to_string`, as characters.
pub fn decimal(n: u64) -> (r: Vec<char>)
    ensures
        r@ == decimal_spec(n as nat),
    decreases n,
{
    if n < 10 {
        let mut v: Vec<char> = Vec::new();
        v.push(digit_to_char(n));
        assert(v@ =~= seq![digit_char(n as int)]);
        v
    } else {
        let mut v = decimal(n / 10);
        v.push(digit_to_char(n % 10));
        v
    }
}

/// Value of a sequence of decimal digits.
pub open spec fn digits_value(s: Seq<char>) -> int
    decreases s.len(),
{
    if s.len() == 0 {
        0
    } else {
        digits_value(s.drop_last()) * 10 + (s.last() as int - 48)
    }
}

/// All characters are ASCII digits.
pub open spec fn all_digits(s: Seq<char>) -> bool {
    forall|k: int| 0 <= k < s.len() ==> is_digit(#[trigger] s[k])
}

/// The signed value that `s` denotes as an optional sign and digits, if any.
pub open spec fn signed_value(s: Seq<char>) -> Option<int> {
    let neg = s.len() > 0 && s[0] == '-';
    let signed = s.len() > 0 && (s[0] == '-' || s[0] == '+');
    let body = if signed {
        s.drop_first()
    } else {
        s
    };
    if body.len() == 0 || !all_digits(body) {
        None
    } else if neg {
        Some(-digits_value(body))
    } else {
        Some(digits_value(body))
    }
}

/// `str::parse::<usize>`: an optional `+` and at least one digit, the
/// value within `usize`.
pub open spec fn parse_usize_spec(s: Seq<char>) -> Option<usize> {
    let body = if s.len() > 0 && s[0] == '+' {
        s.drop_first()
    } else {
        s
    };
    if body.len() == 0 || !all_digits(body) || digits_value(body) > usize::MAX {
        None
    } else {
        Some(digits_value(body) as usize)
    }
}

/// `str::parse::<usize>`.
pub fn parse_usize(s: &[char]) -> (r: Option<usize>)
    ensures
        r == parse_usize_spec(s@),
{
    let n = s.len();
    let start: usize = if n > 0 && s[0] == '+' {
        1
    } else {
        0
    };
    let ghost body = if n > 0 && s@[0] == '+' {
        s@.drop_first()
    } else {
        s@
    };
    assert(body =~= s@.subrange(start as int, n as int));
    if start >= n {
        return None;
    }
    let mut k: usize = start;
    while k < n
        invariant
            start <= k <= n,
            n == s@.len(),
            body == s@.subrange(start as int, n as int),
            body == (if s@.len() > 0 && s@[0] == '+' {
                s@.drop_first()
            } else {
                s@
            }),
            forall|m: int| 0 <= m < k - start ==> is_digit(#[trigger] body[m]),
        decreases n - k,
    {
        assert(body[k - start] == s@[k as int]);
        if !('0' <= s[k] && s[k] <= '9') {
            assert(!is_digit(body[k - start]));
            assert(!all_digits(body));
            return None;
        }
        k = k + 1;
    }
    assert(all_digits(body));
    let mut acc: usize = 0;
    let mut j: usize = start;
    while j < n
        invariant
            start <= j <= n,
            n == s@.len(),
            body == s@.subrange(start as int, n as int),
            body == (if s@.len() > 0 && s@[0] == '+' {
                s@.drop_first()
            } else {
                s@
            }),
            all_digits(body),
            acc == digits_value(body.take(j - start)),
        decreases n - j,
    {
        assert(body[j - start] == s@[j as int]);
        proof {
            lemma_digits_value_take(body, j - start);
            lemma_digits_value_mono(body, j - start + 1);
        }
        assert(is_digit(body[j - start]));
        let d = (s[j] as u32 - 48) as usize;
        assert(digits_value(body.take(j - start + 1)) == acc * 10 + d);
        match acc.checked_mul(10) {
            Some(m) => match m.checked_add(d) {
                Some(v) => {
                    acc = v;
                },
                None => {
                    return None;
                },
            },
            None => {
                return None;
            },
        }
        j = j + 1;
    }
    assert(body.take(n - start) =~= body);
    Some(acc)
}

/// `str::parse::<i32>`: `Some` exactly when `s` is an optional sign followed
/// by at least one digit and the value fits in an `i32`.
pub open spec fn parse_i32_spec(s: Seq<char>) -> Option<i32> {
    match signed_value(s) {
        Some(v) => if i32::MIN <= v <= i32::MAX {
            Some(v as i32)
        } else {
            None
        },
        None => None,
    }
}

proof fn lemma_digits_value_take(s: Seq<char>, k: int)
    requires
        0 <= k < s.len(),
    ensures
        digits_value(s.take(k + 1)) == digits_value(s.take(k)) * 10 + (s[k] as int - 48),
{
    assert(s.take(k + 1).drop_last() =~= s.take(k));
}

proof fn lemma_digits_value_mono(s: Seq<char>, k: int)
    requires
        0 <= k <= s.len(),
        all_digits(s),
    ensures
        digits_value(s.take(k)) <= digits_value(s),
        digits_value(s.take(k)) >= 0,
    decreases s.len() - k,
{
    if k < s.len() {
        lemma_digits_value_take(s, k);
        assert(is_digit(s[k]));
        lemma_digits_nonneg(s.take(k));
        lemma_digits_value_mono(s, k + 1);
    } else {
        assert(s.take(k) =~= s);
        lemma_digits_nonneg(s);
    }
}

proof fn lemma_digits_nonneg(s: Seq<char>)
    requires
        all_digits(s),
    ensures
        digits_value(s) >= 0,
    decreases s.len(),
{
    if s.len() > 0 {
        assert(is_digit(s[s.len() - 1]));
        lemma_digits_nonneg(s.drop_last());
    }
}

/// `str::parse::<i32>`.
pub fn parse_i32(s: &[char]) -> (r: Option<i32>)
    ensures
        r == parse_i32_spec(s@),
{
    let n = s.len();
    if n == 0 {
        return None;
    }
    let neg = s[0] == '-';
    let start: usize = if s[0] == '-' || s[0] == '+' { 1 } else { 0 };
    let ghost body = if start == 1 { s@.drop_first() } else { s@ };
    assert(body =~= s@.subrange(start as int, n as int));
    assert(body == (if s@.len() > 0 && (s@[0] == '-' || s@[0] == '+') {
        s@.drop_first()
    } else {
        s@
    }));
    if start >= n {
        assert(signed_value(s@) is None);
        return None;
    }
    let mut acc: i64 = 0;
    let mut k: usize = start;
    while k < n
        invariant
            start <= k <= n,
            n == s@.len(),
            body == s@.subrange(start as int, n as int),
            body.len() > 0,
            signed_value(s@) == (if !all_digits(body) {
                None::<int>
            } else if neg {
                Some(-digits_value(body))
            } else {
                Some(digits_value(body))
            }),
            forall|m: int| 0 <= m < k - start ==> is_digit(#[trigger] body[m]),
            acc == digits_value(body.take(k - start)),
            0 <= acc <= 2147483648,
        decreases n - k,
    {
        let c = s[k];
        if !('0' <= c && c <= '9') {
            assert(body[k - start] == s@[k as int]);
            assert(!is_digit(body[k - start]));
            assert(!all_digits(body));
            assert(signed_value(s@) is None);
            return None;
        }
        assert(body[k - start] == s@[k as int]);
        proof {
            lemma_digits_value_take(body, k - start);
        }
        let d = (c as u32 - 48) as i64;
        acc = acc * 10 + d;
        k = k + 1;
        if acc > 2147483648 {
            // every longer prefix only grows, so the value cannot fit
            let mut j = k;
            while j < n
                invariant
                    start <= k <= j <= n,
                    n == s@.len(),
                    body == s@.subrange(start as int, n as int),
                    body.len() > 0,
                    signed_value(s@) == (if !all_digits(body) {
                        None::<int>
                    } else if neg {
                        Some(-digits_value(body))
                    } else {
                        Some(digits_value(body))
                    }),
                    digits_value(body.take(k - start)) > 2147483648,
                    forall|m: int| 0 <= m < j - start ==> is_digit(#[trigger] body[m]),
                decreases n - j,
            {
                assert(body[j - start] == s@[j as int]);
                if !('0' <= s[j] && s[j] <= '9') {
                    assert(!is_digit(body[j - start]));
                    assert(!all_digits(body));
                    assert(signed_value(s@) is None);
                    return None;
                }
                j = j + 1;
            }
            proof {
                assert(all_digits(body));
                lemma_digits_value_mono(body, k - start);
                assert(digits_value(body) > 2147483648);
                assert(parse_i32_spec(s@) is None);
            }
            return None;
        }
    }
    proof {
        assert(body.take(k - start) =~= body);
        assert(all_digits(body));
    }
    if neg {
        Some((0 - acc) as i32)
    } else if acc <= 2147483647 {
        Some(acc as i32)
    } else {
        None
    }
}

} // verus!
