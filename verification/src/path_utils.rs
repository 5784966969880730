//! Path normalization.
//!
//! On Windows `canonicalize()` returns verbatim paths with the `\\?\` prefix
//! (`\\?\G:\DEV\project` instead of `G:\DEV\project`).  These functions strip
//! that prefix so that one location always has one spelling.  Paths are
//! handled as strings.
use vstd::prelude::*;
use crate::text::{
    chars_of, extend_chars, lemma_next_char_bounds, next_char_from, next_char_index, slice_copy,
    split_char, split_char_spec, starts_with, starts_with_spec, string_of, views_of, is_ascii_alpha,
};

verus! {

/// ASCII uppercase of a character (`char::to_ascii_uppercase`).
pub open spec fn upper_char(c: char) -> char {
    if 'a' <= c && c <= 'z' {
        (c as int - 32) as char
    } else {
        c
    }
}

/// ASCII uppercase of a character, as `char::to_ascii_uppercase` documents
/// it: `'a'..='z'` become `'A'..='Z'`, every other character is unchanged.
pub(crate) fn to_ascii_uppercase(c: char) -> (r: char)
    ensures
        r == upper_char(c),
{
    if 'a' <= c && c <= 'z' {
        let code: u8 = (c as u8) - 32;
        code as char
    } else {
        c
    }
}

/// `segs` joined with `sep` between consecutive elements.
pub open spec fn join_with(segs: Seq<Seq<char>>, sep: char) -> Seq<char>
    decreases segs.len(),
{
    if segs.len() == 0 {
        seq![]
    } else if segs.len() == 1 {
        segs[0]
    } else {
        join_with(segs.drop_last(), sep).push(sep) + segs.last()
    }
}

/// The non-empty elements of `segs`, in order.
pub open spec fn nonempty(segs: Seq<Seq<char>>) -> Seq<Seq<char>> {
    segs.filter(|x: Seq<char>| x.len() > 0)
}

/// The components of a verbatim path tail, joined by backslashes: empty
/// components (doubled or trailing separators) do not count.
pub open spec fn verbatim_tail(t: Seq<char>) -> Seq<char> {
    join_with(nonempty(split_char_spec(t, '\\')), '\\')
}

/// The verbatim prefix `\\?\`.
pub open spec fn verbatim_prefix() -> Seq<char> {
    seq!['\\', '\\', '?', '\\']
}

/// `s` is a verbatim disk path: `\\?\X:` followed by nothing or a backslash.
pub open spec fn is_verbatim_disk(s: Seq<char>) -> bool {
    &&& s.len() >= 6
    &&& starts_with_spec(s, verbatim_prefix())
    &&& is_ascii_alpha(s[4])
    &&& s[5] == ':'
    &&& (s.len() == 6 || s[6] == '\\')
}

/// `s` is a verbatim UNC path: `\\?\UNC\server\share...`.
pub open spec fn is_verbatim_unc(s: Seq<char>) -> bool {
    starts_with_spec(s, seq!['\\', '\\', '?', '\\', 'U', 'N', 'C', '\\'])
}

/// The server, share and remaining tail of a verbatim UNC path.
pub open spec fn unc_parts(s: Seq<char>) -> (Seq<char>, Seq<char>, Seq<char>) {
    let a = next_char_from(s, '\\', 8);
    let server = s.subrange(8, a);
    if a >= s.len() {
        (server, seq![], seq![])
    } else {
        let b = next_char_from(s, '\\', a + 1);
        (server, s.subrange(a + 1, b), s.subrange(b, s.len() as int))
    }
}

/// What `normalize_path` gives for a path on Windows: a verbatim disk path
/// `\\?\x:\rest` becomes `X:\rest` (drive letter uppercased, a root always
/// present), a verbatim UNC path `\\?\UNC\server\share\rest` becomes
/// `\\server\share\rest`, every other path is unchanged.
pub open spec fn normalize_windows_spec(s: Seq<char>) -> Seq<char> {
    if is_verbatim_disk(s) {
        seq![upper_char(s[4]), ':', '\\'] + verbatim_tail(s.subrange(6, s.len() as int))
    } else if is_verbatim_unc(s) {
        let (server, share, rest) = unc_parts(s);
        let head = seq!['\\', '\\'] + server + seq!['\\'] + share;
        if rest.len() == 0 {
            head
        } else {
            head + seq!['\\'] + verbatim_tail(rest)
        }
    } else {
        s
    }
}

/// The non-empty elements of a list of components.
fn keep_nonempty(segs: Vec<Vec<char>>) -> (r: Vec<Vec<char>>)
    ensures
        views_of(r@) == nonempty(views_of(segs@)),
{
    let mut r: Vec<Vec<char>> = Vec::new();
    let mut i: usize = 0;
    let n = segs.len();
    let ghost all = views_of(segs@);
    while i < n
        invariant
            n == segs@.len(),
            all == views_of(segs@),
            i <= n,
            views_of(r@) == nonempty(all.take(i as int)),
        decreases n - i,
    {
        let s = slice_copy(segs[i].as_slice(), 0, segs[i].len());
        proof {
            assert(all.take(i + 1 as int).drop_last() =~= all.take(i as int));
            assert(all[i as int] == segs@[i as int]@);
            reveal_with_fuel(Seq::filter, 1);
            assert(all.take(i + 1 as int).last() == all[i as int]);
            assert(nonempty(all.take(i + 1 as int)) == if all[i as int].len() > 0 {
                nonempty(all.take(i as int)).push(all[i as int])
            } else {
                nonempty(all.take(i as int))
            });
        }
        assert(s@ =~= all[i as int]);
        let ghost before = views_of(r@);
        if s.len() > 0 {
            r.push(s);
            assert(views_of(r@) =~= before.push(s@));
        }
        i = i + 1;
    }
    assert(all.take(n as int) =~= all);
    r
}

/// Components joined by backslashes.
fn join_backslash(segs: &Vec<Vec<char>>) -> (r: Vec<char>)
    ensures
        r@ == join_with(views_of(segs@), '\\'),
{
    let mut r: Vec<char> = Vec::new();
    let mut i: usize = 0;
    let ghost all = views_of(segs@);
    while i < segs.len()
        invariant
            all == views_of(segs@),
            i <= segs@.len(),
            r@ == join_with(all.take(i as int), '\\'),
        decreases segs@.len() - i,
    {
        assert(all.take(i + 1 as int).drop_last() =~= all.take(i as int));
        assert(all[i as int] == segs@[i as int]@);
        if i > 0 {
            r.push('\\');
        }
        extend_chars(&mut r, segs[i].as_slice());
        i = i + 1;
        proof {
            if i == 1 {
                assert(all.take(1) =~= seq![all[0]]);
                assert(r@ =~= all[0]);
            }
        }
    }
    assert(all.take(segs@.len() as int) =~= all);
    r
}

/// The components of a verbatim path tail, joined by backslashes.
fn verbatim_tail_exec(t: &[char]) -> (r: Vec<char>)
    ensures
        r@ == verbatim_tail(t@),
{
    let parts = split_char(t, '\\');
    let kept = keep_nonempty(parts);
    join_backslash(&kept)
}

/// Strip the Windows verbatim prefix from a path (the Windows behaviour of
/// [`normalize_path`]).
pub fn normalize_windows_path(path: &str) -> (r: String)
    ensures
        r@ == normalize_windows_spec(path@),
{
    let s = chars_of(path);
    let prefix = ['\\', '\\', '?', '\\'];
    assert(prefix@ =~= verbatim_prefix());
    if s.len() >= 6 && starts_with(&s, &prefix) && (('a' <= s[4] && s[4] <= 'z') || ('A' <= s[4]
        && s[4] <= 'Z')) && s[5] == ':' && (s.len() == 6 || s[6] == '\\') {
        let mut out: Vec<char> = Vec::new();
        out.push(to_ascii_uppercase(s[4]));
        out.push(':');
        out.push('\\');
        let tail = verbatim_tail_exec(&s[6..s.len()]);
        extend_chars(&mut out, &tail);
        assert(out@ =~= seq![upper_char(s@[4]), ':', '\\'] + verbatim_tail(
            s@.subrange(6, s@.len() as int),
        ));
        return string_of(&out);
    }
    let unc = ['\\', '\\', '?', '\\', 'U', 'N', 'C', '\\'];
    assert(unc@ =~= seq!['\\', '\\', '?', '\\', 'U', 'N', 'C', '\\']);
    if starts_with(&s, &unc) {
        let a = next_char_index(&s, '\\', 8);
        proof {
            lemma_next_char_bounds(s@, '\\', 8);
        }
        let mut out: Vec<char> = Vec::new();
        out.push('\\');
        out.push('\\');
        extend_chars(&mut out, &s[8..a]);
        out.push('\\');
        if a >= s.len() {
            assert(out@ =~= seq!['\\', '\\'] + s@.subrange(8, a as int) + seq!['\\'] + seq![]);
            return string_of(&out);
        }
        let b = next_char_index(&s, '\\', a + 1);
        proof {
            lemma_next_char_bounds(s@, '\\', a + 1);
        }
        extend_chars(&mut out, &s[a + 1..b]);
        let ghost head = out@;
        if b < s.len() {
            out.push('\\');
            let tail = verbatim_tail_exec(&s[b..s.len()]);
            extend_chars(&mut out, &tail);
            assert(out@ =~= head + seq!['\\'] + verbatim_tail(s@.subrange(b as int, s@.len() as int)));
        }
        return string_of(&out);
    }
    string_of(&s)
}

/// Calls the `std::path::MAIN_SEPARATOR` constant: `'\\'` on Windows, `'/'`
/// elsewhere.  Which of the two it is depends on the platform, so only that
/// it is one of them is stated.
#[verifier::external_body]
fn main_separator() -> (r: char)
    ensures
        r == '/' || r == '\\',
{
    std::path::MAIN_SEPARATOR
}

/// The normalization of a path for a platform whose main separator is
/// `separator`: the Windows rules where it is a backslash, else the path.
pub open spec fn normalized_for(separator: char, p: Seq<char>) -> Seq<char> {
    if separator == '\\' {
        normalize_windows_spec(p)
    } else {
        p
    }
}

/// Normalize a path for a platform whose main separator is `separator`:
/// the Windows rules apply where it is a backslash, elsewhere the path is
/// returned unchanged.
pub fn normalize_path_for(path: String, separator: char) -> (r: String)
    ensures
        separator == '\\' ==> r@ == normalize_windows_spec(path@),
        separator != '\\' ==> r@ == path@,
{
    if separator == '\\' {
        normalize_windows_path(path.as_str())
    } else {
        path
    }
}

/// Normalize a path by stripping Windows extended-length path prefixes;
/// on other platforms the path is returned unchanged.
pub fn normalize_path(path: String) -> (r: String)
    ensures
        r@ == path@ || r@ == normalize_windows_spec(path@),
{
    normalize_path_for(path, main_separator())
}

/// Normalize a borrowed path, returning an owned one.
pub fn normalize_path_ref(path: &str) -> (r: String)
    ensures
        r@ == path@ || r@ == normalize_windows_spec(path@),
{
    normalize_path(path.to_owned())
}

/// A canonical path as `Path::canonicalize` documents its answers: an
/// absolute path, which on Unix starts at the root `/` and on Windows is in
/// extended-length syntax, starting with `\\?\`.
pub open spec fn canonical_form(c: Seq<char>) -> bool {
    c.len() > 0 && (c[0] == '/' || starts_with_spec(c, verbatim_prefix()))
}

/// Calls `Path::canonicalize`.  Whether it succeeds and which path it
/// returns depend on the file system, so neither is stated; what is stated
/// is what its documentation promises of every answer: the canonical form is
/// absolute (on Unix it starts with `/`; on Windows the documentation says
/// it uses extended-length syntax, which starts with `\\?\`).
/// `to_string_lossy` replaces what it cannot read and keeps the rest, so
/// the start of the path is kept.
#[verifier::external_body]
fn canonicalize(path: &str) -> (r: Option<String>)
    ensures
        r matches Some(c) ==> canonical_form(c@),
{
    std::path::Path::new(path).canonicalize().ok().map(|p| p.to_string_lossy().into_owned())
}

/// The normalized form of a canonicalization result, for a platform whose
/// main separator is `separator`; `None` stays `None`.
pub fn normalize_canonical(canonical: Option<String>, separator: char) -> (r: Option<String>)
    ensures
        canonical is None ==> r is None,
        canonical matches Some(c) ==> r matches Some(p) && (separator == '\\' ==> p@
            == normalize_windows_spec(c@)) && (separator != '\\' ==> p@ == c@),
{
    match canonical {
        Some(c) => Some(normalize_path_for(c, separator)),
        None => None,
    }
}

/// The normalized canonical form when canonicalization succeeded, else the
/// normalized original path, for a platform whose main separator is
/// `separator`.
pub fn normalize_canonical_or(path: &str, canonical: Option<String>, separator: char) -> (r: String)
    ensures
        ({
            let chosen = match canonical {
                Some(c) => c@,
                None => path@,
            };
            &&& separator == '\\' ==> r@ == normalize_windows_spec(chosen)
            &&& separator != '\\' ==> r@ == chosen
        }),
{
    match canonical {
        Some(c) => normalize_path_for(c, separator),
        None => normalize_path_for(path.to_owned(), separator),
    }
}

/// Normalization keeps a non-empty path non-empty.
pub proof fn lemma_normalize_keeps_nonempty(s: Seq<char>)
    requires
        s.len() > 0,
    ensures
        normalize_windows_spec(s).len() > 0,
{
    if is_verbatim_unc(s) {
        let (server, share, rest) = unc_parts(s);
        assert((seq!['\\', '\\'] + server + seq!['\\'] + share).len() >= 3);
    }
}

/// Canonicalize a path and normalize it; `None` when canonicalization fails
/// (e.g. the path does not exist).  Whether the file system answers, and
/// with which path, is not stated; whatever it answers, a path that comes
/// back is a canonical (absolute) path normalized by the platform's rule,
/// and so not empty.  [`normalize_canonical`] states exactly what is done
/// with each answer.
pub fn canonicalize_and_normalize(path: &str) -> (r: Option<String>)
    ensures
        r matches Some(p) ==> p@.len() > 0 && exists|separator: char, c: Seq<char>|
            #![trigger normalized_for(separator, c)]
            (separator == '/' || separator == '\\') && canonical_form(c) && p@ == normalized_for(
                separator,
                c,
            ),
{
    let canonical = canonicalize(path);
    let separator = main_separator();
    proof {
        if canonical is Some {
            lemma_normalize_keeps_nonempty(canonical->0@);
            assert(normalized_for(separator, canonical->0@) == normalized_for(separator, canonical->0@));
        }
    }
    normalize_canonical(canonical, separator)
}

/// Canonicalize a path and normalize the result; when canonicalization
/// fails the given path itself is normalized.  Whatever the file system
/// answers, the result is, by the platform's rule, the normalization of the
/// path or of a canonical (absolute) path, and a non-empty path gives a
/// non-empty result.  [`normalize_canonical_or`] states exactly what is done
/// with each answer.
pub fn canonicalize_or_normalize(path: &str) -> (r: String)
    ensures
        path@.len() > 0 ==> r@.len() > 0,
        exists|separator: char|
            #![trigger normalized_for(separator, path@)]
            (separator == '/' || separator == '\\') && (r@ == normalized_for(separator, path@) || exists|
                c: Seq<char>,
            |
                #![trigger normalized_for(separator, c)]
                canonical_form(c) && r@ == normalized_for(separator, c)),
{
    let canonical = canonicalize(path);
    let separator = main_separator();
    proof {
        if canonical is Some {
            lemma_normalize_keeps_nonempty(canonical->0@);
            assert(normalized_for(separator, canonical->0@) == normalized_for(separator, canonical->0@));
        } else if path@.len() > 0 {
            lemma_normalize_keeps_nonempty(path@);
        }
        assert(normalized_for(separator, path@) == normalized_for(separator, path@));
    }
    normalize_canonical_or(path, canonical, separator)
}

/// Normalizing twice is normalizing once, wherever the once-normalized path
/// is not itself a verbatim disk or UNC path. That happens only where a
/// verbatim UNC path names the server `?` and its share then reads as a
/// drive or as `UNC` (as in `\\?\UNC\?\UNC\x\y`); there normalizing again
/// strips the prefix that came to the front, so the path changes.
pub proof fn law_normalize_idempotent(s: Seq<char>)
    requires
        !is_verbatim_disk(normalize_windows_spec(s)),
        !is_verbatim_unc(normalize_windows_spec(s)),
    ensures
        normalize_windows_spec(normalize_windows_spec(s)) == normalize_windows_spec(s),
{
}

/// The platform normalization is idempotent on the same paths: on a
/// platform whose separator is not a backslash it changes nothing at all.
pub proof fn law_normalize_path_idempotent(separator: char, s: Seq<char>)
    requires
        separator == '\\' ==> !is_verbatim_disk(normalize_windows_spec(s)) && !is_verbatim_unc(
            normalize_windows_spec(s),
        ),
    ensures
        normalized_for(separator, normalized_for(separator, s)) == normalized_for(separator, s),
{
}

/// Normalization strips the `\\?\` prefix: a verbatim disk path or
/// verbatim UNC path comes out with no verbatim prefix, and so neither as a
/// verbatim disk nor as a verbatim UNC path (except where a verbatim UNC
/// path names the server `?`).
pub proof fn law_normalize_strips_prefix(s: Seq<char>)
    requires
        is_verbatim_disk(s) || is_verbatim_unc(s),
        !(is_verbatim_unc(s) && unc_parts(s).0 == seq!['?']),
    ensures
        !starts_with_spec(normalize_windows_spec(s), verbatim_prefix()),
        !is_verbatim_disk(normalize_windows_spec(s)),
        !is_verbatim_unc(normalize_windows_spec(s)),
{
    let n = normalize_windows_spec(s);
    if is_verbatim_disk(s) {
        assert(n[0] == upper_char(s[4]));
        assert(!starts_with_spec(n, verbatim_prefix())) by {
            if starts_with_spec(n, verbatim_prefix()) {
                assert(n.subrange(0, 4)[0] == n[0]);
            }
        }
        assert(!starts_with_spec(n, seq!['\\', '\\', '?', '\\', 'U', 'N', 'C', '\\'])) by {
            if starts_with_spec(n, seq!['\\', '\\', '?', '\\', 'U', 'N', 'C', '\\']) {
                assert(n.subrange(0, 8)[0] == n[0]);
            }
        }
    } else if is_verbatim_unc(s) {
        let (server, share, rest) = unc_parts(s);
        lemma_next_char_bounds(s, '\\', 8);
        let a = next_char_from(s, '\\', 8);
        assert(s.subrange(0, 8)[7] == s[7]);
        assert(forall|k: int| 0 <= k < server.len() ==> #[trigger] server[k] == s[8 + k]);
        assert(n.subrange(0, 2 + server.len() as int) =~= seq!['\\', '\\'] + server);
        assert(n[2 + server.len() as int] == '\\');
        if starts_with_spec(n, verbatim_prefix()) {
            let p = n.subrange(0, 4);
            assert(p[2] == n[2] && p[3] == n[3]);
            if server.len() == 0 {
                assert(n[2] == '\\');
            } else if server.len() == 1 {
                assert(n[2] == server[0]);
                assert(server =~= seq!['?']);
            } else {
                assert(n[3] == server[1]);
                assert(server[1] == s[9]);
            }
        }
        assert(!starts_with_spec(n, verbatim_prefix()));
        assert(!starts_with_spec(n, seq!['\\', '\\', '?', '\\', 'U', 'N', 'C', '\\'])) by {
            if starts_with_spec(n, seq!['\\', '\\', '?', '\\', 'U', 'N', 'C', '\\']) {
                assert(n.subrange(0, 4) =~= n.subrange(0, 8).subrange(0, 4));
                assert(n.subrange(0, 8).subrange(0, 4) =~= verbatim_prefix());
            }
        }
    }
}

} // verus!
