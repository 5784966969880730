//! The single-instance protocol, as values.
//!
//! Only one window runs at a time. The running instance keeps a lock file
//! holding its TCP port as decimal text; a second instance reads the port,
//! connects, sends its file paths as lines (one path per line, or the line
//! `__FOCUS__` when it has none) and exits. The running instance reads the
//! lines of each connection and opens every trimmed, nonempty line other
//! than `__FOCUS__` as a path. This module holds what is said and read; the
//! files and sockets belong to the application.
use vstd::prelude::*;
use crate::text::{
    chars_of, decimal, decimal_spec, digit_char, digits_value, all_digits, extend_chars,
    lemma_next_char_bounds, lines_from, lines_spec, next_char_from, parse_usize, parse_usize_spec,
    strip_cr, string_of, trim, trim_spec,
};

verus! {

/// The line a second instance sends when it has no path to open.
pub open spec fn focus_line() -> Seq<char> {
    "__FOCUS__"@
}

/// `str::parse::<u16>`: an optional `+` and at least one digit, the value
/// within `u16`.
pub open spec fn parse_u16_spec(s: Seq<char>) -> Option<u16> {
    match parse_usize_spec(s) {
        Some(n) => if n <= u16::MAX {
            Some(n as u16)
        } else {
            None
        },
        None => None,
    }
}

/// The port recorded in a lock file's text: the trimmed text as a `u16`.
pub open spec fn lock_port_spec(content: Seq<char>) -> Option<u16> {
    parse_u16_spec(trim_spec(content))
}

/// Read the port from the text of a lock file.
pub fn parse_lock_port(content: &str) -> (r: Option<u16>)
    ensures
        r == lock_port_spec(content@),
{
    let c = chars_of(content);
    let t = trim(c.as_slice());
    match parse_usize(t.as_slice()) {
        Some(n) => if n <= 65535 {
            Some(n as u16)
        } else {
            None
        },
        None => None,
    }
}

/// The text of the lock file for `port`: its decimal digits.
pub fn lock_file_content(port: u16) -> (r: String)
    ensures
        r@ == decimal_spec(port as nat),
{
    let d = decimal(port as u64);
    string_of(d.as_slice())
}

/// Each path followed by a line feed.
pub open spec fn path_lines(paths: Seq<Seq<char>>) -> Seq<char>
    decreases paths.len(),
{
    if paths.len() == 0 {
        seq![]
    } else {
        path_lines(paths.drop_last()) + paths.last() + seq!['\n']
    }
}

/// What a second instance sends: its paths as lines, or the focus line
/// when it has none.
pub open spec fn message_spec(paths: Seq<Seq<char>>) -> Seq<char> {
    if paths.len() == 0 {
        focus_line() + seq!['\n']
    } else {
        path_lines(paths)
    }
}

/// Strings as character sequences.
pub open spec fn strings_of(v: Seq<String>) -> Seq<Seq<char>> {
    v.map_values(|s: String| s@)
}

/// The message that forwards `paths` to the running instance.
pub fn forward_message(paths: &Vec<String>) -> (r: String)
    ensures
        r@ == message_spec(strings_of(paths@)),
{
    let ghost ps = strings_of(paths@);
    if paths.len() == 0 {
        let mut v = chars_of("__FOCUS__");
        v.push('\n');
        return string_of(v.as_slice());
    }
    let mut v: Vec<char> = Vec::new();
    let mut i: usize = 0;
    assert(ps.take(0) =~= seq![]);
    while i < paths.len()
        invariant
            i <= paths@.len(),
            ps == strings_of(paths@),
            v@ == path_lines(ps.take(i as int)),
        decreases paths@.len() - i,
    {
        let p = chars_of(paths[i].as_str());
        extend_chars(&mut v, p.as_slice());
        v.push('\n');
        assert(ps.take(i + 1).drop_last() =~= ps.take(i as int));
        assert(ps.take(i + 1).last() == paths@[i as int]@);
        i = i + 1;
    }
    assert(ps.take(paths@.len() as int) =~= ps);
    string_of(v.as_slice())
}

/// The paths among the received lines: each line trimmed, the empty ones
/// and the focus line left out.
pub open spec fn received_spec(lines: Seq<Seq<char>>) -> Seq<Seq<char>>
    decreases lines.len(),
{
    if lines.len() == 0 {
        seq![]
    } else {
        let t = trim_spec(lines.last());
        let before = received_spec(lines.drop_last());
        if t.len() == 0 || t == focus_line() {
            before
        } else {
            before.push(t)
        }
    }
}

/// The paths that the lines of a connection ask to open.
pub fn received_paths(lines: &Vec<String>) -> (r: Vec<String>)
    ensures
        strings_of(r@) == received_spec(strings_of(lines@)),
{
    let ghost ls = strings_of(lines@);
    let focus = chars_of("__FOCUS__");
    proof {
        reveal_strlit("__FOCUS__");
    }
    let mut r: Vec<String> = Vec::new();
    let mut i: usize = 0;
    assert(ls.take(0) =~= seq![]);
    assert(strings_of(r@) =~= seq![]);
    while i < lines.len()
        invariant
            i <= lines@.len(),
            ls == strings_of(lines@),
            focus@ == focus_line(),
            strings_of(r@) == received_spec(ls.take(i as int)),
        decreases lines@.len() - i,
    {
        assert(ls.take(i + 1).drop_last() =~= ls.take(i as int));
        assert(ls.take(i + 1).last() == lines@[i as int]@);
        let l = chars_of(lines[i].as_str());
        let t = trim(l.as_slice());
        let is_focus = crate::text::eq_chars(t.as_slice(), focus.as_slice());
        if t.len() > 0 && !is_focus {
            let ghost before = strings_of(r@);
            let s = string_of(t.as_slice());
            r.push(s);
            assert(strings_of(r@) =~= before.push(t@));
        }
        i = i + 1;
    }
    assert(ls.take(lines@.len() as int) =~= ls);
    r
}

// ──────────────────────────────── the laws ───────────────────────────────────

proof fn lemma_decimal_digits(n: nat)
    ensures
        all_digits(decimal_spec(n)),
        digits_value(decimal_spec(n)) == n,
        decimal_spec(n).len() > 0,
    decreases n,
{
    if n >= 10 {
        lemma_decimal_digits(n / 10);
        let s = decimal_spec(n / 10);
        let t = s.push(digit_char((n % 10) as int));
        assert(t.drop_last() =~= s);
        assert forall|k: int| 0 <= k < t.len() implies crate::text::is_digit(#[trigger] t[k]) by {
            if k < s.len() {
                assert(t[k] == s[k]);
            }
        }
        assert((n / 10) * 10 + n % 10 == n) by (nonlinear_arith);
        let d = (n % 10) as int;
        assert(digit_char(d) as int == 48 + d);
        assert(digits_value(t) == digits_value(s) * 10 + (t.last() as int - 48));
    } else {
        let t = decimal_spec(n);
        assert(t.drop_last() =~= seq![]);
        assert(digit_char(n as int) as int == 48 + n);
        assert(digits_value(t) == digits_value(t.drop_last()) * 10 + (t.last() as int - 48));
    }
}

/// A lock file written for a port reads back as that port.
pub proof fn lemma_lock_port_roundtrip(port: u16)
    ensures
        lock_port_spec(decimal_spec(port as nat)) == Some(port),
{
    let d = decimal_spec(port as nat);
    lemma_decimal_digits(port as nat);
    assert(d[0] != '+') by {
        assert(crate::text::is_digit(d[0]));
    }
    lemma_trim_digits(d);
}

/// Text made of digits is its own trim.
proof fn lemma_trim_digits(d: Seq<char>)
    requires
        all_digits(d),
    ensures
        trim_spec(d) == d,
{
    if d.len() > 0 {
        assert(crate::text::is_digit(d[0]));
        assert(crate::text::is_digit(d[d.len() - 1]));
    }
    assert(crate::text::skip_ws_from(d, 0) == 0);
    let t = crate::text::trim_start_spec(d);
    assert(t =~= d);
    assert(crate::text::trim_end_from(t, t.len() as int) == t.len());
    assert(crate::text::trim_end_spec(t) =~= t);
}

/// Searching past a prefix `x` is searching `u`, shifted.
proof fn lemma_next_char_shift(x: Seq<char>, u: Seq<char>, c: char, j: int)
    requires
        0 <= j,
    ensures
        next_char_from(x + u, c, x.len() + j) == x.len() + next_char_from(u, c, j),
    decreases u.len() - j,
{
    if j < u.len() && u[j] != c {
        lemma_next_char_shift(x, u, c, j + 1);
    }
}

/// The lines past a prefix `x` are the lines of `u`.
proof fn lemma_lines_shift(x: Seq<char>, u: Seq<char>, j: int)
    requires
        0 <= j,
    ensures
        lines_from(x + u, x.len() + j) == lines_from(u, j),
    decreases u.len() - j,
{
    if j < u.len() {
        lemma_next_char_shift(x, u, '\n', j);
        let k = next_char_from(u, '\n', j);
        lemma_next_char_bounds(u, '\n', j);
        assert((x + u).subrange(x.len() + j, x.len() + k) =~= u.subrange(j, k));
        if k < u.len() {
            lemma_lines_shift(x, u, k + 1);
        } else {
            assert((x + u).subrange(x.len() + j, (x + u).len() as int) =~= u.subrange(j, u.len() as int));
        }
    }
}

/// Within a text that ends with a line feed, the next line feed is found
/// before its end, whatever follows.
proof fn lemma_next_char_prefix(t: Seq<char>, u: Seq<char>, i: int)
    requires
        0 <= i < t.len(),
        t.last() == '\n',
    ensures
        next_char_from(t + u, '\n', i) == next_char_from(t, '\n', i),
        next_char_from(t, '\n', i) < t.len(),
    decreases t.len() - i,
{
    if t[i] != '\n' {
        lemma_next_char_prefix(t, u, i + 1);
    }
}

/// The lines of a text that ends with a line feed (or is empty), followed
/// by more text, are its lines and then those of the rest.
proof fn lemma_lines_concat(t: Seq<char>, u: Seq<char>, i: int)
    requires
        0 <= i <= t.len(),
        t.len() == 0 || t.last() == '\n',
    ensures
        lines_from(t + u, i) == lines_from(t, i) + lines_from(u, 0),
    decreases t.len() - i,
{
    if i == t.len() {
        lemma_lines_shift(t, u, 0);
        assert(lines_from(t, i) =~= seq![]);
        assert(lines_from(t, i) + lines_from(u, 0) =~= lines_from(u, 0));
    } else {
        lemma_next_char_prefix(t, u, i);
        let k = next_char_from(t, '\n', i);
        lemma_next_char_bounds(t, '\n', i);
        assert((t + u).subrange(i, k) =~= t.subrange(i, k));
        lemma_lines_concat(t, u, k + 1);
        let first = seq![strip_cr(t.subrange(i, k))];
        assert(first + (lines_from(t, k + 1) + lines_from(u, 0)) =~= (first + lines_from(t, k + 1))
            + lines_from(u, 0));
    }
}

/// A path fit to be sent: its own trim, nonempty, without a line feed,
/// and not the focus line.
pub open spec fn sendable(p: Seq<char>) -> bool {
    &&& trim_spec(p) == p
    &&& p.len() > 0
    &&& !p.contains('\n')
    &&& p != focus_line()
}

proof fn lemma_path_lines(ps: Seq<Seq<char>>)
    requires
        forall|k: int| 0 <= k < ps.len() ==> sendable(#[trigger] ps[k]),
    ensures
        lines_spec(path_lines(ps)) == ps,
        path_lines(ps).len() == 0 || path_lines(ps).last() == '\n',
    decreases ps.len(),
{
    if ps.len() > 0 {
        let init = ps.drop_last();
        let p = ps.last();
        assert(sendable(ps[ps.len() - 1]));
        assert forall|k: int| 0 <= k < init.len() implies sendable(#[trigger] init[k]) by {
            assert(init[k] == ps[k]);
        }
        lemma_path_lines(init);
        let t = path_lines(init);
        let u = p + seq!['\n'];
        assert(path_lines(ps) == t + u) by {
            assert(t + p + seq!['\n'] =~= t + u);
        }
        lemma_lines_concat(t, u, 0);
        // the lines of the last path
        assert(next_char_from(u, '\n', 0) == p.len()) by {
            lemma_no_lf(p, u, 0);
        }
        assert(u.subrange(0, p.len() as int) =~= p);
        lemma_path_last(p);
        assert(lines_from(u, p.len() + 1int) =~= seq![]);
        assert(lines_from(u, 0) =~= seq![p]);
        assert(lines_spec(path_lines(ps)) =~= init.push(p));
        assert(init.push(p) =~= ps);
    }
}

/// A path followed by a line feed: the line feed is the first one.
proof fn lemma_no_lf(p: Seq<char>, u: Seq<char>, j: int)
    requires
        u == p + seq!['\n'],
        !p.contains('\n'),
        0 <= j <= p.len(),
    ensures
        next_char_from(u, '\n', j) == p.len(),
    decreases p.len() - j,
{
    if j < p.len() {
        assert(u[j] == p[j]);
        lemma_no_lf(p, u, j + 1);
    }
}

/// A sendable path does not end with a carriage return.
proof fn lemma_path_last(p: Seq<char>)
    requires
        sendable(p),
    ensures
        strip_cr(p) == p,
{
    let a = crate::text::skip_ws_from(p, 0);
    crate::text::lemma_skip_ws_bounds(p, 0);
    let t = crate::text::trim_start_spec(p);
    crate::text::lemma_trim_end_bounds(t, t.len() as int);
    if p.last() == '\r' {
        assert(trim_spec(p).len() == p.len());
        assert(t.len() <= p.len());
        assert(t == p.subrange(a, p.len() as int));
        assert(crate::text::trim_end_from(t, t.len() as int) < t.len() || t.len() < p.len());
    }
}

proof fn lemma_received_all(ps: Seq<Seq<char>>)
    requires
        forall|k: int| 0 <= k < ps.len() ==> sendable(#[trigger] ps[k]),
    ensures
        received_spec(ps) == ps,
    decreases ps.len(),
{
    if ps.len() > 0 {
        assert(sendable(ps[ps.len() - 1]));
        assert forall|k: int| 0 <= k < ps.drop_last().len() implies sendable(#[trigger] ps.drop_last()[k]) by {
            assert(ps.drop_last()[k] == ps[k]);
        }
        lemma_received_all(ps.drop_last());
        assert(ps.drop_last().push(ps.last()) =~= ps);
    }
}

/// The paths a second instance sends are the paths the running instance
/// opens: reading the lines of the message and keeping the path lines
/// gives back every path, in order, when each is trimmed, nonempty,
/// without a line feed and not `__FOCUS__`; with no paths it gives none.
pub proof fn lemma_forward_roundtrip(paths: Seq<Seq<char>>)
    requires
        forall|k: int| 0 <= k < paths.len() ==> sendable(#[trigger] paths[k]),
    ensures
        received_spec(lines_spec(message_spec(paths))) == paths,
{
    if paths.len() == 0 {
        let m = focus_line() + seq!['\n'];
        reveal_strlit("__FOCUS__");
        assert(m =~= seq!['_', '_', 'F', 'O', 'C', 'U', 'S', '_', '_', '\n']);
        assert(next_char_from(m, '\n', 0) == 9) by {
            reveal_with_fuel(next_char_from, 11);
        }
        assert(m.subrange(0, 9) =~= focus_line());
        assert(lines_from(m, 10) =~= seq![]);
        assert(lines_spec(m) =~= seq![focus_line()]);
        assert(trim_spec(focus_line()) =~= focus_line()) by {
            let f = focus_line();
            assert(crate::text::skip_ws_from(f, 0) == 0);
            assert(crate::text::trim_start_spec(f) =~= f);
            assert(crate::text::trim_end_from(f, 9) == 9);
        }
        let sq = seq![focus_line()];
        assert(sq.drop_last() =~= Seq::<Seq<char>>::empty());
        assert(received_spec(Seq::<Seq<char>>::empty()) =~= seq![]);
        assert(received_spec(sq.drop_last()) =~= seq![]);
        assert(sq.last() == focus_line());
        assert(trim_spec(sq.last()) == focus_line());
        assert(received_spec(sq) =~= seq![]);
        assert(paths =~= seq![]);
    } else {
        lemma_path_lines(paths);
        lemma_received_all(paths);
    }
}

} // verus!
