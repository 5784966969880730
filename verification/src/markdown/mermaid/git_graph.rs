//! Git graph parsing.
//!
//! After the header line: `commit` (with optional `id: ...` and
//! `msg: ...`), `branch name`, `checkout name` and `merge name` (with an
//! optional `id: ...`). Commits and merges go on the current branch, which
//! starts as `main`; naming a branch that does not exist yet creates it.
use vstd::prelude::*;
use crate::markdown::mermaid::flowchart::opt_chars_of;
use crate::markdown::mermaid::timeline::percent2;
use crate::text::{
    after_first, chars_of, contains, contains_spec, decimal, decimal_spec, extend_chars, find,
    find_after, find_from, find_spec, lemma_find_from_bounds, lines, lines_spec, lower_full_code, matches_at,
    starts_with, starts_with_lower, starts_with_lower_spec, starts_with_spec, string_of, trim,
    trim_matches, trim_matches_spec, trim_spec, views_of,
};

verus! {

/// A commit in a git graph.
#[derive(Debug, Clone)]
pub struct GitCommit {
    pub id: String,
    pub branch: String,
    pub message: Option<String>,
    pub is_merge: bool,
    pub merge_from: Option<String>,
}

/// A branch in a git graph.
#[derive(Debug, Clone)]
pub struct GitBranch {
    pub name: String,
    pub color_idx: usize,
}

/// A git graph.
#[derive(Debug, Clone)]
pub struct GitGraph {
    pub commits: Vec<GitCommit>,
    pub branches: Vec<GitBranch>,
}

/// A commit as plain values.
pub struct CommitV {
    pub id: Seq<char>,
    pub branch: Seq<char>,
    pub message: Option<Seq<char>>,
    pub is_merge: bool,
    pub merge_from: Option<Seq<char>>,
}

pub open spec fn commit_view(c: GitCommit) -> CommitV {
    CommitV {
        id: c.id@,
        branch: c.branch@,
        message: opt_chars_of(c.message),
        is_merge: c.is_merge,
        merge_from: opt_chars_of(c.merge_from),
    }
}

/// Commits as plain values.
pub open spec fn commits_view(v: Seq<GitCommit>) -> Seq<CommitV> {
    v.map_values(|c: GitCommit| commit_view(c))
}

/// Branches as their names and color indices.
pub open spec fn branches_view(v: Seq<GitBranch>) -> Seq<(Seq<char>, usize)> {
    v.map_values(|b: GitBranch| (b.name@, b.color_idx))
}

/// The piece of `s` after the first `pat` and before the next one
/// (`s.split(pat).nth(1)` where `s` holds `pat`).
pub open spec fn second_piece(s: Seq<char>, pat: Seq<char>) -> Seq<char> {
    let p = find_spec(s, pat).unwrap();
    match find_from(s, pat, p + pat.len()) {
        Some(q) => s.subrange(p + pat.len(), q),
        None => s.skip(p + pat.len()),
    }
}

/// A value with surrounding whitespace, then double and single quotes,
/// removed.
pub open spec fn unquoted(s: Seq<char>) -> Seq<char> {
    trim_matches_spec(trim_matches_spec(trim_spec(s), '"'), '\'')
}

/// The parser between lines: commits, branches, the current branch and
/// the number of commits and merges so far.
pub struct GitState {
    pub commits: Seq<CommitV>,
    pub branches: Seq<(Seq<char>, usize)>,
    pub current: Seq<char>,
    pub counter: nat,
}

/// Switch to branch `name`, creating it (with the next color) if no branch
/// has that name.
pub open spec fn switch_to(st: GitState, name: Seq<char>) -> GitState {
    let exists = exists|k: int| 0 <= k < st.branches.len() && #[trigger] st.branches[k].0 == name;
    GitState {
        branches: if exists {
            st.branches
        } else {
            st.branches.push((name, st.branches.len() as usize))
        },
        current: name,
        ..st
    }
}

/// How many characters of a line hold a keyword of `n` bytes whose `k`
/// (at `kpos`) may be a Kelvin sign, three bytes long.
pub open spec fn keyword_chars(line: Seq<char>, n: int, kpos: int) -> int {
    if line.len() > kpos && line[kpos] == '\u{212A}' {
        n - 2
    } else {
        n
    }
}

/// What one line does.
pub open spec fn git_step(st: GitState, raw: Seq<char>) -> GitState {
    let line = trim_spec(raw);
    if line.len() == 0 || starts_with_spec(line, percent2()) {
        st
    } else if starts_with_lower_spec(line, "commit"@) {
        let n = st.counter + 1;
        let id = if contains_spec(line, "id:"@) {
            unquoted(second_piece(line, "id:"@))
        } else {
            seq!['c'] + decimal_spec(n)
        };
        let message = if contains_spec(line, "msg:"@) {
            Some(unquoted(second_piece(line, "msg:"@)))
        } else {
            None
        };
        let c = CommitV { id, branch: st.current, message, is_merge: false, merge_from: None };
        GitState { commits: st.commits.push(c), counter: n, ..st }
    } else if starts_with_lower_spec(line, "branch"@) {
        switch_to(st, trim_spec(line.skip(6)))
    } else if starts_with_lower_spec(line, "checkout"@) {
        switch_to(st, trim_spec(line.skip(keyword_chars(line, 8, 4))))
    } else if starts_with_lower_spec(line, "merge"@) {
        let n = st.counter + 1;
        let rest = trim_spec(line.skip(5));
        let (from, id) = if contains_spec(rest, "id:"@) {
            (trim_spec(rest.take(find_spec(rest, "id:"@).unwrap())), unquoted(second_piece(rest, "id:"@)))
        } else {
            (rest, seq!['m'] + decimal_spec(n))
        };
        let c = CommitV {
            id,
            branch: st.current,
            message: Some("Merge "@ + from),
            is_merge: true,
            merge_from: Some(from),
        };
        GitState { commits: st.commits.push(c), counter: n, ..st }
    } else {
        st
    }
}

/// The parser after the given lines.
pub open spec fn git_fold(ls: Seq<Seq<char>>) -> GitState
    decreases ls.len(),
{
    if ls.len() == 0 {
        GitState { commits: seq![], branches: seq![("main"@, 0usize)], current: "main"@, counter: 0 }
    } else {
        git_step(git_fold(ls.drop_last()), ls.last())
    }
}

/// The commits and branches of a git graph source, or the error.
pub open spec fn git_graph_spec(source: Seq<char>) -> Result<(Seq<CommitV>, Seq<(Seq<char>, usize)>), Seq<char>> {
    let st = git_fold(after_first(lines_spec(source)));
    if st.commits.len() == 0 {
        Err("No commits found in git graph"@)
    } else {
        Ok((st.commits, st.branches))
    }
}

/// Some branch has the name `name`.
pub open spec fn has_branch(bs: Seq<(Seq<char>, usize)>, name: Seq<char>) -> bool {
    exists|k: int| 0 <= k < bs.len() && #[trigger] bs[k].0 == name
}

/// The branch invariants: `main` comes first; each branch's color is its
/// position; no two branches share a name; every commit, and the current
/// position, is on a branch of the list.
pub open spec fn branches_ok(bs: Seq<(Seq<char>, usize)>, commits: Seq<CommitV>, current: Seq<char>) -> bool {
    &&& bs.len() > 0
    &&& bs[0].0 == "main"@
    &&& forall|k: int| 0 <= k < bs.len() ==> #[trigger] bs[k].1 == k as usize
    &&& forall|i: int, j: int| 0 <= i < j < bs.len() ==> #[trigger] bs[i].0 != #[trigger] bs[j].0
    &&& forall|i: int| 0 <= i < commits.len() ==> has_branch(bs, #[trigger] commits[i].branch)
    &&& has_branch(bs, current)
}

/// Each line keeps the branch invariants.
proof fn lemma_git_step(st: GitState, raw: Seq<char>)
    requires
        branches_ok(st.branches, st.commits, st.current),
    ensures
        ({
            let st2 = git_step(st, raw);
            branches_ok(st2.branches, st2.commits, st2.current)
        }),
{
    let line = trim_spec(raw);
    let st2 = git_step(st, raw);
    if line.len() == 0 || starts_with_spec(line, percent2()) {
    } else if starts_with_lower_spec(line, "commit"@) || (!starts_with_lower_spec(line, "branch"@)
        && !starts_with_lower_spec(line, "checkout"@) && starts_with_lower_spec(line, "merge"@)) {
        assert(st2.branches == st.branches);
        assert forall|i: int| 0 <= i < st2.commits.len() implies has_branch(st2.branches, #[trigger] st2.commits[i].branch) by {
            if i < st.commits.len() {
                assert(st2.commits[i] == st.commits[i]);
            } else {
                assert(st2.commits[i].branch == st.current);
            }
        }
    } else if starts_with_lower_spec(line, "branch"@) || starts_with_lower_spec(line, "checkout"@) {
        let name = st2.current;
        let bs = st.branches;
        let bs2 = st2.branches;
        assert(st2 == switch_to(st, name));
        if !has_branch(bs, name) {
            assert(bs2 == bs.push((name, bs.len() as usize)));
            assert(bs2[bs.len() as int].0 == name);
            assert forall|k: int| 0 <= k < bs2.len() implies #[trigger] bs2[k].1 == k as usize by {
                if k < bs.len() {
                    assert(bs2[k] == bs[k]);
                }
            }
            assert forall|i: int, j: int| 0 <= i < j < bs2.len() implies #[trigger] bs2[i].0 != #[trigger] bs2[j].0 by {
                if j < bs.len() {
                    assert(bs2[i] == bs[i] && bs2[j] == bs[j]);
                } else {
                    assert(bs2[i] == bs[i]);
                }
            }
            assert forall|x: Seq<char>| has_branch(bs, x) implies #[trigger] has_branch(bs2, x) by {
                let k = choose|k: int| 0 <= k < bs.len() && #[trigger] bs[k].0 == x;
                assert(bs2[k] == bs[k]);
            }
            assert forall|i: int| 0 <= i < st2.commits.len() implies has_branch(bs2, #[trigger] st2.commits[i].branch) by {
                assert(has_branch(bs, st.commits[i].branch));
            }
            assert(bs2[0] == bs[0]);
        }
    } else {
    }
}

/// The branch invariants hold after any lines.
proof fn lemma_git_fold(ls: Seq<Seq<char>>)
    ensures
        ({
            let st = git_fold(ls);
            branches_ok(st.branches, st.commits, st.current)
        }),
    decreases ls.len(),
{
    if ls.len() > 0 {
        lemma_git_fold(ls.drop_last());
        lemma_git_step(git_fold(ls.drop_last()), ls.last());
    } else {
        let st = git_fold(ls);
        assert(st.branches[0].0 == "main"@);
        assert(has_branch(st.branches, st.current));
    }
}

/// The branches of a parsed git graph start with `main`, have distinct
/// names and are colored by their position, and every commit is on one of
/// them.
pub proof fn law_git_branches(source: Seq<char>)
    requires
        git_graph_spec(source) is Ok,
    ensures
        ({
            let (commits, branches) = git_graph_spec(source)->Ok_0;
            &&& branches.len() > 0
            &&& branches[0].0 == "main"@
            &&& forall|k: int| 0 <= k < branches.len() ==> #[trigger] branches[k].1 == k as usize
            &&& forall|i: int, j: int| 0 <= i < j < branches.len() ==> #[trigger] branches[i].0 != #[trigger] branches[j].0
            &&& forall|i: int| 0 <= i < commits.len() ==> has_branch(branches, #[trigger] commits[i].branch)
        }),
{
    lemma_git_fold(after_first(lines_spec(source)));
}

/// Whether a line adds a commit: it starts, ignoring ASCII case, with
/// `commit` or `merge`.
pub open spec fn adds_commit(raw: Seq<char>) -> bool {
    let line = trim_spec(raw);
    starts_with_lower_spec(line, "commit"@) || starts_with_lower_spec(line, "merge"@)
}

/// The number of lines that add a commit.
pub open spec fn commit_lines(ls: Seq<Seq<char>>) -> nat
    decreases ls.len(),
{
    if ls.len() == 0 {
        0
    } else {
        commit_lines(ls.drop_last()) + if adds_commit(ls.last()) {
            1nat
        } else {
            0nat
        }
    }
}

/// Every commit is a merge exactly when it names the branch merged from.
pub open spec fn merge_flags_ok(commits: Seq<CommitV>) -> bool {
    forall|i: int| 0 <= i < commits.len() ==> (#[trigger] commits[i]).is_merge == (commits[i].merge_from is Some)
}

/// Each line adds one commit if it starts with `commit` or `merge`, none
/// otherwise, and keeps the merge flags matching.
proof fn lemma_git_step_commits(st: GitState, raw: Seq<char>)
    requires
        merge_flags_ok(st.commits),
    ensures
        git_step(st, raw).commits.len() == st.commits.len() + if adds_commit(raw) {
            1int
        } else {
            0int
        },
        merge_flags_ok(git_step(st, raw).commits),
{
    reveal_strlit("commit");
    reveal_strlit("merge");
    reveal_strlit("branch");
    reveal_strlit("checkout");
    let line = trim_spec(raw);
    let st2 = git_step(st, raw);
    if line.len() == 0 || starts_with_spec(line, percent2()) {
        if line.len() > 0 {
            assert(line.subrange(0, 2)[0] == line[0]);
            assert(line[0] == '%');
        }
        assert(!starts_with_lower_spec(line, "commit"@)) by {
            if line.len() >= 6 {
                assert(lower_full_code(line[0]) != "commit"@[0] as u32);
            }
        }
        assert(!starts_with_lower_spec(line, "merge"@)) by {
            if line.len() >= 5 {
                assert(lower_full_code(line[0]) != "merge"@[0] as u32);
            }
        }
    } else if starts_with_lower_spec(line, "commit"@) {
        assert forall|i: int| 0 <= i < st2.commits.len() implies (#[trigger] st2.commits[i]).is_merge == (
        st2.commits[i].merge_from is Some) by {
            if i < st.commits.len() {
                assert(st2.commits[i] == st.commits[i]);
            }
        }
    } else if starts_with_lower_spec(line, "branch"@) || starts_with_lower_spec(line, "checkout"@) {
        assert(!starts_with_lower_spec(line, "merge"@)) by {
            assert(lower_full_code(line[0]) != "merge"@[0] as u32);
        }
    } else if starts_with_lower_spec(line, "merge"@) {
        assert forall|i: int| 0 <= i < st2.commits.len() implies (#[trigger] st2.commits[i]).is_merge == (
        st2.commits[i].merge_from is Some) by {
            if i < st.commits.len() {
                assert(st2.commits[i] == st.commits[i]);
            }
        }
    } else {
    }
}

/// The commits after any lines: one per line that adds one, with matching
/// merge flags.
proof fn lemma_git_fold_commits(ls: Seq<Seq<char>>)
    ensures
        git_fold(ls).commits.len() == commit_lines(ls),
        merge_flags_ok(git_fold(ls).commits),
    decreases ls.len(),
{
    if ls.len() > 0 {
        lemma_git_fold_commits(ls.drop_last());
        lemma_git_step_commits(git_fold(ls.drop_last()), ls.last());
    }
}

/// A git graph source parses exactly when some line after the first starts,
/// ignoring ASCII case, with `commit` or `merge`; it then has one commit per
/// such line, and a commit is a merge exactly when it names the branch
/// merged from.
pub proof fn law_git_commits(source: Seq<char>)
    ensures
        git_graph_spec(source) is Err <==> commit_lines(after_first(lines_spec(source))) == 0,
        git_graph_spec(source) matches Ok((commits, _)) ==> commits.len() == commit_lines(
            after_first(lines_spec(source)),
        ) && merge_flags_ok(commits),
{
    lemma_git_fold_commits(after_first(lines_spec(source)));
}

// ─────────────────────────────── implementation ──────────────────────────────

/// [`second_piece`].
pub(crate) fn second_piece_exec(s: &[char], pat: &[char]) -> (r: Vec<char>)
    requires
        contains_spec(s@, pat@),
    ensures
        r@ == second_piece(s@, pat@),
{
    let p = find(s, pat).unwrap();
    proof {
        lemma_find_from_bounds(s@, pat@, 0);
        assert(matches_at(s@, pat@, p as int));
    }
    let sl = s.len();
    assert(p + pat.len() <= sl);
    let from = p + pat.len();
    match find_after(s, pat, from) {
        Some(q) => {
            proof {
                lemma_find_from_bounds(s@, pat@, from as int);
            }
            crate::text::slice_copy(s, from, q)
        },
        None => {
            let r = crate::text::slice_copy(s, from, s.len());
            assert(s@.subrange(from as int, s@.len() as int) =~= s@.skip(from as int));
            r
        },
    }
}

/// [`unquoted`].
fn unquoted_exec(s: &[char]) -> (r: Vec<char>)
    ensures
        r@ == unquoted(s@),
{
    let t = trim(s);
    let t = trim_matches(t.as_slice(), '"');
    trim_matches(t.as_slice(), '\'')
}

/// A letter and the number `n`.
fn numbered(c: char, n: usize) -> (r: String)
    ensures
        r@ == seq![c] + decimal_spec(n as nat),
{
    let mut v: Vec<char> = vec![c];
    let d = decimal(n as u64);
    extend_chars(&mut v, d.as_slice());
    string_of(v.as_slice())
}

/// The parser's state.
struct GitParser {
    commits: Vec<GitCommit>,
    branches: Vec<GitBranch>,
    current: String,
    counter: usize,
}

spec fn parser_view(p: GitParser) -> GitState {
    GitState {
        commits: commits_view(p.commits@),
        branches: branches_view(p.branches@),
        current: p.current@,
        counter: p.counter as nat,
    }
}

/// [`switch_to`].
fn switch_exec(p: &mut GitParser, name: String)
    ensures
        parser_view(*final(p)) == switch_to(parser_view(*old(p)), name@),
        final(p).counter == old(p).counter,
{
    let ghost bv = branches_view(p.branches@);
    let mut found = false;
    let mut i: usize = 0;
    while i < p.branches.len()
        invariant
            i <= p.branches@.len(),
            bv == branches_view(p.branches@),
            found <==> exists|k: int| 0 <= k < i && #[trigger] bv[k].0 == name@,
        decreases p.branches@.len() - i,
    {
        if p.branches[i].name == name {
            assert(bv[i as int].0 == name@);
            found = true;
        }
        i = i + 1;
    }
    if !found {
        let idx = p.branches.len();
        let nm = name.clone();
        p.branches.push(GitBranch { name: nm, color_idx: idx });
        assert(branches_view(p.branches@) =~= bv.push((name@, idx)));
    }
    p.current = name;
}

/// Apply one line.
fn git_line(p: &mut GitParser, raw: &[char])
    requires
        old(p).counter < usize::MAX,
    ensures
        parser_view(*final(p)) == git_step(parser_view(*old(p)), raw@),
        final(p).counter <= old(p).counter + 1,
{
    let line = trim(raw);
    let pct: Vec<char> = vec!['%', '%'];
    assert(pct@ =~= percent2());
    if line.len() == 0 || starts_with(line.as_slice(), pct.as_slice()) {
        return;
    }
    let w_commit = chars_of("commit");
    let w_branch = chars_of("branch");
    let w_checkout = chars_of("checkout");
    let w_merge = chars_of("merge");
    let w_id = chars_of("id:");
    let w_msg = chars_of("msg:");
    proof {
        reveal_strlit("commit");
        reveal_strlit("branch");
        reveal_strlit("checkout");
        reveal_strlit("merge");
        reveal_strlit("id:");
        reveal_strlit("msg:");
        reveal_strlit("Merge ");
    }
    if starts_with_lower(line.as_slice(), w_commit.as_slice()) {
        let n = p.counter + 1;
        let id = if contains(line.as_slice(), w_id.as_slice()) {
            let piece = second_piece_exec(line.as_slice(), w_id.as_slice());
            string_of(unquoted_exec(piece.as_slice()).as_slice())
        } else {
            numbered('c', n)
        };
        let message = if contains(line.as_slice(), w_msg.as_slice()) {
            let piece = second_piece_exec(line.as_slice(), w_msg.as_slice());
            Some(string_of(unquoted_exec(piece.as_slice()).as_slice()))
        } else {
            None
        };
        let ghost cv = commits_view(p.commits@);
        let c = GitCommit { id, branch: p.current.clone(), message, is_merge: false, merge_from: None };
        p.commits.push(c);
        assert(commits_view(p.commits@) =~= cv.push(commit_view(c)));
        p.counter = n;
        return;
    }
    if starts_with_lower(line.as_slice(), w_branch.as_slice()) {
        let name = trim(&line.as_slice()[6..line.len()]);
        assert(line@.subrange(6, line@.len() as int) =~= line@.skip(6));
        switch_exec(p, string_of(name.as_slice()));
        return;
    }
    if starts_with_lower(line.as_slice(), w_checkout.as_slice()) {
        let skip: usize = if line[4] == '\u{212A}' {
            6
        } else {
            8
        };
        let name = trim(&line.as_slice()[skip..line.len()]);
        assert(line@.subrange(skip as int, line@.len() as int) =~= line@.skip(skip as int));
        switch_exec(p, string_of(name.as_slice()));
        return;
    }
    if starts_with_lower(line.as_slice(), w_merge.as_slice()) {
        let n = p.counter + 1;
        let rest = trim(&line.as_slice()[5..line.len()]);
        assert(line@.subrange(5, line@.len() as int) =~= line@.skip(5));
        let (from, id) = if contains(rest.as_slice(), w_id.as_slice()) {
            let k = find(rest.as_slice(), w_id.as_slice()).unwrap();
            proof {
                lemma_find_from_bounds(rest@, w_id@, 0);
            }
            let from = trim(&rest.as_slice()[0..k]);
            assert(rest@.subrange(0, k as int) =~= rest@.take(k as int));
            let piece = second_piece_exec(rest.as_slice(), w_id.as_slice());
            (from, string_of(unquoted_exec(piece.as_slice()).as_slice()))
        } else {
            let from = crate::text::slice_copy(rest.as_slice(), 0, rest.len());
            assert(rest@.subrange(0, rest@.len() as int) =~= rest@);
            (from, numbered('m', n))
        };
        let mut msg = chars_of("Merge ");
        extend_chars(&mut msg, from.as_slice());
        let ghost cv = commits_view(p.commits@);
        let c = GitCommit {
            id,
            branch: p.current.clone(),
            message: Some(string_of(msg.as_slice())),
            is_merge: true,
            merge_from: Some(string_of(from.as_slice())),
        };
        p.commits.push(c);
        assert(commits_view(p.commits@) =~= cv.push(commit_view(c)));
        p.counter = n;
        return;
    }
}

/// Parse a git graph from source; an error when it has no commit.
pub fn parse_git_graph(source: &str) -> (r: Result<GitGraph, String>)
    ensures
        match r {
            Ok(g) => git_graph_spec(source@) == Ok::<(Seq<CommitV>, Seq<(Seq<char>, usize)>), Seq<char>>(
                (commits_view(g.commits@), branches_view(g.branches@)),
            ),
            Err(e) => git_graph_spec(source@) == Err::<(Seq<CommitV>, Seq<(Seq<char>, usize)>), Seq<char>>(e@),
        },
{
    let src = chars_of(source);
    let ls = lines(src.as_slice());
    let ghost all = after_first(lines_spec(source@));
    let mut branches: Vec<GitBranch> = Vec::new();
    branches.push(GitBranch { name: String::from_str("main"), color_idx: 0 });
    let mut p = GitParser { commits: Vec::new(), branches, current: String::from_str("main"), counter: 0 };
    proof {
        assert(parser_view(p) =~= git_fold(all.take(0))) by {
            assert(all.take(0) =~= seq![]);
            assert(commits_view(p.commits@) =~= seq![]);
            assert(branches_view(p.branches@) =~= seq![("main"@, 0usize)]);
        }
    }
    let mut i: usize = 1;
    while i < ls.len()
        invariant
            1 <= i,
            views_of(ls@) == lines_spec(source@),
            all == after_first(lines_spec(source@)),
            i <= ls@.len() || i == 1,
            parser_view(p) == git_fold(all.take(i - 1)),
            p.counter < i,
        decreases ls@.len() - i,
    {
        proof {
            assert(all.take(i as int).drop_last() =~= all.take(i - 1));
            assert(all.take(i as int).last() == ls@[i as int]@);
        }
        git_line(&mut p, ls[i].as_slice());
        i = i + 1;
    }
    proof {
        assert(views_of(ls@).len() == ls@.len());
        assert(all.take(i - 1) =~= all);
        reveal_strlit("No commits found in git graph");
    }
    if p.commits.len() == 0 {
        return Err(String::from_str("No commits found in git graph"));
    }
    Ok(GitGraph { commits: p.commits, branches: p.branches })
}

} // verus!
