//! Mindmap diagram parsing.
//!
//! Each line after the header is a node; its level is its indentation in
//! whitespace characters divided by four. A node becomes a child of the
//! nearest earlier node of a smaller level that is still open; a node
//! without one becomes the root, replacing any earlier root.
use vstd::prelude::*;
use crate::markdown::mermaid::timeline::percent2;
use crate::text::{
    after_first, char_is_whitespace, chars_of, ends_with, ends_with_spec, is_whitespace, lines,
    lines_spec, slice_copy, starts_with, starts_with_spec, string_of, trim, trim_spec, views_of,
};

verus! {

/// A node in a mindmap.
#[derive(Debug)]
pub struct MindmapNode {
    pub text: String,
    pub level: usize,
    pub children: Vec<MindmapNode>,
}

/// A parsed mindmap.
#[derive(Debug)]
pub struct Mindmap {
    pub root: Option<MindmapNode>,
}

/// A mindmap node as a plain value.
pub struct MindNode {
    pub text: Seq<char>,
    pub level: usize,
    pub children: Seq<MindNode>,
}

/// `n` is the node `m`.
pub open spec fn node_is(n: MindmapNode, m: MindNode) -> bool
    decreases n,
{
    &&& n.text@ == m.text
    &&& n.level == m.level
    &&& n.children@.len() == m.children.len()
    &&& forall|k: int|
        0 <= k < n.children@.len() ==> {
            &&& decreases_to!(n => n.children@[k])
            &&& node_is(#[trigger] n.children@[k], m.children[k])
        }
}

/// The stack `s` holds the levels and nodes of `t`.
pub open spec fn stack_is(s: Seq<(usize, MindmapNode)>, t: Seq<(usize, MindNode)>) -> bool {
    &&& s.len() == t.len()
    &&& forall|k: int| 0 <= k < s.len() ==> #[trigger] s[k].0 == t[k].0 && node_is(s[k].1, t[k].1)
}

/// The optional root is the node `m`.
pub open spec fn root_is(r: Option<MindmapNode>, m: Option<MindNode>) -> bool {
    match (r, m) {
        (Some(a), Some(b)) => node_is(a, b),
        (None, None) => true,
        _ => false,
    }
}

/// The parser state: the stack of open nodes (with their levels) and the
/// root found so far.
pub struct MindState {
    pub stack: Seq<(usize, MindNode)>,
    pub root: Option<MindNode>,
}

/// Close the innermost open node: it becomes the last child of the node
/// below it, or the root when none is left.
pub open spec fn close_top(st: MindState) -> MindState
    recommends
        st.stack.len() > 0,
{
    let top = st.stack.last().1;
    let rest = st.stack.drop_last();
    if rest.len() > 0 {
        let (pl, p) = rest.last();
        MindState {
            stack: rest.update(
                rest.len() - 1,
                (pl, MindNode { text: p.text, level: p.level, children: p.children.push(top) }),
            ),
            root: st.root,
        }
    } else {
        MindState { stack: rest, root: Some(top) }
    }
}

/// Close open nodes while the innermost one's level is at least `level`.
pub open spec fn close_to(st: MindState, level: usize) -> MindState
    decreases st.stack.len(),
{
    if st.stack.len() > 0 && st.stack.last().0 >= level {
        close_to(close_top(st), level)
    } else {
        st
    }
}

/// The words `root`, `((`, `))`.
pub open spec fn root_word() -> Seq<char> {
    seq!['r', 'o', 'o', 't']
}

pub open spec fn open2() -> Seq<char> {
    seq!['(', '(']
}

pub open spec fn close2() -> Seq<char> {
    seq![')', ')']
}

/// The text of a node line: the trimmed line, where a line starting with
/// `root` loses that word and the double or single parentheses around the
/// rest.
pub open spec fn node_text(t: Seq<char>) -> Seq<char> {
    if starts_with_spec(t, root_word()) {
        let inner = trim_spec(t.skip(4));
        if starts_with_spec(inner, open2()) && ends_with_spec(inner, close2()) {
            inner.subrange(2, inner.len() - 2)
        } else if starts_with_spec(inner, seq!['(']) && ends_with_spec(inner, seq![')']) {
            inner.subrange(1, inner.len() - 1)
        } else {
            inner
        }
    } else {
        t
    }
}

/// The number of leading whitespace characters.
pub open spec fn indent_of(s: Seq<char>) -> nat
    decreases s.len(),
{
    if s.len() > 0 && char_is_whitespace(s[0]) {
        1 + indent_of(s.drop_first())
    } else {
        0
    }
}

/// What one line does to the parser state.
pub open spec fn mind_step(st: MindState, line: Seq<char>) -> MindState {
    let t = trim_spec(line);
    if t.len() == 0 || starts_with_spec(t, percent2()) {
        st
    } else {
        let text = node_text(t);
        if text.len() == 0 {
            st
        } else {
            let level = (indent_of(line) / 4) as usize;
            let closed = close_to(st, level);
            MindState {
                stack: closed.stack.push((level, MindNode { text, level, children: seq![] })),
                root: closed.root,
            }
        }
    }
}

/// The parser state after the given lines.
pub open spec fn mind_fold(ls: Seq<Seq<char>>) -> MindState
    decreases ls.len(),
{
    if ls.len() == 0 {
        MindState { stack: seq![], root: None }
    } else {
        mind_step(mind_fold(ls.drop_last()), ls.last())
    }
}

/// The root of a mindmap source: the lines after the header folded, then
/// every open node closed.
pub open spec fn mindmap_root(source: Seq<char>) -> Option<MindNode> {
    close_to(mind_fold(after_first(lines_spec(source))), 0).root
}

/// The number of leading whitespace characters.
fn count_indent(s: &[char]) -> (n: usize)
    ensures
        n == indent_of(s@),
{
    let mut i: usize = 0;
    assert(s@.skip(0) =~= s@);
    while i < s.len() && is_whitespace(s[i])
        invariant
            i <= s@.len(),
            indent_of(s@) == i + indent_of(s@.skip(i as int)),
        decreases s@.len() - i,
    {
        assert(s@.skip(i as int).drop_first() =~= s@.skip(i + 1));
        i = i + 1;
    }
    assert(indent_of(s@.skip(i as int)) == 0);
    i
}

/// The text of a node line.
fn line_text(t: &Vec<char>) -> (r: Vec<char>)
    ensures
        r@ == node_text(t@),
{
    let rw: Vec<char> = vec!['r', 'o', 'o', 't'];
    let o2: Vec<char> = vec!['(', '('];
    let c2: Vec<char> = vec![')', ')'];
    let o1: Vec<char> = vec!['('];
    let c1: Vec<char> = vec![')'];
    assert(rw@ =~= root_word());
    assert(o2@ =~= open2());
    assert(c2@ =~= close2());
    assert(o1@ =~= seq!['(']);
    assert(c1@ =~= seq![')']);
    if !starts_with(t.as_slice(), rw.as_slice()) {
        return slice_copy(t.as_slice(), 0, t.len());
    }
    let inner = trim(&t.as_slice()[4..t.len()]);
    assert(t@.subrange(4, t@.len() as int) =~= t@.skip(4));
    if starts_with(inner.as_slice(), o2.as_slice()) && ends_with(inner.as_slice(), c2.as_slice()) {
        proof {
            assert(inner@.subrange(0, 2) =~= open2());
            assert(inner@[0] == '(' && inner@[1] == '(');
            assert(inner@.subrange(inner@.len() - 2, inner@.len() as int) =~= close2());
            assert(inner@[inner@.len() - 1] == ')');
        }
        slice_copy(inner.as_slice(), 2, inner.len() - 2)
    } else if starts_with(inner.as_slice(), o1.as_slice()) && ends_with(inner.as_slice(), c1.as_slice()) {
        proof {
            assert(inner@.subrange(0, 1) =~= seq!['(']);
            assert(inner@[0] == '(');
            assert(inner@.subrange(inner@.len() - 1, inner@.len() as int) =~= seq![')']);
        }
        slice_copy(inner.as_slice(), 1, inner.len() - 1)
    } else {
        inner
    }
}

/// Close the innermost open node.
fn close_top_exec(stack: &mut Vec<(usize, MindmapNode)>, root: &mut Option<MindmapNode>, Ghost(st): Ghost<MindState>)
    requires
        old(stack)@.len() > 0,
        stack_is(old(stack)@, st.stack),
        root_is(*old(root), st.root),
    ensures
        stack_is(final(stack)@, close_top(st).stack),
        root_is(*final(root), close_top(st).root),
{
    let ghost n = old(stack)@.len() - 1;
    assert(old(stack)@[n].0 == st.stack[n].0);
    let (_, finished) = stack.pop().unwrap();
    let ghost top = st.stack.last().1;
    assert(node_is(finished, top));
    if stack.len() > 0 {
        let (pl, mut parent) = stack.pop().unwrap();
        let ghost rest = st.stack.drop_last();
        let ghost p = rest.last().1;
        assert(stack_is(stack@, rest.drop_last())) by {
            assert forall|k: int| 0 <= k < stack@.len() implies #[trigger] stack@[k].0 == rest.drop_last()[k].0
                && node_is(stack@[k].1, rest.drop_last()[k].1) by {
                assert(old(stack)@[k] == stack@[k]);
            }
        }
        let ghost old_kids = parent.children@;
        parent.children.push(finished);
        let ghost np = MindNode { text: p.text, level: p.level, children: p.children.push(top) };
        assert(node_is(parent, np)) by {
            assert(old(stack)@[old(stack)@.len() - 2].1 == parent_before(old(stack)@));
            assert forall|k: int| 0 <= k < parent.children@.len() implies {
                &&& decreases_to!(parent => parent.children@[k])
                &&& node_is(#[trigger] parent.children@[k], np.children[k])
            } by {
                if k < old_kids.len() {
                    assert(parent.children@[k] == old_kids[k]);
                }
            }
        }
        stack.push((pl, parent));
        let ghost m = old(stack)@.len() - 2;
        assert(old(stack)@[m].0 == st.stack[m].0);
        assert(pl == old(stack)@[m].0);
        assert(stack_is(stack@, close_top(st).stack)) by {
            assert forall|k: int| 0 <= k < stack@.len() implies #[trigger] stack@[k].0
                == close_top(st).stack[k].0 && node_is(stack@[k].1, close_top(st).stack[k].1) by {
                if k < stack@.len() - 1 {
                    assert(old(stack)@[k] == stack@[k]);
                    assert(old(stack)@[k].0 == st.stack[k].0);
                    assert(close_top(st).stack[k] == st.stack[k]);
                } else {
                    assert(stack@[k] == (pl, parent));
                    assert(close_top(st).stack[k] == (rest.last().0, np));
                }
            }
        }
    } else {
        *root = Some(finished);
    }
}

/// The parent entry of a stack with at least two entries.
spec fn parent_before(s: Seq<(usize, MindmapNode)>) -> MindmapNode {
    s[s.len() - 2].1
}

/// Parse mermaid mindmap source; an error when no node becomes the root.
pub fn parse_mindmap(source: &str) -> (r: Result<Mindmap, String>)
    ensures
        match r {
            Ok(m) => mindmap_root(source@) is Some && root_is(m.root, mindmap_root(source@)),
            Err(e) => mindmap_root(source@) is None && e@ == "No root node found in mindmap"@,
        },
{
    let src = chars_of(source);
    let ls = lines(src.as_slice());
    let ghost all = after_first(lines_spec(source@));
    let mut root: Option<MindmapNode> = None;
    let mut stack: Vec<(usize, MindmapNode)> = Vec::new();
    let mut i: usize = 1;
    proof {
        assert(all.take(0) =~= seq![]);
    }
    while i < ls.len()
        invariant
            1 <= i,
            views_of(ls@) == lines_spec(source@),
            all == after_first(lines_spec(source@)),
            i <= ls@.len() || i == 1,
            stack_is(stack@, mind_fold(all.take(i - 1)).stack),
            root_is(root, mind_fold(all.take(i - 1)).root),
        decreases ls@.len() - i,
    {
        proof {
            assert(all.take(i as int).drop_last() =~= all.take(i - 1));
            assert(all.take(i as int).last() == ls@[i as int]@);
        }
        let ghost st = mind_fold(all.take(i - 1));
        let line = &ls[i];
        let t = trim(line.as_slice());
        let pct: Vec<char> = vec!['%', '%'];
        assert(pct@ =~= percent2());
        if t.len() > 0 && !starts_with(t.as_slice(), pct.as_slice()) {
            let text = line_text(&t);
            if text.len() > 0 {
                let level = count_indent(line.as_slice()) / 4;
                let ghost mut cur = st;
                while stack.len() > 0 && stack[stack.len() - 1].0 >= level
                    invariant
                        stack_is(stack@, cur.stack),
                        root_is(root, cur.root),
                        close_to(cur, level) == close_to(st, level),
                    decreases stack@.len(),
                {
                    close_top_exec(&mut stack, &mut root, Ghost(cur));
                    proof {
                        cur = close_top(cur);
                    }
                }
                let node = MindmapNode { text: string_of(text.as_slice()), level, children: Vec::new() };
                let ghost mnode = MindNode { text: text@, level, children: seq![] };
                assert(node_is(node, mnode));
                let ghost before = stack@;
                assert(before.len() == cur.stack.len());
                stack.push((level, node));
                assert(stack@.len() == cur.stack.push((level, mnode)).len());
                assert(stack@[before.len() as int] == (level, node));
                assert(node_is(stack@[before.len() as int].1, mnode));
                assert(stack_is(stack@, cur.stack.push((level, mnode)))) by {
                    assert forall|k: int| 0 <= k < stack@.len() implies #[trigger] stack@[k].0
                        == cur.stack.push((level, mnode))[k].0 && node_is(
                        stack@[k].1,
                        cur.stack.push((level, mnode))[k].1,
                    ) by {
                        if k < before.len() {
                            assert(stack@[k] == before[k]);
                            assert(before[k].0 == cur.stack[k].0);
                            assert(cur.stack.push((level, mnode))[k] == cur.stack[k]);
                        } else {
                            assert(stack@[k] == (level, node));
                        }
                    }
                }
            }
        }
        i = i + 1;
    }
    proof {
        assert(views_of(ls@).len() == ls@.len());
        assert(all.take(i - 1) =~= all);
    }
    let ghost st = mind_fold(all);
    let ghost mut cur = st;
    while stack.len() > 0
        invariant
            stack_is(stack@, cur.stack),
            root_is(root, cur.root),
            close_to(cur, 0) == close_to(st, 0),
        decreases stack@.len(),
    {
        close_top_exec(&mut stack, &mut root, Ghost(cur));
        proof {
            cur = close_top(cur);
        }
    }
    if root.is_none() {
        return Err(String::from_str("No root node found in mindmap"));
    }
    Ok(Mindmap { root })
}

} // verus!
