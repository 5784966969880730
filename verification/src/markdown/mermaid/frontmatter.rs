//! The YAML frontmatter block of a Mermaid diagram.
//!
//! Mermaid supports YAML between `---` lines at the start of a diagram, for
//! a title and configuration:
//!
//! ```text
//! ---
//! title: My Flowchart
//! config:
//!   theme: dark
//! ---
//! flowchart TD
//!     A --> B --> C
//! ```
//!
//! This module finds the block and the diagram after it; reading the YAML
//! into [`MermaidFrontmatter`] is left to the caller's YAML parser.
use vstd::prelude::*;
use crate::text::{
    chars_of, lemma_next_char_bounds, next_char_from, next_char_index, slice_copy, starts_with,
    starts_with_spec, string_of, trim, trim_spec, trim_start_matches, trim_start_matches_spec,
};

verus! {

/// Parsed YAML frontmatter from a Mermaid diagram.
#[derive(Debug, Clone)]
pub struct MermaidFrontmatter {
    /// Diagram title to display above the diagram
    pub title: Option<String>,
    /// Configuration options
    pub config: Option<MermaidConfig>,
}

/// Configuration options from frontmatter.
#[derive(Debug, Clone)]
pub struct MermaidConfig {
    /// Theme name: "default", "dark", "forest", "neutral", etc.
    pub theme: Option<String>,
}

impl Default for MermaidFrontmatter {
    fn default() -> (r: Self)
        ensures
            r.title is None && r.config is None,
    {
        MermaidFrontmatter { title: None, config: None }
    }
}

impl Default for MermaidConfig {
    fn default() -> (r: Self)
        ensures
            r.theme is None,
    {
        MermaidConfig { theme: None }
    }
}

/// `---`.
pub open spec fn dashes() -> Seq<char> {
    seq!['-', '-', '-']
}

/// Spaces and tabs.
pub open spec fn blanks() -> Seq<char> {
    seq![' ', '\t']
}

/// `s` without one leading line break (`\r\n` or `\n`), or `None` where it
/// does not start with one.
pub open spec fn after_break(s: Seq<char>) -> Option<Seq<char>> {
    if starts_with_spec(s, seq!['\r', '\n']) {
        Some(s.skip(2))
    } else if starts_with_spec(s, seq!['\n']) {
        Some(s.skip(1))
    } else {
        None
    }
}

/// The start of the first line at or after `i` whose trimmed text is
/// `---`, the lines taken as `str::lines` gives them.
pub open spec fn closing_from(t: Seq<char>, i: int) -> Option<int>
    decreases t.len() - i,
{
    if i < 0 || i >= t.len() {
        None
    } else {
        let j = next_char_from(t, '\n', i);
        let raw = t.subrange(i, j);
        let line = if j < t.len() && raw.len() > 0 && raw.last() == '\r' {
            raw.drop_last()
        } else {
            raw
        };
        if trim_spec(line) == dashes() {
            Some(i)
        } else if j >= t.len() {
            None
        } else {
            proof {
                crate::text::lemma_next_char_bounds(t, '\n', i);
            }
            closing_from(t, j + 1)
        }
    }
}

/// The YAML text and the diagram after the block, where the trimmed source
/// starts with a `---` line (blanks allowed after the dashes) and a later
/// line trims to `---`. The diagram is what follows that line: its dashes
/// (where the line starts with them), then blanks and one line break
/// dropped.
pub open spec fn frontmatter_split(source: Seq<char>) -> Option<(Seq<char>, Seq<char>)> {
    let s = trim_spec(source);
    if !starts_with_spec(s, dashes()) {
        None
    } else {
        match after_break(trim_start_matches_spec(s.skip(3), blanks())) {
            None => None,
            Some(body) => match closing_from(body, 0) {
                None => None,
                Some(end) => {
                    let rest = body.skip(end);
                    let rest = if starts_with_spec(rest, dashes()) {
                        rest.skip(3)
                    } else {
                        rest
                    };
                    let rest = trim_start_matches_spec(rest, blanks());
                    let diagram = match after_break(rest) {
                        Some(d) => d,
                        None => rest,
                    };
                    Some((body.take(end), diagram))
                },
            },
        }
    }
}

/// [`after_break`].
fn after_break_exec(s: &[char]) -> (r: Option<Vec<char>>)
    ensures
        match r {
            Some(v) => after_break(s@) == Some(v@),
            None => after_break(s@) is None,
        },
{
    let crlf: Vec<char> = vec!['\r', '\n'];
    let lf: Vec<char> = vec!['\n'];
    assert(crlf@ =~= seq!['\r', '\n']);
    assert(lf@ =~= seq!['\n']);
    if starts_with(s, crlf.as_slice()) {
        let r = slice_copy(s, 2, s.len());
        assert(s@.subrange(2, s@.len() as int) =~= s@.skip(2));
        Some(r)
    } else if starts_with(s, lf.as_slice()) {
        let r = slice_copy(s, 1, s.len());
        assert(s@.subrange(1, s@.len() as int) =~= s@.skip(1));
        Some(r)
    } else {
        None
    }
}

/// [`closing_from`] from the start.
fn find_closing(t: &[char]) -> (r: Option<usize>)
    ensures
        match r {
            Some(e) => closing_from(t@, 0) == Some(e as int),
            None => closing_from(t@, 0) is None,
        },
{
    let dash: Vec<char> = vec!['-', '-', '-'];
    assert(dash@ =~= dashes());
    let mut i: usize = 0;
    while i < t.len()
        invariant
            i <= t@.len(),
            dash@ == dashes(),
            closing_from(t@, i as int) == closing_from(t@, 0),
        decreases t@.len() - i,
    {
        let j = next_char_index(t, '\n', i);
        proof {
            lemma_next_char_bounds(t@, '\n', i as int);
        }
        let line_end = if j < t.len() && j > i && t[j - 1] == '\r' {
            j - 1
        } else {
            j
        };
        let line = trim(&t[i..line_end]);
        proof {
            let raw = t@.subrange(i as int, j as int);
            if j < t@.len() && raw.len() > 0 && raw.last() == '\r' {
                assert(raw.drop_last() =~= t@.subrange(i as int, line_end as int));
            } else {
                assert(raw =~= t@.subrange(i as int, line_end as int));
            }
        }
        if line.len() == 3 && starts_with(line.as_slice(), dash.as_slice()) {
            assert(line@.subrange(0, 3) =~= line@);
            return Some(i);
        }
        proof {
            if line@ == dashes() {
                assert(line@.subrange(0, 3) =~= line@);
            }
        }
        if j >= t.len() {
            return None;
        }
        i = j + 1;
    }
    None
}

/// Split mermaid source into its frontmatter YAML and the diagram after
/// it; `None` where the source has no frontmatter block.
pub fn split_frontmatter(source: &str) -> (r: Option<(String, String)>)
    ensures
        match r {
            Some((y, d)) => frontmatter_split(source@) == Some((y@, d@)),
            None => frontmatter_split(source@) is None,
        },
{
    let src = chars_of(source);
    let s = trim(src.as_slice());
    let dash: Vec<char> = vec!['-', '-', '-'];
    let bl: Vec<char> = vec![' ', '\t'];
    assert(dash@ =~= dashes());
    assert(bl@ =~= blanks());
    if !starts_with(s.as_slice(), dash.as_slice()) {
        return None;
    }
    let after_dashes = &s.as_slice()[3..s.len()];
    assert(after_dashes@ =~= s@.skip(3));
    let opening = trim_start_matches(after_dashes, bl.as_slice());
    let body = match after_break_exec(opening.as_slice()) {
        Some(b) => b,
        None => {
            return None;
        },
    };
    let end = match find_closing(body.as_slice()) {
        Some(e) => e,
        None => {
            return None;
        },
    };
    proof {
        assert(0 <= end <= body@.len()) by {
            lemma_closing_bounds(body@, 0);
        }
    }
    let yaml = slice_copy(body.as_slice(), 0, end);
    assert(body@.subrange(0, end as int) =~= body@.take(end as int));
    let rest = &body.as_slice()[end..body.len()];
    assert(rest@ =~= body@.skip(end as int));
    let rest = if starts_with(rest, dash.as_slice()) {
        let r = slice_copy(rest, 3, rest.len());
        assert(rest@.subrange(3, rest@.len() as int) =~= rest@.skip(3));
        r
    } else {
        let r = slice_copy(rest, 0, rest.len());
        assert(rest@.subrange(0, rest@.len() as int) =~= rest@);
        r
    };
    let rest = trim_start_matches(rest.as_slice(), bl.as_slice());
    let diagram = match after_break_exec(rest.as_slice()) {
        Some(d) => d,
        None => rest,
    };
    Some((string_of(yaml.as_slice()), string_of(diagram.as_slice())))
}

/// The closing line found from `i` starts at or after `i`, within the text.
proof fn lemma_closing_bounds(t: Seq<char>, i: int)
    requires
        0 <= i,
    ensures
        closing_from(t, i) matches Some(e) ==> i <= e < t.len(),
    decreases t.len() - i,
{
    if i < t.len() {
        let j = next_char_from(t, '\n', i);
        lemma_next_char_bounds(t, '\n', i);
        if j < t.len() {
            lemma_closing_bounds(t, j + 1);
        }
    }
}

} // verus!
