//! User journey diagram parsing.
//!
//! After the header line: `title ...`; `section ...`, which starts a new
//! section; and tasks `name: score: actor, actor`, which go into the open
//! section (a section named `Journey` is opened for tasks before any).
//! Comments (`%%`), blank lines and other lines are skipped.
use vstd::prelude::*;
use crate::markdown::mermaid::timeline::{opt_chars, percent2, section_word, strings_view, title_word};
use crate::text::{
    after_first, chars_of, contains_char, contains_spec, lines, lines_spec, parse_i32,
    parse_i32_spec, split_char, split_char_spec, starts_with, starts_with_ci, starts_with_ci_spec,
    starts_with_spec, string_of, trim, trim_spec, views_of,
};

verus! {

/// A task in a user journey.
#[derive(Debug, Clone)]
pub struct JourneyTask {
    pub name: String,
    /// 1-5 satisfaction score
    pub score: i32,
    pub actors: Vec<String>,
}

/// A section in a user journey.
#[derive(Debug, Clone)]
pub struct JourneySection {
    pub name: String,
    pub tasks: Vec<JourneyTask>,
}

/// A user journey diagram.
#[derive(Debug, Clone)]
pub struct UserJourney {
    pub title: Option<String>,
    pub sections: Vec<JourneySection>,
}

/// A task as plain values: name, score, actors.
pub open spec fn task_view(t: JourneyTask) -> (Seq<char>, i32, Seq<Seq<char>>) {
    (t.name@, t.score, strings_view(t.actors@))
}

/// A section as plain values: name and tasks.
pub open spec fn section_view(s: JourneySection) -> (Seq<char>, Seq<(Seq<char>, i32, Seq<Seq<char>>)>) {
    (s.name@, s.tasks@.map_values(|t: JourneyTask| task_view(t)))
}

/// Sections as plain values.
pub open spec fn sections_view(v: Seq<JourneySection>) -> Seq<
    (Seq<char>, Seq<(Seq<char>, i32, Seq<Seq<char>>)>),
> {
    v.map_values(|s: JourneySection| section_view(s))
}

/// The optional section as plain values.
pub open spec fn opt_section(s: Option<JourneySection>) -> Option<
    (Seq<char>, Seq<(Seq<char>, i32, Seq<Seq<char>>)>),
> {
    match s {
        Some(x) => Some(section_view(x)),
        None => None,
    }
}

/// The state of the parser between lines.
pub struct JourneyState {
    pub title: Option<Seq<char>>,
    pub sections: Seq<(Seq<char>, Seq<(Seq<char>, i32, Seq<Seq<char>>)>)>,
    pub current: Option<(Seq<char>, Seq<(Seq<char>, i32, Seq<Seq<char>>)>)>,
}

/// The name of the section opened for tasks before any section.
pub open spec fn journey_word() -> Seq<char> {
    seq!['J', 'o', 'u', 'r', 'n', 'e', 'y']
}

/// Each piece trimmed.
pub open spec fn trimmed_all(parts: Seq<Seq<char>>) -> Seq<Seq<char>> {
    parts.map_values(|p: Seq<char>| trim_spec(p))
}

/// The task of a line `name: score: actors`: the score is 3 where it is
/// not an `i32`; the actors are the comma-separated trimmed pieces of the
/// third part, none without one.
pub open spec fn task_spec(line: Seq<char>) -> (Seq<char>, i32, Seq<Seq<char>>) {
    let parts = split_char_spec(line, ':');
    let score = match parse_i32_spec(trim_spec(parts[1])) {
        Some(v) => v,
        None => 3,
    };
    let actors = if parts.len() > 2 {
        trimmed_all(split_char_spec(parts[2], ','))
    } else {
        seq![]
    };
    (trim_spec(parts[0]), score, actors)
}

/// A task's score is the number written after its first `:` (trimmed),
/// and 3, the middle of the 1 to 5 scale, where no number is written there;
/// its name is the trimmed text before that `:`.
pub proof fn law_task_score(line: Seq<char>, v: i32)
    ensures
        parse_i32_spec(trim_spec(split_char_spec(line, ':')[1])) == Some(v) ==> task_spec(line).1 == v,
        parse_i32_spec(trim_spec(split_char_spec(line, ':')[1])) is None ==> task_spec(line).1 == 3,
        task_spec(line).0 == trim_spec(split_char_spec(line, ':')[0]),
{
}

/// What one line does to the parser state.
pub open spec fn journey_step(st: JourneyState, raw: Seq<char>) -> JourneyState {
    let line = trim_spec(raw);
    if line.len() == 0 || starts_with_spec(line, percent2()) {
        st
    } else if starts_with_ci_spec(line, title_word()) {
        JourneyState { title: Some(trim_spec(line.skip(5))), ..st }
    } else if starts_with_ci_spec(line, section_word()) {
        let sections = match st.current {
            Some(s) => st.sections.push(s),
            None => st.sections,
        };
        JourneyState { title: st.title, sections, current: Some((trim_spec(line.skip(7)), seq![])) }
    } else if contains_spec(line, seq![':']) {
        let task = task_spec(line);
        match st.current {
            Some(s) => JourneyState { current: Some((s.0, s.1.push(task))), ..st },
            None => JourneyState { current: Some((journey_word(), seq![task])), ..st },
        }
    } else {
        st
    }
}

/// The parser state after the given lines.
pub open spec fn journey_fold(ls: Seq<Seq<char>>) -> JourneyState
    decreases ls.len(),
{
    if ls.len() == 0 {
        JourneyState { title: None, sections: seq![], current: None }
    } else {
        journey_step(journey_fold(ls.drop_last()), ls.last())
    }
}

/// The title and sections of a user journey source: the lines after the
/// header folded, the open section closed; `None` without any section.
pub open spec fn journey_spec(source: Seq<char>) -> Option<
    (Option<Seq<char>>, Seq<(Seq<char>, Seq<(Seq<char>, i32, Seq<Seq<char>>)>)>),
> {
    let st = journey_fold(after_first(lines_spec(source)));
    let sections = match st.current {
        Some(s) => st.sections.push(s),
        None => st.sections,
    };
    if sections.len() == 0 {
        None
    } else {
        Some((st.title, sections))
    }
}

/// Each piece trimmed, as strings.
fn trimmed_strings(parts: &Vec<Vec<char>>) -> (r: Vec<String>)
    ensures
        strings_view(r@) == trimmed_all(views_of(parts@)),
{
    let mut r: Vec<String> = Vec::new();
    let mut i: usize = 0;
    while i < parts.len()
        invariant
            i <= parts@.len(),
            strings_view(r@) == trimmed_all(views_of(parts@)).take(i as int),
        decreases parts@.len() - i,
    {
        let ghost before = strings_view(r@);
        assert(views_of(parts@)[i as int] == parts@[i as int]@);
        let t = string_of(trim(parts[i].as_slice()).as_slice());
        r.push(t);
        assert(strings_view(r@) =~= before.push(t@));
        assert(strings_view(r@) =~= trimmed_all(views_of(parts@)).take(i + 1 as int));
        i = i + 1;
    }
    assert(trimmed_all(views_of(parts@)).take(parts@.len() as int) =~= trimmed_all(views_of(parts@)));
    r
}

/// The task of a line holding `:`.
fn parse_task(line: &Vec<char>) -> (t: JourneyTask)
    requires
        contains_spec(line@, seq![':']),
    ensures
        task_view(t) == task_spec(line@),
{
    let parts = split_char(line.as_slice(), ':');
    proof {
        crate::text::lemma_split_contains(line@, ':');
        assert(views_of(parts@)[0] == parts@[0]@);
        assert(views_of(parts@)[1] == parts@[1]@);
    }
    let name = string_of(trim(parts[0].as_slice()).as_slice());
    let score = match parse_i32(trim(parts[1].as_slice()).as_slice()) {
        Some(v) => v,
        None => 3,
    };
    let actors = if parts.len() > 2 {
        assert(views_of(parts@)[2] == parts@[2]@);
        let pieces = split_char(parts[2].as_slice(), ',');
        trimmed_strings(&pieces)
    } else {
        let v: Vec<String> = Vec::new();
        assert(strings_view(v@) =~= seq![]);
        v
    };
    JourneyTask { name, score, actors }
}

/// Apply one line to the parser state.
fn step(
    title: &mut Option<String>,
    sections: &mut Vec<JourneySection>,
    current: &mut Option<JourneySection>,
    raw: &[char],
)
    ensures
        ({
            let st = journey_step(
                JourneyState {
                    title: opt_chars(*old(title)),
                    sections: sections_view(old(sections)@),
                    current: opt_section(*old(current)),
                },
                raw@,
            );
            &&& opt_chars(*final(title)) == st.title
            &&& sections_view(final(sections)@) == st.sections
            &&& opt_section(*final(current)) == st.current
        }),
{
    let line = trim(raw);
    let pct: Vec<char> = vec!['%', '%'];
    let tw: Vec<char> = vec!['t', 'i', 't', 'l', 'e'];
    let sw: Vec<char> = vec!['s', 'e', 'c', 't', 'i', 'o', 'n'];
    assert(pct@ =~= percent2());
    assert(tw@ =~= title_word());
    assert(sw@ =~= section_word());
    let ghost before = sections_view(sections@);
    if line.len() == 0 || starts_with(line.as_slice(), pct.as_slice()) {
        return;
    }
    if starts_with_ci(line.as_slice(), tw.as_slice()) {
        let rest = trim(&line.as_slice()[5..line.len()]);
        assert(line@.subrange(5, line@.len() as int) =~= line@.skip(5));
        *title = Some(string_of(rest.as_slice()));
        return;
    }
    if starts_with_ci(line.as_slice(), sw.as_slice()) {
        match current.take() {
            Some(s) => {
                sections.push(s);
                assert(sections_view(sections@) =~= before.push(section_view(s)));
            },
            None => {},
        }
        let rest = trim(&line.as_slice()[7..line.len()]);
        assert(line@.subrange(7, line@.len() as int) =~= line@.skip(7));
        let tasks: Vec<JourneyTask> = Vec::new();
        assert(tasks@.map_values(|t: JourneyTask| task_view(t)) =~= seq![]);
        *current = Some(JourneySection { name: string_of(rest.as_slice()), tasks });
        return;
    }
    if contains_char(line.as_slice(), ':') {
        let task = parse_task(&line);
        match current {
            Some(s) => {
                let ghost ts = section_view(*s).1;
                s.tasks.push(task);
                assert(section_view(*s).1 =~= ts.push(task_view(task)));
            },
            None => {
                let mut tasks: Vec<JourneyTask> = Vec::new();
                tasks.push(task);
                assert(tasks@.map_values(|t: JourneyTask| task_view(t)) =~= seq![task_view(task)]);
                let name = String::from_str("Journey");
                proof {
                    reveal_strlit("Journey");
                }
                assert(name@ =~= journey_word());
                *current = Some(JourneySection { name, tasks });
            },
        }
    }
}

/// Parse a user journey from source; an error when it has no section.
pub fn parse_user_journey(source: &str) -> (r: Result<UserJourney, String>)
    ensures
        match r {
            Ok(j) => journey_spec(source@) == Some((opt_chars(j.title), sections_view(j.sections@))),
            Err(e) => journey_spec(source@) is None && e@ == "No sections found in user journey"@,
        },
{
    let src = chars_of(source);
    let ls = lines(src.as_slice());
    let ghost all = after_first(lines_spec(source@));
    let mut title: Option<String> = None;
    let mut sections: Vec<JourneySection> = Vec::new();
    let mut current: Option<JourneySection> = None;
    let mut i: usize = 1;
    proof {
        assert(sections_view(sections@) =~= seq![]);
        assert(all.take(0) =~= seq![]);
    }
    while i < ls.len()
        invariant
            1 <= i,
            views_of(ls@) == lines_spec(source@),
            all == after_first(lines_spec(source@)),
            i <= ls@.len() || i == 1,
            ({
                let st = journey_fold(all.take(i - 1));
                &&& opt_chars(title) == st.title
                &&& sections_view(sections@) == st.sections
                &&& opt_section(current) == st.current
            }),
        decreases ls@.len() - i,
    {
        proof {
            assert(all.take(i as int).drop_last() =~= all.take(i - 1));
            assert(all.take(i as int).last() == ls@[i as int]@);
        }
        step(&mut title, &mut sections, &mut current, ls[i].as_slice());
        i = i + 1;
    }
    proof {
        assert(views_of(ls@).len() == ls@.len());
        assert(all.take(i - 1) =~= all);
    }
    match current {
        Some(s) => {
            let ghost before = sections_view(sections@);
            sections.push(s);
            assert(sections_view(sections@) =~= before.push(section_view(s)));
        },
        None => {},
    }
    if sections.len() == 0 {
        return Err(String::from_str("No sections found in user journey"));
    }
    Ok(UserJourney { title, sections })
}

} // verus!
