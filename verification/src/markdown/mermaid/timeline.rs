//! Timeline diagram parsing.
//!
//! After the header line, each line is one of: a comment (`%%`) or blank
//! line, skipped; `title ...`; `section ...`, which starts a new period; a
//! line with `:`, a period label followed by its events; or a bare line,
//! which is an event of the open period or, without one, opens a period.
use vstd::prelude::*;
use crate::text::{
    after_first, chars_of, contains_char, contains_spec, lines, lines_spec, split_char, split_char_spec,
    starts_with, starts_with_ci, starts_with_ci_spec, starts_with_spec, string_of, trim, trim_spec,
    views_of,
};

verus! {

/// A period in a timeline.
#[derive(Debug, Clone)]
pub struct TimelinePeriod {
    pub label: String,
    pub events: Vec<String>,
}

/// A timeline diagram.
#[derive(Debug, Clone)]
pub struct Timeline {
    pub title: Option<String>,
    pub periods: Vec<TimelinePeriod>,
}

/// The characters of each string.
pub open spec fn strings_view(v: Seq<String>) -> Seq<Seq<char>> {
    v.map_values(|s: String| s@)
}

/// A period as plain values: its label and events.
pub open spec fn period_view(p: TimelinePeriod) -> (Seq<char>, Seq<Seq<char>>) {
    (p.label@, strings_view(p.events@))
}

/// Periods as plain values.
pub open spec fn periods_view(v: Seq<TimelinePeriod>) -> Seq<(Seq<char>, Seq<Seq<char>>)> {
    v.map_values(|p: TimelinePeriod| period_view(p))
}

/// The state of the parser between lines.
pub struct TimelineState {
    pub title: Option<Seq<char>>,
    pub periods: Seq<(Seq<char>, Seq<Seq<char>>)>,
    pub current: Option<(Seq<char>, Seq<Seq<char>>)>,
}

pub open spec fn percent2() -> Seq<char> {
    seq!['%', '%']
}

pub open spec fn title_word() -> Seq<char> {
    seq!['t', 'i', 't', 'l', 'e']
}

pub open spec fn section_word() -> Seq<char> {
    seq!['s', 'e', 'c', 't', 'i', 'o', 'n']
}

/// The non-empty trimmed pieces.
pub open spec fn trimmed_nonempty(parts: Seq<Seq<char>>) -> Seq<Seq<char>>
    decreases parts.len(),
{
    if parts.len() == 0 {
        seq![]
    } else {
        let rest = trimmed_nonempty(parts.drop_last());
        let t = trim_spec(parts.last());
        if t.len() > 0 {
            rest.push(t)
        } else {
            rest
        }
    }
}

/// The periods with the open period, if any, closed.
pub open spec fn close_current(st: TimelineState) -> Seq<(Seq<char>, Seq<Seq<char>>)> {
    match st.current {
        Some(p) => st.periods.push(p),
        None => st.periods,
    }
}

/// What one line does to the parser state.
pub open spec fn timeline_step(st: TimelineState, raw: Seq<char>) -> TimelineState {
    let line = trim_spec(raw);
    if line.len() == 0 || starts_with_spec(line, percent2()) {
        st
    } else if starts_with_ci_spec(line, title_word()) {
        TimelineState { title: Some(trim_spec(line.skip(5))), ..st }
    } else if starts_with_ci_spec(line, section_word()) {
        let periods = match st.current {
            Some(p) => if p.1.len() > 0 || st.periods.len() == 0 {
                st.periods.push(p)
            } else {
                st.periods
            },
            None => st.periods,
        };
        TimelineState {
            title: st.title,
            periods,
            current: Some((trim_spec(line.skip(7)), seq![])),
        }
    } else if contains_spec(line, seq![':']) {
        let parts = split_char_spec(line, ':');
        TimelineState {
            title: st.title,
            periods: close_current(st).push((trim_spec(parts[0]), trimmed_nonempty(parts.skip(1)))),
            current: None,
        }
    } else {
        match st.current {
            Some(p) => TimelineState { current: Some((p.0, p.1.push(line))), ..st },
            None => TimelineState { current: Some((line, seq![])), ..st },
        }
    }
}

/// The parser state after the given lines.
pub open spec fn timeline_fold(ls: Seq<Seq<char>>) -> TimelineState
    decreases ls.len(),
{
    if ls.len() == 0 {
        TimelineState { title: None, periods: seq![], current: None }
    } else {
        timeline_step(timeline_fold(ls.drop_last()), ls.last())
    }
}

/// The title and periods of a timeline source: the lines after the header
/// folded, the open period closed; `None` without any period.
pub open spec fn timeline_spec(source: Seq<char>) -> Option<(Option<Seq<char>>, Seq<(Seq<char>, Seq<Seq<char>>)>)> {
    let st = timeline_fold(after_first(lines_spec(source)));
    let periods = close_current(st);
    if periods.len() == 0 {
        None
    } else {
        Some((st.title, periods))
    }
}

/// The optional string as characters.
pub open spec fn opt_chars(s: Option<String>) -> Option<Seq<char>> {
    match s {
        Some(t) => Some(t@),
        None => None,
    }
}

/// The optional period as plain values.
pub open spec fn opt_period(p: Option<TimelinePeriod>) -> Option<(Seq<char>, Seq<Seq<char>>)> {
    match p {
        Some(q) => Some(period_view(q)),
        None => None,
    }
}

/// The trimmed, non-empty pieces as strings.
fn trimmed_events(parts: &Vec<Vec<char>>, from: usize) -> (r: Vec<String>)
    requires
        from <= parts@.len(),
    ensures
        strings_view(r@) == trimmed_nonempty(views_of(parts@).skip(from as int)),
{
    let ghost ps = views_of(parts@).skip(from as int);
    let mut r: Vec<String> = Vec::new();
    let mut i: usize = from;
    while i < parts.len()
        invariant
            from <= i <= parts@.len(),
            ps == views_of(parts@).skip(from as int),
            strings_view(r@) == trimmed_nonempty(ps.take(i - from)),
        decreases parts@.len() - i,
    {
        let t = trim(parts[i].as_slice());
        proof {
            assert(ps.take(i - from + 1).drop_last() =~= ps.take(i - from));
            assert(ps.take(i - from + 1).last() == parts@[i as int]@);
        }
        if t.len() > 0 {
            let ghost before = strings_view(r@);
            r.push(string_of(t.as_slice()));
            assert(strings_view(r@) =~= before.push(t@));
        }
        i = i + 1;
    }
    assert(ps.take(parts@.len() - from) =~= ps);
    r
}

/// Apply one line to the parser state.
fn step(
    title: &mut Option<String>,
    periods: &mut Vec<TimelinePeriod>,
    current: &mut Option<TimelinePeriod>,
    raw: &[char],
)
    ensures
        ({
            let st = timeline_step(
                TimelineState {
                    title: opt_chars(*old(title)),
                    periods: periods_view(old(periods)@),
                    current: opt_period(*old(current)),
                },
                raw@,
            );
            &&& opt_chars(*final(title)) == st.title
            &&& periods_view(final(periods)@) == st.periods
            &&& opt_period(*final(current)) == st.current
        }),
{
    let line = trim(raw);
    let pct: Vec<char> = vec!['%', '%'];
    let tw: Vec<char> = vec!['t', 'i', 't', 'l', 'e'];
    let sw: Vec<char> = vec!['s', 'e', 'c', 't', 'i', 'o', 'n'];
    assert(pct@ =~= percent2());
    assert(tw@ =~= title_word());
    assert(sw@ =~= section_word());
    let ghost before = periods_view(periods@);
    if line.len() == 0 || starts_with(line.as_slice(), pct.as_slice()) {
        return;
    }
    if starts_with_ci(line.as_slice(), tw.as_slice()) {
        let rest = trim(&line.as_slice()[5..line.len()]);
        assert(line@.subrange(5, line@.len() as int) =~= line@.skip(5));
        *title = Some(string_of(rest.as_slice()));
        return;
    }
    if starts_with_ci(line.as_slice(), sw.as_slice()) {
        match current.take() {
            Some(p) => {
                if p.events.len() > 0 || periods.len() == 0 {
                    periods.push(p);
                    assert(periods_view(periods@) =~= before.push(period_view(p)));
                }
            },
            None => {},
        }
        let rest = trim(&line.as_slice()[7..line.len()]);
        assert(line@.subrange(7, line@.len() as int) =~= line@.skip(7));
        *current = Some(TimelinePeriod { label: string_of(rest.as_slice()), events: Vec::new() });
        assert(strings_view(Seq::<String>::empty()) =~= seq![]);
        return;
    }
    if contains_char(line.as_slice(), ':') {
        let parts = split_char(line.as_slice(), ':');
        match current.take() {
            Some(p) => {
                periods.push(p);
                assert(periods_view(periods@) =~= before.push(period_view(p)));
            },
            None => {},
        }
        let ghost closed = periods_view(periods@);
        let label = string_of(trim(parts[0].as_slice()).as_slice());
        let events = trimmed_events(&parts, 1);
        let p = TimelinePeriod { label, events };
        periods.push(p);
        assert(views_of(parts@)[0] == parts@[0]@);
        assert(periods_view(periods@) =~= closed.push(period_view(p)));
        return;
    }
    match current {
        Some(p) => {
            let ghost evs = strings_view(p.events@);
            p.events.push(string_of(line.as_slice()));
            assert(strings_view(p.events@) =~= evs.push(line@));
        },
        None => {
            *current = Some(TimelinePeriod { label: string_of(line.as_slice()), events: Vec::new() });
            assert(strings_view(Seq::<String>::empty()) =~= seq![]);
        },
    }
}

/// Parse a timeline from source; an error when it has no period.
pub fn parse_timeline(source: &str) -> (r: Result<Timeline, String>)
    ensures
        match r {
            Ok(t) => timeline_spec(source@) == Some((opt_chars(t.title), periods_view(t.periods@))),
            Err(e) => timeline_spec(source@) is None && e@ == "No periods found in timeline"@,
        },
{
    let src = chars_of(source);
    let ls = lines(src.as_slice());
    let ghost all = after_first(lines_spec(source@));
    let mut title: Option<String> = None;
    let mut periods: Vec<TimelinePeriod> = Vec::new();
    let mut current: Option<TimelinePeriod> = None;
    let mut i: usize = 1;
    proof {
        assert(periods_view(periods@) =~= seq![]);
        assert(all.take(0) =~= seq![]);
    }
    while i < ls.len()
        invariant
            1 <= i,
            views_of(ls@) == lines_spec(source@),
            all == after_first(lines_spec(source@)),
            i <= ls@.len() || i == 1,
            ({
                let st = timeline_fold(all.take(i - 1));
                &&& opt_chars(title) == st.title
                &&& periods_view(periods@) == st.periods
                &&& opt_period(current) == st.current
            }),
        decreases ls@.len() - i,
    {
        proof {
            assert(all.take(i as int).drop_last() =~= all.take(i - 1));
            assert(all.take(i as int).last() == ls@[i as int]@);
        }
        step(&mut title, &mut periods, &mut current, ls[i].as_slice());
        i = i + 1;
    }
    proof {
        assert(views_of(ls@).len() == ls@.len());
        assert(all.take(i - 1) =~= all);
    }
    let ghost st = timeline_fold(all);
    match current {
        Some(p) => {
            let ghost before = periods_view(periods@);
            periods.push(p);
            assert(periods_view(periods@) =~= before.push(period_view(p)));
        },
        None => {},
    }
    assert(periods_view(periods@) == close_current(st));
    if periods.len() == 0 {
        return Err(String::from_str("No periods found in timeline"));
    }
    Ok(Timeline { title, periods })
}

} // verus!
