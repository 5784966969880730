//! Gantt chart parsing.
//!
//! After the header line: `title ...`; the directives `dateFormat`,
//! `excludes`, `todayMarker` and `axisFormat`, which are skipped;
//! `section ...`, which starts a section; and tasks `name : options`, the
//! options separated by commas: the flags `done`, `active`, `crit` and
//! `milestone`, `after id` (start where that task ends), a duration `7d` or
//! `7`, and an id as the first option. A task without a start begins where
//! the previous one ended; one without an id is `t` and its number.
use vstd::prelude::*;
use crate::markdown::mermaid::flowchart::{key_index, lemma_key_index, map_put, opt_chars_of, trim_pieces};
use crate::markdown::mermaid::journey::trimmed_all;
use crate::markdown::mermaid::timeline::percent2;
use crate::text::{
    after_first, chars_of, contains_char, contains_spec, decimal, decimal_spec, ends_with_spec, eq_lower, lower_full_code,
    eq_lower_spec, extend_chars, find_char, find_spec, lemma_find_from_bounds, lines, lines_spec,
    parse_i32, parse_i32_spec, split_char, split_char_spec, starts_with, starts_with_lower,
    starts_with_lower_spec, starts_with_spec, string_of, trim, trim_spec, views_of,
};

verus! {

/// A task in a Gantt chart.
#[derive(Debug, Clone)]
pub struct GanttTask {
    pub id: String,
    pub name: String,
    pub section: Option<String>,
    pub start_day: i32,
    pub duration: i32,
    pub is_milestone: bool,
    pub is_done: bool,
    pub is_active: bool,
    pub is_crit: bool,
}

/// A section in a Gantt chart.
#[derive(Debug, Clone)]
pub struct GanttSection {
    pub name: String,
}

/// A Gantt chart.
#[derive(Debug, Clone)]
pub struct GanttChart {
    pub title: Option<String>,
    pub tasks: Vec<GanttTask>,
    pub sections: Vec<GanttSection>,
}

/// A task as plain values.
pub struct TaskV {
    pub id: Seq<char>,
    pub name: Seq<char>,
    pub section: Option<Seq<char>>,
    pub start_day: int,
    pub duration: int,
    pub is_milestone: bool,
    pub is_done: bool,
    pub is_active: bool,
    pub is_crit: bool,
}

pub open spec fn task_view(t: GanttTask) -> TaskV {
    TaskV {
        id: t.id@,
        name: t.name@,
        section: opt_chars_of(t.section),
        start_day: t.start_day as int,
        duration: t.duration as int,
        is_milestone: t.is_milestone,
        is_done: t.is_done,
        is_active: t.is_active,
        is_crit: t.is_crit,
    }
}

/// Tasks as plain values.
pub open spec fn tasks_view(v: Seq<GanttTask>) -> Seq<TaskV> {
    v.map_values(|t: GanttTask| task_view(t))
}

/// Section names.
pub open spec fn section_names(v: Seq<GanttSection>) -> Seq<Seq<char>> {
    v.map_values(|s: GanttSection| s.name@)
}

/// What the options of a task line have set so far.
pub struct TaskOpts {
    pub id: Seq<char>,
    pub start: int,
    pub duration: int,
    pub milestone: bool,
    pub done: bool,
    pub active: bool,
    pub crit: bool,
}

/// The end day of each task id so far; a later task with the same id
/// replaces the entry.
pub type EndDays = Seq<(Seq<char>, int)>;

/// What the `i`-th option of a task line does.
pub open spec fn task_part(o: TaskOpts, part: Seq<char>, i: int, ends: EndDays) -> TaskOpts {
    if eq_lower_spec(part, "done"@) {
        TaskOpts { done: true, ..o }
    } else if eq_lower_spec(part, "active"@) {
        TaskOpts { active: true, ..o }
    } else if eq_lower_spec(part, "crit"@) {
        TaskOpts { crit: true, ..o }
    } else if eq_lower_spec(part, "milestone"@) {
        TaskOpts { milestone: true, duration: 0, ..o }
    } else if starts_with_lower_spec(part, "after"@) {
        let k = key_index(ends, trim_spec(part.skip(5)));
        if k >= 0 {
            TaskOpts { start: ends[k].1, ..o }
        } else {
            o
        }
    } else if ends_with_spec(part, seq!['d']) {
        match parse_i32_spec(part.drop_last()) {
            Some(d) => TaskOpts { duration: d as int, ..o },
            None => o,
        }
    } else if i == 0 && !contains_spec(part, seq![' ']) {
        TaskOpts { id: part, ..o }
    } else {
        match parse_i32_spec(part) {
            Some(d) => TaskOpts { duration: d as int, ..o },
            None => o,
        }
    }
}

/// The options of a task line, in order.
pub open spec fn task_parts(o: TaskOpts, parts: Seq<Seq<char>>, ends: EndDays) -> TaskOpts
    decreases parts.len(),
{
    if parts.len() == 0 {
        o
    } else {
        task_part(task_parts(o, parts.drop_last(), ends), parts.last(), parts.len() - 1, ends)
    }
}

/// A task option that neither sets a duration nor clears the milestone
/// mark: one of the flags `done`, `active`, `crit`, `milestone` (in any
/// ASCII case), or an `after` dependency.
pub open spec fn is_flag_or_after(part: Seq<char>) -> bool {
    eq_lower_spec(part, "done"@) || eq_lower_spec(part, "active"@) || eq_lower_spec(part, "crit"@)
        || eq_lower_spec(part, "milestone"@) || starts_with_lower_spec(part, "after"@)
}

/// The options up to the `n`-th, from a `milestone` at `k` on.
proof fn lemma_milestone_prefix(o: TaskOpts, parts: Seq<Seq<char>>, ends: EndDays, k: int, n: int)
    requires
        0 <= k < n <= parts.len(),
        eq_lower_spec(parts[k], "milestone"@),
        forall|j: int| k < j < parts.len() ==> is_flag_or_after(#[trigger] parts[j]),
    ensures
        task_parts(o, parts.take(n), ends).milestone,
        task_parts(o, parts.take(n), ends).duration == 0,
    decreases n,
{
    reveal_strlit("done");
    reveal_strlit("active");
    reveal_strlit("crit");
    reveal_strlit("milestone");
    reveal_strlit("after");
    let t = parts.take(n);
    assert(t.drop_last() =~= parts.take(n - 1));
    assert(t.last() == parts[n - 1]);
    let part = parts[n - 1];
    if n - 1 == k {
        assert(!eq_lower_spec(part, "done"@));
        assert(!eq_lower_spec(part, "active"@));
        assert(!eq_lower_spec(part, "crit"@));
    } else {
        lemma_milestone_prefix(o, parts, ends, k, n - 1);
        assert(is_flag_or_after(parts[n - 1]));
    }
}

/// A `milestone` option makes the task a milestone of no length: where the
/// options after it are only flags or `after` dependencies, the task is a
/// milestone lasting 0 days, so it ends on the day it starts and the next
/// task starts there.
pub proof fn law_milestone_lasts_no_time(o: TaskOpts, parts: Seq<Seq<char>>, ends: EndDays, k: int)
    requires
        0 <= k < parts.len(),
        eq_lower_spec(parts[k], "milestone"@),
        forall|j: int| k < j < parts.len() ==> is_flag_or_after(#[trigger] parts[j]),
    ensures
        task_parts(o, parts, ends).milestone,
        task_parts(o, parts, ends).duration == 0,
        task_parts(o, parts, ends).start + task_parts(o, parts, ends).duration == task_parts(
            o,
            parts,
            ends,
        ).start,
{
    lemma_milestone_prefix(o, parts, ends, k, parts.len() as int);
    assert(parts.take(parts.len() as int) =~= parts);
}

/// Some option of the list is the word `w`, in any ASCII case.
pub open spec fn names_flag(parts: Seq<Seq<char>>, w: Seq<char>) -> bool {
    exists|k: int| 0 <= k < parts.len() && eq_lower_spec(#[trigger] parts[k], w)
}

/// Two different flag words are never both matched by one option.
proof fn lemma_flag_words_differ(part: Seq<char>)
    ensures
        !(eq_lower_spec(part, "done"@) && eq_lower_spec(part, "crit"@)),
{
    reveal_strlit("done");
    reveal_strlit("crit");
    if eq_lower_spec(part, "done"@) && eq_lower_spec(part, "crit"@) {
        assert(lower_full_code(part[0]) == 'd' as u32);
        assert(lower_full_code(part[0]) == 'c' as u32);
    }
}

/// A task is done, active, critical or a milestone exactly when one of its
/// options names that flag (`done`, `active`, `crit`, `milestone`, in any
/// ASCII case), or it was so before the options.
pub proof fn law_task_flags_named(o: TaskOpts, parts: Seq<Seq<char>>, ends: EndDays)
    ensures
        task_parts(o, parts, ends).done == (o.done || names_flag(parts, "done"@)),
        task_parts(o, parts, ends).active == (o.active || names_flag(parts, "active"@)),
        task_parts(o, parts, ends).crit == (o.crit || names_flag(parts, "crit"@)),
        task_parts(o, parts, ends).milestone == (o.milestone || names_flag(parts, "milestone"@)),
    decreases parts.len(),
{
    reveal_strlit("done");
    reveal_strlit("active");
    reveal_strlit("crit");
    reveal_strlit("milestone");
    if parts.len() > 0 {
        let d = parts.drop_last();
        let part = parts.last();
        law_task_flags_named(o, d, ends);
        lemma_flag_words_differ(part);
        assert(parts[parts.len() - 1] == part);
        assert forall|w: Seq<char>| #![trigger names_flag(parts, w)]
            names_flag(parts, w) == (names_flag(d, w) || eq_lower_spec(part, w)) by {
            if names_flag(parts, w) {
                let k = choose|k: int| 0 <= k < parts.len() && eq_lower_spec(#[trigger] parts[k], w);
                if k < parts.len() - 1 {
                    assert(d[k] == parts[k]);
                }
            }
            if names_flag(d, w) {
                let k = choose|k: int| 0 <= k < d.len() && eq_lower_spec(#[trigger] d[k], w);
                assert(parts[k] == d[k]);
            }
        }
        assert(names_flag(parts, "done"@) == (names_flag(d, "done"@) || eq_lower_spec(part, "done"@)));
        assert(names_flag(parts, "active"@) == (names_flag(d, "active"@) || eq_lower_spec(part, "active"@)));
        assert(names_flag(parts, "crit"@) == (names_flag(d, "crit"@) || eq_lower_spec(part, "crit"@)));
        assert(names_flag(parts, "milestone"@) == (names_flag(d, "milestone"@) || eq_lower_spec(
            part,
            "milestone"@,
        )));
    }
}

/// A task lasts the days its last option writes: where the last option is
/// a number `N` followed by `d` (and not a flag or an `after` dependency),
/// the task lasts `N` days, whatever the options before it said.
pub proof fn law_task_duration_from_last_option(o: TaskOpts, parts: Seq<Seq<char>>, ends: EndDays, n: i32)
    requires
        parts.len() > 0,
        !is_flag_or_after(parts.last()),
        parts.last().len() > 0 && parts.last().last() == 'd',
        parse_i32_spec(parts.last().drop_last()) == Some(n),
    ensures
        task_parts(o, parts, ends).duration == n as int,
        task_parts(o, parts, ends).milestone == task_parts(o, parts.drop_last(), ends).milestone,
{
    assert(ends_with_spec(parts.last(), seq!['d'])) by {
        assert(parts.last().subrange(parts.last().len() - 1, parts.last().len() as int) =~= seq!['d']);
    }
}

/// The parser between lines.
pub struct GanttState {
    pub title: Option<Seq<char>>,
    pub tasks: Seq<TaskV>,
    pub sections: Seq<Seq<char>>,
    pub current_section: Option<Seq<char>>,
    pub ends: EndDays,
    pub current_day: int,
    pub counter: int,
    pub panics: bool,
}

/// Whether `v` is an `i32`.
pub open spec fn in_i32(v: int) -> bool {
    i32::MIN <= v <= i32::MAX
}

/// The task of a task line (one with a `:`), numbered `n`, with the end
/// days `ends` and the day `day` on which the previous task ended.
pub open spec fn task_line(line: Seq<char>, n: int, ends: EndDays, day: int) -> TaskOpts {
    let c = find_spec(line, seq![':']).unwrap();
    let spec = trim_spec(line.skip(c + 1));
    let parts = trimmed_all(split_char_spec(spec, ','));
    let o0 = TaskOpts {
        id: seq!['t'] + decimal_spec(n as nat),
        start: day,
        duration: 1,
        milestone: false,
        done: false,
        active: false,
        crit: false,
    };
    task_parts(o0, parts, ends)
}

/// Whether the lowercase of `line` begins with one of the skipped
/// directives.
pub open spec fn skipped_directive(line: Seq<char>) -> bool {
    starts_with_lower_spec(line, "dateformat"@) || starts_with_lower_spec(line, "excludes"@)
        || starts_with_lower_spec(line, "todaymarker"@) || starts_with_lower_spec(line, "axisformat"@)
}

/// What one line does.
pub open spec fn gantt_step(st: GanttState, raw: Seq<char>) -> GanttState {
    let line = trim_spec(raw);
    if line.len() == 0 || starts_with_spec(line, percent2()) {
        st
    } else if starts_with_lower_spec(line, "title"@) {
        GanttState { title: Some(trim_spec(line.skip(5))), ..st }
    } else if skipped_directive(line) {
        st
    } else if starts_with_lower_spec(line, "section"@) {
        let name = trim_spec(line.skip(7));
        GanttState { sections: st.sections.push(name), current_section: Some(name), ..st }
    } else if contains_spec(line, seq![':']) {
        let n = st.counter + 1;
        let c = find_spec(line, seq![':']).unwrap();
        let o = task_line(line, n, st.ends, st.current_day);
        let end = o.start + o.duration;
        let task = TaskV {
            id: o.id,
            name: trim_spec(line.take(c)),
            section: st.current_section,
            start_day: o.start,
            duration: o.duration,
            is_milestone: o.milestone,
            is_done: o.done,
            is_active: o.active,
            is_crit: o.crit,
        };
        GanttState {
            tasks: st.tasks.push(task),
            ends: map_put(st.ends, o.id, end),
            current_day: end,
            counter: n,
            panics: st.panics || !in_i32(n) || !in_i32(end),
            ..st
        }
    } else {
        st
    }
}

/// The parser after the given lines.
pub open spec fn gantt_fold(ls: Seq<Seq<char>>) -> GanttState
    decreases ls.len(),
{
    if ls.len() == 0 {
        GanttState {
            title: None,
            tasks: seq![],
            sections: seq![],
            current_section: None,
            ends: seq![],
            current_day: 0,
            counter: 0,
            panics: false,
        }
    } else {
        gantt_step(gantt_fold(ls.drop_last()), ls.last())
    }
}

/// Whether a task number or an end day leaves the `i32` range, which the
/// parser does not survive.
pub open spec fn gantt_panics(source: Seq<char>) -> bool {
    gantt_fold(after_first(lines_spec(source))).panics
}

/// The title, tasks and section names of a Gantt source, or the error.
pub open spec fn gantt_spec(source: Seq<char>) -> Result<
    (Option<Seq<char>>, Seq<TaskV>, Seq<Seq<char>>),
    Seq<char>,
> {
    let st = gantt_fold(after_first(lines_spec(source)));
    if st.tasks.len() == 0 {
        Err("No tasks found in Gantt chart"@)
    } else {
        Ok((st.title, st.tasks, st.sections))
    }
}

/// The day after which a task is over: its start plus its duration.
pub open spec fn end_day(t: TaskV) -> int {
    t.start_day + t.duration
}

/// The day on which task `i` starts unless it says otherwise: the end of the
/// task before it, day 0 for the first.
pub open spec fn follow_day(tasks: Seq<TaskV>, i: int) -> int {
    if i == 0 {
        0
    } else {
        end_day(tasks[i - 1])
    }
}

/// Task `i` starts where the task before it ends, or where some earlier
/// task ends (one that an `after` option names).
pub open spec fn start_ok(tasks: Seq<TaskV>, i: int) -> bool {
    ||| tasks[i].start_day == follow_day(tasks, i)
    ||| exists|j: int| 0 <= j < i && tasks[i].start_day == #[trigger] end_day(tasks[j])
}

/// What the parser state keeps: the current day is where the last task
/// ends, every recorded end day is that of an earlier task, and every task
/// starts as `start_ok` says.
pub open spec fn gantt_inv(st: GanttState) -> bool {
    &&& st.current_day == follow_day(st.tasks, st.tasks.len() as int)
    &&& forall|q: int| 0 <= q < st.ends.len() ==> exists|j: int|
        0 <= j < st.tasks.len() && #[trigger] st.ends[q].1 == end_day(st.tasks[j])
    &&& forall|i: int| 0 <= i < st.tasks.len() ==> #[trigger] start_ok(st.tasks, i)
}

/// The options of a task line leave its start as it was or move it to one
/// of the recorded end days.
proof fn lemma_task_parts_start(o: TaskOpts, parts: Seq<Seq<char>>, ends: EndDays)
    ensures
        task_parts(o, parts, ends).start == o.start || exists|q: int|
            0 <= q < ends.len() && task_parts(o, parts, ends).start == #[trigger] ends[q].1,
    decreases parts.len(),
{
    if parts.len() > 0 {
        lemma_task_parts_start(o, parts.drop_last(), ends);
        let p = parts.last();
        if starts_with_lower_spec(p, "after"@) {
            lemma_key_index(ends, trim_spec(p.skip(5)));
        }
    }
}

/// Each line keeps the invariant.
proof fn lemma_gantt_step(st: GanttState, raw: Seq<char>)
    requires
        gantt_inv(st),
    ensures
        gantt_inv(gantt_step(st, raw)),
{
    let line = trim_spec(raw);
    let st2 = gantt_step(st, raw);
    if line.len() == 0 || starts_with_spec(line, percent2()) || starts_with_lower_spec(line, "title"@)
        || skipped_directive(line) || starts_with_lower_spec(line, "section"@) || !contains_spec(
        line,
        seq![':'],
    ) {
    } else {
        let n = st.counter + 1;
        let c = find_spec(line, seq![':']).unwrap();
        let o = task_line(line, n, st.ends, st.current_day);
        let spec = trim_spec(line.skip(c + 1));
        let parts = trimmed_all(split_char_spec(spec, ','));
        let o0 = TaskOpts {
            id: seq!['t'] + decimal_spec(n as nat),
            start: st.current_day,
            duration: 1,
            milestone: false,
            done: false,
            active: false,
            crit: false,
        };
        lemma_task_parts_start(o0, parts, st.ends);
        let t = st.tasks;
        let t2 = st2.tasks;
        let m = t.len() as int;
        assert(t2.len() == m + 1);
        assert forall|i: int| 0 <= i < m implies t2[i] == t[i] by {}
        assert(t2[m].start_day == o.start);
        assert(start_ok(t2, m)) by {
            if o.start != st.current_day {
                let q = choose|q: int| 0 <= q < st.ends.len() && o.start == #[trigger] st.ends[q].1;
                let j = choose|j: int| 0 <= j < t.len() && #[trigger] st.ends[q].1 == end_day(t[j]);
                assert(end_day(t2[j]) == end_day(t[j]));
            } else {
                if m > 0 {
                    assert(t2[m - 1] == t[m - 1]);
                }
            }
        }
        assert forall|i: int| 0 <= i < t2.len() implies #[trigger] start_ok(t2, i) by {
            if i < m {
                assert(start_ok(t, i));
                if i > 0 {
                    assert(t2[i - 1] == t[i - 1]);
                }
                if t[i].start_day != follow_day(t, i) {
                    let j = choose|j: int| 0 <= j < i && t[i].start_day == #[trigger] end_day(t[j]);
                    assert(end_day(t2[j]) == end_day(t[j]));
                }
            }
        }
        let e2 = st2.ends;
        lemma_key_index(st.ends, o.id);
        assert forall|q: int| 0 <= q < e2.len() implies exists|j: int|
            0 <= j < t2.len() && #[trigger] e2[q].1 == end_day(t2[j]) by {
            let k = key_index(st.ends, o.id);
            if (k >= 0 && q == k) || (k < 0 && q == st.ends.len()) {
                assert(e2[q].1 == o.start + o.duration);
                assert(end_day(t2[m]) == e2[q].1);
            } else {
                assert(e2[q] == st.ends[q]);
                let j = choose|j: int| 0 <= j < t.len() && #[trigger] st.ends[q].1 == end_day(t[j]);
                assert(end_day(t2[j]) == end_day(t[j]));
            }
        }
        assert(st2.current_day == end_day(t2[m]));
    }
}

/// The invariant holds after any lines.
proof fn lemma_gantt_fold(ls: Seq<Seq<char>>)
    ensures
        gantt_inv(gantt_fold(ls)),
    decreases ls.len(),
{
    if ls.len() > 0 {
        lemma_gantt_fold(ls.drop_last());
        lemma_gantt_step(gantt_fold(ls.drop_last()), ls.last());
    }
}

/// Each task of a parsed Gantt chart starts where the task before it ends
/// (the first on day 0), or, by an `after` option, where an earlier task
/// ends.
pub proof fn law_gantt_start_days(source: Seq<char>)
    requires
        gantt_spec(source) is Ok,
    ensures
        ({
            let tasks = gantt_spec(source)->Ok_0.1;
            forall|i: int| 0 <= i < tasks.len() ==> #[trigger] start_ok(tasks, i)
        }),
{
    lemma_gantt_fold(after_first(lines_spec(source)));
}

// ─────────────────────────── the exact start rule ────────────────────────────

/// Changing the value at `i` keeps every key's index.
proof fn lemma_key_index_update<K, V>(m: Seq<(K, V)>, i: int, k: K, v: V, x: K)
    requires
        0 <= i < m.len(),
        m[i].0 == k,
    ensures
        key_index(m.update(i, (k, v)), x) == key_index(m, x),
    decreases m.len(),
{
    let m2 = m.update(i, (k, v));
    if m.len() > 0 {
        if i < m.len() - 1 {
            assert(m2.drop_last() =~= m.drop_last().update(i, (k, v)));
            lemma_key_index_update(m.drop_last(), i, k, v, x);
        } else {
            assert(m2.drop_last() =~= m.drop_last());
        }
    }
}

/// After putting `v` at key `k`, `k` holds `v` and every other key keeps its
/// index and value.
proof fn lemma_map_put<V>(m: Seq<(Seq<char>, V)>, k: Seq<char>, v: V, x: Seq<char>)
    ensures
        key_index(map_put(m, k, v), k) >= 0,
        map_put(m, k, v)[key_index(map_put(m, k, v), k)].1 == v,
        x != k ==> key_index(map_put(m, k, v), x) == key_index(m, x),
        x != k && key_index(m, x) >= 0 ==> map_put(m, k, v)[key_index(m, x)].1 == m[key_index(m, x)].1,
{
    lemma_key_index(m, k);
    lemma_key_index(m, x);
    let i = key_index(m, k);
    if i >= 0 {
        lemma_key_index_update(m, i, k, v, k);
        lemma_key_index_update(m, i, k, v, x);
    } else {
        let m2 = m.push((k, v));
        assert(m2.drop_last() =~= m);
        if x != k && key_index(m, x) >= 0 {
            assert(m2[key_index(m, x)] == m[key_index(m, x)]);
        }
    }
}

/// The index of the last of the first `i` tasks with id `x`, or -1.
pub open spec fn last_task_with_id(tasks: Seq<TaskV>, i: int, x: Seq<char>) -> int
    decreases i,
{
    if i <= 0 {
        -1
    } else if tasks[i - 1].id == x {
        i - 1
    } else {
        last_task_with_id(tasks, i - 1, x)
    }
}

proof fn lemma_last_task_bounds(tasks: Seq<TaskV>, i: int, x: Seq<char>)
    ensures
        -1 <= last_task_with_id(tasks, i, x) < if i > 0 { i } else { 0 },
        last_task_with_id(tasks, i, x) >= 0 ==> tasks[last_task_with_id(tasks, i, x)].id == x,
    decreases i,
{
    if i > 0 {
        lemma_last_task_bounds(tasks, i - 1, x);
    }
}

/// The task an option names when it is `after X`.
pub open spec fn after_name(part: Seq<char>) -> Option<Seq<char>> {
    if starts_with_lower_spec(part, "after"@) {
        Some(trim_spec(part.skip(5)))
    } else {
        None
    }
}

/// The start that the `after` options of a task line set, given the tasks
/// before it: the end of the latest earlier task named by the last `after`
/// option that names one; `None` without such an option.
pub open spec fn after_start(parts: Seq<Seq<char>>, tasks: Seq<TaskV>) -> Option<int>
    decreases parts.len(),
{
    if parts.len() == 0 {
        None
    } else {
        match after_name(parts.last()) {
            Some(x) => {
                let j = last_task_with_id(tasks, tasks.len() as int, x);
                if j >= 0 {
                    Some(end_day(tasks[j]))
                } else {
                    after_start(parts.drop_last(), tasks)
                }
            },
            None => after_start(parts.drop_last(), tasks),
        }
    }
}

/// The options of a task line.
pub open spec fn task_line_parts(line: Seq<char>) -> Seq<Seq<char>> {
    let c = find_spec(line, seq![':']).unwrap();
    trimmed_all(split_char_spec(trim_spec(line.skip(c + 1)), ','))
}

/// The recorded end days are those of the latest task with each id.
pub open spec fn ends_follow_tasks(st: GanttState) -> bool {
    forall|x: Seq<char>|
        #![trigger key_index(st.ends, x)]
        {
            let j = last_task_with_id(st.tasks, st.tasks.len() as int, x);
            &&& (key_index(st.ends, x) >= 0 <==> j >= 0)
            &&& key_index(st.ends, x) >= 0 ==> st.ends[key_index(st.ends, x)].1 == end_day(st.tasks[j])
        }
}

/// The options of a task line move its start exactly as `after_start` says.
proof fn lemma_parts_start(o: TaskOpts, parts: Seq<Seq<char>>, st: GanttState)
    requires
        ends_follow_tasks(st),
    ensures
        task_parts(o, parts, st.ends).start == match after_start(parts, st.tasks) {
            Some(d) => d,
            None => o.start,
        },
    decreases parts.len(),
{
    reveal_strlit("after");
    reveal_strlit("done");
    reveal_strlit("active");
    reveal_strlit("crit");
    reveal_strlit("milestone");
    if parts.len() > 0 {
        lemma_parts_start(o, parts.drop_last(), st);
        let p = parts.last();
        if starts_with_lower_spec(p, "after"@) {
            assert(!eq_lower_spec(p, "done"@)) by {
                assert(lower_full_code(p[0]) == 'a' as u32);
            }
            assert(!eq_lower_spec(p, "active"@)) by {
                assert(lower_full_code(p[1]) == 'f' as u32);
            }
            assert(!eq_lower_spec(p, "crit"@)) by {
                assert(lower_full_code(p[0]) == 'a' as u32);
            }
            assert(!eq_lower_spec(p, "milestone"@)) by {
                assert(lower_full_code(p[0]) == 'a' as u32);
            }
            let x = trim_spec(p.skip(5));
            lemma_key_index(st.ends, x);
            lemma_last_task_bounds(st.tasks, st.tasks.len() as int, x);
        }
    }
}

/// Each line keeps the end days following the tasks.
proof fn lemma_gantt_step_ends(st: GanttState, raw: Seq<char>)
    requires
        ends_follow_tasks(st),
    ensures
        ends_follow_tasks(gantt_step(st, raw)),
{
    let line = trim_spec(raw);
    let st2 = gantt_step(st, raw);
    if line.len() == 0 || starts_with_spec(line, percent2()) || starts_with_lower_spec(line, "title"@)
        || skipped_directive(line) || starts_with_lower_spec(line, "section"@) || !contains_spec(
        line,
        seq![':'],
    ) {
    } else {
        let n = st.counter + 1;
        let o = task_line(line, n, st.ends, st.current_day);
        let t = st.tasks;
        let t2 = st2.tasks;
        let m = t.len() as int;
        assert forall|x: Seq<char>| #![trigger key_index(st2.ends, x)]
            {
                let j = last_task_with_id(t2, t2.len() as int, x);
                &&& (key_index(st2.ends, x) >= 0 <==> j >= 0)
                &&& key_index(st2.ends, x) >= 0 ==> st2.ends[key_index(st2.ends, x)].1 == end_day(t2[j])
            } by {
            lemma_map_put(st.ends, o.id, o.start + o.duration, x);
            assert(t2[m].id == o.id);
            if x != o.id {
                assert(last_task_with_id(t2, m + 1, x) == last_task_with_id(t2, m, x));
                assert forall|i: int| 0 <= i <= m implies last_task_with_id(t2, i, x) == last_task_with_id(t, i, x) by {
                    lemma_last_same(t, t2, i, x);
                }
                let j = last_task_with_id(t, m, x);
                lemma_last_task_bounds(t, m, x);
                assert(key_index(st.ends, x) >= 0 ==> st.ends[key_index(st.ends, x)].1 == end_day(t[j]));
                if j >= 0 {
                    assert(t2[j] == t[j]);
                }
            } else {
                assert(last_task_with_id(t2, m + 1, x) == m);
            }
        }
    }
}

/// On a common prefix, the last task with an id is the same.
proof fn lemma_last_same(t: Seq<TaskV>, t2: Seq<TaskV>, i: int, x: Seq<char>)
    requires
        0 <= i <= t.len(),
        i <= t2.len(),
        forall|k: int| 0 <= k < t.len() ==> t2[k] == t[k],
    ensures
        last_task_with_id(t2, i, x) == last_task_with_id(t, i, x),
    decreases i,
{
    if i > 0 {
        assert(t2[i - 1] == t[i - 1]);
        lemma_last_same(t, t2, i - 1, x);
    }
}

/// The end days follow the tasks after any lines.
proof fn lemma_gantt_fold_ends(ls: Seq<Seq<char>>)
    ensures
        ends_follow_tasks(gantt_fold(ls)),
    decreases ls.len(),
{
    if ls.len() > 0 {
        lemma_gantt_fold_ends(ls.drop_last());
        lemma_gantt_step_ends(gantt_fold(ls.drop_last()), ls.last());
    } else {
        let st = gantt_fold(ls);
        assert forall|x: Seq<char>| #![trigger key_index(st.ends, x)]
            {
                let j = last_task_with_id(st.tasks, st.tasks.len() as int, x);
                &&& (key_index(st.ends, x) >= 0 <==> j >= 0)
                &&& key_index(st.ends, x) >= 0 ==> st.ends[key_index(st.ends, x)].1 == end_day(st.tasks[j])
            } by {
        }
    }
}

/// The exact start rule of a Gantt task: a task line read after lines `ls`
/// starts where the latest earlier task named by its last `after` option
/// that names one ends; without such an option, where the task before it
/// ends (day 0 for the first task).
pub proof fn law_gantt_start_rule(ls: Seq<Seq<char>>, raw: Seq<char>)
    requires
        gantt_fold(ls.push(raw)).tasks.len() == gantt_fold(ls).tasks.len() + 1,
    ensures
        ({
            let before = gantt_fold(ls).tasks;
            let t = gantt_fold(ls.push(raw)).tasks.last();
            t.start_day == match after_start(task_line_parts(trim_spec(raw)), before) {
                Some(d) => d,
                None => follow_day(before, before.len() as int),
            }
        }),
{
    let st = gantt_fold(ls);
    assert(ls.push(raw).drop_last() =~= ls);
    lemma_gantt_fold_ends(ls);
    lemma_gantt_fold(ls);
    let line = trim_spec(raw);
    let n = st.counter + 1;
    let o0 = TaskOpts {
        id: seq!['t'] + decimal_spec(n as nat),
        start: st.current_day,
        duration: 1,
        milestone: false,
        done: false,
        active: false,
        crit: false,
    };
    lemma_parts_start(o0, task_line_parts(line), st);
}

/// End days as plain values.
pub open spec fn ends_view(v: Seq<(String, i32)>) -> EndDays {
    v.map_values(|p: (String, i32)| (p.0@, p.1 as int))
}

/// The parser's state.
struct GanttParser {
    title: Option<String>,
    tasks: Vec<GanttTask>,
    sections: Vec<GanttSection>,
    current_section: Option<String>,
    ends: Vec<(String, i32)>,
    current_day: i32,
    counter: i32,
}

spec fn parser_view(p: GanttParser) -> GanttState {
    GanttState {
        title: opt_chars_of(p.title),
        tasks: tasks_view(p.tasks@),
        sections: section_names(p.sections@),
        current_section: opt_chars_of(p.current_section),
        ends: ends_view(p.ends@),
        current_day: p.current_day as int,
        counter: p.counter as int,
        panics: false,
    }
}

/// The end day recorded for `id`.
fn end_of(ends: &Vec<(String, i32)>, id: &[char]) -> (r: Option<i32>)
    ensures
        ({
            let k = key_index(ends_view(ends@), id@);
            &&& r is Some <==> k >= 0
            &&& r matches Some(d) ==> d as int == ends_view(ends@)[k].1
        }),
{
    let ghost ev = ends_view(ends@);
    let key = string_of(id);
    proof {
        lemma_key_index(ev, id@);
    }
    let mut i: usize = 0;
    while i < ends.len()
        invariant
            i <= ends@.len(),
            ev == ends_view(ends@),
            key@ == id@,
            forall|j: int| 0 <= j < i ==> #[trigger] ev[j].0 != id@,
        decreases ends@.len() - i,
    {
        if ends[i].0 == key {
            proof {
                lemma_key_index(ev, id@);
                assert(ev[i as int].0 == id@);
            }
            return Some(ends[i].1);
        }
        i = i + 1;
    }
    proof {
        lemma_key_index(ev, id@);
    }
    None
}

/// Record the end day `v` of task `k`.
fn put_end(m: &mut Vec<(String, i32)>, k: String, v: i32)
    ensures
        ends_view(final(m)@) == map_put(ends_view(old(m)@), k@, v as int),
{
    let ghost mv = ends_view(m@);
    proof {
        lemma_key_index(mv, k@);
    }
    let mut i: usize = 0;
    while i < m.len()
        invariant
            i <= m@.len(),
            m@ == old(m)@,
            mv == ends_view(m@),
            forall|j: int| 0 <= j < i ==> #[trigger] mv[j].0 != k@,
        decreases m@.len() - i,
    {
        if m[i].0 == k {
            proof {
                lemma_key_index(mv, k@);
                assert(mv[i as int].0 == k@);
            }
            m.set(i, (k, v));
            assert(ends_view(m@) =~= mv.update(i as int, (k@, v as int)));
            return;
        }
        i = i + 1;
    }
    proof {
        lemma_key_index(mv, k@);
    }
    let ghost kv = (k@, v as int);
    m.push((k, v));
    assert(ends_view(m@) =~= mv.push(kv));
}

/// The options of a task line in executable form.
struct Opts {
    id: Vec<char>,
    start: i32,
    duration: i32,
    milestone: bool,
    done: bool,
    active: bool,
    crit: bool,
}

spec fn opts_view(o: Opts) -> TaskOpts {
    TaskOpts {
        id: o.id@,
        start: o.start as int,
        duration: o.duration as int,
        milestone: o.milestone,
        done: o.done,
        active: o.active,
        crit: o.crit,
    }
}

/// Apply the `i`-th option of a task line.
fn apply_part(o: &mut Opts, part: &Vec<char>, i: usize, ends: &Vec<(String, i32)>)
    ensures
        opts_view(*final(o)) == task_part(opts_view(*old(o)), part@, i as int, ends_view(ends@)),
{
    let w_done = chars_of("done");
    let w_active = chars_of("active");
    let w_crit = chars_of("crit");
    let w_milestone = chars_of("milestone");
    let w_after = chars_of("after");
    proof {
        reveal_strlit("done");
        reveal_strlit("active");
        reveal_strlit("crit");
        reveal_strlit("milestone");
        reveal_strlit("after");
    }
    let ends_d = part.len() > 0 && part[part.len() - 1] == 'd';
    proof {
        if part@.len() > 0 {
            let last = part@.subrange(part@.len() - 1, part@.len() as int);
            assert(last[0] == part@[part@.len() - 1]);
            if ends_d {
                assert(last =~= seq!['d']);
            }
        }
        assert(ends_d == ends_with_spec(part@, seq!['d']));
    }
    if eq_lower(part.as_slice(), w_done.as_slice()) {
        o.done = true;
    } else if eq_lower(part.as_slice(), w_active.as_slice()) {
        o.active = true;
    } else if eq_lower(part.as_slice(), w_crit.as_slice()) {
        o.crit = true;
    } else if eq_lower(part.as_slice(), w_milestone.as_slice()) {
        o.milestone = true;
        o.duration = 0;
    } else if starts_with_lower(part.as_slice(), w_after.as_slice()) {
        let after_id = trim(&part.as_slice()[5..part.len()]);
        assert(part@.subrange(5, part@.len() as int) =~= part@.skip(5));
        match end_of(ends, after_id.as_slice()) {
            Some(d) => {
                o.start = d;
            },
            None => {},
        }
    } else if ends_d {
        let body = &part.as_slice()[0..part.len() - 1];
        assert(body@ =~= part@.drop_last());
        match parse_i32(body) {
            Some(d) => {
                o.duration = d;
            },
            None => {},
        }
    } else if i == 0 && !contains_char(part.as_slice(), ' ') {
        o.id = crate::text::slice_copy(part.as_slice(), 0, part.len());
        assert(part@.subrange(0, part@.len() as int) =~= part@);
    } else {
        match parse_i32(part.as_slice()) {
            Some(d) => {
                o.duration = d;
            },
            None => {},
        }
    }
}

/// `"t"` and the number `n`.
fn default_id(n: i32) -> (r: Vec<char>)
    requires
        n >= 0,
    ensures
        r@ == seq!['t'] + decimal_spec(n as nat),
{
    let mut r: Vec<char> = vec!['t'];
    let d = decimal(n as u64);
    extend_chars(&mut r, d.as_slice());
    r
}

/// Apply one line; `true`, with the parser state left as it was, where the
/// line would make the parser panic (a task number or end day outside
/// `i32`).
fn gantt_line(p: &mut GanttParser, raw: &[char]) -> (panicked: bool)
    requires
        old(p).counter >= 0,
    ensures
        panicked == gantt_step(parser_view(*old(p)), raw@).panics,
        !panicked ==> parser_view(*final(p)) == gantt_step(parser_view(*old(p)), raw@),
        final(p).counter >= 0,
{
    let ghost st = parser_view(*p);
    let line = trim(raw);
    let pct: Vec<char> = vec!['%', '%'];
    assert(pct@ =~= percent2());
    if line.len() == 0 || starts_with(line.as_slice(), pct.as_slice()) {
        return false;
    }
    let w_title = chars_of("title");
    let w_date = chars_of("dateformat");
    let w_excl = chars_of("excludes");
    let w_today = chars_of("todaymarker");
    let w_axis = chars_of("axisformat");
    let w_section = chars_of("section");
    proof {
        reveal_strlit("title");
        reveal_strlit("dateformat");
        reveal_strlit("excludes");
        reveal_strlit("todaymarker");
        reveal_strlit("axisformat");
        reveal_strlit("section");
    }
    if starts_with_lower(line.as_slice(), w_title.as_slice()) {
        let rest = trim(&line.as_slice()[5..line.len()]);
        assert(line@.subrange(5, line@.len() as int) =~= line@.skip(5));
        p.title = Some(string_of(rest.as_slice()));
        return false;
    }
    if starts_with_lower(line.as_slice(), w_date.as_slice()) || starts_with_lower(line.as_slice(), w_excl.as_slice())
        || starts_with_lower(line.as_slice(), w_today.as_slice()) || starts_with_lower(
        line.as_slice(),
        w_axis.as_slice(),
    ) {
        return false;
    }
    if starts_with_lower(line.as_slice(), w_section.as_slice()) {
        let rest = trim(&line.as_slice()[7..line.len()]);
        assert(line@.subrange(7, line@.len() as int) =~= line@.skip(7));
        let ghost before = section_names(p.sections@);
        p.sections.push(GanttSection { name: string_of(rest.as_slice()) });
        assert(section_names(p.sections@) =~= before.push(rest@));
        p.current_section = Some(string_of(rest.as_slice()));
        return false;
    }
    if contains_char(line.as_slice(), ':') {
        let n = match p.counter.checked_add(1) {
            Some(n) => n,
            None => {
                return true;
            },
        };
        let c = find_char(line.as_slice(), ':').unwrap();
        proof {
            lemma_find_from_bounds(line@, seq![':'], 0);
        }
        let name = trim(&line.as_slice()[0..c]);
        assert(line@.subrange(0, c as int) =~= line@.take(c as int));
        let spec = trim(&line.as_slice()[c + 1..line.len()]);
        assert(line@.subrange(c + 1, line@.len() as int) =~= line@.skip(c + 1));
        let pieces = split_char(spec.as_slice(), ',');
        let parts = trim_pieces(&pieces);
        let ghost pv = views_of(parts@);
        let mut o = Opts {
            id: default_id(n),
            start: p.current_day,
            duration: 1,
            milestone: false,
            done: false,
            active: false,
            crit: false,
        };
        let ghost o0 = opts_view(o);
        let mut i: usize = 0;
        assert(pv.take(0) =~= seq![]);
        while i < parts.len()
            invariant
                i <= parts@.len(),
                pv == views_of(parts@),
                opts_view(o) == task_parts(o0, pv.take(i as int), ends_view(p.ends@)),
            decreases parts@.len() - i,
        {
            assert(pv.take(i + 1 as int).drop_last() =~= pv.take(i as int));
            assert(pv[i as int] == parts@[i as int]@);
            apply_part(&mut o, &parts[i], i, &p.ends);
            i = i + 1;
        }
        assert(pv.take(parts@.len() as int) =~= pv);
        assert(opts_view(o) == task_line(line@, n as int, st.ends, st.current_day));
        let end = match o.start.checked_add(o.duration) {
            Some(e) => e,
            None => {
                return true;
            },
        };
        let id = string_of(o.id.as_slice());
        let task = GanttTask {
            id: string_of(o.id.as_slice()),
            name: string_of(name.as_slice()),
            section: match &p.current_section {
                Some(s) => Some(s.clone()),
                None => None,
            },
            start_day: o.start,
            duration: o.duration,
            is_milestone: o.milestone,
            is_done: o.done,
            is_active: o.active,
            is_crit: o.crit,
        };
        put_end(&mut p.ends, id, end);
        p.current_day = end;
        p.counter = n;
        let ghost before = tasks_view(p.tasks@);
        p.tasks.push(task);
        assert(tasks_view(p.tasks@) =~= before.push(task_view(task)));
    }
    false
}

/// Parse a Gantt chart from source; an error when it has no task.
pub fn parse_gantt_chart(source: &str) -> (r: Result<GanttChart, String>)
    requires
        !gantt_panics(source@),
    ensures
        match r {
            Ok(c) => gantt_spec(source@) == Ok::<(Option<Seq<char>>, Seq<TaskV>, Seq<Seq<char>>), Seq<char>>(
                (opt_chars_of(c.title), tasks_view(c.tasks@), section_names(c.sections@)),
            ),
            Err(e) => gantt_spec(source@) == Err::<(Option<Seq<char>>, Seq<TaskV>, Seq<Seq<char>>), Seq<char>>(e@),
        },
{
    let src = chars_of(source);
    let ls = lines(src.as_slice());
    let ghost all = after_first(lines_spec(source@));
    let mut p = GanttParser {
        title: None,
        tasks: Vec::new(),
        sections: Vec::new(),
        current_section: None,
        ends: Vec::new(),
        current_day: 0,
        counter: 0,
    };
    proof {
        assert(parser_view(p) =~= gantt_fold(all.take(0))) by {
            assert(all.take(0) =~= seq![]);
            assert(tasks_view(p.tasks@) =~= seq![]);
            assert(section_names(p.sections@) =~= seq![]);
            assert(ends_view(p.ends@) =~= seq![]);
        }
        lemma_gantt_prefix(all, 0);
    }
    let mut i: usize = 1;
    while i < ls.len()
        invariant
            1 <= i,
            views_of(ls@) == lines_spec(source@),
            all == after_first(lines_spec(source@)),
            i <= ls@.len() || i == 1,
            !gantt_fold(all).panics,
            parser_view(p) == gantt_fold(all.take(i - 1)),
            p.counter >= 0,
        decreases ls@.len() - i,
    {
        proof {
            assert(all.take(i as int).drop_last() =~= all.take(i - 1));
            assert(all.take(i as int).last() == ls@[i as int]@);
            lemma_gantt_prefix(all, i as int);
        }
        let _ = gantt_line(&mut p, ls[i].as_slice());
        i = i + 1;
    }
    proof {
        assert(views_of(ls@).len() == ls@.len());
        assert(all.take(i - 1) =~= all);
        reveal_strlit("No tasks found in Gantt chart");
    }
    if p.tasks.len() == 0 {
        return Err(String::from_str("No tasks found in Gantt chart"));
    }
    Ok(GanttChart { title: p.title, tasks: p.tasks, sections: p.sections })
}

/// Whether parsing `source` as a Gantt chart would overflow, where a task's
/// number or end day leaves `i32` (the parsing would panic).
/// [`parse_gantt_chart`] may be called exactly when this is false.
pub fn gantt_would_panic(source: &str) -> (b: bool)
    ensures
        b == gantt_panics(source@),
{
    let src = chars_of(source);
    let ls = lines(src.as_slice());
    let ghost all = after_first(lines_spec(source@));
    let mut p = GanttParser {
        title: None,
        tasks: Vec::new(),
        sections: Vec::new(),
        current_section: None,
        ends: Vec::new(),
        current_day: 0,
        counter: 0,
    };
    proof {
        assert(parser_view(p) =~= gantt_fold(all.take(0))) by {
            assert(all.take(0) =~= seq![]);
            assert(tasks_view(p.tasks@) =~= seq![]);
            assert(section_names(p.sections@) =~= seq![]);
            assert(ends_view(p.ends@) =~= seq![]);
        }
    }
    let mut i: usize = 1;
    while i < ls.len()
        invariant
            1 <= i,
            views_of(ls@) == lines_spec(source@),
            all == after_first(lines_spec(source@)),
            i <= ls@.len() || i == 1,
            parser_view(p) == gantt_fold(all.take(i - 1)),
            p.counter >= 0,
        decreases ls@.len() - i,
    {
        proof {
            assert(all.take(i as int).drop_last() =~= all.take(i - 1));
            assert(all.take(i as int).last() == ls@[i as int]@);
        }
        if gantt_line(&mut p, ls[i].as_slice()) {
            proof {
                lemma_gantt_prefix(all, i as int);
            }
            return true;
        }
        i = i + 1;
    }
    proof {
        assert(views_of(ls@).len() == ls@.len());
        assert(all.take(i - 1) =~= all);
    }
    false
}

/// A line never clears the panic flag.
proof fn lemma_gantt_prefix(all: Seq<Seq<char>>, k: int)
    requires
        0 <= k <= all.len(),
    ensures
        gantt_fold(all.take(k)).panics ==> gantt_fold(all).panics,
    decreases all.len() - k,
{
    if k < all.len() {
        lemma_gantt_prefix(all, k + 1);
        assert(all.take(k + 1).drop_last() =~= all.take(k));
    } else {
        assert(all.take(k) =~= all);
    }
}

} // verus!
