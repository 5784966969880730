//! Tests of the Gantt chart parser.
use ferrite_core::markdown::mermaid::gantt::{gantt_would_panic, parse_gantt_chart};

const SAMPLE: &str = "gantt
    title A Gantt Diagram
    dateFormat YYYY-MM-DD
    section Section
    A task           :a1, 2014-01-01, 30d
    Another task     :after a1, 20d
    section Another
    Task in sec      :crit, 12d
    Milestone        :milestone, m1, 0d";

#[test]
fn test_gantt_tasks() {
    let c = parse_gantt_chart(SAMPLE).unwrap();
    assert_eq!(c.title, Some("A Gantt Diagram".to_string()));
    let names: Vec<&str> = c.sections.iter().map(|s| s.name.as_str()).collect();
    assert_eq!(names, vec!["Section", "Another"]);
    assert_eq!(c.tasks.len(), 4);
    let t = &c.tasks;
    assert_eq!((t[0].id.as_str(), t[0].name.as_str(), t[0].start_day, t[0].duration), ("a1", "A task", 0, 30));
    assert_eq!((t[1].id.as_str(), t[1].start_day, t[1].duration), ("t2", 30, 20));
    assert_eq!((t[2].id.as_str(), t[2].start_day, t[2].duration), ("t3", 50, 12));
    assert!(t[2].is_crit);
    assert_eq!((t[3].id.as_str(), t[3].start_day, t[3].duration), ("t4", 62, 0));
    assert!(t[3].is_milestone);
    assert_eq!(t[0].section, Some("Section".to_string()));
    assert_eq!(t[3].section, Some("Another".to_string()));
}

#[test]
fn test_gantt_flags_and_plain_duration() {
    let c = parse_gantt_chart("gantt\n Write : DONE, Active, 5\n Ship : after t1").unwrap();
    assert!(c.tasks[0].is_done);
    assert!(c.tasks[0].is_active);
    assert_eq!(c.tasks[0].duration, 5);
    assert_eq!(c.tasks[0].section, None);
    assert_eq!(c.tasks[1].start_day, 5);
    assert_eq!(c.tasks[1].duration, 1);
}

#[test]
fn test_gantt_after_missing_task() {
    let c = parse_gantt_chart("gantt\n One : x1, 3d\n Two : after nothing, 2d").unwrap();
    assert_eq!(c.tasks[1].start_day, 3);
}

#[test]
fn test_gantt_no_tasks() {
    assert_eq!(parse_gantt_chart("gantt\n title Empty").unwrap_err(), "No tasks found in Gantt chart");
}

#[test]
fn test_gantt_tasks_follow_one_another() {
    let c = parse_gantt_chart("gantt\n    section S\n    a :a1, 3d\n    b :after a1, 2d\n    c :2d\n    d :after zz, 1d\n    e :after a1, 1d").unwrap();
    let starts: Vec<i32> = c.tasks.iter().map(|t| t.start_day).collect();
    assert_eq!(starts, vec![0, 3, 5, 7, 3]);
}

#[test]
fn test_gantt_last_after_option_naming_a_task_wins() {
    let c = parse_gantt_chart("gantt\n    a :a1, 3d\n    b :b1, 4d\n    c :after b1, after a1, after zz, 2d\n    a :a1, 1d\n    d :after a1, 1d").unwrap();
    let starts: Vec<i32> = c.tasks.iter().map(|t| t.start_day).collect();
    // c: `after a1` is the last option naming a task, so it starts at day 3;
    // d: the latest task with id a1 ends on day 6.
    assert_eq!(starts, vec![0, 3, 3, 5, 6]);
}

#[test]
fn test_gantt_panic_check() {
    assert!(!gantt_would_panic(SAMPLE));
    assert!(gantt_would_panic("gantt\n    a :a1, 2147483647d\n    b :1d"));
    assert!(!gantt_would_panic("gantt\n    a :a1, 2147483647d"));
}
