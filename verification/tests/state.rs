//! Tests of the state diagram parser.
use ferrite_core::markdown::mermaid::state::{parse_state_diagram, State, Transition, TransitionKind};
use ferrite_core::markdown::mermaid::state_layers::state_columns;

const SAMPLE: &str = "stateDiagram-v2
    [*] --> Still
    Still --> [*]
    Still --> Moving : push
    state Moving {
        [*] --> Fast
        Fast --> Slow
    }
    Moving --> Crash";

#[test]
fn test_state_diagram_states() {
    let d = parse_state_diagram(SAMPLE).unwrap();
    let ids: Vec<&str> = d.states.iter().map(|s| s.id.as_str()).collect();
    assert_eq!(ids, vec!["__start__", "Still", "__end__", "Moving", "Moving", "Crash"]);
    assert!(d.states[0].is_start);
    assert_eq!(d.states[0].label, "●");
    assert!(d.states[2].is_end);
    assert_eq!(d.states[2].label, "◉");
    let comp = &d.states[4];
    assert!(comp.is_composite());
    assert!(!d.states[3].is_composite());
    let kids: Vec<&str> = comp.children.iter().map(|s| s.id.as_str()).collect();
    assert_eq!(kids, vec!["__start__", "Fast", "Slow"]);
    for k in &comp.children {
        assert_eq!(k.parent, Some("Moving".to_string()));
    }
    assert_eq!(d.states[1].parent, None);
}

#[test]
fn test_state_diagram_transitions() {
    let d = parse_state_diagram(SAMPLE).unwrap();
    assert_eq!(d.transitions.len(), 4);
    assert_eq!(d.transitions[2].label, Some("push".to_string()));
    // the nested `__start__` recorded last gives the outer one its ancestry
    assert_eq!(d.transitions[0].source_scope, Some("Moving".to_string()));
    assert_eq!(d.transitions[0].kind, TransitionKind::Exit);
    assert_eq!(d.transitions[1].kind, TransitionKind::Internal);
    assert_eq!(d.transitions[1].lca_scope, None);
    let inner = &d.states[4].internal_transitions;
    assert_eq!(inner.len(), 2);
    assert_eq!(inner[1].from, "Fast");
    assert_eq!(inner[1].to, "Slow");
    assert_eq!(inner[1].kind, TransitionKind::Internal);
    assert_eq!(inner[1].source_scope, Some("Moving".to_string()));
    assert_eq!(inner[1].lca_scope, Some("Moving".to_string()));
}

#[test]
fn test_state_diagram_enter_exit_cross() {
    let src = "stateDiagram\n X --> a1\n a1 --> Y\n state A {\n [*] --> a1\n }";
    let d = parse_state_diagram(src).unwrap();
    assert_eq!(d.transitions[0].kind, TransitionKind::Enter);
    assert_eq!(d.transitions[0].source_scope, None);
    assert_eq!(d.transitions[0].target_scope, Some("A".to_string()));
    assert_eq!(d.transitions[1].kind, TransitionKind::Exit);
    let src = "stateDiagram\n p --> q\n state A {\n [*] --> p\n }\n state B {\n [*] --> q\n }";
    let d = parse_state_diagram(src).unwrap();
    assert_eq!(d.transitions[0].kind, TransitionKind::CrossHierarchy);
    assert_eq!(d.transitions[0].lca_scope, None);
}

#[test]
fn test_state_diagram_bare_names_ignored() {
    // a line with neither `state` nor `-->` declares nothing
    let d = parse_state_diagram("stateDiagram\n state A {\n a1\n }\n A --> B").unwrap();
    assert!(!d.states[0].is_composite());
    assert_eq!(d.states.len(), 2);
}

#[test]
fn test_state_diagram_simple_states_and_quotes() {
    let src = "stateDiagram\n state \"Waiting for input\" as wait\n state done\n wait --> done";
    let d = parse_state_diagram(src).unwrap();
    assert_eq!(d.states.len(), 2);
    assert_eq!(d.states[0].id, "wait");
    assert_eq!(d.states[0].label, "Waiting for input");
    assert_eq!(d.states[1].label, "done");
}

#[test]
fn test_state_diagram_stray_brace_ends() {
    let d = parse_state_diagram("stateDiagram\n A --> B\n }\n C --> D").unwrap();
    assert_eq!(d.states.len(), 2);
    assert_eq!(d.transitions.len(), 1);
}

#[test]
fn test_state_diagram_no_states() {
    assert_eq!(
        parse_state_diagram("stateDiagram\n%% nothing").unwrap_err(),
        "No states found in state diagram"
    );
    assert_eq!(parse_state_diagram("").unwrap_err(), "No states found in state diagram");
}

#[test]
fn test_state_and_transition_new() {
    let s = State::new("a".to_string(), "A".to_string());
    assert_eq!(s.id, "a");
    assert_eq!(s.label, "A");
    assert!(!s.is_composite());
    assert_eq!(s.parent, None);
    let t = Transition::new("a".to_string(), "b".to_string(), None);
    assert_eq!(t.kind, TransitionKind::Internal);
    assert_eq!(t.lca_scope, None);
    let d = State::default();
    assert_eq!(d.id, "");
}

#[test]
fn test_transition_ends_are_states_of_their_level() {
    let d = parse_state_diagram(SAMPLE).unwrap();
    let top: Vec<&str> = d.states.iter().map(|s| s.id.as_str()).collect();
    for t in &d.transitions {
        assert!(top.contains(&t.from.as_str()) && top.contains(&t.to.as_str()));
    }
    for s in &d.states {
        let kids: Vec<&str> = s.children.iter().map(|c| c.id.as_str()).collect();
        for t in &s.internal_transitions {
            assert!(kids.contains(&t.from.as_str()) && kids.contains(&t.to.as_str()));
        }
    }
}

#[test]
fn test_state_columns_rounds() {
    let d = parse_state_diagram(SAMPLE).unwrap();
    let cols = state_columns(&d.states, &d.transitions);
    assert_eq!(
        cols,
        vec![
            vec!["__start__".to_string()],
            vec!["Still".to_string()],
            vec!["__end__".to_string(), "Moving".to_string(), "Moving".to_string()],
            vec!["Crash".to_string()],
        ]
    );
    let placed: usize = cols.iter().map(|c| c.len()).sum();
    assert_eq!(placed, d.states.len());
    let col_of = |id: &str| cols.iter().position(|c| c.iter().any(|s| s == id)).unwrap();
    assert!(col_of("__start__") < col_of("Still"));
    assert!(col_of("Still") < col_of("Moving"));
    assert!(col_of("Moving") < col_of("Crash"));
}

#[test]
fn test_state_columns_cycle() {
    let d = parse_state_diagram("stateDiagram-v2\n    A --> B\n    B --> A\n    C --> A").unwrap();
    let ids: Vec<&str> = d.states.iter().map(|s| s.id.as_str()).collect();
    assert_eq!(ids, vec!["A", "B", "C"]);
    let cols = state_columns(&d.states, &d.transitions);
    assert_eq!(cols, vec![vec!["C".to_string()], vec!["A".to_string()], vec!["B".to_string()]]);
    assert!(state_columns(&Vec::new(), &d.transitions).is_empty());
}
