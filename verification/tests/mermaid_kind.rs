//! Tests of the choice of diagram parser.
use ferrite_core::markdown::mermaid::{diagram_kind, first_line, unknown_type_error, DiagramKind, RenderResult};

fn error_of(source: &str) -> String {
    match diagram_kind(source) {
        Err(RenderResult::ParseError(m)) => m,
        other => panic!("expected a parse error, got {:?}", other),
    }
}

#[test]
fn test_diagram_kind_by_keyword() {
    assert_eq!(diagram_kind("GRAPH TD\n A --> B").unwrap(), DiagramKind::Flowchart);
    assert_eq!(diagram_kind("%% c\n\n  sequenceDiagram\n A->>B: x").unwrap(), DiagramKind::Sequence);
    assert_eq!(diagram_kind("stateDiagram-v2").unwrap(), DiagramKind::State);
    assert_eq!(diagram_kind("pie title Pets").unwrap(), DiagramKind::Pie);
    assert_eq!(diagram_kind("gitGraph").unwrap(), DiagramKind::GitGraph);
    assert_eq!(diagram_kind("erDiagram").unwrap(), DiagramKind::Er);
    assert_eq!(diagram_kind("journey").unwrap(), DiagramKind::Journey);
}

#[test]
fn test_diagram_kind_errors() {
    assert_eq!(error_of("   \n "), "Empty diagram source");
    assert_eq!(error_of("FOO Bar\nx"), "Unknown diagram type: foo bar");
    assert_eq!(error_of("ÉTAT\n"), "Unknown diagram type: état");
    assert_eq!(error_of("%% only\n%% comments"), "Unknown diagram type: ");
}

#[test]
fn test_first_line_and_error_text() {
    assert_eq!(first_line("\n  %% c\n   Mindmap  \n root"), "Mindmap");
    match unknown_type_error("abc") {
        RenderResult::ParseError(m) => assert_eq!(m, "Unknown diagram type: abc"),
        _ => panic!("expected a parse error"),
    }
}
