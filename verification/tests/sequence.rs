use ferrite_core::markdown::mermaid::sequence::{
    count_statement_slots, parse_sequence_diagram, parse_sequence_message, parse_sequence_note,
    MessageType, NotePosition, SeqBlockKind, SeqStatement,
};

fn chars(s: &str) -> Vec<char> {
    s.chars().collect()
}

#[test]
fn sequence_participants_and_messages() {
    let src = "sequenceDiagram\n    participant A as Alice\n    actor B\n    A->>B: Hello\n    B-->>A: Hi back";
    let d = parse_sequence_diagram(src).unwrap();
    assert_eq!(d.participants.len(), 2);
    assert_eq!(d.participants[0].id, "A");
    assert_eq!(d.participants[0].label, "Alice");
    assert!(!d.participants[0].is_actor);
    assert_eq!(d.participants[1].id, "B");
    assert!(d.participants[1].is_actor);
    assert_eq!(d.statements.len(), 2);
    match &d.statements[0] {
        SeqStatement::Message(m) => {
            assert_eq!(m.from, "A");
            assert_eq!(m.to, "B");
            assert_eq!(m.label, "Hello");
            assert_eq!(m.message_type, MessageType::Solid);
        }
        _ => panic!("expected a message"),
    }
    match &d.statements[1] {
        SeqStatement::Message(m) => {
            assert_eq!(m.message_type, MessageType::Dotted);
            assert_eq!(m.label, "Hi back");
        }
        _ => panic!("expected a message"),
    }
}

#[test]
fn sequence_message_arrows() {
    let m = parse_sequence_message(&chars("A->>+B: go")).unwrap();
    assert_eq!(m.message_type, MessageType::Solid);
    assert!(m.activate_target);
    assert!(!m.deactivate_target);
    let m = parse_sequence_message(&chars("B-->-A")).unwrap();
    assert_eq!(m.message_type, MessageType::DottedOpen);
    assert!(m.deactivate_target);
    assert_eq!(m.label, "");
    assert!(parse_sequence_message(&chars("just text")).is_none());
    assert!(parse_sequence_message(&chars("->>B: no sender")).is_none());
}

#[test]
fn sequence_notes() {
    let n = parse_sequence_note(&chars("Note over A, B: shared")).unwrap();
    match n.position {
        NotePosition::Over(ids) => assert_eq!(ids, vec!["A".to_string(), "B".to_string()]),
        _ => panic!("expected over"),
    }
    assert_eq!(n.text, "shared");
    let n = parse_sequence_note(&chars("note left of A: hi")).unwrap();
    match n.position {
        NotePosition::LeftOf(id) => assert_eq!(id, "A"),
        _ => panic!("expected left of"),
    }
    assert!(parse_sequence_note(&chars("Note over : x")).is_none());
    assert!(parse_sequence_note(&chars("Note beside A: x")).is_none());
}

#[test]
fn sequence_alt_block_segments() {
    let src = "sequenceDiagram\n    A->>B: x\n    alt ok\n    B->>A: y\n    else fail\n    B->>A: z\n    end";
    let d = parse_sequence_diagram(src).unwrap();
    assert_eq!(d.statements.len(), 2);
    match &d.statements[1] {
        SeqStatement::Block(b) => {
            assert_eq!(b.kind, SeqBlockKind::Alt);
            assert_eq!(b.label, "ok");
            assert_eq!(b.segments.len(), 2);
            assert_eq!(b.segments[0].segment_label, None);
            assert_eq!(b.segments[0].statements.len(), 1);
            assert_eq!(b.segments[1].segment_label, Some("fail".to_string()));
            assert_eq!(b.segments[1].statements.len(), 1);
        }
        _ => panic!("expected a block"),
    }
    // one slot for the message, and for the block its header, its two
    // messages and its end
    assert_eq!(count_statement_slots(&d.statements), 5);
}

#[test]
fn sequence_slots_skip_activations() {
    let src = "sequenceDiagram\n    activate A\n    A->>B: x\n    Note right of B: n\n    deactivate A";
    let d = parse_sequence_diagram(src).unwrap();
    assert_eq!(d.statements.len(), 4);
    assert_eq!(count_statement_slots(&d.statements), 2);
    assert_eq!(count_statement_slots(&[]), 0);
}

#[test]
fn sequence_errors() {
    assert_eq!(
        parse_sequence_diagram("sequenceDiagram\n    else nope").unwrap_err(),
        "Line 2: 'else' without matching 'alt' block"
    );
    assert_eq!(
        parse_sequence_diagram("sequenceDiagram\n    loop l\n    and x\n    end").unwrap_err(),
        "Line 3: 'and' can only be used inside 'par' blocks"
    );
    assert_eq!(
        parse_sequence_diagram("sequenceDiagram\n    end").unwrap_err(),
        "Line 2: 'end' without matching block opener"
    );
    assert_eq!(
        parse_sequence_diagram("sequenceDiagram\n    loop forever\n    A->>B: x").unwrap_err(),
        "Unclosed 'loop' block at end of diagram"
    );
    assert_eq!(
        parse_sequence_diagram("sequenceDiagram").unwrap_err(),
        "No participants found in sequence diagram"
    );
}

#[test]
fn sequence_participants_distinct_and_referenced() {
    let src = "sequenceDiagram\n    A->>B: hi\n    participant A\n    loop L\n    B->>C: x\n    end\n    Note over A,D: n";
    let d = parse_sequence_diagram(src).unwrap();
    let ids: Vec<&str> = d.participants.iter().map(|p| p.id.as_str()).collect();
    assert_eq!(ids, vec!["A", "B", "C", "D"]);
    match &d.statements[1] {
        SeqStatement::Block(b) => match &b.segments[0].statements[0] {
            SeqStatement::Message(m) => {
                assert!(ids.contains(&m.from.as_str()) && ids.contains(&m.to.as_str()));
            },
            _ => panic!("a message in the loop"),
        },
        _ => panic!("a loop block"),
    }
}
