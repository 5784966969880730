//! Tests of the flowchart parser.
use ferrite_core::markdown::mermaid::flowchart::{
    class_def_would_panic, css_color_would_panic, edge_line_would_panic, find_arrow_pattern, flowchart_would_panic,
    link_style_would_panic, subgraph_header_would_panic, node_text_would_panic, parse_direction, parse_edge_line_full, parse_flowchart, parse_node_definition, parse_node_from_text, parse_subgraph_header,
    Color, EdgeStyle, FlowDirection, NodeShape,
};

#[test]
fn test_parse_direction() {
    assert_eq!(parse_direction("flowchart TD"), FlowDirection::TopDown);
    assert_eq!(parse_direction("flowchart LR"), FlowDirection::LeftRight);
    assert_eq!(parse_direction("flowchart BT"), FlowDirection::BottomUp);
    assert_eq!(parse_direction("flowchart RL"), FlowDirection::RightLeft);
}

#[test]
fn test_parse_node_shapes() {
    let rect = parse_node_from_text("A[Text]").unwrap();
    assert_eq!(rect.2, NodeShape::Rectangle);

    let round = parse_node_from_text("B(Text)").unwrap();
    assert_eq!(round.2, NodeShape::RoundRect);

    let diamond = parse_node_from_text("C{Decision}").unwrap();
    assert_eq!(diamond.2, NodeShape::Diamond);

    let circle = parse_node_from_text("D((Circle))").unwrap();
    assert_eq!(circle.2, NodeShape::Circle);
}

#[test]
fn test_parse_direction_default_and_aliases() {
    assert_eq!(parse_direction("graph TB"), FlowDirection::TopDown);
    assert_eq!(parse_direction("graph"), FlowDirection::TopDown);
    assert_eq!(parse_direction("flowchart lr"), FlowDirection::LeftRight);
}

#[test]
fn test_parse_node_ids_and_labels() {
    let n = parse_node_from_text("A[Start]").unwrap();
    assert_eq!(n.0, "A");
    assert_eq!(n.1, "Start");
    let plain = parse_node_from_text("Plain").unwrap();
    assert_eq!(plain.0, "Plain");
    assert_eq!(plain.1, "Plain");
    assert_eq!(plain.2, NodeShape::Rectangle);
    let def = parse_node_definition("B{Choice}").unwrap();
    assert_eq!(def.id, "B");
    assert_eq!(def.label, "Choice");
    assert_eq!(def.shape, NodeShape::Diamond);
}

#[test]
fn test_parse_simple_flowchart() {
    let source = "flowchart TD\n  A[Start] --> B[End]";
    let result = parse_flowchart(source);
    assert!(result.is_ok());
    let flowchart = result.unwrap();
    assert_eq!(flowchart.nodes.len(), 2);
    assert_eq!(flowchart.edges.len(), 1);
}

#[test]
fn test_parse_multiple_edges() {
    let source = r#"flowchart TD
            A[Start] --> B{Decision}
            B -->|Yes| C[Great!]
            B -->|No| D[Debug]
            D --> E[Fix]
            E --> B
            C --> F[End]"#;

    let result = parse_flowchart(source);
    assert!(result.is_ok());
    let flowchart = result.unwrap();
    assert_eq!(flowchart.nodes.len(), 6); // A, B, C, D, E, F
    assert_eq!(flowchart.edges.len(), 6);
}

#[test]
fn test_flowchart_header_errors() {
    assert_eq!(parse_flowchart("").unwrap_err(), "Empty flowchart source");
    assert_eq!(parse_flowchart("%% only a comment\n\n").unwrap_err(), "Empty flowchart source");
    assert_eq!(
        parse_flowchart("%% comment\nsequenceDiagram\nA->>B: hi").unwrap_err(),
        "Expected 'flowchart' or 'graph' declaration"
    );
}

#[test]
fn test_flowchart_graph_keyword_and_direction() {
    let f = parse_flowchart("\n  GRAPH lr;\n A --> B").unwrap();
    assert_eq!(f.direction, FlowDirection::LeftRight);
    assert_eq!(f.edges[0].from, "A");
    assert_eq!(f.edges[0].to, "B");
    assert_eq!(f.edges[0].style, EdgeStyle::Solid);
}

#[test]
fn test_flowchart_subgraphs() {
    let source = "flowchart LR\n  subgraph one [First]\n    a1 --> a2\n  end\n  subgraph two\n    b1\n  end\n  a2 --> b1";
    let f = parse_flowchart(source).unwrap();
    assert_eq!(f.subgraphs.len(), 2);
    assert_eq!(f.subgraphs[0].id, "one");
    assert_eq!(f.subgraphs[0].title, Some("First".to_string()));
    assert_eq!(f.subgraphs[0].node_ids, vec!["a1".to_string(), "a2".to_string()]);
    assert_eq!(f.subgraphs[1].id, "two");
    assert_eq!(f.subgraphs[1].node_ids, vec!["b1".to_string()]);
    assert_eq!(f.nodes.len(), 3);
    assert_eq!(f.edges.len(), 2);
}

#[test]
fn test_flowchart_nested_subgraphs_closed_at_end() {
    let source = "flowchart TD\n subgraph outer\n subgraph inner\n direction LR\n x\n";
    let f = parse_flowchart(source).unwrap();
    assert_eq!(f.subgraphs.len(), 2);
    assert_eq!(f.subgraphs[0].id, "inner");
    assert_eq!(f.subgraphs[0].direction, Some(FlowDirection::LeftRight));
    assert_eq!(f.subgraphs[0].node_ids, vec!["x".to_string()]);
    assert_eq!(f.subgraphs[1].id, "outer");
    assert_eq!(f.subgraphs[1].child_subgraph_ids, vec!["inner".to_string()]);
}

#[test]
fn test_flowchart_label_update_rules() {
    // a bare mention creates the node with its id as label; a later labelled
    // definition fills the label in once
    let f = parse_flowchart("flowchart TD\n A --> B\n B[Second]\n B[Third]").unwrap();
    assert_eq!(f.nodes.len(), 2);
    assert_eq!(f.nodes[1].id, "B");
    assert_eq!(f.nodes[1].label, "Second");
    assert_eq!(f.nodes[1].shape, NodeShape::Rectangle);
}

#[test]
fn test_flowchart_styles() {
    let source = "flowchart TD\n classDef hot fill:#f00,stroke:#333,stroke-width:2px\n class a,b hot\n linkStyle 0 stroke:#00ff0080\n linkStyle default stroke-width:3\n a --> b";
    let f = parse_flowchart(source).unwrap();
    assert_eq!(f.class_defs.len(), 1);
    assert_eq!(f.class_defs[0].0, "hot");
    let st = &f.class_defs[0].1;
    assert_eq!(st.fill, Some(Color { r: 255, g: 0, b: 0, a: 255 }));
    assert_eq!(st.stroke, Some(Color { r: 0x33, g: 0x33, b: 0x33, a: 255 }));
    assert_eq!(st.stroke_width, Some("2".to_string()));
    assert_eq!(
        f.node_classes,
        vec![("a".to_string(), "hot".to_string()), ("b".to_string(), "hot".to_string())]
    );
    assert_eq!(f.link_styles.len(), 1);
    assert_eq!(f.link_styles[0].0, 0);
    assert_eq!(f.link_styles[0].1.stroke, Some(Color { r: 0, g: 255, b: 0, a: 0x80 }));
    let d = f.default_link_style.as_ref().unwrap();
    assert_eq!(d.stroke, None);
    assert_eq!(d.stroke_width, Some("3".to_string()));
}

#[test]
fn test_flowchart_kelvin_sign_link_style_is_ignored() {
    // `linKstyle` with a Kelvin sign lowercases to `linkstyle`, but the
    // keyword then spans twelve bytes, so the index read is `e`
    let f = parse_flowchart("flowchart TD\n lin\u{212A}Style 0 stroke:#fff\n a --> b").unwrap();
    assert_eq!(f.link_styles.len(), 0);
    assert_eq!(f.edges.len(), 1);
}

#[test]
fn test_parse_subgraph_header_forms() {
    let mut counter = 0usize;
    assert_eq!(parse_subgraph_header(&['s','u','b','g','r','a','p','h'], &mut counter), ("subgraph_1".to_string(), None));
    let line: Vec<char> = "subgraph \"My title\"".chars().collect();
    assert_eq!(parse_subgraph_header(&line, &mut counter), ("subgraph_2".to_string(), Some("My title".to_string())));
    let line: Vec<char> = "subgraph id1 Some long title".chars().collect();
    assert_eq!(parse_subgraph_header(&line, &mut counter), ("id1".to_string(), Some("Some long title".to_string())));
    let line: Vec<char> = "subgraph [Only title]".chars().collect();
    assert_eq!(parse_subgraph_header(&line, &mut counter), ("subgraph_3".to_string(), Some("Only title".to_string())));
    assert_eq!(counter, 3);
}

#[test]
fn test_flowchart_edges_connect_nodes() {
    let f = parse_flowchart("graph TD\n A & B --> C --> D\n D -.->|back| A\n E").unwrap();
    for e in &f.edges {
        assert!(f.nodes.iter().any(|n| n.id == e.from));
        assert!(f.nodes.iter().any(|n| n.id == e.to));
    }
    assert_eq!(f.edges.len(), 4);
    assert_eq!(f.nodes.len(), 5);
}

#[test]
fn flowchart_subgraph_lists_a_node_once() {
    let f = parse_flowchart("flowchart TD\n    subgraph S\n        A\n        A\n        A --> B\n    end").unwrap();
    assert_eq!(f.subgraphs.len(), 1);
    assert_eq!(f.subgraphs[0].node_ids, vec!["A".to_string(), "B".to_string()]);
    let ids: Vec<&str> = f.nodes.iter().map(|n| n.id.as_str()).collect();
    assert_eq!(ids, vec!["A", "B"]);
}

#[test]
fn test_arrow_search_first_and_longest() {
    let c = |s: &str| -> Vec<char> { s.chars().collect() };
    // `--->` and `---` and `-->` all start here or later: the longest at
    // the first position wins.
    assert_eq!(find_arrow_pattern(&c("A ---> B")), Some((2, 3)));
    assert_eq!(find_arrow_pattern(&c("A --> B")), Some((2, 5)));
    assert_eq!(find_arrow_pattern(&c("A ==> B --> C")), Some((2, 8)));
    assert_eq!(find_arrow_pattern(&c("A - B")), None);
}

#[test]
fn test_node_text_panic_check() {
    assert!(node_text_would_panic("A])x(["));
    assert!(node_text_would_panic("A}x{"));
    assert!(node_text_would_panic("A]x["));
    assert!(!node_text_would_panic("A[Start]"));
    assert!(!node_text_would_panic("B{Decision}"));
    assert!(!node_text_would_panic(""));
    assert!(!node_text_would_panic("plain"));
}

#[test]
fn test_edge_line_panic_check() {
    let bad: Vec<char> = "A --> B)x(".chars().collect();
    assert!(edge_line_would_panic(&bad));
    let bad_source: Vec<char> = "A]x[ --> B".chars().collect();
    assert!(edge_line_would_panic(&bad_source));
    let good: Vec<char> = "A --> B --> C".chars().collect();
    assert!(!edge_line_would_panic(&good));
    let (nodes, edges) = parse_edge_line_full(&good).unwrap();
    assert_eq!(nodes.len(), 3);
    assert_eq!(edges.len(), 2);
    let no_arrow: Vec<char> = "A]x[".chars().collect();
    assert!(!edge_line_would_panic(&no_arrow));
}

fn chars(s: &str) -> Vec<char> {
    s.chars().collect()
}

#[test]
fn test_css_color_panic_check() {
    assert!(css_color_would_panic(&chars("#\u{e9}1")));
    assert!(!css_color_would_panic(&chars("#fff")));
    assert!(!css_color_would_panic(&chars("#ff0000")));
    assert!(!css_color_would_panic(&chars("red")));
    assert!(!css_color_would_panic(&chars("#\u{e9}")));
}

#[test]
fn test_style_line_panic_checks() {
    assert!(class_def_would_panic(&chars("classDef x fill:#\u{e9}1")));
    assert!(!class_def_would_panic(&chars("classDef x fill:#fff")));
    assert!(link_style_would_panic(&chars("linkStyle 0 stroke:#\u{e9}1")));
    assert!(!link_style_would_panic(&chars("linkStyle 0 stroke:#ff0000")));
    assert!(subgraph_header_would_panic(&chars("subgraph a ] b [")));
    assert!(!subgraph_header_would_panic(&chars("subgraph one [Title]")));
}

#[test]
fn test_flowchart_panic_check() {
    assert!(flowchart_would_panic("flowchart TD\n    A]x["));
    assert!(flowchart_would_panic("flowchart TD\n    classDef x fill:#\u{e9}1"));
    assert!(flowchart_would_panic("graph LR\n    subgraph a ] b [\n    end"));
    assert!(flowchart_would_panic("flowchart TD\n    A --> B)x("));
    assert!(!flowchart_would_panic("flowchart TD\n    A --> B\n    B --> C"));
    assert!(!flowchart_would_panic("not a chart\n    A]x["));
    assert!(parse_flowchart("flowchart TD\n    A --> B").is_ok());
}

#[test]
fn test_unicode_whitespace_trimmed() {
    let n = parse_node_from_text("\u{3000}A[Start]\u{2028}").unwrap();
    assert_eq!(n.0, "A");
    assert_eq!(n.1, "Start");
    let m = parse_node_from_text("\u{200B}A").unwrap();
    assert_eq!(m.0, "\u{200B}A");
}
