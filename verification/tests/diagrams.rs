use ferrite_core::markdown::mermaid::er_diagram::{
    parse_er_attribute, parse_er_diagram, parse_er_relation, Cardinality,
};
use ferrite_core::markdown::mermaid::journey::parse_user_journey;
use ferrite_core::markdown::mermaid::mindmap::parse_mindmap;
use ferrite_core::markdown::mermaid::timeline::parse_timeline;

fn chars(s: &str) -> Vec<char> {
    s.chars().collect()
}

#[test]
fn timeline_periods_and_events() {
    let src = "timeline\n    title History\n    2021 : Alpha : Beta\n    2022\n        Launch\n    section Later\n    2023 : Gamma";
    let t = parse_timeline(src).unwrap();
    assert_eq!(t.title, Some("History".to_string()));
    let labels: Vec<&str> = t.periods.iter().map(|p| p.label.as_str()).collect();
    assert_eq!(labels, vec!["2021", "2022", "Later", "2023"]);
    assert_eq!(t.periods[0].events, vec!["Alpha".to_string(), "Beta".to_string()]);
    assert_eq!(t.periods[1].events, vec!["Launch".to_string()]);
    assert!(t.periods[2].events.is_empty());
    assert_eq!(t.periods[3].events, vec!["Gamma".to_string()]);
}

#[test]
fn timeline_drops_empty_section_after_periods() {
    let t = parse_timeline("timeline\n    2020 : a\n    section S1\n    section S2\n    x").unwrap();
    let labels: Vec<&str> = t.periods.iter().map(|p| p.label.as_str()).collect();
    assert_eq!(labels, vec!["2020", "S2"]);
    assert_eq!(t.periods[1].events, vec!["x".to_string()]);
}

#[test]
fn timeline_without_periods_is_an_error() {
    assert_eq!(parse_timeline("timeline\n    title Nothing").unwrap_err(), "No periods found in timeline");
}

#[test]
fn journey_sections_and_tasks() {
    let src = "journey\n    title My day\n    section Go to work\n      Make tea: 5: Me\n      Go upstairs: 3: Me, Cat\n    section Home\n      Sleep: x";
    let j = parse_user_journey(src).unwrap();
    assert_eq!(j.title, Some("My day".to_string()));
    assert_eq!(j.sections.len(), 2);
    assert_eq!(j.sections[0].name, "Go to work");
    assert_eq!(j.sections[0].tasks.len(), 2);
    assert_eq!(j.sections[0].tasks[0].name, "Make tea");
    assert_eq!(j.sections[0].tasks[0].score, 5);
    assert_eq!(j.sections[0].tasks[0].actors, vec!["Me".to_string()]);
    assert_eq!(j.sections[0].tasks[1].actors, vec!["Me".to_string(), "Cat".to_string()]);
    // a score that does not parse is neutral
    assert_eq!(j.sections[1].tasks[0].score, 3);
    assert!(j.sections[1].tasks[0].actors.is_empty());
}

#[test]
fn journey_scores_with_signs_and_default_section() {
    let j = parse_user_journey("journey\n    Wake: +4\n    Fall: -2: Me").unwrap();
    assert_eq!(j.sections.len(), 1);
    assert_eq!(j.sections[0].name, "Journey");
    assert_eq!(j.sections[0].tasks[0].score, 4);
    assert_eq!(j.sections[0].tasks[1].score, -2);
    assert_eq!(parse_user_journey("journey\n    title Only").unwrap_err(), "No sections found in user journey");
}

#[test]
fn mindmap_tree() {
    let src = "mindmap\nroot((Central))\n    A\n    B\n        C";
    let m = parse_mindmap(src).unwrap();
    let root = m.root.unwrap();
    assert_eq!(root.text, "Central");
    assert_eq!(root.level, 0);
    assert_eq!(root.children.len(), 2);
    assert_eq!(root.children[0].text, "A");
    assert_eq!(root.children[1].text, "B");
    assert_eq!(root.children[1].children.len(), 1);
    assert_eq!(root.children[1].children[0].text, "C");
    assert_eq!(root.children[1].children[0].level, 2);
}

#[test]
fn mindmap_last_top_level_node_is_root() {
    let m = parse_mindmap("mindmap\nX\nY").unwrap();
    assert_eq!(m.root.unwrap().text, "Y");
    let m = parse_mindmap("mindmap\nroot(Soft)").unwrap();
    assert_eq!(m.root.unwrap().text, "Soft");
    assert_eq!(parse_mindmap("mindmap\n%% nothing").unwrap_err(), "No root node found in mindmap");
}

#[test]
fn er_entities_attributes_relations() {
    let src = "erDiagram\n    CUSTOMER ||--o{ ORDER : places\n    ORDER {\n        string id PK\n        int customer_id FK\n    }\n    ORDER ||..o{ LINE : \"contains\"";
    let d = parse_er_diagram(src).unwrap();
    let names: Vec<&str> = d.entities.iter().map(|e| e.name.as_str()).collect();
    assert_eq!(names, vec!["CUSTOMER", "ORDER", "ORDER", "LINE"]);
    assert_eq!(d.entities[2].attributes.len(), 2);
    assert_eq!(d.entities[2].attributes[0].name, "id");
    assert_eq!(d.entities[2].attributes[0].attr_type, "string");
    assert!(d.entities[2].attributes[0].is_pk);
    assert!(d.entities[2].attributes[1].is_fk);
    assert_eq!(d.relations.len(), 2);
    assert_eq!(d.relations[0].from_cardinality, Cardinality::ExactlyOne);
    assert_eq!(d.relations[0].to_cardinality, Cardinality::ZeroOrMore);
    assert_eq!(d.relations[0].label, Some("places".to_string()));
    assert!(d.relations[0].identifying);
    assert_eq!(d.relations[1].label, Some("contains".to_string()));
    assert!(!d.relations[1].identifying);
}

#[test]
fn er_attribute_and_relation_lines() {
    let a = parse_er_attribute(&chars("int id pk")).unwrap();
    assert!(a.is_pk);
    assert!(!a.is_fk);
    assert!(parse_er_attribute(&chars("lonely")).is_none());
    let r = parse_er_relation(&chars("A ||--|| B")).unwrap();
    assert_eq!(r.from, "A");
    assert_eq!(r.to, "B");
    assert_eq!(r.label, None);
    assert!(parse_er_relation(&chars("A -- B")).is_none());
    assert_eq!(parse_er_diagram("erDiagram").unwrap_err(), "No entities found in diagram");
}

#[test]
fn test_er_relation_ends_are_entities() {
    let d = parse_er_diagram("erDiagram\n    CUSTOMER ||--o{ ORDER : places\n    ORDER ||--|{ LINE : has").unwrap();
    let names: Vec<&str> = d.entities.iter().map(|e| e.name.as_str()).collect();
    assert!(!d.relations.is_empty());
    for r in &d.relations {
        assert!(names.contains(&r.from.as_str()));
        assert!(names.contains(&r.to.as_str()));
    }
}

#[test]
fn test_er_error_exactly_without_entities() {
    assert_eq!(
        parse_er_diagram("erDiagram\n    %% nothing\n    }\n    just words").unwrap_err(),
        "No entities found in diagram"
    );
    assert!(parse_er_diagram("erDiagram\n    CUSTOMER {\n    }").is_ok());
}
