//! Tests of the class diagram parser.
use ferrite_core::markdown::mermaid::class_diagram::{class_diagram_would_panic, parse_class_diagram, ClassRelationType, Visibility};

#[test]
fn test_class_diagram_members_and_relations() {
    let src = "classDiagram
    class Animal {
        +String name
        +makeSound() void
        -int age
    }
    class Duck <<interface>>
    Animal <|-- Duck : inherits
    Duck *-- Pond";
    let d = parse_class_diagram(src).unwrap();
    let ids: Vec<&str> = d.classes.iter().map(|c| c.id.as_str()).collect();
    assert_eq!(ids, vec!["Animal", "Pond", "Duck"]);
    let a = &d.classes[0];
    assert_eq!(a.attributes.len(), 2);
    assert_eq!(a.attributes[0].name, "String name");
    assert_eq!(a.attributes[0].member_type, "");
    assert_eq!(a.attributes[1].visibility, Visibility::Private);
    assert_eq!(a.methods.len(), 1);
    assert_eq!(a.methods[0].name, "makeSound");
    assert_eq!(a.methods[0].member_type, "void");
    assert!(a.methods[0].is_method);
    assert_eq!(d.classes[2].stereotype, Some("interface".to_string()));
    assert_eq!(d.relations.len(), 2);
    assert_eq!(d.relations[0].from, "Animal");
    assert_eq!(d.relations[0].to, "Duck");
    assert_eq!(d.relations[0].relation_type, ClassRelationType::Inheritance);
    assert_eq!(d.relations[0].label, Some("inherits".to_string()));
    assert_eq!(d.relations[1].relation_type, ClassRelationType::Composition);
    assert_eq!(d.relations[1].to, "Pond");
}

#[test]
fn test_class_diagram_member_types() {
    let d = parse_class_diagram("classDiagram\nclass A {\n#id: int\n~run(x): bool\nstop(\n}").unwrap();
    let a = &d.classes[0];
    assert_eq!(a.attributes[0].visibility, Visibility::Protected);
    assert_eq!(a.attributes[0].name, "id");
    assert_eq!(a.attributes[0].member_type, "int");
    assert_eq!(a.methods[0].visibility, Visibility::Package);
    assert_eq!(a.methods[0].member_type, "bool");
    assert_eq!(a.methods[1].name, "stop");
    assert_eq!(a.methods[1].member_type, "void");
}

#[test]
fn test_class_diagram_generic_and_plain_arrow() {
    let d = parse_class_diagram("classDiagram\nclass Box~T~\nA -- B").unwrap();
    assert_eq!(d.classes[2].name, "Box");
    assert_eq!(d.classes[0].id, "A");
    assert_eq!(d.relations[0].relation_type, ClassRelationType::Association);
    assert_eq!(d.classes.len(), 3);
}

#[test]
fn test_class_diagram_no_classes() {
    assert_eq!(parse_class_diagram("classDiagram\n%% none").unwrap_err(), "No classes found in diagram");
}

#[test]
fn test_class_relation_ends_are_classes() {
    let d = parse_class_diagram("classDiagram\n    class Animal\n    Animal <|-- Duck\n    Duck --> Pond").unwrap();
    let ids: Vec<&str> = d.classes.iter().map(|c| c.id.as_str()).collect();
    // the relations name classes the diagram never declares; they are created
    assert!(!d.relations.is_empty());
    assert!(ids.contains(&"Animal") && ids.contains(&"Duck"));
    for r in &d.relations {
        assert!(ids.contains(&r.from.as_str()));
        assert!(ids.contains(&r.to.as_str()));
    }
}

#[test]
fn test_class_error_exactly_without_classes() {
    assert!(parse_class_diagram("classDiagram\n    %% none\n    }\n    note here").is_err());
    assert!(parse_class_diagram("classDiagram\n    A --> B").is_ok());
    assert!(parse_class_diagram("classDiagram\n    class A").is_ok());
}

#[test]
fn test_class_panic_check() {
    assert!(class_diagram_would_panic("classDiagram\n    class A >>x<<"));
    assert!(!class_diagram_would_panic("classDiagram\n    class A <<interface>>"));
    assert!(!class_diagram_would_panic("classDiagram\n    %% class A >>x<<\n    A --> B"));
}
