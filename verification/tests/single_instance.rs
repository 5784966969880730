//! Tests of the single-instance protocol values.
use ferrite_core::single_instance::{forward_message, lock_file_content, parse_lock_port, received_paths};

#[test]
fn test_lock_file_roundtrip() {
    // Verify port parsing
    let port_str = "12345";
    let port: u16 = parse_lock_port(port_str).unwrap();
    assert_eq!(port, 12345);
    assert_eq!(lock_file_content(port), "12345");
    assert_eq!(parse_lock_port(&lock_file_content(0)), Some(0));
    assert_eq!(parse_lock_port(&lock_file_content(65535)), Some(65535));
}

#[test]
fn test_parse_lock_port_edges() {
    assert_eq!(parse_lock_port(" 8080\n"), Some(8080));
    assert_eq!(parse_lock_port("+42"), Some(42));
    assert_eq!(parse_lock_port("65536"), None);
    assert_eq!(parse_lock_port("-1"), None);
    assert_eq!(parse_lock_port(""), None);
    assert_eq!(parse_lock_port("12 34"), None);
}

#[test]
fn test_forward_message() {
    assert_eq!(forward_message(&vec![]), "__FOCUS__\n");
    let paths = vec!["/tmp/a.md".to_string(), "C:\\docs\\b c.md".to_string()];
    assert_eq!(forward_message(&paths), "/tmp/a.md\nC:\\docs\\b c.md\n");
}

#[test]
fn test_received_paths_roundtrip() {
    let paths = vec!["/tmp/a.md".to_string(), "notes/b.md".to_string()];
    let msg = forward_message(&paths);
    let lines: Vec<String> = msg.lines().map(|l| l.to_string()).collect();
    assert_eq!(received_paths(&lines), paths);
    let focus: Vec<String> = forward_message(&vec![]).lines().map(|l| l.to_string()).collect();
    assert_eq!(received_paths(&focus), Vec::<String>::new());
}

#[test]
fn test_received_paths_filters() {
    let lines = vec![
        "  x.md \r".to_string(),
        "".to_string(),
        "   ".to_string(),
        "__FOCUS__".to_string(),
        " __FOCUS__ ".to_string(),
        "y".to_string(),
    ];
    assert_eq!(received_paths(&lines), vec!["x.md".to_string(), "y".to_string()]);
}
