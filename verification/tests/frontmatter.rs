//! Tests of the frontmatter framing.
use ferrite_core::markdown::mermaid::frontmatter::split_frontmatter;

#[test]
fn test_split_simple_frontmatter() {
    let r = split_frontmatter("---\ntitle: Test\n---\nflowchart TD\n  A --> B");
    assert_eq!(r, Some(("title: Test\n".to_string(), "flowchart TD\n  A --> B".to_string())));
}

#[test]
fn test_split_windows_line_endings() {
    let r = split_frontmatter("---\r\ntitle: Test\r\n---\r\nflowchart TD");
    assert_eq!(r, Some(("title: Test\r\n".to_string(), "flowchart TD".to_string())));
}

#[test]
fn test_split_without_frontmatter() {
    assert_eq!(split_frontmatter("flowchart TD\n  A --> B"), None);
    assert_eq!(split_frontmatter("---\ntitle: x\nflowchart TD"), None);
    assert_eq!(split_frontmatter("--- title\n---\nx"), None);
}

#[test]
fn test_split_empty_block_and_blanks() {
    let r = split_frontmatter("  ---  \n---\t \ngraph LR");
    assert_eq!(r, Some(("".to_string(), "graph LR".to_string())));
}

