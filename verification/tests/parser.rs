//! Tests of the markdown parser.
use ferrite_core::markdown::parser::{
    parse_markdown, HeadingLevel, ListType, MarkdownNodeType, TableAlignment,
};

// ─────────────────────────────────────────────────────────────────────────
// Basic Parsing Tests
// ─────────────────────────────────────────────────────────────────────────

#[test]
fn test_parse_empty_document() {
    let doc = parse_markdown("").unwrap();
    assert!(doc.root.children.is_empty());
}

#[test]
fn test_parse_simple_paragraph() {
    let doc = parse_markdown("Hello, world!").unwrap();
    assert!(!doc.root.children.is_empty());
    assert_eq!(doc.root.children.len(), 1);
    assert!(matches!(
        doc.root.children[0].node_type,
        MarkdownNodeType::Paragraph
    ));
}

#[test]
fn test_parse_heading_h1() {
    let doc = parse_markdown("# Heading 1").unwrap();
    assert!(!doc.root.children.is_empty());
    if let MarkdownNodeType::Heading { level, .. } = &doc.root.children[0].node_type {
        assert_eq!(*level, HeadingLevel::H1);
    } else {
        panic!("Expected heading node");
    }
}

#[test]
fn test_parse_heading_h2() {
    let doc = parse_markdown("## Heading 2").unwrap();
    if let MarkdownNodeType::Heading { level, .. } = &doc.root.children[0].node_type {
        assert_eq!(*level, HeadingLevel::H2);
    } else {
        panic!("Expected heading node");
    }
}

// ─────────────────────────────────────────────────────────────────────────
// List Tests
// ─────────────────────────────────────────────────────────────────────────

#[test]
fn test_parse_unordered_list() {
    let markdown = "- Item 1\n- Item 2\n- Item 3";
    let doc = parse_markdown(markdown).unwrap();
    assert!(!doc.root.children.is_empty());

    let list = &doc.root.children[0];
    if let MarkdownNodeType::List { list_type, .. } = &list.node_type {
        assert!(matches!(list_type, ListType::Bullet));
    } else {
        panic!("Expected list node");
    }
    assert_eq!(list.children.len(), 3);
}

#[test]
fn test_parse_ordered_list() {
    let markdown = "1. First\n2. Second\n3. Third";
    let doc = parse_markdown(markdown).unwrap();

    let list = &doc.root.children[0];
    if let MarkdownNodeType::List { list_type, .. } = &list.node_type {
        if let ListType::Ordered { start, .. } = list_type {
            assert_eq!(*start, 1);
        } else {
            panic!("Expected ordered list");
        }
    } else {
        panic!("Expected list node");
    }
}

#[test]
fn test_parse_task_list() {
    let markdown = "- [ ] Unchecked\n- [x] Checked";
    let doc = parse_markdown(markdown).unwrap();

    let list = &doc.root.children[0];
    assert_eq!(list.children.len(), 2);
}

#[test]
fn test_parse_task_list_with_formatting() {
    // Test task list with inline formatting (bold, links, code)
    // This is the pattern that was failing to render in the preview
    let markdown = "- [ ] **Bold text** ([link](https://example.com)) - description `code`";
    let doc = parse_markdown(markdown).unwrap();

    // Should have one list
    assert_eq!(doc.root.children.len(), 1, "Expected 1 root child (the list)");
    
    let list = &doc.root.children[0];
    assert!(
        matches!(list.node_type, MarkdownNodeType::List { .. }),
        "Expected List, got {:?}",
        list.node_type
    );

    // Should have one child (could be Item or TaskItem depending on AST structure)
    assert_eq!(list.children.len(), 1, "Expected 1 list child");
    
    let list_child = &list.children[0];
    // Note: In comrak's AST for task lists, the list child can be either:
    // - Item (with TaskItem as a child) in some versions
    // - TaskItem directly (in current version)
    // Our rendering code handles both cases
    let is_valid_list_item = matches!(
        list_child.node_type,
        MarkdownNodeType::Item | MarkdownNodeType::TaskItem { .. }
    );
    assert!(
        is_valid_list_item,
        "Expected Item or TaskItem, got {:?}",
        list_child.node_type
    );

    // Check for task item marker (either the node itself is TaskItem, or it has TaskItem child)
    let is_task_marked = matches!(list_child.node_type, MarkdownNodeType::TaskItem { .. })
        || list_child
            .children
            .iter()
            .any(|c| matches!(c.node_type, MarkdownNodeType::TaskItem { .. }));
    assert!(
        is_task_marked,
        "Task list should have TaskItem marker. Node type: {:?}, Children: {:?}",
        list_child.node_type,
        list_child.children
            .iter()
            .map(|c| format!("{:?}", c.node_type))
            .collect::<Vec<_>>()
    );

    // Should have a Paragraph child containing the text
    let para_node = list_child
        .children
        .iter()
        .find(|c| matches!(c.node_type, MarkdownNodeType::Paragraph));
    assert!(
        para_node.is_some(),
        "Task list item should have Paragraph child. Children types: {:?}",
        list_child.children
            .iter()
            .map(|c| format!("{:?}", c.node_type))
            .collect::<Vec<_>>()
    );

    let para = para_node.unwrap();
    
    // Paragraph should have children (not empty)
    assert!(
        !para.children.is_empty(),
        "Paragraph should have children. Para: {:?}",
        para
    );

    // Paragraph should contain Strong (bold) element
    let has_strong = para
        .children
        .iter()
        .any(|c| matches!(c.node_type, MarkdownNodeType::Strong));
    assert!(
        has_strong,
        "Paragraph should contain Strong node. Children: {:?}",
        para.children
            .iter()
            .map(|c| format!("{:?}", c.node_type))
            .collect::<Vec<_>>()
    );

    // Paragraph should contain Link element
    let has_link = para
        .children
        .iter()
        .any(|c| matches!(c.node_type, MarkdownNodeType::Link { .. }));
    assert!(
        has_link,
        "Paragraph should contain Link node. Children: {:?}",
        para.children
            .iter()
            .map(|c| format!("{:?}", c.node_type))
            .collect::<Vec<_>>()
    );

    // Text content should be preserved
    let text = para.text_content();
    assert!(
        text.contains("Bold text"),
        "Should contain 'Bold text', got: '{}'",
        text
    );
}

#[test]
fn test_parse_tight_task_list_structure() {
    // Test a tight task list (no blank lines between items) - similar to ROADMAP.md
    let markdown = "#### Bug Fixes\n- [ ] **First issue** - description\n- [ ] **Second issue** - more text";
    let doc = parse_markdown(markdown).unwrap();

    // First child should be a heading
    assert!(matches!(
        doc.root.children[0].node_type,
        MarkdownNodeType::Heading { .. }
    ));

    // Second child should be a list
    let list = &doc.root.children[1];
    assert!(
        matches!(list.node_type, MarkdownNodeType::List { .. }),
        "Expected List, got {:?}",
        list.node_type
    );

    // List should have 2 items
    assert_eq!(list.children.len(), 2, "List should have 2 items");

    // Each item should be Item or TaskItem with Paragraph children
    for (i, list_child) in list.children.iter().enumerate() {
        // Can be either Item (with TaskItem child) or TaskItem directly
        let is_valid_list_item = matches!(
            list_child.node_type,
            MarkdownNodeType::Item | MarkdownNodeType::TaskItem { .. }
        );
        assert!(
            is_valid_list_item,
            "List child {} should be Item or TaskItem, got {:?}",
            i,
            list_child.node_type
        );

        // Check for task marker (either the node itself or as child)
        let is_task_marked = matches!(list_child.node_type, MarkdownNodeType::TaskItem { .. })
            || list_child
                .children
                .iter()
                .any(|c| matches!(c.node_type, MarkdownNodeType::TaskItem { .. }));
        let has_para = list_child
            .children
            .iter()
            .any(|c| matches!(c.node_type, MarkdownNodeType::Paragraph));

        assert!(
            is_task_marked,
            "Item {} should be marked as task. Children: {:?}",
            i,
            list_child.children
                .iter()
                .map(|c| format!("{:?}", c.node_type))
                .collect::<Vec<_>>()
        );
        assert!(
            has_para,
            "Item {} should have Paragraph. Children: {:?}",
            i,
            list_child.children
                .iter()
                .map(|c| format!("{:?}", c.node_type))
                .collect::<Vec<_>>()
        );

        // Check paragraph has content
        if let Some(para) = list_child
            .children
            .iter()
            .find(|c| matches!(c.node_type, MarkdownNodeType::Paragraph))
        {
            assert!(
                !para.children.is_empty(),
                "Item {} paragraph should have children",
                i
            );
        }
    }
}

// ─────────────────────────────────────────────────────────────────────────
// Inline Element Tests
// ─────────────────────────────────────────────────────────────────────────

#[test]
fn test_parse_bold_text() {
    let markdown = "This is **bold** text";
    let doc = parse_markdown(markdown).unwrap();
    let text = doc.root.text_content();
    assert!(text.contains("bold"));
}

#[test]
fn test_parse_bold_text_ast_structure() {
    // Verify the AST structure for **bold** includes a Strong node
    let markdown = "This is **bold** text";
    let doc = parse_markdown(markdown).unwrap();

    // Should have one paragraph
    assert_eq!(doc.root.children.len(), 1);
    let para = &doc.root.children[0];
    assert!(
        matches!(para.node_type, MarkdownNodeType::Paragraph),
        "Expected Paragraph, got {:?}",
        para.node_type
    );

    // Paragraph should have children including a Strong node
    let has_strong = para
        .children
        .iter()
        .any(|c| matches!(c.node_type, MarkdownNodeType::Strong));
    assert!(
        has_strong,
        "Paragraph should contain Strong node. Children: {:?}",
        para.children
            .iter()
            .map(|c| &c.node_type)
            .collect::<Vec<_>>()
    );

    // Find the Strong node and verify it has text content
    let strong_node = para
        .children
        .iter()
        .find(|c| matches!(c.node_type, MarkdownNodeType::Strong))
        .unwrap();
    assert_eq!(strong_node.text_content(), "bold");
}

#[test]
fn test_parse_italic_text() {
    let markdown = "This is *italic* text";
    let doc = parse_markdown(markdown).unwrap();
    let text = doc.root.text_content();
    assert!(text.contains("italic"));
}

#[test]
fn test_parse_inline_code() {
    let markdown = "Use `code` inline";
    let doc = parse_markdown(markdown).unwrap();
    let text = doc.root.text_content();
    assert!(text.contains("code"));
}

#[test]
fn test_parse_strikethrough() {
    let markdown = "This is ~~deleted~~ text";
    let doc = parse_markdown(markdown).unwrap();
    let text = doc.root.text_content();
    assert!(text.contains("deleted"));
}

// ─────────────────────────────────────────────────────────────────────────
// Nested Emphasis Tests
// ─────────────────────────────────────────────────────────────────────────

#[test]
fn test_parse_bold_italic_triple_asterisk() {
    // ***bold italic*** should produce nested Strong > Emphasis > Text
    let markdown = "***bold italic***";
    let doc = parse_markdown(markdown).unwrap();

    // Verify text content is preserved
    let text = doc.root.text_content();
    assert!(text.contains("bold italic"));

    // Verify AST structure: Paragraph > Strong > Emphasis > Text
    let para = &doc.root.children[0];
    assert!(matches!(para.node_type, MarkdownNodeType::Paragraph));

    // First child of paragraph should be Strong or Emphasis
    let first_inline = &para.children[0];
    let is_strong_or_emph = matches!(
        first_inline.node_type,
        MarkdownNodeType::Strong | MarkdownNodeType::Emphasis
    );
    assert!(is_strong_or_emph, "Expected Strong or Emphasis node");

    // Verify nested structure exists
    assert!(
        !first_inline.children.is_empty(),
        "Nested emphasis should have children"
    );
}

#[test]
fn test_parse_bold_inside_italic() {
    // *__bold inside italic__* or _**bold inside italic**_
    let markdown = "_**bold inside italic**_";
    let doc = parse_markdown(markdown).unwrap();

    let text = doc.root.text_content();
    assert!(text.contains("bold inside italic"));

    // Verify we have nested structure
    let para = &doc.root.children[0];
    let first_inline = &para.children[0];
    assert!(
        !first_inline.children.is_empty(),
        "Should have nested children"
    );
}

#[test]
fn test_parse_italic_inside_bold() {
    // **_italic inside bold_** or __*italic inside bold*__
    let markdown = "**_italic inside bold_**";
    let doc = parse_markdown(markdown).unwrap();

    let text = doc.root.text_content();
    assert!(text.contains("italic inside bold"));

    // Verify AST has nested structure
    let para = &doc.root.children[0];
    let first_inline = &para.children[0];
    assert!(
        !first_inline.children.is_empty(),
        "Should have nested children"
    );
}

#[test]
fn test_parse_mixed_emphasis_in_sentence() {
    let markdown = "This has **bold**, *italic*, and ***both***.";
    let doc = parse_markdown(markdown).unwrap();

    let text = doc.root.text_content();
    assert!(text.contains("bold"));
    assert!(text.contains("italic"));
    assert!(text.contains("both"));
}

#[test]
fn test_parse_underscore_emphasis() {
    // Test underscore variants work the same as asterisks
    let markdown = "__bold__ and _italic_ and ___both___";
    let doc = parse_markdown(markdown).unwrap();

    let text = doc.root.text_content();
    assert!(text.contains("bold"));
    assert!(text.contains("italic"));
    assert!(text.contains("both"));
}

#[test]
fn test_parse_strikethrough_with_bold() {
    let markdown = "~~**bold strikethrough**~~";
    let doc = parse_markdown(markdown).unwrap();

    let text = doc.root.text_content();
    assert!(text.contains("bold strikethrough"));

    // Verify nested structure
    let para = &doc.root.children[0];
    assert!(!para.children.is_empty());
}

// ─────────────────────────────────────────────────────────────────────────
// Table Tests
// ─────────────────────────────────────────────────────────────────────────

#[test]
fn test_parse_table() {
    let markdown = "| Header 1 | Header 2 |\n|----------|----------|\n| Cell 1   | Cell 2   |";
    let doc = parse_markdown(markdown).unwrap();

    // Find the table node
    let table = doc
        .root
        .children
        .iter()
        .find(|n| matches!(n.node_type, MarkdownNodeType::Table { .. }));
    assert!(table.is_some());

    if let MarkdownNodeType::Table { num_columns, .. } = &table.unwrap().node_type {
        assert_eq!(*num_columns, 2);
    }
}

#[test]
fn test_parse_table_with_alignment() {
    let markdown =
        "| Left | Center | Right |\n|:-----|:------:|------:|\n| L    | C      | R     |";
    let doc = parse_markdown(markdown).unwrap();

    let table = doc
        .root
        .children
        .iter()
        .find(|n| matches!(n.node_type, MarkdownNodeType::Table { .. }));
    assert!(table.is_some());

    if let MarkdownNodeType::Table { alignments, .. } = &table.unwrap().node_type {
        assert_eq!(alignments.len(), 3);
        assert_eq!(alignments[0], TableAlignment::Left);
        assert_eq!(alignments[1], TableAlignment::Center);
        assert_eq!(alignments[2], TableAlignment::Right);
    }
}

// ─────────────────────────────────────────────────────────────────────────
// Block Quote Tests
// ─────────────────────────────────────────────────────────────────────────

#[test]
fn test_parse_blockquote() {
    let markdown = "> This is a quote";
    let doc = parse_markdown(markdown).unwrap();

    assert!(!doc.root.children.is_empty());
    assert!(matches!(
        doc.root.children[0].node_type,
        MarkdownNodeType::BlockQuote
    ));
}

#[test]
fn test_parse_nested_blockquote() {
    let markdown = "> Level 1\n>> Level 2";
    let doc = parse_markdown(markdown).unwrap();
    assert!(matches!(
        doc.root.children[0].node_type,
        MarkdownNodeType::BlockQuote
    ));
}

// ─────────────────────────────────────────────────────────────────────────
// Thematic Break Tests
// ─────────────────────────────────────────────────────────────────────────

#[test]
fn test_parse_horizontal_rule() {
    let markdown = "Before\n\n---\n\nAfter";
    let doc = parse_markdown(markdown).unwrap();

    let hr = doc
        .root
        .children
        .iter()
        .find(|n| matches!(n.node_type, MarkdownNodeType::ThematicBreak));
    assert!(hr.is_some());
}

// ─────────────────────────────────────────────────────────────────────────
// Node Helper Tests
// ─────────────────────────────────────────────────────────────────────────

#[test]
fn test_text_content() {
    let doc = parse_markdown("Hello **world**!").unwrap();
    let text = doc.root.text_content();
    assert!(text.contains("Hello"));
    assert!(text.contains("world"));
}

// ─────────────────────────────────────────────────────────────────────────
// Error Handling Tests
// ─────────────────────────────────────────────────────────────────────────

#[test]
fn test_parse_malformed_markdown() {
    // Comrak is very permissive - even "malformed" markdown parses
    // This test ensures we don't crash on unusual input
    let inputs = [
        "# Unclosed heading",
        "```\nunclosed code block",
        "| broken | table",
        "[unclosed link(",
        "![broken image",
        "***nested emphasis**",
    ];

    for input in inputs {
        let result = parse_markdown(input);
        assert!(result.is_ok(), "Failed to parse: {}", input);
    }
}

// ─────────────────────────────────────────────────────────────────────────
// Position Information Tests
// ─────────────────────────────────────────────────────────────────────────

#[test]
fn test_source_position() {
    let doc = parse_markdown("# Heading\n\nParagraph").unwrap();

    // First child (heading) should start at line 1
    let heading = &doc.root.children[0];
    assert_eq!(heading.start_line, 1);
}

#[test]
fn test_list_item_structure() {
    // Test tight list (no blank lines between items)
    let markdown = "- Item 1\n- Item 2\n- Item 3";
    let doc = parse_markdown(markdown).unwrap();

    let list = &doc.root.children[0];
    assert!(matches!(list.node_type, MarkdownNodeType::List { .. }));

    // Check the first list item
    let first_item = &list.children[0];
    assert!(matches!(first_item.node_type, MarkdownNodeType::Item));

    // List item should have exactly one child (Paragraph)
    assert_eq!(first_item.children.len(), 1);

    // The list item should have a Paragraph child (even for tight lists in comrak)
    let has_paragraph = first_item
        .children
        .iter()
        .any(|c| matches!(c.node_type, MarkdownNodeType::Paragraph));
    assert!(has_paragraph, "List item should have Paragraph child");

    // Get the paragraph and check it has the text
    let para = first_item
        .children
        .iter()
        .find(|c| matches!(c.node_type, MarkdownNodeType::Paragraph))
        .unwrap();
    assert_eq!(para.text_content(), "Item 1");

    // Check text content is accessible from the item node
    let text_content = first_item.text_content();
    assert_eq!(text_content, "Item 1");
}

#[test]
fn test_loose_list_item_structure() {
    // Test loose list (blank lines between items)
    let markdown = "- Item 1\n\n- Item 2\n\n- Item 3";
    let doc = parse_markdown(markdown).unwrap();

    let list = &doc.root.children[0];
    assert!(matches!(list.node_type, MarkdownNodeType::List { .. }));

    // Check the first list item
    let first_item = &list.children[0];
    assert!(matches!(first_item.node_type, MarkdownNodeType::Item));

    // The list item should have a Paragraph child
    let has_paragraph = first_item
        .children
        .iter()
        .any(|c| matches!(c.node_type, MarkdownNodeType::Paragraph));
    assert!(
        has_paragraph,
        "Loose list items should have Paragraph children"
    );
}

#[test]
fn test_merged_blockquotes_not_adjacent() {
    let doc = parse_markdown("> one\n\n> two\n\n> three\n\ntext\n\n> four").unwrap();
    let kinds: Vec<bool> = doc
        .root
        .children
        .iter()
        .map(|c| matches!(c.node_type, MarkdownNodeType::BlockQuote))
        .collect();
    assert_eq!(kinds, vec![true, false, true]);
    for w in kinds.windows(2) {
        assert!(!(w[0] && w[1]));
    }
    // nested quotes that a merge brings together are merged too
    let doc = parse_markdown("> > a\n\n> > b").unwrap();
    assert_eq!(doc.root.children.len(), 1);
    let outer = &doc.root.children[0];
    assert_eq!(outer.children.len(), 1);
    let inner = &outer.children[0];
    assert!(matches!(inner.node_type, MarkdownNodeType::BlockQuote));
    assert_eq!(inner.children.len(), 2);
    assert!(inner.children.iter().all(|c| matches!(c.node_type, MarkdownNodeType::Paragraph)));
    assert_eq!(outer.end_line, 3);
    assert_eq!(inner.end_line, 3);
}
