//! Tests of table of contents generation.
use ferrite_core::markdown::toc::{
    extract_outline, extract_toc_headings, find_toc_block, generate_toc_block, generate_toc_content,
    insert_or_update_toc, remove_toc, TocOptions, TOC_END, TOC_START,
};
use slug::slugify;

#[test]
fn test_slugify_heading() {
    assert_eq!(slugify("Hello World"), "hello-world");
    assert_eq!(slugify("Getting Started"), "getting-started");
    assert_eq!(slugify("Drag & Drop"), "drag-drop");
    assert_eq!(slugify("What's New?"), "what-s-new");
}

#[test]
fn test_extract_toc_headings() {
    let text = "# Title\n\n## Section 1\n\nText\n\n## Section 2\n\n### Subsection";
    let headings = extract_toc_headings(text, &TocOptions::default());

    assert_eq!(headings.len(), 4);
    assert_eq!(headings[0].text, "Title");
    assert_eq!(headings[0].level, 1);
    assert_eq!(headings[1].text, "Section 1");
    assert_eq!(headings[1].level, 2);
    assert_eq!(headings[3].text, "Subsection");
    assert_eq!(headings[3].level, 3);
}

#[test]
fn test_extract_toc_headings_with_level_filter() {
    let text = "# Title\n\n## Section\n\n### Subsection\n\n#### Deep";
    let options = TocOptions::default().with_max_level(2);
    let headings = extract_toc_headings(text, &options);

    assert_eq!(headings.len(), 2);
    assert_eq!(headings[0].text, "Title");
    assert_eq!(headings[1].text, "Section");
}

#[test]
fn test_generate_toc_content() {
    let text = "# Title\n\n## Section 1\n\n## Section 2";
    let toc = generate_toc_content(text, &TocOptions::default());

    assert!(toc.contains("- [Title](#title)"));
    assert!(toc.contains("  - [Section 1](#section-1)"));
    assert!(toc.contains("  - [Section 2](#section-2)"));
}

#[test]
fn test_generate_toc_block() {
    let text = "# Hello\n\n## World";
    let block = generate_toc_block(text, &TocOptions::default());

    assert!(block.starts_with(TOC_START));
    assert!(block.ends_with(TOC_END));
    assert!(block.contains("- [Hello](#hello)"));
}

#[test]
fn test_find_toc_block() {
    let text = "Some text\n\n<!-- TOC -->\n- [A](#a)\n<!-- /TOC -->\n\nMore text";
    let result = find_toc_block(text);

    assert!(result.is_some());
    let (start, end) = result.unwrap();
    assert!(text[start..end].starts_with(TOC_START));
    assert!(text[start..end].ends_with(TOC_END));
}

#[test]
fn test_find_toc_block_not_found() {
    let text = "# Title\n\n## Section\n\nNo TOC here";
    assert!(find_toc_block(text).is_none());
}

#[test]
fn test_insert_toc_new() {
    let text = "# Title\n\n## Section\n\nSome content";
    let result = insert_or_update_toc(text, 0, &TocOptions::default());

    assert!(!result.was_update);
    assert!(result.text.contains(TOC_START));
    assert!(result.text.contains("- [Title](#title)"));
    assert_eq!(result.heading_count, 2);
}

#[test]
fn test_update_existing_toc() {
    let text = "# Title\n\n<!-- TOC -->\n- old content\n<!-- /TOC -->\n\n## Section";
    let result = insert_or_update_toc(text, 0, &TocOptions::default());

    assert!(result.was_update);
    assert!(result.text.contains("- [Title](#title)"));
    assert!(result.text.contains("- [Section](#section)"));
    assert!(!result.text.contains("old content"));
}

#[test]
fn test_remove_toc() {
    let text = "# Title\n\n<!-- TOC -->\n- [Title](#title)\n<!-- /TOC -->\n\n## Section";
    let result = remove_toc(text);

    assert!(!result.contains(TOC_START));
    assert!(!result.contains(TOC_END));
    assert!(result.contains("# Title"));
    assert!(result.contains("## Section"));
}

#[test]
fn test_toc_with_empty_document() {
    let text = "";
    let result = insert_or_update_toc(text, 0, &TocOptions::default());

    assert_eq!(result.heading_count, 0);
    assert!(result.text.contains(TOC_START));
    assert!(result.text.contains(TOC_END));
}

#[test]
fn test_toc_with_no_headings() {
    let text = "Just some plain text\n\nwith no headings at all.";
    let toc = generate_toc_content(text, &TocOptions::default());

    assert!(toc.is_empty());
}

#[test]
fn test_toc_heading_with_special_chars() {
    let text = "# Hello & Goodbye!\n\n## What's New?";
    let headings = extract_toc_headings(text, &TocOptions::default());

    assert_eq!(headings[0].anchor, "hello-goodbye");
    assert_eq!(headings[1].anchor, "what-s-new");
}

#[test]
fn test_toc_preserves_inline_formatting_text() {
    // The outline extractor strips inline formatting, so TOC gets clean text
    let text = "# **Bold** Title\n\n## `Code` Section";
    let headings = extract_toc_headings(text, &TocOptions::default());

    assert_eq!(headings[0].text, "Bold Title");
    assert_eq!(headings[1].text, "Code Section");
}

#[test]
fn test_toc_options_with_min_level() {
    let text = "# Title\n\n## Section\n\n### Subsection";
    let options = TocOptions::default().with_min_level(2);
    let headings = extract_toc_headings(text, &options);

    assert_eq!(headings.len(), 2);
    assert_eq!(headings[0].text, "Section");
    assert_eq!(headings[1].text, "Subsection");
}

#[test]
fn test_toc_all_levels() {
    let text = "# H1\n## H2\n### H3\n#### H4\n##### H5\n###### H6";
    let options = TocOptions::all_levels();
    let headings = extract_toc_headings(text, &options);

    assert_eq!(headings.len(), 6);
}

#[test]
fn test_insert_toc_then_find() {
    let options = TocOptions::default();
    for doc in ["# A\n\n## B\n", "no headings", "<!-- TOC -->\nold\n<!-- /TOC -->\n# C", "x <!-- TOC --> y"] {
        let r = insert_or_update_toc(doc, 3, &options);
        let (a, b) = find_toc_block(&r.text).expect("a block after insertion");
        let block = &r.text[a..b];
        assert!(block.starts_with(TOC_START));
        assert!(block.ends_with(TOC_END));
    }
}

#[test]
fn test_positions_are_byte_offsets() {
    let options = TocOptions::default();
    // A cursor inside a two-byte character falls back to the boundary
    // before it, so the block goes first.
    let r = insert_or_update_toc("é", 1, &options);
    assert!(r.text.starts_with(TOC_START));
    assert!(r.text.ends_with("\n\né"));
    assert_eq!(&r.text[r.cursor..], "\n\né");
    // After the character, the block follows it.
    let r = insert_or_update_toc("é", 2, &options);
    assert!(r.text.starts_with("é\n\n"));
    assert_eq!(r.cursor, r.text.len());
    // Block bounds and the cursor after an update count bytes.
    let text = "# Café\n\n<!-- TOC -->\nold\n<!-- /TOC -->\n";
    let (a, b) = find_toc_block(text).expect("a block");
    assert_eq!(a, "# Café\n\n".len());
    assert_eq!(&text[a..b], "<!-- TOC -->\nold\n<!-- /TOC -->");
    let r = insert_or_update_toc(text, 0, &options);
    assert!(r.was_update);
    assert_eq!(&r.text[r.cursor..], "\n");
    assert!(r.text[..r.cursor].ends_with(TOC_END));
}

#[test]
fn test_update_then_remove_is_remove() {
    let options = TocOptions::default();
    let text = "# Title\n\nintro\n\n<!-- TOC -->\nold\n<!-- /TOC -->\n\n## Next\n";
    let r = insert_or_update_toc(text, 0, &options);
    assert!(r.was_update);
    assert_eq!(remove_toc(&r.text), remove_toc(text));
}

#[test]
fn test_outline_is_one_and_feeds_the_toc() {
    let text = "# A *b*\n\n> ## Quoted\n\n| x |\n|---|\n| y |\n\n### `c` d\n";
    let o1 = extract_outline(text);
    let o2 = extract_outline(text);
    let a: Vec<(u8, String)> = o1.iter().map(|o| (o.level, o.title.clone())).collect();
    let b: Vec<(u8, String)> = o2.iter().map(|o| (o.level, o.title.clone())).collect();
    assert_eq!(a, b);
    assert_eq!(a, vec![(1, "A b".to_string()), (2, "Quoted".to_string()), (3, "c d".to_string())]);
    let h: Vec<(u8, String)> = extract_toc_headings(text, &TocOptions::all_levels())
        .iter()
        .map(|h| (h.level, h.text.clone()))
        .collect();
    assert_eq!(h, a);
}
