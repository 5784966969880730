//! Markdown processing: the document tree, the table of contents and the
//! Mermaid diagram parsers.
pub mod mermaid;
pub mod comrak_tree;
pub mod events;
pub mod parser;
pub mod toc;
