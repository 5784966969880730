//! Core logic of the Ferrite markdown editor: text utilities, path
//! normalization, markdown tree post-processing, table-of-contents
//! management and the Mermaid diagram source parsers.
pub mod text;
pub mod about;
pub mod path_utils;
pub mod platform;
pub mod single_instance;
pub mod markdown;
