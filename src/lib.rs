//! A small document-rendering engine: markup parsing, a document model, a
//! stylesheet grammar, a style cascade and box-tree layout.

pub mod strs;
pub mod dom;
pub mod html;
pub mod fetch;
pub mod document;
pub mod css;
pub mod style;
pub mod layout;
pub mod utils;
pub mod cli;
