//! Inventory of Markdown documentation files: front-matter extraction,
//! summary normalization, inline-array hint parsing, path ordering, and
//! report rendering, all with verified contracts.

pub mod text;
pub mod summary;
pub mod inline;
pub mod extract;
pub mod walk;
pub mod render;
