//! Query markdown files by their frontmatter, and evaluate `dataview` query
//! blocks embedded in markdown documents.
pub mod args;
pub mod dataview;
pub mod index;
pub mod json;
pub mod output;
pub mod report;
pub mod tags;
pub mod tasks;
pub mod text;

pub use index::{Document, Index};
pub use tags::get_inline_tags;
