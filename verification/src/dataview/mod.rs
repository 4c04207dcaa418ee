//! Dataview query blocks: their grammar, their evaluation plan and their
//! markdown rendering.
pub mod query;
pub mod transform;
