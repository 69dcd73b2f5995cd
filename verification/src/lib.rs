//! The logic of a block-oriented Markdown editor: counting text the way Qt counts it,
//! splitting a document into blocks, styling the block being edited, and keeping what the
//! checker has found.

pub mod text;
pub mod markdown;
pub mod parse;
pub mod block;
pub mod style;
pub mod lint;
pub mod document;
