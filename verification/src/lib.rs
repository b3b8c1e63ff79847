//! A small Markdown-to-HTML conversion library, verified with Verus.
//!
//! The pipeline: a document is segmented into blocks (separated by blank
//! lines), each block is classified (heading, code, quote, list, paragraph),
//! block text is tokenized into typed inline spans (bold, italic, code,
//! link, image), the spans and blocks are assembled into an element tree,
//! and the tree is serialized to a flat HTML string.
#![verifier::loop_isolation(false)]

pub mod blocks;
pub mod errors;
pub mod htmlnode;
pub mod text;
pub mod textnode;
pub mod utils;
