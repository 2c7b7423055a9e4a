//! Batch key-path updates on JSON documents.
//!
//! The library models a JSON document as a tree, splits a dot-separated key
//! path into segments, and upserts a string value at that path, creating
//! intermediate objects as needed. Every operation carries a contract that
//! pins its result down over a mathematical model of the document.

pub mod json;
pub mod keypath;
pub mod laws;
pub mod setter;
