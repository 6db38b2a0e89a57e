//! Builds a collection → title → tab tree out of episode metadata documents.

pub mod document;
pub mod json;
pub mod record;
pub mod tree;
