//! The query language of a JSON search index.

pub mod error;
pub mod filters;
pub mod grammar;
pub mod json_value;
pub mod key_builder;
pub mod laws;
pub mod parser;
pub mod query;
pub mod text;
