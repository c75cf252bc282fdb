//! What holds of the query language as a whole.

pub mod basic;
pub mod clauses;
pub mod filter_joins;
pub mod filter_refusals;
pub mod filters;
pub mod joins;
pub mod json;
pub mod lexical;
pub mod order;
pub mod pen;
pub mod pen_filter;
pub mod pen_form;
pub mod pen_json;
pub mod pen_order;
pub mod query;
pub mod refusals;
pub mod results;
pub mod tokens;
pub mod views;
