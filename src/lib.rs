//! Filtering lines of text against a list of strings, either on the whole
//! line or on one whitespace-delimited column of it.
pub mod filter;
pub mod text;
