//! A verified core for a small command-line HTTP client: structural
//! validation of URL hosts and ports, request dispatch decisions, form-body
//! parsing, and deterministic rendering of JSON responses with sorted keys.
pub mod json;
pub mod render;
pub mod request;
pub mod text;
pub mod url_parse;
pub mod validate;
