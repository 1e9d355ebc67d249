//! Connection string parsing.
//!
//! Two dialects are supported: the semicolon-delimited ADO.net key/value
//! format and the URL-like JDBC format. Each has a lexer that resolves
//! quote- and brace-based escaping into tokens, a recursive-descent parser
//! that builds a structured model, and a serializer that renders the model
//! back to dialect-correct text.

mod ado;
mod error;
mod jdbc;
mod props;
mod text;

pub use ado::AdoNetString;
pub use error::Error;
pub use jdbc::JdbcString;
pub use props::Props;
