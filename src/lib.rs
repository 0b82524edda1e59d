//! Parsers for two small line-oriented text formats: a numeric CSV table and
//! an INI-style configuration.
pub mod csv;
pub mod error;
pub mod ini;
pub mod ini_text;
pub mod text;
