//! Scanning, parsing and rewriting of brace-delimited parameter placeholders
//! such as `{name:.2f=3.14}` in template text, and inference of the types of
//! their defaults.
pub mod text;
pub mod scan;
pub mod params;
pub mod types;
pub mod dataclasses;
pub mod parser;
pub mod path;
pub mod settings;
