//! A code-intelligence index: symbols and call sites are extracted from source
//! files, calls are resolved to edges with a confidence tier, and the resulting
//! graph is searched, traversed and compared.

pub mod arguments;
pub mod commands;
pub mod db;
pub mod fixtures;
pub mod ordered;
pub mod parser;
pub mod paths;
pub mod sets;
pub mod text;
