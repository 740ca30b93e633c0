//! What the language server decides between its requests and its answers.

pub mod changes;
pub mod commands;
pub mod diagnostics;
pub mod documents;
pub mod initialize;
pub mod uri;
