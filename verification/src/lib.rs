//! Completion ranking, document positions and request decisions for a prose language server.

pub mod chars;
pub mod completion;
pub mod dictionary;
pub mod document;
pub mod keyboard_distance;
pub mod lexing;
pub mod pos_conv;
pub mod server;
pub mod word_frequency;
