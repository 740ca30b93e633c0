//! Completion of the word at the cursor.

pub mod casing;
pub mod cost;
pub mod cursor;
pub mod items;
pub mod matching;
pub mod order;
pub mod rank;
pub mod splits;
pub mod state;
pub mod stats;
