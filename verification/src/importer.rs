//! Import of Marp Markdown decks into the YAML deck format.

pub mod marp;
pub mod emit;
