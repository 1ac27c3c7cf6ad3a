//! rsslide: YAML slide decks made into PDF pages, and Marp Markdown made
//! into YAML decks. This crate holds the logic that involves no measurement:
//! the deck model and its checks, the Marp importer and its YAML writer,
//! line wrapping, CSS variable flattening for SVG pictures, code
//! highlighting runs, and what each slide draws in which order.

pub mod text;
pub mod model;
pub mod importer;
pub mod layout;
pub mod css_vars;
pub mod highlight;
pub mod assets;
pub mod page;
pub mod fonts;
pub mod config;
pub mod cli;
