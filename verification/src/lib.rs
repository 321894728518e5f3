//! An interactive-viewer core for tabular data: a small query language
//! (`column=name[,name...]`) and a column projection/formatting engine.
//!
//! `command` lexes and parses the query text into expression trees;
//! `csv_renderer` holds the loaded table and renders the currently selected
//! columns as padded, pipe-joined display lines.

pub mod command;
pub mod csv_renderer;
