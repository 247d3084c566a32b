//! Decision logic of a formatter's file discovery and of a linter's rename fixer.
pub mod components;
pub mod direct;
pub mod discovery;
pub mod filter;
pub mod glob;
pub mod nearest;
pub mod nested;
pub mod path;
pub mod path_index;
pub mod text;
pub mod unused_names;
pub mod visitor;
pub mod walker;
