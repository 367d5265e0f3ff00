//! Finds dead Python code: files that no entry point of a project reaches, and symbols that
//! nothing uses.
//!
//! `check` decides which files of a project are dead, and `symbols` which symbols of the live ones
//! are. Both work on what has been read of a project before: syntax trees (`ast`), paths (`path`)
//! and answers about where modules lie (`imports`). What holds of the two as a whole is stated in
//! `check_laws`, `symbol_laws` and `rule_laws`.

pub mod ast;
pub mod check;
pub mod check_laws;
pub mod collections;
pub mod collector;
pub mod config;
pub mod diagnostics;
pub mod fastapi;
pub mod fastapi_laws;
pub mod graph;
pub mod imports;
pub mod keys;
pub mod lines;
pub mod liveness;
pub mod module_laws;
pub mod order;
pub mod path;
pub mod project_laws;
pub mod reach;
pub mod reference_laws;
pub mod references;
pub mod rule_laws;
pub mod rules;
pub mod scope;
pub mod settings;
pub mod symbol_laws;
pub mod symbols;
pub mod syntax_laws;
pub mod text;
pub mod text_laws;
pub mod usage_laws;
