//! A small incremental computation engine for a grid of named cells.
//!
//! Each cell holds either a literal value or a formula referencing other
//! cells. On every write the engine reparses the cell's text, updates a
//! dependency graph, and recomputes every transitively dependent cell in
//! dependency order, with defined type-coercion and error semantics.

mod chars;
mod vecset;
pub mod value;
pub mod reference;
pub mod ast;
pub mod graph;
pub mod lexer;
pub mod parser;
pub mod cell;
pub mod evaluate;
pub mod spreadsheet;

pub use cell::{Cell, Content, Sheet};
pub use reference::Reference;
pub use spreadsheet::Spreadsheet;
pub use value::Value;
