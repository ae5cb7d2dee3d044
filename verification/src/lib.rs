//! A tmux layout manager: layout trees, a layout DSL, grids, and the plan of
//! tmux splits that builds a layout.

pub mod layout;
pub mod text;
pub mod lexer;
pub mod parser;
pub mod plan;
pub mod file;
pub mod args;
pub mod grammar;
pub mod spelling;
