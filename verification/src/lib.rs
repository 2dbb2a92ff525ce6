//! An LR(0) grammar-analysis and table-driven parsing engine.
//!
//! Given a context-free grammar over integer-coded terminal and non-terminal
//! alphabets, this crate builds the canonical collection of LR(0) item sets,
//! compiles it into an action/goto parsing table with conflict reporting, and
//! runs a shift-reduce parse that folds semantic values through user-supplied
//! reduction actions.

pub mod bnf;
pub mod item_set;
pub mod nullable_set;
pub mod parsing_table;
