//! Blast-radius analysis for Python code bases.
//!
//! - [`syntax`] and [`parser`] read off a file which functions it defines and what they call;
//!   [`paths`] tells which module it is.
//! - [`callgraph`] joins the files to the call graph of a repository, in which [`reach`] searches.
//! - [`git`] finds the symbols that a diff touches, and [`scorer`] how risky their change is.
//! - [`output`] words the result, and [`index`] says what of a parsed file may be used again.
//! - [`binary64`], [`names`], [`order`] and [`text`] are what the others compute with.
//! - [`laws`] states what holds of all of them together.
pub mod binary64;
pub mod callgraph;
pub mod git;
pub mod index;
pub mod laws;
pub mod names;
pub mod order;
pub mod output;
pub mod parser;
pub mod paths;
pub mod reach;
pub mod scorer;
pub mod syntax;
pub mod text;
