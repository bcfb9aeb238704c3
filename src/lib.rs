//! A reader for symbolic expressions: turns source text into a tree of
//! numbers, symbols and lists in a single pass, with an explicit stack for
//! nesting instead of recursion.
pub mod error;
pub mod expr;
pub mod laws;
pub mod numeral;
pub mod printer;
pub mod reader;
pub mod text;

pub use error::ReadError;
pub use expr::{Decimal, SymbolicExpr};
pub use printer::to_text;
pub use reader::{read, to_atom, ScanState};
