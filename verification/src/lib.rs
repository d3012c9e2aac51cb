//! Core of a small Lisp-family interpreter: a reader that parses text into
//! terms, an evaluator over chained lexical environments, and a printer that
//! renders terms back to text.

pub mod env;
pub mod eval;
pub mod laws;
pub mod printer;
pub mod reader;
pub mod types;

pub use types::MalError;
pub use types::MalHashMap;
pub use types::MalType;
