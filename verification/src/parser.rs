//! The Earley recognizer, the parse forest and what is proved of them.

pub mod bound;
pub mod chart;
pub mod derivation;
pub mod error;
pub mod forest;
pub mod parse;
pub mod proofs;
pub mod state;
pub mod theorems;
pub mod tree;

pub use error::ParseError;
pub use parse::parse;
pub use parse::recognize;
pub use state::ParserColumn;
pub use state::ParserState;
pub use tree::build_forest;
pub use tree::Tree;
