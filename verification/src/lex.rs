//! The lexemes that the parser consumes.

pub mod lexeme;
pub mod position;

pub use lexeme::Lexeme;
pub use lexeme::LexemeView;
pub use position::Position;
