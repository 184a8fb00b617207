//! The lemmas behind the theorems of the parser.

pub mod closure;
pub mod distinct;
pub mod found;
pub mod origin;
pub mod plain;
pub mod pump;
pub mod reach;
pub mod sound;
pub mod witness;
