use vstd::prelude::*;

verus! {

/// Where a lexeme was found in the input. The parser never looks at it; it is
/// carried along into the leaves of the parse trees.
#[derive(Clone, Copy, Debug, PartialEq, Eq, Structural)]
pub struct Position {
    /// Line number, counted by the lexer.
    pub line: usize,
    /// Column number, counted by the lexer.
    pub column: usize,
}

impl Position {
    /// A position on the given line and column.
    pub fn new(line: usize, column: usize) -> (position: Position)
        ensures
            position == (Position { line, column }),
    {
        Position { line, column }
    }
}

} // verus!
