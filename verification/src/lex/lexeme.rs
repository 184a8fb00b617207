use crate::lex::position::Position;
use vstd::prelude::*;

verus! {

/// A unit of input: its kind, which the grammar's terminals are matched
/// against, the text it was read from and the place where it was found.
#[derive(Debug, PartialEq, Eq)]
pub struct Lexeme {
    /// The name that terminals of a grammar refer to.
    pub kind: String,
    /// The characters that make up the lexeme.
    pub raw: String,
    /// The place of the lexeme in the input.
    pub position: Position,
}

/// The mathematical value of a [`Lexeme`].
pub struct LexemeView {
    pub kind: Seq<char>,
    pub raw: Seq<char>,
    pub position: Position,
}

impl View for Lexeme {
    type V = LexemeView;

    open spec fn view(&self) -> LexemeView {
        LexemeView { kind: self.kind@, raw: self.raw@, position: self.position }
    }
}

impl Clone for Lexeme {
    fn clone(&self) -> (copy: Self)
        ensures
            copy@ == self@,
    {
        Lexeme { kind: self.kind.clone(), raw: self.raw.clone(), position: self.position }
    }
}

impl Lexeme {
    /// A lexeme of the given kind and text at the given position.
    pub fn new(kind: String, raw: String, position: Position) -> (lexeme: Lexeme)
        ensures
            lexeme@ == (LexemeView { kind: kind@, raw: raw@, position }),
    {
        Lexeme { kind, raw, position }
    }
}

/// The values of a sequence of lexemes.
pub open spec fn lexeme_views(lexemes: Seq<Lexeme>) -> Seq<LexemeView> {
    lexemes.map_values(|lexeme: Lexeme| lexeme@)
}

/// The kinds of a sequence of lexemes: all that recognition looks at.
pub open spec fn kinds_of(lexemes: Seq<LexemeView>) -> Seq<Seq<char>> {
    lexemes.map_values(|lexeme: LexemeView| lexeme.kind)
}

} // verus!
