//! How parsing fails, and what it returns as a mathematical value.

use crate::grammar::GrammarView;
use crate::grammar::well_formed;
use crate::lex::lexeme::LexemeView;
use crate::lex::lexeme::kinds_of;
use crate::parser::chart::earley_chart;
use crate::parser::chart::expected;
use crate::parser::chart::furthest;
use crate::parser::chart::recognizes;
use crate::parser::forest::TreeView;
use crate::parser::forest::forest;
use crate::parser::tree::Tree;
use crate::parser::tree::tree_views;
use vstd::prelude::*;

verus! {

/// Why an input could not be parsed.
#[derive(Debug, PartialEq, Eq)]
pub enum ParseError {
    /// The lexemes are no sentence of the grammar. `furthest` is the last
    /// column that recognition reached, and `expected` lists the lexeme
    /// kinds that would have been accepted there, each once.
    UnrecognizedInput { furthest: usize, expected: Vec<String> },
    /// The grammar is not well-formed: see
    /// [`well_formed`](crate::grammar::well_formed).
    GrammarViolation,
}

/// The mathematical value of a [`ParseError`].
pub enum ErrorView {
    UnrecognizedInput { furthest: int, expected: Seq<Seq<char>> },
    GrammarViolation,
}

/// The values of a sequence of strings.
pub open spec fn kind_views(kinds: Seq<String>) -> Seq<Seq<char>> {
    kinds.map_values(|kind: String| kind@)
}

impl View for ParseError {
    type V = ErrorView;

    open spec fn view(&self) -> ErrorView {
        match self {
            ParseError::UnrecognizedInput { furthest, expected } => ErrorView::UnrecognizedInput {
                furthest: *furthest as int,
                expected: kind_views(expected@),
            },
            ParseError::GrammarViolation => ErrorView::GrammarViolation,
        }
    }
}

/// The mathematical value of what parsing returns.
pub open spec fn result_view(result: Result<Vec<Tree>, ParseError>) -> Result<
    Seq<TreeView>,
    ErrorView,
> {
    match result {
        Ok(trees) => Ok(tree_views(trees@)),
        Err(error) => Err(error@),
    }
}

/// What parsing the lexemes with the grammar returns. A grammar that is
/// not well-formed is refused. Lexemes that the recognizer accepts give
/// the parse forest. Others give the furthest column that was reached and
/// the kinds that were expected there.
pub open spec fn parsed(
    g: GrammarView,
    lexemes: Seq<LexemeView>,
) -> Result<Seq<TreeView>, ErrorView> {
    if !well_formed(g) {
        Err(ErrorView::GrammarViolation)
    } else if recognizes(g, kinds_of(lexemes)) {
        Ok(forest(g, lexemes))
    } else {
        let chart = earley_chart(g, kinds_of(lexemes));
        Err(
            ErrorView::UnrecognizedInput {
                furthest: furthest(chart),
                expected: expected(g, chart[furthest(chart)]),
            },
        )
    }
}

} // verus!
