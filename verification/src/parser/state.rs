//! The states and columns that the recognizer works on.

use crate::grammar::Grammar;
use crate::grammar::GrammarView;
use crate::grammar::Symbol;
use crate::parser::chart::Chart;
use crate::parser::chart::Item;
use crate::parser::chart::inserted;
use crate::parser::chart::is_complete;
use crate::parser::chart::item_ok;
use crate::parser::chart::next_symbol;
use crate::parser::forest::Span;
use vstd::prelude::*;

verus! {

/// The end column of a state that is still at work.
pub const OPEN_END: usize = usize::MAX;

/// An Earley item as the recognizer holds it. The rule and the production
/// are indices into the grammar. `end_column` is [`OPEN_END`] until the
/// chart is finished; then it is the column that holds the state.
#[derive(Clone, Copy, Debug, PartialEq, Eq)]
pub struct ParserState {
    /// The index of the rule in the grammar.
    pub rule: usize,
    /// The index of the production in the rule.
    pub production: usize,
    /// The number of symbols of the production that are matched.
    pub dot_index: usize,
    /// The column at which the match began.
    pub start_column: usize,
    /// The column at which the match ended, once that is settled.
    pub end_column: usize,
}

impl View for ParserState {
    type V = Item;

    /// The item of a state: all of it but the end column.
    open spec fn view(&self) -> Item {
        Item {
            rule: self.rule as int,
            production: self.production as int,
            dot: self.dot_index as int,
            start: self.start_column as int,
        }
    }
}

impl ParserState {
    /// The span of a state whose end column is set.
    pub open spec fn span(&self) -> Span {
        Span { item: self@, end: self.end_column as int }
    }

    /// Whether two states hold the same item and end in the same column.
    pub fn same_span(&self, other: &ParserState) -> (same: bool)
        ensures
            same == (self.span() == other.span()),
    {
        self.same_item(other) && self.end_column == other.end_column
    }

    /// Whether two states hold the same item. The end columns play no part.
    pub fn same_item(&self, other: &ParserState) -> (same: bool)
        ensures
            same == (self@ == other@),
    {
        self.rule == other.rule && self.production == other.production && self.dot_index
            == other.dot_index && self.start_column == other.start_column
    }

    /// Whether the dot stands behind the last symbol of the production.
    pub fn completed(&self, grammar: &Grammar) -> (done: bool)
        requires
            item_ok(grammar@, self@, self@.start),
        ensures
            done == is_complete(grammar@, self@),
    {
        self.dot_index == grammar.production_len(self.rule, self.production)
    }

    /// The symbol behind the dot, if there is one.
    pub fn next_symbol<'a>(&self, grammar: &'a Grammar) -> (symbol: Option<&'a Symbol>)
        requires
            item_ok(grammar@, self@, self@.start),
        ensures
            match symbol {
                Some(found) => !is_complete(grammar@, self@) && found@ == next_symbol(
                    grammar@,
                    self@,
                ),
                None => is_complete(grammar@, self@),
            },
    {
        if self.dot_index < grammar.production_len(self.rule, self.production) {
            Some(grammar.symbol_at(self.rule, self.production, self.dot_index))
        } else {
            None
        }
    }
}

/// One column of the chart: the states found at one boundary between
/// lexemes, in the order in which they were found, each item once.
#[derive(Debug, PartialEq, Eq)]
pub struct ParserColumn {
    /// The number of lexemes before this column.
    pub index: usize,
    /// The kind of the lexeme just before this column; `^` for the first.
    pub kind: String,
    /// The states of the column, in the order in which they were found.
    pub states: Vec<ParserState>,
}

/// The items of a sequence of states.
pub open spec fn items_of(states: Seq<ParserState>) -> Seq<Item> {
    states.map_values(|state: ParserState| state@)
}

impl View for ParserColumn {
    type V = Seq<Item>;

    open spec fn view(&self) -> Seq<Item> {
        items_of(self.states@)
    }
}

impl ParserColumn {
    /// A column without states.
    pub fn new(index: usize, kind: String) -> (column: ParserColumn)
        ensures
            column@ == Seq::<Item>::empty(),
            column.index == index,
            column.kind == kind,
    {
        let column = ParserColumn { index, kind, states: Vec::new() };
        assert(column@ =~= Seq::<Item>::empty());
        column
    }

    /// Whether the column holds the item of `state`.
    pub fn contains(&self, state: &ParserState) -> (found: bool)
        ensures
            found == self@.contains(state@),
    {
        let mut k: usize = 0;
        while k < self.states.len()
            invariant
                k <= self.states.len(),
                forall|j: int| 0 <= j < k ==> self@[j] != state@,
            decreases self.states.len() - k,
        {
            if self.states[k].same_item(state) {
                assert(self@[k as int] == state@);
                return true;
            }
            k += 1;
        }
        false
    }

    /// Adds a state at the end of the column, unless the column holds its
    /// item already.
    pub fn add(&mut self, state: ParserState)
        ensures
            final(self)@ == inserted(old(self)@, state@),
            final(self).states@ == if old(self)@.contains(state@) {
                old(self).states@
            } else {
                old(self).states@.push(state)
            },
            final(self).index == old(self).index,
            final(self).kind == old(self).kind,
    {
        if !self.contains(&state) {
            self.states.push(state);
            assert(self@ =~= old(self)@.push(state@));
        }
    }
}

/// The chart that a sequence of columns stands for.
pub open spec fn chart_of(columns: Seq<ParserColumn>) -> Chart {
    columns.map_values(|column: ParserColumn| column@)
}

/// The later states are the earlier ones, followed by states whose end
/// is open.
pub open spec fn opened(before: Seq<ParserState>, after: Seq<ParserState>) -> bool {
    &&& before.len() <= after.len()
    &&& forall|k: int| 0 <= k < before.len() ==> after[k] == #[trigger] before[k]
    &&& forall|k: int|
        before.len() <= k < after.len() ==> (#[trigger] after[k]).end_column == OPEN_END
}

/// States that were opened twice were opened.
pub proof fn lemma_opened_twice(
    first: Seq<ParserState>,
    second: Seq<ParserState>,
    third: Seq<ParserState>,
)
    requires
        opened(first, second),
        opened(second, third),
    ensures
        opened(first, third),
{
    assert forall|k: int| 0 <= k < first.len() implies third[k] == #[trigger] first[k] by {
        assert(second[k] == first[k]);
        assert(third[k] == second[k]);
    }
    assert forall|k: int| first.len() <= k < third.len() implies (#[trigger] third[k]).end_column
        == OPEN_END by {
        if k < second.len() {
            assert(third[k] == second[k]);
            assert(second[k].end_column == OPEN_END);
        }
    }
}

/// The end of every state of the columns is open.
pub open spec fn all_open(columns: Seq<ParserColumn>) -> bool {
    forall|i: int, k: int|
        0 <= i < columns.len() && 0 <= k < columns[i].states@.len() ==> (
        #[trigger] columns[i].states@[k]).end_column == OPEN_END
}

/// The spans of a sequence of states.
pub open spec fn spans_of(states: Seq<ParserState>) -> Seq<Span> {
    states.map_values(|state: ParserState| state.span())
}

/// The columns of a finished chart: every state makes sense where it
/// stands, is complete and knows the column it stands in.
pub open spec fn columns_finished(g: GrammarView, columns: Seq<ParserColumn>) -> bool {
    forall|e: int, j: int|
        0 <= e < columns.len() && 0 <= j < columns[e].states@.len() ==> {
            let state = #[trigger] columns[e].states@[j];
            &&& item_ok(g, state@, e)
            &&& is_complete(g, state@)
            &&& state.end_column == e
        }
}

/// The sentinel kind of the first column.
pub open spec fn first_kind() -> Seq<char> {
    "^"@
}

/// Each column knows its index and the kind of the lexeme before it.
pub open spec fn labelled(columns: Seq<ParserColumn>, kinds: Seq<Seq<char>>) -> bool {
    &&& columns.len() == kinds.len() + 1
    &&& forall|i: int| 0 <= i < columns.len() ==> (#[trigger] columns[i]).index == i
    &&& columns[0].kind@ == first_kind()
    &&& forall|i: int| 1 <= i < columns.len() ==> (#[trigger] columns[i]).kind@ == kinds[i - 1]
}

} // verus!
