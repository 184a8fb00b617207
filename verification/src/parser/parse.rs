//! The recognizer: prediction, scanning and completion, column by column.

use crate::grammar::Grammar;
use crate::grammar::GrammarRule;
use crate::grammar::START_RULE_NAME;
use crate::grammar::Symbol;
use crate::grammar::lemma_production_fits;
use crate::grammar::well_formed;
use crate::lex::lexeme::Lexeme;
use crate::lex::lexeme::kinds_of;
use crate::lex::lexeme::lexeme_views;
use crate::parser::bound::lemma_column_fits;
use crate::parser::chart::Item;
use crate::parser::chart::advanced;
use crate::parser::chart::begins;
use crate::parser::chart::caught_up;
use crate::parser::chart::completed_here;
use crate::parser::chart::ends_empty;
use crate::parser::chart::lemma_predicted;
use crate::parser::chart::waits_for;
use crate::parser::chart::chart_ok;
use crate::parser::chart::column_ok;
use crate::parser::chart::completions;
use crate::parser::chart::earley_chart;
use crate::parser::chart::expected;
use crate::parser::chart::expected_upto;
use crate::parser::chart::expects;
use crate::parser::chart::finished;
use crate::parser::chart::furthest;
use crate::parser::chart::furthest_upto;
use crate::parser::chart::goal;
use crate::parser::chart::initial;
use crate::parser::chart::inserted;
use crate::parser::chart::is_complete;
use crate::parser::chart::item_ok;
use crate::parser::chart::lemma_completions;
use crate::parser::chart::lemma_finished_empty;
use crate::parser::chart::lemma_finished_push;
use crate::parser::chart::lemma_resolved;
use crate::parser::chart::lemma_start_rule;
use crate::parser::chart::lemma_step;
use crate::parser::chart::lemma_swept;
use crate::parser::chart::next_symbol;
use crate::parser::chart::predicted;
use crate::parser::chart::saturated;
use crate::parser::chart::step;
use crate::parser::chart::swept;
use crate::parser::error::ParseError;
use crate::parser::error::kind_views;
use crate::parser::error::parsed;
use crate::parser::error::result_view;
use crate::parser::state::OPEN_END;
use crate::parser::state::ParserColumn;
use crate::parser::state::ParserState;
use crate::parser::state::all_open;
use crate::parser::state::chart_of;
use crate::parser::state::columns_finished;
use crate::parser::state::items_of;
use crate::parser::state::labelled;
use crate::parser::state::lemma_opened_twice;
use crate::parser::state::opened;
use crate::parser::derivation::derivable;
use crate::parser::derivation::parse_tree;
use crate::parser::theorems::theorem_distinct;
use crate::parser::theorems::theorem_exact;
use crate::parser::theorems::theorem_nonempty;
use crate::parser::theorems::theorem_sound;
use crate::parser::tree::Tree;
use crate::parser::tree::build_forest;
use crate::parser::tree::tree_views;
use vstd::prelude::*;

verus! {

/// Prediction: adds to the column a state for each production of the rule,
/// with its dot at the front and starting at the column.
pub fn predict(column: &mut ParserColumn, rule_index: usize, rule: &GrammarRule)
    ensures
        final(column)@ == predicted(
            old(column)@,
            rule_index as int,
            old(column).index as int,
            rule@.productions.len() as int,
        ),
        opened(old(column).states@, final(column).states@),
        final(column).index == old(column).index,
        final(column).kind == old(column).kind,
{
    let ghost before = column@;
    let ghost held = column.states@;
    let ghost index = column.index;
    let ghost kind = column.kind;
    let mut p: usize = 0;
    while p < rule.productions.len()
        invariant
            p <= rule.productions.len(),
            column@ == predicted(before, rule_index as int, index as int, p as int),
            opened(held, column.states@),
            column.index == index,
            column.kind == kind,
        decreases rule.productions.len() - p,
    {
        let state = ParserState {
            rule: rule_index,
            production: p,
            dot_index: 0,
            start_column: column.index,
            end_column: OPEN_END,
        };
        column.add(state);
        p += 1;
    }
}

/// Scanning: if the state waits for a lexeme of the kind that leads into
/// the column, adds to the column the state with its dot moved over that
/// lexeme. Otherwise the column stays as it is.
pub fn scan(column: &mut ParserColumn, state: &ParserState, grammar: &Grammar)
    requires
        item_ok(grammar@, state@, state@.start),
    ensures
        final(column)@ == if waits_for(grammar@, state@, old(column).kind@) {
            inserted(old(column)@, advanced(state@))
        } else {
            old(column)@
        },
        !waits_for(grammar@, state@, old(column).kind@) ==> final(column).states@ == old(
            column,
        ).states@,
        opened(old(column).states@, final(column).states@),
        final(column).index == old(column).index,
        final(column).kind == old(column).kind,
{
    let matches = match state.next_symbol(grammar) {
        Some(Symbol::Lexeme(kind)) => *kind == column.kind,
        _ => false,
    };
    if matches {
        proof {
            lemma_production_fits(grammar, state.rule as int, state.production as int);
        }
        let state = ParserState {
            rule: state.rule,
            production: state.production,
            start_column: state.start_column,
            end_column: OPEN_END,
            dot_index: state.dot_index + 1,
        };
        column.add(state);
    }
}

/// Catching up: if the state waits for a rule that one of the first
/// `count` states of the column has completed from this column on, adds
/// to the column the state with its dot moved over the rule. Completion
/// advances only the states that the column holds when it happens; a
/// state that is found later is advanced here, when its own turn comes.
pub fn catch_up(column: &mut ParserColumn, state: &ParserState, grammar: &Grammar, count: usize)
    requires
        column_ok(grammar@, old(column)@, old(column).index as int),
        count <= old(column).states@.len(),
        item_ok(grammar@, state@, state@.start),
    ensures
        final(column)@ == if !is_complete(grammar@, state@) && next_symbol(
            grammar@,
            state@,
        ) is Rule {
            caught_up(
                grammar@,
                old(column)@,
                state@,
                next_symbol(grammar@, state@)->Rule_0,
                old(column).index as int,
                count as int,
            )
        } else {
            old(column)@
        },
        opened(old(column).states@, final(column).states@),
        final(column).index == old(column).index,
        final(column).kind == old(column).kind,
{
    let ghost g = grammar@;
    let ghost name = next_symbol(g, state@)->Rule_0;
    let ghost at = column.index as int;
    match state.next_symbol(grammar) {
        Some(Symbol::Rule(wanted)) => {
            let mut found = false;
            let mut j: usize = 0;
            while j < count && !found
                invariant
                    j <= count <= column.states@.len(),
                    g == grammar@,
                    at == column.index,
                    name == wanted@,
                    column_ok(g, column@, at),
                    found ==> completed_here(g, column@, name, at, count as int),
                    !found ==> !completed_here(g, column@, name, at, j as int),
                decreases count - j + if found { 0int } else { 1int },
            {
                let other = column.states[j];
                assert(other@ == column@[j as int]);
                assert(item_ok(g, column@[j as int], at));
                if other.start_column == column.index && other.completed(grammar)
                    && *grammar.rule_name(other.rule) == *wanted {
                    assert(ends_empty(g, column@[j as int], name, at));
                    found = true;
                } else {
                    j += 1;
                }
            }
            if found {
                proof {
                    lemma_production_fits(grammar, state.rule as int, state.production as int);
                }
                column.add(
                    ParserState {
                        rule: state.rule,
                        production: state.production,
                        start_column: state.start_column,
                        end_column: OPEN_END,
                        dot_index: state.dot_index + 1,
                    },
                );
            }
        },
        _ => {},
    }
}

/// Completion: for a complete state of the column `column_index`, adds to
/// that column each state of the start column that waited for the rule of
/// the complete state, with its dot moved over the rule. Only the states
/// that the start column holds when the call begins are looked at.
pub fn complete(
    columns: &mut Vec<ParserColumn>,
    column_index: usize,
    state: &ParserState,
    grammar: &Grammar,
)
    requires
        chart_ok(grammar@, chart_of(old(columns)@), (old(columns)@.len() - 1) as nat),
        column_index < old(columns)@.len(),
        item_ok(grammar@, state@, column_index as int),
    ensures
        chart_of(final(columns)@) == chart_of(old(columns)@).update(
            column_index as int,
            completions(
                grammar@,
                old(columns)@[state.start_column as int]@,
                old(columns)@[column_index as int]@,
                grammar@[state.rule as int].name,
                old(columns)@[state.start_column as int]@.len() as int,
            ),
        ),
        final(columns)@.len() == old(columns)@.len(),
        forall|c: int|
            0 <= c < old(columns)@.len() ==> (#[trigger] final(columns)@[c]).index == old(
                columns,
            )@[c].index && final(columns)@[c].kind == old(columns)@[c].kind,
        forall|c: int|
            0 <= c < old(columns)@.len() && c != column_index ==> #[trigger] final(columns)@[c]
                == old(columns)@[c],
        opened(
            old(columns)@[column_index as int].states@,
            final(columns)@[column_index as int].states@,
        ),
{
    let ghost g = grammar@;
    let ghost before = columns@;
    let ghost origin = columns@[state.start_column as int]@;
    let ghost target = columns@[column_index as int]@;
    let ghost name = grammar@[state.rule as int].name;
    let ghost lexemes = (columns@.len() - 1) as nat;
    assert(column_ok(g, chart_of(before)[state.start_column as int], state.start_column as int));
    assert(column_ok(g, chart_of(before)[column_index as int], column_index as int));
    let count = columns[state.start_column].states.len();
    let mut t: usize = 0;
    while t < count
        invariant
            t <= count,
            count == origin.len(),
            columns@.len() == before.len(),
            column_index < columns@.len(),
            state.start_column <= column_index,
            state.rule < g.len(),
            g == grammar@,
            name == g[state.rule as int].name,
            origin == before[state.start_column as int]@,
            target == before[column_index as int]@,
            column_ok(g, origin, state.start_column as int),
            column_ok(g, target, column_index as int),
            forall|c: int|
                0 <= c < before.len() && c != column_index ==> #[trigger] columns@[c] == before[c],
            columns@[column_index as int].index == before[column_index as int].index,
            columns@[column_index as int].kind == before[column_index as int].kind,
            columns@[column_index as int]@ == completions(g, origin, target, name, t as int),
            opened(before[column_index as int].states@, columns@[column_index as int].states@),
        decreases count - t,
    {
        proof {
            lemma_completions(
                g,
                origin,
                target,
                name,
                t as int,
                state.start_column as int,
                column_index as int,
            );
            assert(begins(target, columns@[column_index as int]@));
            if state.start_column == column_index {
                assert(columns@[state.start_column as int]@[t as int] == origin[t as int]);
            }
        }
        let waiting = columns[state.start_column].states[t];
        assert(waiting@ == origin[t as int]);
        assert(item_ok(g, origin[t as int], state.start_column as int));
        let advance = match waiting.next_symbol(grammar) {
            Some(Symbol::Rule(wanted)) => *wanted == *grammar.rule_name(state.rule),
            _ => false,
        };
        assert(advance == expects(g, waiting@, name));
        if advance {
            proof {
                lemma_production_fits(grammar, waiting.rule as int, waiting.production as int);
            }
            let moved = ParserState {
                rule: waiting.rule,
                production: waiting.production,
                start_column: waiting.start_column,
                end_column: OPEN_END,
                dot_index: waiting.dot_index + 1,
            };
            columns[column_index].add(moved);
        }
        t += 1;
    }
    assert(chart_of(columns@) =~= chart_of(before).update(
        column_index as int,
        completions(g, origin, target, name, count as int),
    ));
}

/// One empty column for each boundary between lexemes, each labelled with
/// its index and with the kind of the lexeme before it.
fn empty_columns(lexemes: &[Lexeme]) -> (columns: Vec<ParserColumn>)
    requires
        lexemes@.len() < usize::MAX,
    ensures
        labelled(columns@, kinds_of(lexeme_views(lexemes@))),
        forall|i: int|
            0 <= i < columns@.len() ==> (#[trigger] columns@[i])@ == Seq::<Item>::empty(),
{
    let ghost kinds = kinds_of(lexeme_views(lexemes@));
    let mut columns: Vec<ParserColumn> = Vec::new();
    columns.push(ParserColumn::new(0, String::from_str("^")));
    let mut index: usize = 1;
    while index <= lexemes.len()
        invariant
            1 <= index <= lexemes@.len() + 1,
            lexemes@.len() < usize::MAX,
            kinds == kinds_of(lexeme_views(lexemes@)),
            columns@.len() == index,
            forall|i: int| 0 <= i < columns@.len() ==> (#[trigger] columns@[i]).index == i,
            columns@[0].kind@ == crate::parser::state::first_kind(),
            forall|i: int|
                1 <= i < columns@.len() ==> (#[trigger] columns@[i]).kind@ == kinds[i - 1],
            forall|i: int|
                0 <= i < columns@.len() ==> (#[trigger] columns@[i])@ == Seq::<Item>::empty(),
        decreases lexemes@.len() + 1 - index,
    {
        assert(kinds[index - 1] == lexemes@[index - 1].kind@);
        columns.push(ParserColumn::new(index, lexemes[index - 1].kind.clone()));
        index += 1;
    }
    columns
}

/// The chart of the recognizer: every column saturated, from the first to
/// the last.
pub fn recognize(grammar: &Grammar, lexemes: &[Lexeme]) -> (columns: Vec<ParserColumn>)
    requires
        well_formed(grammar@),
        lexemes@.len() < usize::MAX,
    ensures
        chart_of(columns@) == earley_chart(grammar@, kinds_of(lexeme_views(lexemes@))),
        labelled(columns@, kinds_of(lexeme_views(lexemes@))),
        all_open(columns@),
{
    let ghost g = grammar@;
    let ghost kinds = kinds_of(lexeme_views(lexemes@));
    let mut columns = empty_columns(lexemes);
    let start = grammar.rule_index(&String::from_str(START_RULE_NAME));
    columns[0].add(
        ParserState {
            rule: start,
            production: 0,
            start_column: 0,
            end_column: OPEN_END,
            dot_index: 0,
        },
    );
    assert(chart_of(columns@) =~= initial(g, kinds.len()));
    assert(all_open(columns@)) by {
        assert forall|i: int, k: int|
            0 <= i < columns@.len() && 0 <= k < columns@[i].states@.len() implies (
        #[trigger] columns@[i].states@[k]).end_column == OPEN_END by {
            assert(columns@[i]@.len() == columns@[i].states@.len());
        }
    }

    let mut i: usize = 0;
    while i < columns.len()
        invariant
            i <= columns@.len(),
            g == grammar@,
            kinds == kinds_of(lexeme_views(lexemes@)),
            well_formed(g),
            labelled(columns@, kinds),
            all_open(columns@),
            chart_of(columns@) == swept(g, kinds, i as int),
        decreases columns@.len() - i,
    {
        proof {
            lemma_swept(g, kinds, i as int);
        }
        let mut k: usize = 0;
        while k < columns[i].states.len()
            invariant
                i < columns@.len(),
                g == grammar@,
                kinds == kinds_of(lexeme_views(lexemes@)),
                well_formed(g),
                labelled(columns@, kinds),
                all_open(columns@),
                chart_ok(g, chart_of(columns@), kinds.len()),
                k <= columns@[i as int]@.len(),
                saturated(g, kinds, chart_of(columns@), i as int, k as int) == swept(
                    g,
                    kinds,
                    i + 1,
                ),
            decreases crate::parser::bound::capacity(g, i as int) - k,
        {
            let ghost before = chart_of(columns@);
            let ghost held = columns@;
            let state = columns[i].states[k];
            proof {
                assert(column_ok(g, before[i as int], i as int));
                assert(state@ == before[i as int][k as int]);
                assert(item_ok(g, state@, i as int));
                lemma_column_fits(g, before[i as int], i as int);
                lemma_step(g, kinds, before, i as int, k as int);
                lemma_production_fits(grammar, state.rule as int, state.production as int);
            }
            match state.next_symbol(grammar) {
                None => {
                    complete(&mut columns, i, &state, grammar);
                },
                Some(Symbol::Rule(name)) => {
                    proof {
                        lemma_resolved(g, state@, i as int, name@);
                    }
                    let r = grammar.rule_index(name);
                    assert(grammar.rules@[r as int]@ == g[r as int]);
                    predict(&mut columns[i], r, &grammar.rules[r]);
                    proof {
                        lemma_predicted(
                            g,
                            before[i as int],
                            r as int,
                            i as int,
                            g[r as int].productions.len() as int,
                        );
                    }
                    let ghost predictions = columns@[i as int].states@;
                    catch_up(&mut columns[i], &state, grammar, k);
                    proof {
                        lemma_opened_twice(
                            held[i as int].states@,
                            predictions,
                            columns@[i as int].states@,
                        );
                    }
                },
                Some(Symbol::Lexeme(kind)) => {
                    if i < columns.len() - 1 {
                        scan(&mut columns[i + 1], &state, grammar);
                    }
                },
            }
            assert(chart_of(columns@) =~= step(g, kinds, before, i as int, k as int));
            assert forall|c: int, x: int|
                0 <= c < columns@.len() && 0 <= x < columns@[c].states@.len() implies (
            #[trigger] columns@[c].states@[x]).end_column == OPEN_END by {
                assert(columns@[c] == held[c] || opened(held[c].states@, columns@[c].states@));
                if x < held[c].states@.len() {
                    assert(held[c].states@[x].end_column == OPEN_END);
                }
            }
            k += 1;
        }
        i += 1;
    }
    columns
}

/// The post-pass: keeps of every column the complete states only, and
/// tells each the column it stands in.
pub fn retain_completed(columns: &mut Vec<ParserColumn>, grammar: &Grammar)
    requires
        old(columns)@.len() > 0,
        chart_ok(grammar@, chart_of(old(columns)@), (old(columns)@.len() - 1) as nat),
        forall|i: int| 0 <= i < old(columns)@.len() ==> (#[trigger] old(columns)@[i]).index == i,
    ensures
        final(columns)@.len() == old(columns)@.len(),
        forall|i: int|
            0 <= i < old(columns)@.len() ==> {
                &&& (#[trigger] final(columns)@[i])@ == finished(grammar@, old(columns)@[i]@)
                &&& final(columns)@[i].index == old(columns)@[i].index
                &&& final(columns)@[i].kind == old(columns)@[i].kind
            },
        columns_finished(grammar@, final(columns)@),
{
    let ghost g = grammar@;
    let ghost before = columns@;
    let mut i: usize = 0;
    while i < columns.len()
        invariant
            i <= columns@.len(),
            g == grammar@,
            columns@.len() == before.len(),
            chart_ok(g, chart_of(before), (before.len() - 1) as nat),
            forall|c: int| 0 <= c < before.len() ==> (#[trigger] before[c]).index == c,
            forall|c: int| i <= c < before.len() ==> #[trigger] columns@[c] == before[c],
            forall|c: int|
                0 <= c < i ==> {
                    &&& (#[trigger] columns@[c])@ == finished(g, before[c]@)
                    &&& columns@[c].index == before[c].index
                    &&& columns@[c].kind == before[c].kind
                },
            forall|e: int, j: int|
                0 <= e < i && 0 <= j < columns@[e].states@.len() ==> {
                    let state = #[trigger] columns@[e].states@[j];
                    &&& item_ok(g, state@, e)
                    &&& is_complete(g, state@)
                    &&& state.end_column == e
                },
        decreases columns@.len() - i,
    {
        let ghost column = before[i as int]@;
        assert(column_ok(g, chart_of(before)[i as int], i as int));
        let mut kept: Vec<ParserState> = Vec::new();
        let mut k: usize = 0;
        proof {
            lemma_finished_empty(g);
            assert(items_of(kept@) =~= Seq::<Item>::empty());
            assert(column.take(0) =~= Seq::<Item>::empty());
        }
        while k < columns[i].states.len()
            invariant
                i < columns@.len(),
                g == grammar@,
                columns@.len() == before.len(),
                k <= columns@[i as int].states@.len(),
                columns@[i as int] == before[i as int],
                column == before[i as int]@,
                column_ok(g, column, i as int),
                items_of(kept@) == finished(g, column.take(k as int)),
                forall|j: int|
                    0 <= j < kept@.len() ==> {
                        let state = #[trigger] kept@[j];
                        &&& item_ok(g, state@, i as int)
                        &&& is_complete(g, state@)
                        &&& state.end_column == i
                    },
            decreases columns@[i as int].states@.len() - k,
        {
            let state = columns[i].states[k];
            assert(state@ == column[k as int]);
            assert(item_ok(g, column[k as int], i as int));
            proof {
                lemma_finished_push(g, column.take(k as int), state@);
                assert(column.take(k + 1) =~= column.take(k as int).push(state@));
            }
            let ghost sofar = kept@;
            if state.completed(grammar) {
                kept.push(
                    ParserState {
                        rule: state.rule,
                        production: state.production,
                        dot_index: state.dot_index,
                        start_column: state.start_column,
                        end_column: i,
                    },
                );
                assert(items_of(kept@) =~= items_of(sofar).push(state@));
            }
            k += 1;
        }
        assert(column.take(k as int) =~= column);
        columns[i].states = kept;
        i += 1;
    }
}

/// The last column that holds a state; the first column if none does.
pub fn furthest_column(columns: &Vec<ParserColumn>) -> (reached: usize)
    requires
        columns@.len() > 0,
    ensures
        reached == furthest(chart_of(columns@)),
        reached < columns@.len(),
{
    let ghost chart = chart_of(columns@);
    let mut i: usize = columns.len() - 1;
    while i > 0 && columns[i].states.len() == 0
        invariant
            i < columns@.len(),
            chart == chart_of(columns@),
            furthest_upto(chart, i as int) == furthest(chart),
        decreases i,
    {
        assert(chart[i as int].len() == 0);
        i -= 1;
    }
    assert(i > 0 ==> chart[i as int].len() > 0);
    i
}

/// Whether the list holds a string of the same characters.
fn holds_kind(kinds: &Vec<String>, kind: &String) -> (found: bool)
    ensures
        found == kind_views(kinds@).contains(kind@),
{
    let mut k: usize = 0;
    while k < kinds.len()
        invariant
            k <= kinds.len(),
            forall|j: int| 0 <= j < k ==> kind_views(kinds@)[j] != kind@,
        decreases kinds.len() - k,
    {
        if kinds[k] == *kind {
            assert(kind_views(kinds@)[k as int] == kind@);
            return true;
        }
        k += 1;
    }
    false
}

/// The lexeme kinds that the states of a column wait for, each once, in
/// the order of the states.
pub fn expected_kinds(grammar: &Grammar, column: &ParserColumn) -> (kinds: Vec<String>)
    requires
        column_ok(grammar@, column@, column.index as int),
    ensures
        kind_views(kinds@) == expected(grammar@, column@),
{
    let ghost g = grammar@;
    let mut kinds: Vec<String> = Vec::new();
    assert(kind_views(kinds@) =~= Seq::<Seq<char>>::empty());
    let mut k: usize = 0;
    while k < column.states.len()
        invariant
            k <= column.states@.len(),
            g == grammar@,
            column_ok(g, column@, column.index as int),
            kind_views(kinds@) == expected_upto(g, column@, k as int),
        decreases column.states@.len() - k,
    {
        let state = column.states[k];
        assert(state@ == column@[k as int]);
        assert(item_ok(g, column@[k as int], column.index as int));
        match state.next_symbol(grammar) {
            Some(Symbol::Lexeme(kind)) => {
                if !holds_kind(&kinds, kind) {
                    let ghost sofar = kinds@;
                    kinds.push(kind.clone());
                    assert(kind_views(kinds@) =~= kind_views(sofar).push(kind@));
                }
            },
            _ => {},
        }
        k += 1;
    }
    kinds
}

/// Parses the lexemes with the grammar. Where the lexemes are a sentence
/// of the grammar, the result is the parse trees of the whole input, each
/// once, but for those in which a part of a derivation derives itself;
/// there is always at least one. Otherwise the result is the reason why
/// there is no tree. See [`parsed`] for what is returned, and
/// [`theorems`](crate::parser::theorems) for what that amounts to. There
/// must be fewer lexemes than `usize::MAX`: the chart has one column more
/// than there are lexemes.
pub fn parse(grammar: &Grammar, lexemes: &[Lexeme]) -> (result: Result<Vec<Tree>, ParseError>)
    requires
        lexemes@.len() < usize::MAX,
    ensures
        result_view(result) == parsed(grammar@, lexeme_views(lexemes@)),
        result matches Err(ParseError::GrammarViolation) <==> !well_formed(grammar@),
        result is Ok <==> well_formed(grammar@) && derivable(grammar@, lexeme_views(lexemes@)),
        result matches Ok(trees) ==> tree_views(trees@).no_duplicates(),
        result matches Ok(trees) ==> trees@.len() > 0 && forall|k: int|
            0 <= k < trees@.len() ==> parse_tree(
                grammar@,
                lexeme_views(lexemes@),
                #[trigger] trees@[k]@,
            ),
{
    if !grammar.is_well_formed() {
        return Err(ParseError::GrammarViolation);
    }
    let ghost g = grammar@;
    let ghost views = lexeme_views(lexemes@);
    let ghost kinds = kinds_of(views);
    let mut columns = recognize(grammar, lexemes);
    proof {
        lemma_swept(g, kinds, kinds.len() as int + 1);
        lemma_start_rule(g);
        theorem_exact(g, views);
    }
    let ghost chart = chart_of(columns@);
    let start = grammar.rule_index(&String::from_str(START_RULE_NAME));
    let last = columns.len() - 1;
    let root = ParserState {
        rule: start,
        production: 0,
        dot_index: 1,
        start_column: 0,
        end_column: last,
    };
    assert(root@ == goal(g));
    assert(chart.last() == columns@[last as int]@);
    if columns[last].contains(&root) {
        retain_completed(&mut columns, grammar);
        assert(chart_of(columns@) =~= chart.map_values(|column: Seq<Item>| finished(g, column)));
        let trees = build_forest(grammar, lexemes, &columns, &root);
        proof {
            theorem_nonempty(g, views);
            theorem_distinct(g, views);
            assert(tree_views(trees@).len() == trees@.len());
            assert forall|k: int| 0 <= k < trees@.len() implies parse_tree(
                g,
                views,
                #[trigger] trees@[k]@,
            ) by {
                theorem_sound(g, views, k);
                assert(tree_views(trees@)[k] == trees@[k]@);
            }
        }
        Ok(trees)
    } else {
        let reached = furthest_column(&columns);
        assert(column_ok(g, chart[reached as int], reached as int));
        let expected = expected_kinds(grammar, &columns[reached]);
        Err(ParseError::UnrecognizedInput { furthest: reached, expected })
    }
}

} // verus!
