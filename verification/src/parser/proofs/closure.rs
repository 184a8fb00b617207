//! The chart of the recognizer is closed: what prediction, scanning and
//! completion add for an item is in the chart once the item's column is
//! saturated.

use crate::grammar::GrammarView;
use crate::grammar::SymbolView;
use crate::grammar::rule_named;
use crate::grammar::well_formed;
use crate::parser::bound::capacity;
use crate::parser::bound::lemma_column_fits;
use crate::parser::chart::Chart;
use crate::parser::chart::Item;
use crate::parser::chart::advanced;
use crate::parser::chart::begins;
use crate::parser::chart::chart_ok;
use crate::parser::chart::column_ok;
use crate::parser::chart::completions;
use crate::parser::chart::earley_chart;
use crate::parser::chart::expects;
use crate::parser::chart::grows;
use crate::parser::chart::initial;
use crate::parser::chart::inserted;
use crate::parser::chart::is_complete;
use crate::parser::chart::lemma_begins_contains;
use crate::parser::chart::lemma_step;
use crate::parser::chart::lemma_swept;
use crate::parser::chart::next_symbol;
use crate::parser::chart::predicted;
use crate::parser::chart::saturated;
use crate::parser::chart::seed;
use crate::parser::chart::step;
use crate::parser::chart::swept;
use crate::parser::chart::completed_here;
use crate::parser::chart::ends_empty;
use vstd::prelude::*;

verus! {

/// The item that prediction adds for the production `p` of a rule.
pub open spec fn fresh_item(rule: int, p: int, at: int) -> Item {
    Item { rule, production: p, dot: 0, start: at }
}

/// The number of items of the start column of a complete item that
/// completion looks at: all of them where the start column is an earlier
/// one, those before the item where it is the item's own.
pub open spec fn looked_at(chart: Chart, i: int, k: int) -> int {
    if chart[i][k].start < i {
        chart[chart[i][k].start].len() as int
    } else {
        k
    }
}

/// The item `k` of the column `i` has had its effect on the chart. For an
/// item before a rule, every production of the rule is predicted in the
/// column, and the advanced item is in the column if the rule was
/// completed there before the item. For an item before a lexeme kind that
/// the next lexeme has, the advanced item is in the next column. For a
/// complete item, every item that waited for its rule in the column
/// where it starts, and before it if that is its own column, is in the
/// column with its dot advanced.
pub open spec fn processed(
    g: GrammarView,
    kinds: Seq<Seq<char>>,
    chart: Chart,
    i: int,
    k: int,
) -> bool {
    let item = chart[i][k];
    if is_complete(g, item) {
        forall|j: int|
            0 <= j < looked_at(chart, i, k) && expects(
                g,
                #[trigger] chart[item.start][j],
                g[item.rule].name,
            ) ==> chart[i].contains(advanced(chart[item.start][j]))
    } else {
        match next_symbol(g, item) {
            SymbolView::Rule(name) => {
                &&& forall|p: int|
                    0 <= p < g[rule_named(g, name)].productions.len() ==> chart[i].contains(
                        #[trigger] fresh_item(rule_named(g, name), p, i),
                    )
                &&& completed_here(g, chart[i], name, i, k) ==> chart[i].contains(advanced(item))
            },
            SymbolView::Lexeme(kind) => i + 1 < chart.len() && kinds[i] == kind
                ==> chart[i + 1].contains(advanced(item)),
        }
    }
}

/// The first `upto` items of the column `i` have had their effect.
pub open spec fn settled(
    g: GrammarView,
    kinds: Seq<Seq<char>>,
    chart: Chart,
    i: int,
    upto: int,
) -> bool {
    forall|k: int| 0 <= k < upto ==> #[trigger] processed(g, kinds, chart, i, k)
}

/// All items of the first `columns` columns have had their effect.
pub open spec fn closed(g: GrammarView, kinds: Seq<Seq<char>>, chart: Chart, columns: int) -> bool {
    forall|i: int|
        0 <= i < columns ==> #[trigger] settled(g, kinds, chart, i, chart[i].len() as int)
}

/// The two charts agree on the columns before `i`.
pub open spec fn same_before(a: Chart, b: Chart, i: int) -> bool {
    forall|e: int| 0 <= e < i ==> #[trigger] a[e] == b[e]
}

/// After an insertion the column holds the item, and all it held before.
pub proof fn lemma_inserted_holds(column: Seq<Item>, item: Item, other: Item)
    requires
        other == item || column.contains(other),
    ensures
        inserted(column, item).contains(other),
{
    if !column.contains(item) {
        let after = column.push(item);
        if column.contains(other) {
            let k = choose|k: int| 0 <= k < column.len() && column[k] == other;
            assert(after[k] == other);
        } else {
            assert(after[column.len() as int] == item);
        }
    }
}

/// After prediction the column holds the item of each production.
pub proof fn lemma_predicted_holds(column: Seq<Item>, rule: int, at: int, count: int, p: int)
    requires
        0 <= p < count,
    ensures
        predicted(column, rule, at, count).contains(fresh_item(rule, p, at)),
    decreases count,
{
    let before = predicted(column, rule, at, count - 1);
    if p < count - 1 {
        lemma_predicted_holds(column, rule, at, count - 1, p);
    }
    lemma_inserted_holds(before, fresh_item(rule, count - 1, at), fresh_item(rule, p, at));
}

/// After completion the column holds, with its dot advanced, each item
/// of the origin that waited for the rule.
pub proof fn lemma_completions_hold(
    g: GrammarView,
    origin: Seq<Item>,
    column: Seq<Item>,
    name: Seq<char>,
    count: int,
    j: int,
)
    requires
        0 <= j < count <= origin.len(),
        expects(g, origin[j], name),
    ensures
        completions(g, origin, column, name, count).contains(advanced(origin[j])),
    decreases count,
{
    let before = completions(g, origin, column, name, count - 1);
    if j < count - 1 {
        lemma_completions_hold(g, origin, column, name, count - 1, j);
        if expects(g, origin[count - 1], name) {
            lemma_inserted_holds(before, advanced(origin[count - 1]), advanced(origin[j]));
        }
    } else {
        lemma_inserted_holds(before, advanced(origin[j]), advanced(origin[j]));
    }
}

/// An item that has had its effect keeps it while the chart grows and the
/// columns before the item's stay as they are.
pub proof fn lemma_processed_stays(
    g: GrammarView,
    kinds: Seq<Seq<char>>,
    a: Chart,
    b: Chart,
    i: int,
    k: int,
)
    requires
        processed(g, kinds, a, i, k),
        grows(a, b),
        same_before(a, b, i),
        0 <= i < a.len(),
        0 <= k < a[i].len(),
        0 <= a[i][k].start <= i,
    ensures
        processed(g, kinds, b, i, k),
{
    let item = a[i][k];
    assert(begins(a[i], b[i]));
    assert(b[i][k] == item);
    if is_complete(g, item) {
        if item.start < i {
            assert(a[item.start] == b[item.start]);
        }
        assert forall|j: int|
            0 <= j < looked_at(b, i, k) && expects(
                g,
                #[trigger] b[item.start][j],
                g[item.rule].name,
            ) implies b[i].contains(advanced(b[item.start][j])) by {
            assert(b[item.start][j] == a[item.start][j]) by {
                if item.start == i {
                    assert(b[i][j] == a[i][j]);
                }
            }
            assert(a[i].contains(advanced(a[item.start][j])));
            lemma_begins_contains(a[i], b[i], advanced(a[item.start][j]));
        }
    } else {
        match next_symbol(g, item) {
            SymbolView::Rule(name) => {
                assert forall|p: int|
                    0 <= p < g[rule_named(g, name)].productions.len() implies b[i].contains(
                    #[trigger] fresh_item(rule_named(g, name), p, i),
                ) by {
                    assert(a[i].contains(fresh_item(rule_named(g, name), p, i)));
                    lemma_begins_contains(a[i], b[i], fresh_item(rule_named(g, name), p, i));
                }
                if completed_here(g, b[i], name, i, k) {
                    let j = choose|j: int| 0 <= j < k && ends_empty(g, #[trigger] b[i][j], name, i);
                    assert(b[i][j] == a[i][j]);
                    assert(ends_empty(g, a[i][j], name, i));
                    assert(completed_here(g, a[i], name, i, k));
                    lemma_begins_contains(a[i], b[i], advanced(item));
                }
            },
            SymbolView::Lexeme(kind) => {
                if i + 1 < b.len() && kinds[i] == kind {
                    assert(begins(a[i + 1], b[i + 1]));
                    lemma_begins_contains(a[i + 1], b[i + 1], advanced(item));
                }
            },
        }
    }
}

/// A step gives the item it works on its effect and leaves the columns
/// before the item's as they are.
pub proof fn lemma_step_processes(
    g: GrammarView,
    kinds: Seq<Seq<char>>,
    chart: Chart,
    i: int,
    k: int,
)
    requires
        well_formed(g),
        chart_ok(g, chart, kinds.len()),
        0 <= i < chart.len(),
        0 <= k < chart[i].len(),
    ensures
        processed(g, kinds, step(g, kinds, chart, i, k), i, k),
        same_before(chart, step(g, kinds, chart, i, k), i),
{
    let item = chart[i][k];
    let after = step(g, kinds, chart, i, k);
    lemma_step(g, kinds, chart, i, k);
    assert(begins(chart[i], after[i]));
    assert(after[i][k] == item);
    assert(column_ok(g, chart[i], i));
    assert(crate::parser::chart::item_ok(g, item, i));
    if is_complete(g, item) {
        let origin = chart[item.start];
        assert(begins(origin, after[item.start]));
        assert forall|j: int|
            0 <= j < looked_at(after, i, k) && expects(
                g,
                #[trigger] after[item.start][j],
                g[item.rule].name,
            ) implies after[i].contains(advanced(after[item.start][j])) by {
            assert(after[item.start][j] == origin[j]);
            lemma_completions_hold(g, origin, chart[i], g[item.rule].name, origin.len() as int, j);
        }
    } else {
        match next_symbol(g, item) {
            SymbolView::Rule(name) => {
                let rule = rule_named(g, name);
                let predictions = predicted(chart[i], rule, i, g[rule].productions.len() as int);
                assert forall|p: int| 0 <= p < g[rule].productions.len() implies after[i].contains(
                    #[trigger] fresh_item(rule, p, i),
                ) by {
                    lemma_predicted_holds(chart[i], rule, i, g[rule].productions.len() as int, p);
                    lemma_inserted_holds(predictions, advanced(item), fresh_item(rule, p, i));
                }
                crate::parser::chart::lemma_resolved(g, item, i, name);
                crate::parser::chart::lemma_predicted(
                    g,
                    chart[i],
                    rule,
                    i,
                    g[rule].productions.len() as int,
                );
                if completed_here(g, after[i], name, i, k) {
                    let j = choose|j: int|
                        0 <= j < k && ends_empty(g, #[trigger] after[i][j], name, i);
                    assert(after[i][j] == chart[i][j]);
                    assert(predictions[j] == chart[i][j]);
                    assert(ends_empty(g, predictions[j], name, i));
                    assert(completed_here(g, predictions, name, i, k));
                    lemma_inserted_holds(predictions, advanced(item), advanced(item));
                }
            },
            SymbolView::Lexeme(kind) => {
                if i + 1 < chart.len() && kinds[i] == kind {
                    lemma_inserted_holds(chart[i + 1], advanced(item), advanced(item));
                }
            },
        }
    }
}

/// Saturating a column gives all its items their effect, keeps the effect
/// of the items of the columns before it, and leaves those columns as
/// they are.
pub proof fn lemma_saturated_closed(
    g: GrammarView,
    kinds: Seq<Seq<char>>,
    chart: Chart,
    i: int,
    k: int,
)
    requires
        well_formed(g),
        chart_ok(g, chart, kinds.len()),
        0 <= i < chart.len(),
        0 <= k <= chart[i].len(),
        closed(g, kinds, chart, i),
        settled(g, kinds, chart, i, k),
    ensures
        closed(g, kinds, saturated(g, kinds, chart, i, k), i + 1),
        same_before(chart, saturated(g, kinds, chart, i, k), i),
    decreases capacity(g, i) - k,
{
    if k < chart[i].len() {
        assert(column_ok(g, chart[i], i));
        lemma_column_fits(g, chart[i], i);
        let after = step(g, kinds, chart, i, k);
        let done = saturated(g, kinds, after, i, k + 1);
        lemma_step(g, kinds, chart, i, k);
        lemma_step_processes(g, kinds, chart, i, k);
        assert(begins(chart[i], after[i]));
        assert forall|j: int|
            0 <= j < k + 1 implies #[trigger] processed(g, kinds, after, i, j) by {
            if j < k {
                assert(processed(g, kinds, chart, i, j));
                assert(crate::parser::chart::item_ok(g, chart[i][j], i));
                lemma_processed_stays(g, kinds, chart, after, i, j);
            }
        }
        assert forall|e: int| 0 <= e < i implies #[trigger] settled(
            g,
            kinds,
            after,
            e,
            after[e].len() as int,
        ) by {
            assert(settled(g, kinds, chart, e, chart[e].len() as int));
            assert(after[e] == chart[e]);
            assert(column_ok(g, chart[e], e));
            assert forall|j: int| 0 <= j < after[e].len() implies #[trigger] processed(
                g,
                kinds,
                after,
                e,
                j,
            ) by {
                assert(processed(g, kinds, chart, e, j));
                assert(crate::parser::chart::item_ok(g, chart[e][j], e));
                assert forall|x: int| 0 <= x < e implies #[trigger] chart[x] == after[x] by {}
                lemma_processed_stays(g, kinds, chart, after, e, j);
            }
        }
        lemma_saturated_closed(g, kinds, after, i, k + 1);
        assert forall|e: int| 0 <= e < i implies #[trigger] chart[e] == done[e] by {
            assert(chart[e] == after[e]);
            assert(after[e] == done[e]);
        }
    }
}

/// The chart before any step has nothing to answer for: the columns that
/// were swept are none.
pub proof fn lemma_swept_closed(g: GrammarView, kinds: Seq<Seq<char>>, columns: int)
    requires
        well_formed(g),
        0 <= columns <= kinds.len() + 1,
    ensures
        closed(g, kinds, swept(g, kinds, columns), columns),
        grows(initial(g, kinds.len()), swept(g, kinds, columns)),
    decreases columns,
{
    if columns > 0 {
        let before = swept(g, kinds, columns - 1);
        lemma_swept_closed(g, kinds, columns - 1);
        lemma_swept(g, kinds, columns - 1);
        lemma_swept(g, kinds, columns);
        lemma_saturated_closed(g, kinds, before, columns - 1, 0);
        crate::parser::chart::lemma_grows_transitive(
            initial(g, kinds.len()),
            before,
            swept(g, kinds, columns),
        );
    } else {
        let chart = initial(g, kinds.len());
        assert forall|i: int|
            0 <= i < chart.len() implies begins(#[trigger] chart[i], chart[i]) by {}
    }
}

/// In a chart that is closed, completion is never missed: an item that
/// waits for a rule, in the column where a complete item of that rule
/// starts, is with its dot advanced in the column where the complete
/// item stands.
pub proof fn lemma_completion_closed(
    g: GrammarView,
    kinds: Seq<Seq<char>>,
    chart: Chart,
    i: int,
    s: int,
    t: int,
)
    requires
        chart_ok(g, chart, kinds.len()),
        closed(g, kinds, chart, chart.len() as int),
        0 <= i < chart.len(),
        0 <= s < chart[i].len(),
        is_complete(g, chart[i][s]),
        0 <= t < chart[chart[i][s].start].len(),
        expects(g, chart[chart[i][s].start][t], g[chart[i][s].rule].name),
    ensures
        chart[i].contains(advanced(chart[chart[i][s].start][t])),
{
    let done = chart[i][s];
    assert(column_ok(g, chart[i], i));
    assert(crate::parser::chart::item_ok(g, done, i));
    assert(settled(g, kinds, chart, i, chart[i].len() as int));
    if done.start < i || t < s {
        assert(processed(g, kinds, chart, i, s));
    } else {
        assert(processed(g, kinds, chart, i, t));
        assert(ends_empty(g, chart[i][s], g[done.rule].name, i));
        assert(completed_here(g, chart[i], g[done.rule].name, i, t));
    }
}

/// The chart of the recognizer is closed, and its first column holds the
/// seed.
pub proof fn lemma_chart_closed(g: GrammarView, kinds: Seq<Seq<char>>)
    requires
        well_formed(g),
    ensures
        closed(g, kinds, earley_chart(g, kinds), kinds.len() as int + 1),
        chart_ok(g, earley_chart(g, kinds), kinds.len()),
        earley_chart(g, kinds)[0].contains(seed(g)),
{
    lemma_swept_closed(g, kinds, kinds.len() as int + 1);
    lemma_swept(g, kinds, kinds.len() as int + 1);
    let first = initial(g, kinds.len());
    assert(first[0][0] == seed(g));
    assert(begins(first[0], earley_chart(g, kinds)[0]));
    lemma_begins_contains(first[0], earley_chart(g, kinds)[0], seed(g));
}

} // verus!
