//! Where the items of the chart come from: every item is predicted, or
//! follows from items that were in the chart before it.

use crate::grammar::GrammarView;
use crate::grammar::SymbolView;
use crate::grammar::rule_named;
use crate::grammar::well_formed;
use crate::parser::bound::capacity;
use crate::parser::bound::lemma_column_fits;
use crate::parser::chart::Chart;
use crate::parser::chart::Item;
use crate::parser::chart::advanced;
use crate::parser::chart::begins;
use crate::parser::chart::chart_ok;
use crate::parser::chart::column_ok;
use crate::parser::chart::completions;
use crate::parser::chart::earley_chart;
use crate::parser::chart::expects;
use crate::parser::chart::grows;
use crate::parser::chart::initial;
use crate::parser::chart::is_complete;
use crate::parser::chart::item_ok;
use crate::parser::chart::lemma_step;
use crate::parser::chart::lemma_swept;
use crate::parser::chart::next_symbol;
use crate::parser::chart::predicted;
use crate::parser::chart::saturated;
use crate::parser::chart::step;
use crate::parser::chart::swept;
use crate::parser::chart::completed_here;
use crate::parser::chart::ends_empty;
use vstd::prelude::*;

verus! {

/// The item `k` of the column `i` is the item `t` of the column before
/// it, moved over the lexeme between the two columns.
pub open spec fn scanned_from(
    g: GrammarView,
    kinds: Seq<Seq<char>>,
    chart: Chart,
    i: int,
    k: int,
    t: int,
) -> bool {
    &&& i > 0
    &&& 0 <= t < chart[i - 1].len()
    &&& !is_complete(g, chart[i - 1][t])
    &&& next_symbol(g, chart[i - 1][t]) == SymbolView::Lexeme(kinds[i - 1])
    &&& chart[i][k] == advanced(chart[i - 1][t])
}

/// The item `k` of the column `i` is an item that waited for a rule,
/// moved over that rule: the complete item `s` stands before it in the
/// same column, and the waiting item `t` stands in the column where `s`
/// starts, before `k` if that is the same column.
pub open spec fn completed_from(
    g: GrammarView,
    chart: Chart,
    i: int,
    k: int,
    s: int,
    t: int,
) -> bool {
    let done = chart[i][s];
    &&& 0 <= s < k
    &&& is_complete(g, done)
    &&& 0 <= done.start <= i
    &&& 0 <= t < chart[done.start].len()
    &&& (done.start == i ==> t < k)
    &&& expects(g, chart[done.start][t], g[done.rule].name)
    &&& chart[i][k] == advanced(chart[done.start][t])
}

/// The item `k` of the column `i` has an origin: it is predicted, or
/// scanned, or completed from items that stand before it.
pub open spec fn justified(
    g: GrammarView,
    kinds: Seq<Seq<char>>,
    chart: Chart,
    i: int,
    k: int,
) -> bool {
    ||| chart[i][k].dot == 0 && chart[i][k].start == i
    ||| exists|t: int| scanned_from(g, kinds, chart, i, k, t)
    ||| exists|s: int, t: int| completed_from(g, chart, i, k, s, t)
}

/// Every item of the chart has an origin.
pub open spec fn grounded(g: GrammarView, kinds: Seq<Seq<char>>, chart: Chart) -> bool {
    forall|i: int, k: int|
        0 <= i < chart.len() && 0 <= k < chart[i].len() ==>
            #[trigger] justified(g, kinds, chart, i, k)
}

/// An origin stays an origin while the chart grows.
pub proof fn lemma_justified_stays(
    g: GrammarView,
    kinds: Seq<Seq<char>>,
    a: Chart,
    b: Chart,
    i: int,
    k: int,
)
    requires
        justified(g, kinds, a, i, k),
        grows(a, b),
        0 <= i < a.len(),
        0 <= k < a[i].len(),
    ensures
        justified(g, kinds, b, i, k),
{
    assert(begins(a[i], b[i]));
    assert(b[i][k] == a[i][k]);
    if a[i][k].dot == 0 && a[i][k].start == i {
    } else if exists|t: int| scanned_from(g, kinds, a, i, k, t) {
        let t = choose|t: int| scanned_from(g, kinds, a, i, k, t);
        assert(begins(a[i - 1], b[i - 1]));
        assert(b[i - 1][t] == a[i - 1][t]);
        assert(scanned_from(g, kinds, b, i, k, t));
    } else {
        let (s, t) = choose|s: int, t: int| completed_from(g, a, i, k, s, t);
        let done = a[i][s];
        assert(b[i][s] == done);
        assert(begins(a[done.start], b[done.start]));
        assert(b[done.start][t] == a[done.start][t]);
        assert(completed_from(g, b, i, k, s, t));
    }
}

/// What prediction adds has its dot at the front and starts at the
/// column.
pub proof fn lemma_predicted_new(column: Seq<Item>, rule: int, at: int, count: int, index: int)
    requires
        column.len() <= index < predicted(column, rule, at, count).len(),
    ensures
        predicted(column, rule, at, count)[index].dot == 0,
        predicted(column, rule, at, count)[index].start == at,
    decreases count,
{
    if count > 0 {
        let before = predicted(column, rule, at, count - 1);
        if index < before.len() {
            lemma_predicted_new(column, rule, at, count - 1, index);
        }
    }
}

/// What completion adds is an item of the origin that waited for the
/// rule, with its dot advanced.
pub proof fn lemma_completions_new(
    g: GrammarView,
    origin: Seq<Item>,
    column: Seq<Item>,
    name: Seq<char>,
    count: int,
    index: int,
) -> (q: int)
    requires
        column.len() <= index < completions(g, origin, column, name, count).len(),
        count <= origin.len(),
    ensures
        0 <= q < count,
        expects(g, origin[q], name),
        completions(g, origin, column, name, count)[index] == advanced(origin[q]),
    decreases count,
{
    let before = completions(g, origin, column, name, count - 1);
    if index < before.len() {
        lemma_completions_new(g, origin, column, name, count - 1, index)
    } else {
        count - 1
    }
}

/// A step gives every item that it adds an origin.
pub proof fn lemma_step_grounded(
    g: GrammarView,
    kinds: Seq<Seq<char>>,
    chart: Chart,
    i: int,
    k: int,
)
    requires
        well_formed(g),
        chart_ok(g, chart, kinds.len()),
        grounded(g, kinds, chart),
        0 <= i < chart.len(),
        0 <= k < chart[i].len(),
    ensures
        grounded(g, kinds, step(g, kinds, chart, i, k)),
{
    let item = chart[i][k];
    let after = step(g, kinds, chart, i, k);
    lemma_step(g, kinds, chart, i, k);
    assert(column_ok(g, chart[i], i));
    assert(item_ok(g, item, i));
    assert forall|c: int, x: int|
        0 <= c < after.len() && 0 <= x < after[c].len() implies #[trigger] justified(
        g,
        kinds,
        after,
        c,
        x,
    ) by {
        assert(begins(chart[c], after[c]));
        if x < chart[c].len() {
            assert(justified(g, kinds, chart, c, x));
            lemma_justified_stays(g, kinds, chart, after, c, x);
        } else if is_complete(g, item) {
            assert(c == i);
            let origin = chart[item.start];
            let q = lemma_completions_new(
                g,
                origin,
                chart[i],
                g[item.rule].name,
                origin.len() as int,
                x,
            );
            assert(begins(chart[i], after[i]));
            assert(after[i][k] == item);
            assert(begins(chart[item.start], after[item.start]));
            assert(after[item.start][q] == origin[q]);
            assert(completed_from(g, after, i, x, k, q));
        } else {
            match next_symbol(g, item) {
                SymbolView::Rule(name) => {
                    assert(c == i);
                    let rule = rule_named(g, name);
                    let count = g[rule].productions.len() as int;
                    let predictions = predicted(chart[i], rule, i, count);
                    crate::parser::chart::lemma_resolved(g, item, i, name);
                    crate::parser::chart::lemma_predicted(g, chart[i], rule, i, count);
                    if x < predictions.len() {
                        assert(after[i][x] == predictions[x]);
                        lemma_predicted_new(chart[i], rule, i, count, x);
                    } else {
                        assert(completed_here(g, predictions, name, i, k));
                        let s = choose|s: int|
                            0 <= s < k && ends_empty(g, #[trigger] predictions[s], name, i);
                        assert(predictions[s] == chart[i][s]);
                        assert(after[i][s] == chart[i][s]);
                        assert(after[i][k] == item);
                        assert(after[i][x] == advanced(item));
                        assert(completed_from(g, after, i, x, s, k));
                    }
                },
                SymbolView::Lexeme(kind) => {
                    assert(c == i + 1);
                    assert(after[i] == chart[i]);
                    assert(after[c][x] == advanced(item));
                    assert(scanned_from(g, kinds, after, c, x, k));
                },
            }
        }
    }
}

/// Saturation gives every item that it adds an origin.
pub proof fn lemma_saturated_grounded(
    g: GrammarView,
    kinds: Seq<Seq<char>>,
    chart: Chart,
    i: int,
    k: int,
)
    requires
        well_formed(g),
        chart_ok(g, chart, kinds.len()),
        grounded(g, kinds, chart),
        0 <= i < chart.len(),
        0 <= k <= chart[i].len(),
    ensures
        grounded(g, kinds, saturated(g, kinds, chart, i, k)),
    decreases capacity(g, i) - k,
{
    if k < chart[i].len() {
        assert(column_ok(g, chart[i], i));
        lemma_column_fits(g, chart[i], i);
        let after = step(g, kinds, chart, i, k);
        lemma_step(g, kinds, chart, i, k);
        lemma_step_grounded(g, kinds, chart, i, k);
        assert(begins(chart[i], after[i]));
        lemma_saturated_grounded(g, kinds, after, i, k + 1);
    }
}

/// Every item of the charts of a sweep has an origin.
pub proof fn lemma_swept_grounded(g: GrammarView, kinds: Seq<Seq<char>>, columns: int)
    requires
        well_formed(g),
        0 <= columns <= kinds.len() + 1,
    ensures
        grounded(g, kinds, swept(g, kinds, columns)),
    decreases columns,
{
    if columns > 0 {
        lemma_swept_grounded(g, kinds, columns - 1);
        lemma_swept(g, kinds, columns - 1);
        lemma_saturated_grounded(g, kinds, swept(g, kinds, columns - 1), columns - 1, 0);
    } else {
        let chart = initial(g, kinds.len());
        assert forall|i: int, k: int|
            0 <= i < chart.len() && 0 <= k < chart[i].len() implies #[trigger] justified(
            g,
            kinds,
            chart,
            i,
            k,
        ) by {
            assert(i == 0 && k == 0);
        }
    }
}

/// Every item of the chart of the recognizer has an origin.
pub proof fn lemma_chart_grounded(g: GrammarView, kinds: Seq<Seq<char>>)
    requires
        well_formed(g),
    ensures
        grounded(g, kinds, earley_chart(g, kinds)),
        chart_ok(g, earley_chart(g, kinds), kinds.len()),
{
    lemma_swept_grounded(g, kinds, kinds.len() as int + 1);
    lemma_swept(g, kinds, kinds.len() as int + 1);
}

} // verus!
