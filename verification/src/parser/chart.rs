//! The mathematical model of the recognizer: Earley items, columns of
//! items, and the chart that prediction, scanning and completion build.

use crate::grammar::GrammarView;
use crate::grammar::SymbolView;
use crate::grammar::defines;
use crate::grammar::rule_named;
use crate::grammar::start_name;
use crate::grammar::well_formed;
use crate::parser::bound::capacity;
use crate::parser::bound::lemma_column_fits;
use vstd::prelude::*;

verus! {

/// An Earley item: progress through one production of one rule. The first
/// `dot` symbols of the production have been matched, beginning at the
/// column `start`.
pub struct Item {
    /// The index of the rule in the grammar.
    pub rule: int,
    /// The index of the production in the rule.
    pub production: int,
    /// The number of symbols of the production that are matched.
    pub dot: int,
    /// The column at which the match began.
    pub start: int,
}

/// A chart: one column of items for each boundary between lexemes.
pub type Chart = Seq<Seq<Item>>;

/// The symbols of the production that an item works on.
pub open spec fn production_of(g: GrammarView, item: Item) -> Seq<SymbolView> {
    g[item.rule].productions[item.production]
}

/// An item makes sense in a column when its rule and production exist, its
/// dot lies within the production and it starts no later than the column.
pub open spec fn item_ok(g: GrammarView, item: Item, column: int) -> bool {
    &&& 0 <= item.rule < g.len()
    &&& 0 <= item.production < g[item.rule].productions.len()
    &&& 0 <= item.dot <= production_of(g, item).len()
    &&& 0 <= item.start <= column
}

/// An item is complete when its dot stands behind the last symbol.
pub open spec fn is_complete(g: GrammarView, item: Item) -> bool {
    item.dot == production_of(g, item).len()
}

/// The symbol behind the dot of an item that is not complete.
pub open spec fn next_symbol(g: GrammarView, item: Item) -> SymbolView
    recommends
        !is_complete(g, item),
{
    production_of(g, item)[item.dot]
}

/// Whether the item waits for the rule of the given name.
pub open spec fn expects(g: GrammarView, item: Item, name: Seq<char>) -> bool {
    !is_complete(g, item) && next_symbol(g, item) == SymbolView::Rule(name)
}

/// The item waits for a lexeme of the given kind.
pub open spec fn waits_for(g: GrammarView, item: Item, kind: Seq<char>) -> bool {
    !is_complete(g, item) && next_symbol(g, item) == SymbolView::Lexeme(kind)
}

/// The item with its dot moved over one symbol.
pub open spec fn advanced(item: Item) -> Item {
    Item { rule: item.rule, production: item.production, dot: item.dot + 1, start: item.start }
}

/// A column with an item added at its end, unless the column holds it
/// already.
pub open spec fn inserted(column: Seq<Item>, item: Item) -> Seq<Item> {
    if column.contains(item) {
        column
    } else {
        column.push(item)
    }
}

/// Prediction: the column after the first `count` productions of a rule
/// were inserted, each with its dot at the front and starting at `at`.
pub open spec fn predicted(column: Seq<Item>, rule: int, at: int, count: int) -> Seq<Item>
    decreases count,
{
    if count <= 0 {
        column
    } else {
        inserted(
            predicted(column, rule, at, count - 1),
            Item { rule, production: count - 1, dot: 0, start: at },
        )
    }
}

/// Completion: the column after each of the first `count` items of
/// `origin` that waits for the rule `name` was inserted with its dot
/// advanced.
pub open spec fn completions(
    g: GrammarView,
    origin: Seq<Item>,
    column: Seq<Item>,
    name: Seq<char>,
    count: int,
) -> Seq<Item>
    decreases count,
{
    if count <= 0 {
        column
    } else {
        let before = completions(g, origin, column, name, count - 1);
        if expects(g, origin[count - 1], name) {
            inserted(before, advanced(origin[count - 1]))
        } else {
            before
        }
    }
}

/// The item is a complete item of the rule `name` that starts at the
/// column `i` in which it stands: the rule derives nothing there.
pub open spec fn ends_empty(g: GrammarView, item: Item, name: Seq<char>, i: int) -> bool {
    is_complete(g, item) && item.start == i && g[item.rule].name == name
}

/// Whether the rule `name` was found to derive nothing at the column `i`
/// by one of the first `count` items of the column.
pub open spec fn completed_here(
    g: GrammarView,
    column: Seq<Item>,
    name: Seq<char>,
    i: int,
    count: int,
) -> bool {
    exists|j: int| 0 <= j < count && ends_empty(g, #[trigger] column[j], name, i)
}

/// Catching up: the column after the item `k`, which waits for the rule
/// `name`, was inserted with its dot advanced, if the rule was found to
/// derive nothing at this column before the item's turn came. Completion
/// looks only at the items that are in the column when it happens; an
/// item that comes later makes up for it here.
pub open spec fn caught_up(
    g: GrammarView,
    column: Seq<Item>,
    item: Item,
    name: Seq<char>,
    i: int,
    k: int,
) -> Seq<Item> {
    if completed_here(g, column, name, i, k) {
        inserted(column, advanced(item))
    } else {
        column
    }
}

/// One step of the recognizer: what the item `k` of the column `i` adds to
/// the chart. A complete item advances the items of its start column that
/// wait for its rule, as that column stands when the step begins. An item
/// before a rule predicts that rule in its own column, and catches up if
/// the rule was completed there already. An item before a lexeme kind
/// moves into the next column if the next lexeme is of that kind.
pub open spec fn step(
    g: GrammarView,
    kinds: Seq<Seq<char>>,
    chart: Chart,
    i: int,
    k: int,
) -> Chart {
    let item = chart[i][k];
    if is_complete(g, item) {
        chart.update(
            i,
            completions(
                g,
                chart[item.start],
                chart[i],
                g[item.rule].name,
                chart[item.start].len() as int,
            ),
        )
    } else {
        match next_symbol(g, item) {
            SymbolView::Rule(name) => chart.update(
                i,
                caught_up(
                    g,
                    predicted(
                        chart[i],
                        rule_named(g, name),
                        i,
                        g[rule_named(g, name)].productions.len() as int,
                    ),
                    item,
                    name,
                    i,
                    k,
                ),
            ),
            SymbolView::Lexeme(kind) => if i + 1 < chart.len() && kinds[i] == kind {
                chart.update(i + 1, inserted(chart[i + 1], advanced(item)))
            } else {
                chart
            },
        }
    }
}

/// The chart after the items of column `i` from index `k` on were
/// processed in order, those that the steps themselves add included. A
/// column of distinct items never outgrows its capacity, so the second
/// bound on `k` never cuts the run short: see [`lemma_column_fits`].
pub open spec fn saturated(
    g: GrammarView,
    kinds: Seq<Seq<char>>,
    chart: Chart,
    i: int,
    k: int,
) -> Chart
    decreases capacity(g, i) - k,
{
    if 0 <= k < chart[i].len() && k < capacity(g, i) {
        saturated(g, kinds, step(g, kinds, chart, i, k), i, k + 1)
    } else {
        chart
    }
}

/// The item that recognition begins with: the production of the start
/// rule, nothing matched yet.
pub open spec fn seed(g: GrammarView) -> Item {
    Item { rule: rule_named(g, start_name()), production: 0, dot: 0, start: 0 }
}

/// The item that a successful recognition ends with: the production of the
/// start rule, matched from the first column on.
pub open spec fn goal(g: GrammarView) -> Item {
    Item { rule: rule_named(g, start_name()), production: 0, dot: 1, start: 0 }
}

/// The chart before any step: the seed in the first column, nothing in
/// the others.
pub open spec fn initial(g: GrammarView, lexemes: nat) -> Chart {
    Seq::new(
        lexemes + 1,
        |i: int|
            if i == 0 {
                seq![seed(g)]
            } else {
                Seq::empty()
            },
    )
}

/// The chart after the first `columns` columns were saturated, from left
/// to right.
pub open spec fn swept(g: GrammarView, kinds: Seq<Seq<char>>, columns: int) -> Chart
    decreases columns,
{
    if columns <= 0 {
        initial(g, kinds.len())
    } else {
        saturated(g, kinds, swept(g, kinds, columns - 1), columns - 1, 0)
    }
}

/// The chart of the recognizer for a grammar and the kinds of the lexemes.
pub open spec fn earley_chart(g: GrammarView, kinds: Seq<Seq<char>>) -> Chart {
    swept(g, kinds, kinds.len() as int + 1)
}

/// The test for complete items, as a predicate on items.
pub open spec fn completeness(g: GrammarView) -> spec_fn(Item) -> bool {
    |item: Item| is_complete(g, item)
}

/// The complete items of a column, in the column's order.
pub open spec fn finished(g: GrammarView, column: Seq<Item>) -> Seq<Item> {
    column.filter(completeness(g))
}

/// The chart that trees are built from: of every column only the complete
/// items.
pub open spec fn completed_chart(g: GrammarView, kinds: Seq<Seq<char>>) -> Chart {
    earley_chart(g, kinds).map_values(|column: Seq<Item>| finished(g, column))
}

/// Whether the input is recognized: the last column holds the goal.
pub open spec fn recognizes(g: GrammarView, kinds: Seq<Seq<char>>) -> bool {
    earley_chart(g, kinds).last().contains(goal(g))
}

/// The last of the first `upto + 1` columns that holds an item, or 0.
pub open spec fn furthest_upto(chart: Chart, upto: int) -> int
    decreases upto,
{
    if upto <= 0 {
        0
    } else if chart[upto].len() > 0 {
        upto
    } else {
        furthest_upto(chart, upto - 1)
    }
}

/// The furthest column that recognition reached.
pub open spec fn furthest(chart: Chart) -> int {
    furthest_upto(chart, chart.len() - 1)
}

/// A list of kinds with one added at its end, unless the list holds it.
pub open spec fn noted(kinds: Seq<Seq<char>>, kind: Seq<char>) -> Seq<Seq<char>> {
    if kinds.contains(kind) {
        kinds
    } else {
        kinds.push(kind)
    }
}

/// The lexeme kinds that the first `count` items of a column wait for,
/// each once, in the order of the items.
pub open spec fn expected_upto(g: GrammarView, column: Seq<Item>, count: int) -> Seq<Seq<char>>
    decreases count,
{
    if count <= 0 {
        Seq::empty()
    } else {
        let before = expected_upto(g, column, count - 1);
        if is_complete(g, column[count - 1]) {
            before
        } else {
            match next_symbol(g, column[count - 1]) {
                SymbolView::Rule(_) => before,
                SymbolView::Lexeme(kind) => noted(before, kind),
            }
        }
    }
}

/// The lexeme kinds that a column would accept next.
pub open spec fn expected(g: GrammarView, column: Seq<Item>) -> Seq<Seq<char>> {
    expected_upto(g, column, column.len() as int)
}

/// A kind is expected by a column exactly when an item of the column
/// waits for a lexeme of that kind; and no kind is listed twice.
pub proof fn lemma_expected(g: GrammarView, column: Seq<Item>, count: int)
    requires
        0 <= count <= column.len(),
    ensures
        expected_upto(g, column, count).no_duplicates(),
        forall|kind: Seq<char>|
            expected_upto(g, column, count).contains(kind) <==> exists|k: int|
                0 <= k < count && waits_for(g, #[trigger] column[k], kind),
    decreases count,
{
    if count > 0 {
        lemma_expected(g, column, count - 1);
        let before = expected_upto(g, column, count - 1);
        let after = expected_upto(g, column, count);
        let item = column[count - 1];
        assert forall|kind: Seq<char>| after.contains(kind) <==> exists|k: int|
            0 <= k < count && waits_for(g, #[trigger] column[k], kind) by {
            if after.contains(kind) {
                let x = choose|x: int| 0 <= x < after.len() && after[x] == kind;
                if x < before.len() && before[x] == kind {
                    assert(before.contains(kind));
                    let k = choose|k: int|
                        0 <= k < count - 1 && waits_for(g, #[trigger] column[k], kind);
                    assert(waits_for(g, column[k], kind));
                } else {
                    assert(waits_for(g, column[count - 1], kind));
                }
            }
            if exists|k: int| 0 <= k < count && waits_for(g, #[trigger] column[k], kind) {
                let k = choose|k: int| 0 <= k < count && waits_for(g, #[trigger] column[k], kind);
                if k < count - 1 {
                    assert(before.contains(kind));
                    let x = choose|x: int| 0 <= x < before.len() && before[x] == kind;
                    assert(after[x] == kind);
                } else if before.contains(kind) {
                    let x = choose|x: int| 0 <= x < before.len() && before[x] == kind;
                    assert(after[x] == kind);
                } else {
                    assert(after[before.len() as int] == kind);
                }
            }
        }
    }
}

/// The furthest column is the last that holds an item: it is one of the
/// first `upto + 1` columns, and the columns after it up to `upto` are
/// empty.
pub proof fn lemma_furthest(chart: Chart, upto: int)
    requires
        0 <= upto < chart.len(),
    ensures
        0 <= furthest_upto(chart, upto) <= upto,
        furthest_upto(chart, upto) > 0 ==> chart[furthest_upto(chart, upto)].len() > 0,
        forall|j: int| furthest_upto(chart, upto) < j <= upto ==> (#[trigger] chart[j]).len() == 0,
    decreases upto,
{
    if upto > 0 && chart[upto].len() == 0 {
        lemma_furthest(chart, upto - 1);
    }
}

/// A column is in order when each of its items makes sense in it and no
/// item occurs twice.
pub open spec fn column_ok(g: GrammarView, column: Seq<Item>, i: int) -> bool {
    &&& forall|k: int| 0 <= k < column.len() ==> item_ok(g, #[trigger] column[k], i)
    &&& column.no_duplicates()
}

/// A chart for `lexemes` lexemes is in order when it has one column more
/// than there are lexemes and each column is in order.
pub open spec fn chart_ok(g: GrammarView, chart: Chart, lexemes: nat) -> bool {
    &&& chart.len() == lexemes + 1
    &&& forall|i: int| 0 <= i < chart.len() ==> column_ok(g, #[trigger] chart[i], i)
}

/// The first sequence is the beginning of the second.
pub open spec fn begins<T>(short: Seq<T>, long: Seq<T>) -> bool {
    &&& short.len() <= long.len()
    &&& forall|k: int| 0 <= k < short.len() ==> long[k] == #[trigger] short[k]
}

/// Each column of the first chart is the beginning of the same column of
/// the second.
pub open spec fn grows(before: Chart, after: Chart) -> bool {
    &&& before.len() == after.len()
    &&& forall|i: int| 0 <= i < before.len() ==> begins(#[trigger] before[i], after[i])
}

/// An empty column has no complete items.
pub proof fn lemma_finished_empty(g: GrammarView)
    ensures
        finished(g, Seq::empty()) == Seq::<Item>::empty(),
{
    reveal(Seq::filter);
}

/// The complete items of a column with one more item.
pub proof fn lemma_finished_push(g: GrammarView, column: Seq<Item>, item: Item)
    ensures
        finished(g, column.push(item)) == if is_complete(g, item) {
            finished(g, column).push(item)
        } else {
            finished(g, column)
        },
{
    reveal(Seq::filter);
    column.lemma_filter_push(item, completeness(g));
}

/// The beginning of a beginning is a beginning.
pub proof fn lemma_begins_transitive<T>(a: Seq<T>, b: Seq<T>, c: Seq<T>)
    requires
        begins(a, b),
        begins(b, c),
    ensures
        begins(a, c),
{
    assert forall|k: int| 0 <= k < a.len() implies c[k] == #[trigger] a[k] by {
        assert(b[k] == a[k]);
        assert(c[k] == b[k]);
    }
}

/// A chart that grew twice has grown.
pub proof fn lemma_grows_transitive(a: Chart, b: Chart, c: Chart)
    requires
        grows(a, b),
        grows(b, c),
    ensures
        grows(a, c),
{
    assert forall|i: int| 0 <= i < a.len() implies begins(#[trigger] a[i], c[i]) by {
        assert(begins(a[i], b[i]));
        assert(begins(b[i], c[i]));
        lemma_begins_transitive(a[i], b[i], c[i]);
    }
}

/// What is in the beginning of a sequence is in the sequence.
pub proof fn lemma_begins_contains<T>(short: Seq<T>, long: Seq<T>, x: T)
    requires
        begins(short, long),
        short.contains(x),
    ensures
        long.contains(x),
{
    let k = choose|k: int| 0 <= k < short.len() && short[k] == x;
    assert(long[k] == short[k]);
}

/// Inserting an item that makes sense keeps a column in order, keeps
/// what the column held, and leaves the item in the column.
pub proof fn lemma_inserted(g: GrammarView, column: Seq<Item>, item: Item, i: int)
    requires
        column_ok(g, column, i),
        item_ok(g, item, i),
    ensures
        column_ok(g, inserted(column, item), i),
        begins(column, inserted(column, item)),
        inserted(column, item).contains(item),
{
    if !column.contains(item) {
        let after = column.push(item);
        assert(after[column.len() as int] == item);
        assert forall|a: int, b: int|
            0 <= a < after.len() && 0 <= b < after.len() && a != b implies after[a] != after[b] by {
            if a == column.len() {
                assert(after[b] == column[b]);
            } else if b == column.len() {
                assert(after[a] == column[a]);
            }
        }
    }
}

/// Prediction keeps a column in order and keeps what the column held.
pub proof fn lemma_predicted(g: GrammarView, column: Seq<Item>, rule: int, at: int, count: int)
    requires
        column_ok(g, column, at),
        0 <= rule < g.len(),
        count <= g[rule].productions.len(),
        0 <= at,
    ensures
        column_ok(g, predicted(column, rule, at, count), at),
        begins(column, predicted(column, rule, at, count)),
    decreases count,
{
    if count > 0 {
        lemma_predicted(g, column, rule, at, count - 1);
        let before = predicted(column, rule, at, count - 1);
        let item = Item { rule, production: count - 1, dot: 0, start: at };
        lemma_inserted(g, before, item, at);
        lemma_begins_transitive(column, before, inserted(before, item));
    }
}

/// Completion keeps a column in order and keeps what the column held.
pub proof fn lemma_completions(
    g: GrammarView,
    origin: Seq<Item>,
    column: Seq<Item>,
    name: Seq<char>,
    count: int,
    j: int,
    i: int,
)
    requires
        column_ok(g, origin, j),
        column_ok(g, column, i),
        0 <= j <= i,
        count <= origin.len(),
    ensures
        column_ok(g, completions(g, origin, column, name, count), i),
        begins(column, completions(g, origin, column, name, count)),
    decreases count,
{
    if count > 0 {
        lemma_completions(g, origin, column, name, count - 1, j, i);
        let before = completions(g, origin, column, name, count - 1);
        let waiting = origin[count - 1];
        if expects(g, waiting, name) {
            assert(item_ok(g, waiting, j));
            lemma_inserted(g, before, advanced(waiting), i);
            lemma_begins_transitive(column, before, inserted(before, advanced(waiting)));
        }
    }
}

/// A rule symbol of a well-formed grammar names a rule.
pub proof fn lemma_resolved(g: GrammarView, item: Item, i: int, name: Seq<char>)
    requires
        well_formed(g),
        item_ok(g, item, i),
        expects(g, item, name),
    ensures
        0 <= rule_named(g, name) < g.len(),
        g[rule_named(g, name)].name == name,
{
    let rule = g[item.rule];
    assert(crate::grammar::rule_sound(g, rule));
    assert(crate::grammar::resolved(g, rule.productions[item.production][item.dot]));
    assert(defines(g, name));
}

/// A step keeps a chart in order and adds to it at most.
pub proof fn lemma_step(g: GrammarView, kinds: Seq<Seq<char>>, chart: Chart, i: int, k: int)
    requires
        well_formed(g),
        chart_ok(g, chart, kinds.len()),
        0 <= i < chart.len(),
        0 <= k < chart[i].len(),
    ensures
        chart_ok(g, step(g, kinds, chart, i, k), kinds.len()),
        grows(chart, step(g, kinds, chart, i, k)),
{
    let item = chart[i][k];
    let after = step(g, kinds, chart, i, k);
    assert(column_ok(g, chart[i], i));
    assert(item_ok(g, item, i));
    if is_complete(g, item) {
        assert(column_ok(g, chart[item.start], item.start));
        lemma_completions(
            g,
            chart[item.start],
            chart[i],
            g[item.rule].name,
            chart[item.start].len() as int,
            item.start,
            i,
        );
    } else {
        match next_symbol(g, item) {
            SymbolView::Rule(name) => {
                lemma_resolved(g, item, i, name);
                let predictions = predicted(
                    chart[i],
                    rule_named(g, name),
                    i,
                    g[rule_named(g, name)].productions.len() as int,
                );
                lemma_predicted(
                    g,
                    chart[i],
                    rule_named(g, name),
                    i,
                    g[rule_named(g, name)].productions.len() as int,
                );
                lemma_inserted(g, predictions, advanced(item), i);
                lemma_begins_transitive(
                    chart[i],
                    predictions,
                    caught_up(g, predictions, item, name, i, k),
                );
            },
            SymbolView::Lexeme(kind) => {
                if i + 1 < chart.len() && kinds[i] == kind {
                    assert(column_ok(g, chart[i + 1], i + 1));
                    lemma_inserted(g, chart[i + 1], advanced(item), i + 1);
                }
            },
        }
    }
    assert forall|j: int| 0 <= j < after.len() implies column_ok(g, #[trigger] after[j], j) by {
        assert(column_ok(g, chart[j], j));
    }
    assert forall|j: int| 0 <= j < chart.len() implies begins(#[trigger] chart[j], after[j]) by {}
}

/// Saturation keeps a chart in order and adds to it at most.
pub proof fn lemma_saturated(g: GrammarView, kinds: Seq<Seq<char>>, chart: Chart, i: int, k: int)
    requires
        well_formed(g),
        chart_ok(g, chart, kinds.len()),
        0 <= i < chart.len(),
        0 <= k <= chart[i].len(),
    ensures
        chart_ok(g, saturated(g, kinds, chart, i, k), kinds.len()),
        grows(chart, saturated(g, kinds, chart, i, k)),
    decreases capacity(g, i) - k,
{
    if k < chart[i].len() {
        assert(column_ok(g, chart[i], i));
        lemma_column_fits(g, chart[i], i);
        let after = step(g, kinds, chart, i, k);
        lemma_step(g, kinds, chart, i, k);
        assert(begins(chart[i], after[i]));
        lemma_saturated(g, kinds, after, i, k + 1);
        lemma_grows_transitive(chart, after, saturated(g, kinds, after, i, k + 1));
    } else {
        assert forall|j: int|
            0 <= j < chart.len() implies begins(#[trigger] chart[j], chart[j]) by {}
    }
}

/// The start rule of a well-formed grammar.
pub proof fn lemma_start_rule(g: GrammarView)
    requires
        well_formed(g),
    ensures
        0 <= rule_named(g, start_name()) < g.len(),
        g[rule_named(g, start_name())].name == start_name(),
        item_ok(g, seed(g), 0),
        item_ok(g, goal(g), 0),
        is_complete(g, goal(g)),
        !is_complete(g, seed(g)),
{
}

/// The charts of a sweep are in order, and each holds what the one before
/// it held.
pub proof fn lemma_swept(g: GrammarView, kinds: Seq<Seq<char>>, columns: int)
    requires
        well_formed(g),
        0 <= columns <= kinds.len() + 1,
    ensures
        chart_ok(g, swept(g, kinds, columns), kinds.len()),
        columns > 0 ==> grows(swept(g, kinds, columns - 1), swept(g, kinds, columns)),
    decreases columns,
{
    if columns == 0 {
        lemma_start_rule(g);
        let chart = initial(g, kinds.len());
        assert forall|i: int|
            0 <= i < chart.len() implies column_ok(g, #[trigger] chart[i], i) by {}
    } else {
        lemma_swept(g, kinds, columns - 1);
        lemma_saturated(g, kinds, swept(g, kinds, columns - 1), columns - 1, 0);
    }
}

} // verus!
