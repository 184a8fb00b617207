//! The forest is sound: what the model gives for a span are parse trees
//! for the span.

use crate::grammar::GrammarView;
use crate::grammar::SymbolView;
use crate::grammar::well_formed;
use crate::lex::lexeme::LexemeView;
use crate::parser::chart::Chart;
use crate::parser::chart::completed_chart;
use crate::parser::chart::completeness;
use crate::parser::chart::earley_chart;
use crate::parser::chart::finished;
use crate::parser::chart::item_ok;
use crate::parser::chart::lemma_swept;
use crate::parser::chart::production_of;
use crate::parser::derivation::leaves;
use crate::parser::derivation::leaves_of;
use crate::parser::derivation::lemma_prefixed_derives;
use crate::parser::derivation::list_derives;
use crate::parser::derivation::roots;
use crate::parser::derivation::tree_derives;
use crate::parser::forest::Span;
use crate::parser::forest::TreeView;
use crate::parser::forest::child_lists;
use crate::parser::forest::crossed;
use crate::parser::forest::forest;
use crate::parser::forest::nodes;
use crate::parser::forest::prefixed;
use crate::parser::forest::room;
use crate::parser::forest::span_ok;
use crate::parser::forest::splits;
use crate::parser::forest::subtrees;
use crate::parser::forest::trees_of;
use vstd::prelude::*;

verus! {

/// A chart of the right width whose items all make sense where they stand.
pub open spec fn grid_ok(g: GrammarView, chart: Chart, lexemes: nat) -> bool {
    &&& chart.len() == lexemes + 1
    &&& forall|e: int, j: int|
        0 <= e < chart.len() && 0 <= j < chart[e].len() ==> item_ok(g, #[trigger] chart[e][j], e)
}

/// Every list that [`crossed`] gives is one of the heads in front of one
/// of the tails.
pub proof fn lemma_crossed_member(heads: Seq<TreeView>, tails: Seq<Seq<TreeView>>, k: int)
    requires
        0 <= k < crossed(heads, tails).len(),
    ensures
        exists|i: int, j: int|
            0 <= i < heads.len() && 0 <= j < tails.len() && crossed(heads, tails)[k] == seq![
                #[trigger] heads[i],
            ] + #[trigger] tails[j],
    decreases heads.len(),
{
    let before = crossed(heads.drop_last(), tails);
    if k < before.len() {
        lemma_crossed_member(heads.drop_last(), tails, k);
        let (i, j) = choose|i: int, j: int|
            0 <= i < heads.drop_last().len() && 0 <= j < tails.len() && before[k] == seq![
                #[trigger] heads.drop_last()[i],
            ] + #[trigger] tails[j];
        assert(heads[i] == heads.drop_last()[i]);
    } else {
        let j = k - before.len();
        let i = heads.len() - 1;
        assert(crossed(heads, tails)[k] == prefixed(heads.last(), tails)[j]);
        assert(crossed(heads, tails)[k] == seq![heads[i]] + tails[j]);
    }
}

/// The trees that the model gives for a span are parse trees for the
/// span's rule over the lexemes of the span.
pub proof fn lemma_trees_sound(
    g: GrammarView,
    lexemes: Seq<LexemeView>,
    chart: Chart,
    span: Span,
    active: Seq<Span>,
)
    requires
        grid_ok(g, chart, lexemes.len()),
        span_ok(g, lexemes.len(), span),
    ensures
        forall|k: int|
            0 <= k < trees_of(g, lexemes, chart, span, active).len() ==> tree_derives(
                g,
                lexemes,
                #[trigger] trees_of(g, lexemes, chart, span, active)[k],
                SymbolView::Rule(g[span.item.rule].name),
                span.item.start,
                span.end,
            ),
    decreases room(g, lexemes.len()) - active.len(), 0int, 0int, 0int,
{
    let trees = trees_of(g, lexemes, chart, span, active);
    if !(active.contains(span) || active.len() >= room(g, lexemes.len())) {
        let symbols = production_of(g, span.item);
        let name = g[span.item.rule].name;
        let lists = child_lists(g, lexemes, chart, span, 0, span.item.start, active.push(span));
        lemma_lists_sound(g, lexemes, chart, span, 0, span.item.start, active.push(span));
        assert(symbols.subrange(0, symbols.len() as int) =~= symbols);
        assert forall|k: int| 0 <= k < trees.len() implies tree_derives(
            g,
            lexemes,
            #[trigger] trees[k],
            SymbolView::Rule(name),
            span.item.start,
            span.end,
        ) by {
            let children = lists[k];
            assert(trees[k] == TreeView::Node { name, children });
            assert(list_derives(g, lexemes, children, symbols, span.item.start, span.end));
            assert(g[span.item.rule].productions[span.item.production] == roots(children));
        }
    }
}

/// The lists that the model gives for the rest of a production are parse
/// trees for the rest of its symbols over the rest of the span.
pub proof fn lemma_lists_sound(
    g: GrammarView,
    lexemes: Seq<LexemeView>,
    chart: Chart,
    span: Span,
    m: int,
    at: int,
    active: Seq<Span>,
)
    requires
        grid_ok(g, chart, lexemes.len()),
        span_ok(g, lexemes.len(), span),
        0 <= m <= production_of(g, span.item).len(),
        0 <= at,
    ensures
        forall|k: int|
            0 <= k < child_lists(g, lexemes, chart, span, m, at, active).len() ==> list_derives(
                g,
                lexemes,
                #[trigger] child_lists(g, lexemes, chart, span, m, at, active)[k],
                production_of(g, span.item).subrange(m, production_of(g, span.item).len() as int),
                at,
                span.end,
            ),
    decreases
        room(g,
        lexemes.len()) - active.len(),
        production_of(g,
        span.item).len() - m,
        2int,
        0int,
{
    let symbols = production_of(g, span.item);
    let lists = child_lists(g, lexemes, chart, span, m, at, active);
    let wanted = symbols.subrange(m, symbols.len() as int);
    if m >= symbols.len() {
        if at == span.end {
            assert(lists.len() == 1);
            assert(roots(lists[0]) =~= wanted);
            assert(leaves_of(lists[0]) =~= lexemes.subrange(at, span.end));
            assert(list_derives(g, lexemes, lists[0], wanted, at, span.end));
        } else {
            assert(lists.len() == 0);
        }
    } else {
        assert(wanted =~= seq![symbols[m]] + symbols.subrange(m + 1, symbols.len() as int));
        match symbols[m] {
            SymbolView::Lexeme(kind) => {
                if 0 <= at < span.end && at < lexemes.len() && lexemes[at].kind == kind {
                    let head = TreeView::Leaf(lexemes[at]);
                    let tails = child_lists(g, lexemes, chart, span, m + 1, at + 1, active);
                    lemma_lists_sound(g, lexemes, chart, span, m + 1, at + 1, active);
                    assert(leaves(head) =~= lexemes.subrange(at, at + 1));
                    assert forall|k: int| 0 <= k < lists.len() implies list_derives(
                        g,
                        lexemes,
                        #[trigger] lists[k],
                        wanted,
                        at,
                        span.end,
                    ) by {
                        assert(lists[k] == seq![head] + tails[k]);
                        assert(tree_derives(g, lexemes, head, symbols[m], at, at + 1));
                        lemma_prefixed_derives(
                            g,
                            lexemes,
                            head,
                            tails[k],
                            symbols[m],
                            symbols.subrange(m + 1, symbols.len() as int),
                            at,
                            at + 1,
                            span.end,
                        );
                    }
                } else {
                    assert(lists.len() == 0);
                }
            },
            SymbolView::Rule(_) => {
                lemma_splits_sound(g, lexemes, chart, span, m, at, active, at);
                assert(lists == splits(g, lexemes, chart, span, m, at, active, at));
            },
        }
    }
}

/// As [`lemma_lists_sound`], for the lists in which the rule at `m` ends
/// at `split` or later.
pub proof fn lemma_splits_sound(
    g: GrammarView,
    lexemes: Seq<LexemeView>,
    chart: Chart,
    span: Span,
    m: int,
    at: int,
    active: Seq<Span>,
    split: int,
)
    requires
        grid_ok(g, chart, lexemes.len()),
        span_ok(g, lexemes.len(), span),
        0 <= m < production_of(g, span.item).len(),
        0 <= at <= split,
    ensures
        forall|k: int|
            0 <= k < splits(g, lexemes, chart, span, m, at, active, split).len() ==> list_derives(
                g,
                lexemes,
                #[trigger] splits(g, lexemes, chart, span, m, at, active, split)[k],
                production_of(g, span.item).subrange(m, production_of(g, span.item).len() as int),
                at,
                span.end,
            ),
    decreases room(g, lexemes.len()) - active.len(),
        production_of(g, span.item).len() - m,
        1int,
        span.end - split + 1,
{
    let symbols = production_of(g, span.item);
    let lists = splits(g, lexemes, chart, span, m, at, active, split);
    let wanted = symbols.subrange(m, symbols.len() as int);
    if split <= span.end {
        match symbols[m] {
            SymbolView::Lexeme(_) => {},
            SymbolView::Rule(name) => {
                let heads = subtrees(
                    g,
                    lexemes,
                    chart,
                    name,
                    at,
                    split,
                    active,
                    chart[split].len() as int,
                );
                let tails = child_lists(g, lexemes, chart, span, m + 1, split, active);
                let here = crossed(heads, tails);
                let later = splits(g, lexemes, chart, span, m, at, active, split + 1);
                lemma_subtrees_sound(
                    g,
                    lexemes,
                    chart,
                    name,
                    at,
                    split,
                    active,
                    chart[split].len() as int,
                );
                lemma_lists_sound(g, lexemes, chart, span, m + 1, split, active);
                lemma_splits_sound(g, lexemes, chart, span, m, at, active, split + 1);
                assert(wanted =~= seq![symbols[m]] + symbols.subrange(m + 1, symbols.len() as int));
                assert forall|k: int| 0 <= k < lists.len() implies list_derives(
                    g,
                    lexemes,
                    #[trigger] lists[k],
                    wanted,
                    at,
                    span.end,
                ) by {
                    if k < here.len() {
                        lemma_crossed_member(heads, tails, k);
                        let (i, j) = choose|i: int, j: int|
                            0 <= i < heads.len() && 0 <= j < tails.len() && here[k] == seq![
                                #[trigger] heads[i],
                            ] + #[trigger] tails[j];
                        lemma_prefixed_derives(
                            g,
                            lexemes,
                            heads[i],
                            tails[j],
                            symbols[m],
                            symbols.subrange(m + 1, symbols.len() as int),
                            at,
                            split,
                            span.end,
                        );
                    } else {
                        assert(lists[k] == later[k - here.len()]);
                    }
                }
            },
        }
    }
}

/// The trees that the model gives for a rule over a range of lexemes are
/// parse trees for the rule over that range.
pub proof fn lemma_subtrees_sound(
    g: GrammarView,
    lexemes: Seq<LexemeView>,
    chart: Chart,
    name: Seq<char>,
    at: int,
    end: int,
    active: Seq<Span>,
    count: int,
)
    requires
        grid_ok(g, chart, lexemes.len()),
        0 <= end <= lexemes.len(),
        count <= chart[end].len(),
    ensures
        forall|k: int|
            0 <= k < subtrees(g, lexemes, chart, name, at, end, active, count).len()
                ==> tree_derives(
                g,
                lexemes,
                #[trigger] subtrees(g, lexemes, chart, name, at, end, active, count)[k],
                SymbolView::Rule(name),
                at,
                end,
            ),
    decreases room(g, lexemes.len()) - active.len(), 0int, 1int, count,
{
    if count > 0 {
        let trees = subtrees(g, lexemes, chart, name, at, end, active, count);
        let before = subtrees(g, lexemes, chart, name, at, end, active, count - 1);
        let item = chart[end][count - 1];
        lemma_subtrees_sound(g, lexemes, chart, name, at, end, active, count - 1);
        if g[item.rule].name == name && item.start == at {
            let span = Span { item, end };
            let found = trees_of(g, lexemes, chart, span, active);
            lemma_trees_sound(g, lexemes, chart, span, active);
            assert forall|k: int| 0 <= k < trees.len() implies tree_derives(
                g,
                lexemes,
                #[trigger] trees[k],
                SymbolView::Rule(name),
                at,
                end,
            ) by {
                if k >= before.len() {
                    assert(trees[k] == found[k - before.len()]);
                }
            }
        }
    }
}

/// The trees that the model gives for a span are nodes over trees for
/// the symbols of the span's production.
pub proof fn lemma_trees_shaped(
    g: GrammarView,
    lexemes: Seq<LexemeView>,
    chart: Chart,
    span: Span,
    active: Seq<Span>,
    k: int,
)
    requires
        grid_ok(g, chart, lexemes.len()),
        span_ok(g, lexemes.len(), span),
        0 <= k < trees_of(g, lexemes, chart, span, active).len(),
    ensures
        trees_of(g, lexemes, chart, span, active)[k] is Node,
        roots(trees_of(g, lexemes, chart, span, active)[k]->children) == production_of(
            g,
            span.item,
        ),
{
    let symbols = production_of(g, span.item);
    let lists = child_lists(g, lexemes, chart, span, 0, span.item.start, active.push(span));
    lemma_lists_sound(g, lexemes, chart, span, 0, span.item.start, active.push(span));
    assert(symbols.subrange(0, symbols.len() as int) =~= symbols);
    assert(list_derives(g, lexemes, lists[k], symbols, span.item.start, span.end));
}

/// The items of the completed chart make sense where they stand.
pub proof fn lemma_completed_grid(g: GrammarView, kinds: Seq<Seq<char>>)
    requires
        well_formed(g),
    ensures
        grid_ok(g, completed_chart(g, kinds), kinds.len()),
{
    let chart = earley_chart(g, kinds);
    let done = completed_chart(g, kinds);
    lemma_swept(g, kinds, kinds.len() as int + 1);
    assert forall|e: int, j: int| 0 <= e < done.len() && 0 <= j < done[e].len() implies item_ok(
        g,
        #[trigger] done[e][j],
        e,
    ) by {
        let item = done[e][j];
        assert(done[e] == finished(g, chart[e]));
        assert(finished(g, chart[e]).contains(item));
        chart[e].lemma_filter_contains_rev(completeness(g), item);
        let k = choose|k: int| 0 <= k < chart[e].len() && chart[e][k] == item;
        assert(crate::parser::chart::column_ok(g, chart[e], e));
        assert(item_ok(g, chart[e][k], e));
    }
}

} // verus!
