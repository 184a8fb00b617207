//! Every item of the chart stands for a derivation: the origins of the
//! items give parse trees, and those trees are found by the forest.

use crate::grammar::GrammarView;
use crate::grammar::SymbolView;
use crate::grammar::well_formed;
use crate::lex::lexeme::LexemeView;
use crate::lex::lexeme::kinds_of;
use crate::parser::chart::column_ok;
use crate::parser::chart::earley_chart;
use crate::parser::chart::item_ok;
use crate::parser::chart::production_of;
use crate::parser::derivation::conforms;
use crate::parser::derivation::fresh;
use crate::parser::derivation::leaves;
use crate::parser::derivation::leaves_of;
use crate::parser::derivation::leaves_upto;
use crate::parser::derivation::lemma_leaves_upto_begin;
use crate::parser::derivation::list_derives;
use crate::parser::derivation::roots;
use crate::parser::derivation::span_at;
use crate::parser::derivation::tree_derives;
use crate::parser::forest::Span;
use crate::parser::forest::TreeView;
use crate::parser::proofs::found::lemma_production_index;
use crate::parser::proofs::found::supported;
use crate::parser::proofs::origin::completed_from;
use crate::parser::proofs::origin::justified;
use crate::parser::proofs::origin::lemma_chart_grounded;
use crate::parser::proofs::origin::scanned_from;
use vstd::prelude::*;

verus! {

/// The place `column`, `index` comes before the place `limit`, `bound` in
/// the order in which the chart is filled.
pub open spec fn below(column: int, index: int, limit: int, bound: int) -> bool {
    column < limit || (column == limit && index < bound)
}

/// A tree whose lexemes begin at `at` is placed below a place of the
/// chart when the complete item of its root stands in the chart before
/// that place, and each of its children is placed below the item of the
/// root.
pub open spec fn placed(
    g: GrammarView,
    lexemes: Seq<LexemeView>,
    tree: TreeView,
    at: int,
    limit: int,
    bound: int,
) -> bool
    decreases tree,
{
    match tree {
        TreeView::Leaf(lexeme) => true,
        TreeView::Node { name, children } => {
            let span = span_at(g, tree, at);
            let column = earley_chart(g, kinds_of(lexemes))[span.end];
            &&& 0 <= span.end <= lexemes.len()
            &&& column.contains(span.item)
            &&& below(span.end, column.index_of(span.item), limit, bound)
            &&& forall|c: int|
                0 <= c < children.len() ==> placed(
                    g,
                    lexemes,
                    #[trigger] children[c],
                    at + leaves_upto(children, c).len(),
                    span.end,
                    column.index_of(span.item),
                )
        },
    }
}

/// A tree that is placed below a place is placed below every later place.
pub proof fn lemma_placed_later(
    g: GrammarView,
    lexemes: Seq<LexemeView>,
    tree: TreeView,
    at: int,
    limit: int,
    bound: int,
    later_limit: int,
    later_bound: int,
)
    requires
        placed(g, lexemes, tree, at, limit, bound),
        below(limit, bound, later_limit, later_bound) || (limit == later_limit && bound
            == later_bound),
    ensures
        placed(g, lexemes, tree, at, later_limit, later_bound),
{
}

/// A tree that is placed in the chart is supported by the chart.
pub proof fn lemma_placed_supported(
    g: GrammarView,
    lexemes: Seq<LexemeView>,
    tree: TreeView,
    at: int,
    limit: int,
    bound: int,
)
    requires
        placed(g, lexemes, tree, at, limit, bound),
    ensures
        supported(g, lexemes, tree, at),
    decreases tree,
{
    match tree {
        TreeView::Leaf(lexeme) => {},
        TreeView::Node { name, children } => {
            let span = span_at(g, tree, at);
            let column = earley_chart(g, kinds_of(lexemes))[span.end];
            assert forall|c: int| 0 <= c < children.len() implies supported(
                g,
                lexemes,
                #[trigger] children[c],
                at + leaves_upto(children, c).len(),
            ) by {
                lemma_placed_supported(
                    g,
                    lexemes,
                    children[c],
                    at + leaves_upto(children, c).len(),
                    span.end,
                    column.index_of(span.item),
                );
            }
        },
    }
}

/// The span stands in the chart, at the place `limit`, `bound` or later.
pub open spec fn not_below(
    g: GrammarView,
    lexemes: Seq<LexemeView>,
    span: Span,
    limit: int,
    bound: int,
) -> bool {
    let column = earley_chart(g, kinds_of(lexemes))[span.end];
    column.contains(span.item) && !below(span.end, column.index_of(span.item), limit, bound)
}

/// A tree that is placed below a place is fresh with respect to spans
/// that stand at that place or later.
pub proof fn lemma_placed_fresh(
    g: GrammarView,
    lexemes: Seq<LexemeView>,
    tree: TreeView,
    at: int,
    limit: int,
    bound: int,
    active: Seq<Span>,
)
    requires
        placed(g, lexemes, tree, at, limit, bound),
        forall|a: int|
            0 <= a < active.len() ==> not_below(g, lexemes, #[trigger] active[a], limit, bound),
    ensures
        fresh(g, tree, at, active),
    decreases tree,
{
    match tree {
        TreeView::Leaf(lexeme) => {},
        TreeView::Node { name, children } => {
            let span = span_at(g, tree, at);
            let column = earley_chart(g, kinds_of(lexemes))[span.end];
            let index = column.index_of(span.item);
            if active.contains(span) {
                let a = choose|a: int| 0 <= a < active.len() && active[a] == span;
                assert(not_below(g, lexemes, active[a], limit, bound));
            }
            let busy = active.push(span);
            assert forall|a: int| 0 <= a < busy.len() implies not_below(
                g,
                lexemes,
                #[trigger] busy[a],
                span.end,
                index,
            ) by {
                if a < active.len() {
                    assert(not_below(g, lexemes, active[a], limit, bound));
                }
            }
            assert forall|c: int| 0 <= c < children.len() implies fresh(
                g,
                #[trigger] children[c],
                at + leaves_upto(children, c).len(),
                busy,
            ) by {
                lemma_placed_fresh(
                    g,
                    lexemes,
                    children[c],
                    at + leaves_upto(children, c).len(),
                    span.end,
                    index,
                    busy,
                );
            }
        },
    }
}

/// A list of trees with one more tree at its end derives what the list
/// and the tree derive one after the other.
pub proof fn lemma_pushed_derives(
    g: GrammarView,
    lexemes: Seq<LexemeView>,
    trees: Seq<TreeView>,
    tree: TreeView,
    symbols: Seq<SymbolView>,
    symbol: SymbolView,
    at: int,
    mid: int,
    end: int,
)
    requires
        list_derives(g, lexemes, trees, symbols, at, mid),
        tree_derives(g, lexemes, tree, symbol, mid, end),
    ensures
        list_derives(g, lexemes, trees.push(tree), symbols.push(symbol), at, end),
        leaves_upto(trees.push(tree), trees.len() as int) == leaves_of(trees),
        forall|c: int|
            0 <= c <= trees.len() ==> leaves_upto(trees.push(tree), c) == leaves_upto(trees, c),
{
    let longer = trees.push(tree);
    assert(longer =~= trees + seq![tree]);
    assert forall|c: int| 0 <= c <= trees.len() implies leaves_upto(longer, c) == leaves_upto(
        trees,
        c,
    ) by {
        lemma_leaves_upto_begin(trees, seq![tree], c);
    }
    assert(longer[trees.len() as int] == tree);
    assert(leaves_of(longer) == leaves_of(trees) + leaves(tree));
    assert(lexemes.subrange(at, mid) + lexemes.subrange(mid, end) =~= lexemes.subrange(at, end));
    assert(roots(longer) =~= symbols.push(symbol)) by {
        assert forall|c: int| 0 <= c < longer.len() implies roots(longer)[c] == symbols.push(
            symbol,
        )[c] by {
            if c < trees.len() {
                assert(longer[c] == trees[c]);
                assert(roots(trees)[c] == symbols[c]);
            }
        }
    }
    assert forall|c: int| 0 <= c < longer.len() implies conforms(g, #[trigger] longer[c]) by {
        if c < trees.len() {
            assert(longer[c] == trees[c]);
        }
    }
}

/// The trees of an item: parse trees for the symbols before the item's
/// dot over the lexemes from the item's start up to the item's column,
/// each placed in the chart below the item.
#[verifier::spinoff_prover]
#[verifier::rlimit(50)]
pub proof fn lemma_witness(g: GrammarView, lexemes: Seq<LexemeView>, i: int, k: int) -> (trees: Seq<
    TreeView,
>)
    requires
        well_formed(g),
        0 <= i <= lexemes.len(),
        0 <= k < earley_chart(g, kinds_of(lexemes))[i].len(),
    ensures
        list_derives(
            g,
            lexemes,
            trees,
            production_of(g, earley_chart(g, kinds_of(lexemes))[i][k]).subrange(
                0,
                earley_chart(g, kinds_of(lexemes))[i][k].dot,
            ),
            earley_chart(g, kinds_of(lexemes))[i][k].start,
            i,
        ),
        forall|c: int|
            0 <= c < trees.len() ==> placed(
                g,
                lexemes,
                #[trigger] trees[c],
                earley_chart(g, kinds_of(lexemes))[i][k].start + leaves_upto(trees, c).len(),
                i,
                k,
            ),
    decreases i, k,
{
    let kinds = kinds_of(lexemes);
    let chart = earley_chart(g, kinds);
    lemma_chart_grounded(g, kinds);
    let item = chart[i][k];
    let symbols = production_of(g, item);
    assert(justified(g, kinds, chart, i, k));
    assert(column_ok(g, chart[i], i));
    assert(item_ok(g, item, i));
    if item.dot == 0 && item.start == i {
        let trees = Seq::<TreeView>::empty();
        assert(roots(trees) =~= symbols.subrange(0, 0));
        assert(leaves_of(trees) =~= lexemes.subrange(i, i));
        trees
    } else if exists|t: int| scanned_from(g, kinds, chart, i, k, t) {
        let t = choose|t: int| scanned_from(g, kinds, chart, i, k, t);
        let before = chart[i - 1][t];
        assert(column_ok(g, chart[i - 1], i - 1));
        assert(item_ok(g, before, i - 1));
        let shorter = lemma_witness(g, lexemes, i - 1, t);
        let leaf = TreeView::Leaf(lexemes[i - 1]);
        assert(kinds[i - 1] == lexemes[i - 1].kind);
        assert(leaves(leaf) =~= lexemes.subrange(i - 1, i));
        lemma_pushed_derives(
            g,
            lexemes,
            shorter,
            leaf,
            symbols.subrange(0, before.dot),
            symbols[before.dot],
            item.start,
            i - 1,
            i,
        );
        assert(symbols.subrange(0, before.dot).push(symbols[before.dot]) =~= symbols.subrange(
            0,
            item.dot,
        ));
        let trees = shorter.push(leaf);
        assert forall|c: int| 0 <= c < trees.len() implies placed(
            g,
            lexemes,
            #[trigger] trees[c],
            item.start + leaves_upto(trees, c).len(),
            i,
            k,
        ) by {
            if c < shorter.len() {
                assert(trees[c] == shorter[c]);
                lemma_placed_later(
                    g,
                    lexemes,
                    shorter[c],
                    item.start + leaves_upto(shorter, c).len(),
                    i - 1,
                    t,
                    i,
                    k,
                );
            }
        }
        trees
    } else {
        let (s, t) = choose|s: int, t: int| completed_from(g, chart, i, k, s, t);
        let done = chart[i][s];
        let j = done.start;
        let before = chart[j][t];
        assert(item_ok(g, done, i));
        assert(column_ok(g, chart[j], j));
        assert(item_ok(g, before, j));
        let children = lemma_witness(g, lexemes, i, s);
        let shorter = lemma_witness(g, lexemes, j, t);
        let name = g[done.rule].name;
        let node = TreeView::Node { name, children };
        let wanted = production_of(g, done);
        assert(wanted.subrange(0, done.dot) =~= wanted);
        lemma_production_index(g, done.rule, done.production);
        assert(g[done.rule].productions[done.production] == roots(children));
        assert(conforms(g, node));
        assert(leaves(node) == lexemes.subrange(j, i));
        assert(span_at(g, node, j) == (Span { item: done, end: i }));
        assert(chart[i].index_of(done) == s) by {
            let found = chart[i].index_of(done);
            assert(chart[i][s] == done);
            assert(0 <= found < chart[i].len() && chart[i][found] == done);
        }
        assert(placed(g, lexemes, node, j, i, k));
        lemma_pushed_derives(
            g,
            lexemes,
            shorter,
            node,
            symbols.subrange(0, before.dot),
            symbols[before.dot],
            item.start,
            j,
            i,
        );
        assert(symbols.subrange(0, before.dot).push(symbols[before.dot]) =~= symbols.subrange(
            0,
            item.dot,
        ));
        let trees = shorter.push(node);
        assert forall|c: int| 0 <= c < trees.len() implies placed(
            g,
            lexemes,
            #[trigger] trees[c],
            item.start + leaves_upto(trees, c).len(),
            i,
            k,
        ) by {
            if c < shorter.len() {
                assert(trees[c] == shorter[c]);
                lemma_placed_later(
                    g,
                    lexemes,
                    shorter[c],
                    item.start + leaves_upto(shorter, c).len(),
                    j,
                    t,
                    i,
                    k,
                );
            }
        }
        trees
    }
}

} // verus!
