//! The recognizer finds what can be derived: the item of every node of a
//! parse tree is in the chart.

use crate::grammar::GrammarView;
use crate::grammar::lemma_rule_named;
use crate::grammar::well_formed;
use crate::lex::lexeme::LexemeView;
use crate::lex::lexeme::kinds_of;
use crate::parser::chart::Item;
use crate::parser::chart::advanced;
use crate::parser::chart::earley_chart;
use crate::parser::chart::expects;
use crate::parser::chart::is_complete;
use crate::parser::chart::next_symbol;
use crate::parser::derivation::conforms;
use crate::parser::derivation::leaves;
use crate::parser::derivation::leaves_of;
use crate::parser::derivation::leaves_upto;
use crate::parser::derivation::lemma_leaves_of_child;
use crate::parser::derivation::root_symbol;
use crate::parser::derivation::roots;
use crate::parser::forest::TreeView;
use crate::parser::proofs::closure::fresh_item;
use crate::parser::proofs::closure::lemma_chart_closed;
use crate::parser::proofs::closure::lemma_completion_closed;
use crate::parser::proofs::closure::processed;
use crate::parser::proofs::closure::settled;
use vstd::prelude::*;

verus! {

/// The item of a production with its dot behind the first `dot` symbols.
pub open spec fn dotted(rule: int, production: int, dot: int, start: int) -> Item {
    Item { rule, production, dot, start }
}

/// An item before a symbol moves over a parse tree for that symbol:
/// where the item is in the column at which the tree's lexemes begin, the
/// advanced item is in the column at which they end.
pub proof fn lemma_reach_tree(
    g: GrammarView,
    lexemes: Seq<LexemeView>,
    tree: TreeView,
    waiting: Item,
    i: int,
    j: int,
)
    requires
        well_formed(g),
        0 <= i <= j <= lexemes.len(),
        earley_chart(g, kinds_of(lexemes))[i].contains(waiting),
        !is_complete(g, waiting),
        next_symbol(g, waiting) == root_symbol(tree),
        conforms(g, tree),
        leaves(tree) == lexemes.subrange(i, j),
    ensures
        earley_chart(g, kinds_of(lexemes))[j].contains(advanced(waiting)),
    decreases tree, 0int,
{
    let kinds = kinds_of(lexemes);
    let chart = earley_chart(g, kinds);
    lemma_chart_closed(g, kinds);
    let k = choose|k: int| 0 <= k < chart[i].len() && chart[i][k] == waiting;
    assert(settled(g, kinds, chart, i, chart[i].len() as int));
    assert(processed(g, kinds, chart, i, k));
    match tree {
        TreeView::Leaf(lexeme) => {
            assert(leaves(tree).len() == 1);
            assert(lexemes.subrange(i, j)[0] == lexeme);
            assert(kinds[i] == lexeme.kind);
        },
        TreeView::Node { name, children } => {
            let (r, p) = choose|r: int, p: int|
                0 <= r < g.len() && g[r].name == name && 0 <= p < g[r].productions.len()
                    && #[trigger] g[r].productions[p] == roots(children);
            lemma_rule_named(g, r);
            assert(chart[i].contains(fresh_item(r, p, i)));
            lemma_reach_list(g, lexemes, children, r, p, i, j, children.len() as int);
            let done = dotted(r, p, children.len() as int, i);
            assert(chart[j].contains(done));
            let at = choose|at: int| 0 <= at < chart[j].len() && chart[j][at] == done;
            assert(is_complete(g, done));
            assert(expects(g, chart[i][k], g[r].name));
            lemma_completion_closed(g, kinds, chart, j, at, k);
        },
    }
}

/// An item at the front of a production moves over the parse trees of
/// the production's symbols, one after the other.
pub proof fn lemma_reach_list(
    g: GrammarView,
    lexemes: Seq<LexemeView>,
    children: Seq<TreeView>,
    r: int,
    p: int,
    i: int,
    j: int,
    count: int,
)
    requires
        well_formed(g),
        0 <= r < g.len(),
        0 <= p < g[r].productions.len(),
        g[r].productions[p] == roots(children),
        forall|x: int| 0 <= x < children.len() ==> conforms(g, #[trigger] children[x]),
        0 <= i <= j <= lexemes.len(),
        leaves_of(children) == lexemes.subrange(i, j),
        earley_chart(g, kinds_of(lexemes))[i].contains(fresh_item(r, p, i)),
        0 <= count <= children.len(),
    ensures
        i + leaves_upto(children, count).len() <= j,
        earley_chart(g, kinds_of(lexemes))[i + leaves_upto(children, count).len()].contains(
            dotted(r, p, count, i),
        ),
    decreases children, count,
{
    if count > 0 {
        lemma_reach_list(g, lexemes, children, r, p, i, j, count - 1);
        lemma_leaves_of_child(lexemes, children, i, j, count - 1);
        let from = i + leaves_upto(children, count - 1).len();
        let to = i + leaves_upto(children, count).len();
        let waiting = dotted(r, p, count - 1, i);
        assert(roots(children)[count - 1] == root_symbol(children[count - 1]));
        lemma_reach_tree(g, lexemes, children[count - 1], waiting, from, to);
        assert(advanced(waiting) == dotted(r, p, count, i));
    } else {
        assert(leaves_upto(children, 0).len() == 0);
    }
}

} // verus!
