//! In a branching grammar no part of a derivation derives itself: every
//! parse tree passes through no span twice on a way down from its root.

use crate::grammar::GrammarView;
use crate::grammar::lemma_rule_named;
use crate::grammar::rule_named;
use crate::grammar::start_name;
use crate::grammar::well_formed;
use crate::parser::derivation::branching;
use crate::parser::derivation::conforms;
use crate::parser::derivation::fresh;
use crate::parser::derivation::leaves;
use crate::parser::derivation::leaves_upto;
use crate::parser::derivation::lemma_leaves_upto_grow;
use crate::parser::derivation::roots;
use crate::parser::derivation::span_at;
use crate::parser::forest::Span;
use crate::parser::forest::TreeView;
use crate::parser::proofs::found::lemma_production_index;
use vstd::prelude::*;

verus! {

/// A tree is solid when each of its nodes has a lexeme among its leaves:
/// no part of the tree derives the empty sequence.
pub open spec fn solid(tree: TreeView) -> bool
    decreases tree,
{
    match tree {
        TreeView::Leaf(lexeme) => true,
        TreeView::Node { name, children } => {
            &&& leaves(tree).len() > 0
            &&& forall|i: int| 0 <= i < children.len() ==> solid(#[trigger] children[i])
        },
    }
}

/// No production of the grammar is empty.
pub open spec fn without_empty(g: GrammarView) -> bool {
    forall|r: int, p: int|
        0 <= r < g.len() && 0 <= p < g[r].productions.len() ==>
            (#[trigger] g[r].productions[p]).len()
            > 0
}

/// In a grammar without empty productions every tree that conforms to the
/// grammar is solid.
pub proof fn lemma_all_solid(g: GrammarView, tree: TreeView)
    requires
        without_empty(g),
        conforms(g, tree),
    ensures
        solid(tree),
        leaves(tree).len() > 0,
    decreases tree,
{
    match tree {
        TreeView::Leaf(lexeme) => {},
        TreeView::Node { name, children } => {
            let (r, p) = choose|r: int, p: int|
                0 <= r < g.len() && g[r].name == name && 0 <= p < g[r].productions.len()
                    && #[trigger] g[r].productions[p] == roots(children);
            assert(children.len() > 0);
            assert forall|i: int| 0 <= i < children.len() implies solid(#[trigger] children[i]) by {
                lemma_all_solid(g, children[i]);
            }
            lemma_all_solid(g, children[children.len() - 1]);
        },
    }
}

/// A branching grammar has no empty production.
pub proof fn lemma_branching_without_empty(g: GrammarView)
    requires
        branching(g),
    ensures
        without_empty(g),
{
    assert forall|r: int, p: int|
        0 <= r < g.len() && 0 <= p < g[r].productions.len() implies (
    #[trigger] g[r].productions[p]).len() > 0 by {}
}

/// The leaves of a list of trees are at least the leaves of two of them.
pub proof fn lemma_leaves_of_two(trees: Seq<TreeView>, i: int, j: int)
    requires
        0 <= i < j < trees.len(),
    ensures
        leaves_upto(trees, trees.len() as int).len() >= leaves(trees[i]).len() + leaves(
            trees[j],
        ).len(),
{
    lemma_leaves_upto_grow(trees, j + 1, trees.len() as int);
    lemma_leaves_upto_grow(trees, i + 1, j);
}

/// The span covers more lexemes than the tree has leaves; or as many, and
/// then it is a span of the start rule and the tree grows from another
/// rule.
pub open spec fn wider(g: GrammarView, span: Span, tree: TreeView) -> bool {
    ||| span.end - span.item.start > leaves(tree).len()
    ||| span.end - span.item.start == leaves(tree).len() && span.item.rule == rule_named(
        g,
        start_name(),
    ) && tree->name != start_name()
}

/// In a branching grammar a tree that conforms to the grammar is fresh
/// with respect to spans that are wider than the tree.
pub proof fn lemma_branching_fresh(g: GrammarView, tree: TreeView, at: int, active: Seq<Span>)
    requires
        well_formed(g),
        branching(g),
        conforms(g, tree),
        forall|a: int| 0 <= a < active.len() ==> wider(g, #[trigger] active[a], tree),
    ensures
        fresh(g, tree, at, active),
    decreases tree,
{
    match tree {
        TreeView::Leaf(lexeme) => {},
        TreeView::Node { name, children } => {
            let (r, p) = choose|r: int, p: int|
                0 <= r < g.len() && g[r].name == name && 0 <= p < g[r].productions.len()
                    && #[trigger] g[r].productions[p] == roots(children);
            lemma_production_index(g, r, p);
            lemma_branching_without_empty(g);
            let span = span_at(g, tree, at);
            let start = rule_named(g, start_name());
            assert(0 <= start < g.len() && g[start].name == start_name());
            if active.contains(span) {
                let a = choose|a: int| 0 <= a < active.len() && active[a] == span;
                assert(wider(g, active[a], tree));
            }
            let busy = active.push(span);
            let symbols = g[r].productions[p];
            assert(symbols.len() == children.len());
            assert forall|c: int| 0 <= c < children.len() implies fresh(
                g,
                #[trigger] children[c],
                at + leaves_upto(children, c).len(),
                busy,
            ) by {
                let child = children[c];
                assert(conforms(g, child));
                assert(symbols[c] == crate::parser::derivation::root_symbol(child));
                if child is Node {
                    lemma_all_solid(g, child);
                    if children.len() >= 2 {
                        let other = if c == 0 {
                            1
                        } else {
                            0
                        };
                        assert(conforms(g, children[other]));
                        lemma_all_solid(g, children[other]);
                        if c == 0 {
                            lemma_leaves_of_two(children, 0, 1);
                        } else {
                            lemma_leaves_of_two(children, 0, c);
                        }
                        assert(leaves(child).len() < leaves(tree).len());
                    } else {
                        assert(name == start_name());
                        assert(child->name != start_name());
                        assert(leaves_upto(children, 0).len() == 0);
                        assert(leaves(child).len() == leaves(tree).len());
                        lemma_rule_named(g, r);
                    }
                    assert forall|a: int| 0 <= a < busy.len() implies wider(
                        g,
                        #[trigger] busy[a],
                        child,
                    ) by {
                        if a < active.len() {
                            assert(wider(g, active[a], tree));
                        }
                    }
                    lemma_branching_fresh(g, child, at + leaves_upto(children, c).len(), busy);
                }
            }
        },
    }
}

} // verus!
