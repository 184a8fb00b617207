//! Where a part of a derivation derives itself, there are parse trees
//! without number: a parse tree that passes through a span twice can be
//! made larger and larger. So an input with finitely many parse trees has
//! none that passes through a span twice.

use crate::grammar::GrammarView;
use crate::grammar::well_formed;
use crate::lex::lexeme::LexemeView;
use crate::parser::derivation::conforms;
use crate::parser::derivation::fresh;
use crate::parser::derivation::leaves;
use crate::parser::derivation::leaves_upto;
use crate::parser::derivation::lemma_leaves_of_child;
use crate::parser::derivation::parse_tree;
use crate::parser::derivation::root_symbol;
use crate::parser::derivation::roots;
use crate::parser::derivation::span_at;
use crate::parser::forest::Span;
use crate::parser::forest::TreeView;
use crate::parser::proofs::found::lemma_production_index;
use vstd::prelude::*;

verus! {

/// The number of nodes and leaves of a tree.
pub open spec fn size(tree: TreeView) -> nat
    decreases tree, 0int,
{
    match tree {
        TreeView::Leaf(lexeme) => 1,
        TreeView::Node { name, children } => 1 + size_upto(children, children.len() as int),
    }
}

/// The number of nodes and leaves of the first `count` trees of a list.
pub open spec fn size_upto(trees: Seq<TreeView>, count: int) -> nat
    decreases trees, count,
{
    if count <= 0 || count > trees.len() {
        0
    } else {
        size_upto(trees, count - 1) + size(trees[count - 1])
    }
}

/// A tree of a list is no larger than the list.
pub proof fn lemma_size_child(trees: Seq<TreeView>, index: int, count: int)
    requires
        0 <= index < count <= trees.len(),
    ensures
        size(trees[index]) <= size_upto(trees, count),
    decreases count,
{
    if index < count - 1 {
        lemma_size_child(trees, index, count - 1);
    }
}

/// A list in which one tree is replaced by a tree of the same leaves has
/// the same leaves, and its size changes by the difference of the two.
pub proof fn lemma_replaced(trees: Seq<TreeView>, index: int, tree: TreeView, count: int)
    requires
        0 <= index < trees.len(),
        0 <= count <= trees.len(),
        leaves(tree) == leaves(trees[index]),
    ensures
        leaves_upto(trees.update(index, tree), count) == leaves_upto(trees, count),
        size_upto(trees.update(index, tree), count) + (if index < count {
            size(trees[index])
        } else {
            0
        }) == size_upto(trees, count) + (if index < count {
            size(tree)
        } else {
            0
        }),
    decreases count,
{
    if count > 0 {
        lemma_replaced(trees, index, tree, count - 1);
    }
}

/// The tree stands for the span: it is a node that conforms to the
/// grammar, the span is its span, and its leaves are the lexemes of the
/// span.
pub open spec fn stands_for(
    g: GrammarView,
    lexemes: Seq<LexemeView>,
    span: Span,
    tree: TreeView,
) -> bool {
    &&& tree is Node
    &&& conforms(g, tree)
    &&& span_at(g, tree, span.item.start) == span
    &&& 0 <= span.item.start <= span.end <= lexemes.len()
    &&& leaves(tree) == lexemes.subrange(span.item.start, span.end)
}

/// A tree that is not fresh can be made larger: if each of the spans of
/// `active` has a larger tree that stands for it, there is a larger tree
/// of the same span and the same leaves, and it is not fresh either.
pub proof fn lemma_pump(
    g: GrammarView,
    lexemes: Seq<LexemeView>,
    tree: TreeView,
    at: int,
    active: Seq<Span>,
    hosts: Seq<TreeView>,
) -> (larger: TreeView)
    requires
        well_formed(g),
        tree is Node,
        conforms(g, tree),
        0 <= at,
        at + leaves(tree).len() <= lexemes.len(),
        leaves(tree) == lexemes.subrange(at, at + leaves(tree).len()),
        !fresh(g, tree, at, active),
        hosts.len() == active.len(),
        forall|a: int|
            0 <= a < active.len() ==> stands_for(g, lexemes, #[trigger] active[a], hosts[a])
                && size(hosts[a]) > size(tree),
    ensures
        stands_for(g, lexemes, span_at(g, tree, at), larger),
        larger->name == tree->name,
        size(larger) > size(tree),
        !fresh(g, larger, at, active),
    decreases tree,
{
    let name = tree->name;
    let children = tree->children;
    let span = span_at(g, tree, at);
    let (r, p) = choose|r: int, p: int|
        0 <= r < g.len() && g[r].name == name && 0 <= p < g[r].productions.len()
            && #[trigger] g[r].productions[p] == roots(children);
    lemma_production_index(g, r, p);
    if active.contains(span) {
        let a = choose|a: int| 0 <= a < active.len() && active[a] == span;
        let host = hosts[a];
        assert(stands_for(g, lexemes, active[a], host));
        let (rh, ph) = choose|rh: int, ph: int|
            0 <= rh < g.len() && g[rh].name == host->name && 0 <= ph < g[rh].productions.len()
                && #[trigger] g[rh].productions[ph] == roots(host->children);
        lemma_production_index(g, rh, ph);
        host
    } else {
        let busy = active.push(span);
        let c = choose|c: int|
            0 <= c < children.len() && !fresh(
                g,
                #[trigger] children[c],
                at + leaves_upto(children, c).len(),
                busy,
            );
        let child = children[c];
        let from = at + leaves_upto(children, c).len();
        assert(conforms(g, child));
        lemma_leaves_of_child(lexemes, children, at, span.end, c);
        lemma_size_child(children, c, children.len() as int);
        let longer = hosts.push(tree);
        assert forall|a: int| 0 <= a < busy.len() implies stands_for(
            g,
            lexemes,
            #[trigger] busy[a],
            longer[a],
        ) && size(longer[a]) > size(child) by {
            if a < active.len() {
                assert(stands_for(g, lexemes, active[a], hosts[a]));
            }
        }
        let grown = lemma_pump(g, lexemes, child, from, busy, longer);
        let replaced = children.update(c, grown);
        let larger = TreeView::Node { name, children: replaced };
        lemma_replaced(children, c, grown, children.len() as int);
        lemma_replaced(children, c, grown, c);
        assert(roots(replaced) =~= roots(children)) by {
            assert forall|x: int| 0 <= x < replaced.len() implies roots(replaced)[x] == roots(
                children,
            )[x] by {
                if x == c {
                    assert(root_symbol(grown) == root_symbol(child));
                }
            }
        }
        assert(g[r].productions[p] == roots(replaced));
        assert forall|x: int| 0 <= x < replaced.len() implies conforms(
            g,
            #[trigger] replaced[x],
        ) by {
            if x != c {
                assert(replaced[x] == children[x]);
            }
        }
        assert(conforms(g, larger));
        assert(span_at(g, larger, at) == span);
        assert(!fresh(g, replaced[c], at + leaves_upto(replaced, c).len(), busy));
        larger
    }
}

/// There are parse trees of any size where one parse tree is not fresh.
pub proof fn lemma_unbounded(
    g: GrammarView,
    lexemes: Seq<LexemeView>,
    tree: TreeView,
    least: nat,
) -> (large: TreeView)
    requires
        well_formed(g),
        parse_tree(g, lexemes, tree),
        !fresh(g, tree, 0, Seq::empty()),
    ensures
        parse_tree(g, lexemes, large),
        size(large) >= least,
    decreases
        (if least > size(tree) {
            least - size(tree)
        } else {
            0
        }),
{
    if size(tree) >= least {
        tree
    } else {
        assert(lexemes.subrange(0, lexemes.len() as int) =~= lexemes);
        let larger = lemma_pump(g, lexemes, tree, 0, Seq::empty(), Seq::empty());
        assert(lexemes.subrange(0, leaves(tree).len() as int) =~= lexemes);
        lemma_unbounded(g, lexemes, larger, least)
    }
}

/// The trees of a finite set are of bounded size.
pub proof fn lemma_bounded(trees: Set<TreeView>) -> (bound: nat)
    requires
        trees.finite(),
    ensures
        forall|tree: TreeView| trees.contains(tree) ==> size(tree) <= bound,
    decreases trees.len(),
{
    if trees.len() == 0 {
        assert forall|tree: TreeView| trees.contains(tree) implies size(tree) <= 0 by {
            assert(trees =~= Set::<TreeView>::empty());
        }
        0
    } else {
        let one = trees.choose();
        let rest = lemma_bounded(trees.remove(one));
        let bound = if size(one) > rest {
            size(one)
        } else {
            rest
        };
        assert forall|tree: TreeView| trees.contains(tree) implies size(tree) <= bound by {
            if tree != one {
                assert(trees.remove(one).contains(tree));
            }
        }
        bound
    }
}

} // verus!
