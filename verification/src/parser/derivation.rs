//! What it means for a tree to be a parse tree of a grammar: the notions
//! that the theorems of the parser are stated in.

use crate::grammar::GrammarView;
use crate::grammar::SymbolView;
use crate::grammar::rule_named;
use crate::grammar::start_name;
use crate::lex::lexeme::LexemeView;
use crate::parser::chart::Item;
use crate::parser::forest::Span;
use crate::parser::forest::TreeView;
use vstd::prelude::*;

verus! {

/// The symbol that a tree stands for: the kind of a lexeme, or the rule
/// that a node is named after.
pub open spec fn root_symbol(tree: TreeView) -> SymbolView {
    match tree {
        TreeView::Leaf(lexeme) => SymbolView::Lexeme(lexeme.kind),
        TreeView::Node { name, children } => SymbolView::Rule(name),
    }
}

/// The symbols that a list of trees stands for.
pub open spec fn roots(trees: Seq<TreeView>) -> Seq<SymbolView> {
    trees.map_values(|tree: TreeView| root_symbol(tree))
}

/// The lexemes at the leaves of a tree, from left to right.
pub open spec fn leaves(tree: TreeView) -> Seq<LexemeView>
    decreases tree, 0int,
{
    match tree {
        TreeView::Leaf(lexeme) => seq![lexeme],
        TreeView::Node { name, children } => leaves_upto(children, children.len() as int),
    }
}

/// The lexemes at the leaves of the first `count` trees of a list.
pub open spec fn leaves_upto(trees: Seq<TreeView>, count: int) -> Seq<LexemeView>
    decreases trees, count,
{
    if count <= 0 || count > trees.len() {
        Seq::empty()
    } else {
        leaves_upto(trees, count - 1) + leaves(trees[count - 1])
    }
}

/// The lexemes at the leaves of a list of trees, from left to right.
pub open spec fn leaves_of(trees: Seq<TreeView>) -> Seq<LexemeView> {
    leaves_upto(trees, trees.len() as int)
}

/// A tree conforms to a grammar when each of its nodes is named after a
/// rule and stands over the trees of the symbols of one of the rule's
/// productions.
pub open spec fn conforms(g: GrammarView, tree: TreeView) -> bool
    decreases tree,
{
    match tree {
        TreeView::Leaf(lexeme) => true,
        TreeView::Node { name, children } => {
            &&& exists|r: int, p: int|
                0 <= r < g.len() && g[r].name == name && 0 <= p < g[r].productions.len()
                    && #[trigger] g[r].productions[p] == roots(children)
            &&& forall|i: int| 0 <= i < children.len() ==> conforms(g, #[trigger] children[i])
        },
    }
}

/// The tree is a parse tree for `symbol` over the lexemes from `at` up to
/// `end`.
pub open spec fn tree_derives(
    g: GrammarView,
    lexemes: Seq<LexemeView>,
    tree: TreeView,
    symbol: SymbolView,
    at: int,
    end: int,
) -> bool {
    &&& 0 <= at <= end <= lexemes.len()
    &&& root_symbol(tree) == symbol
    &&& conforms(g, tree)
    &&& leaves(tree) == lexemes.subrange(at, end)
}

/// The trees are parse trees for the symbols, one after the other, over
/// the lexemes from `at` up to `end`.
pub open spec fn list_derives(
    g: GrammarView,
    lexemes: Seq<LexemeView>,
    trees: Seq<TreeView>,
    symbols: Seq<SymbolView>,
    at: int,
    end: int,
) -> bool {
    &&& 0 <= at <= end <= lexemes.len()
    &&& roots(trees) == symbols
    &&& forall|i: int| 0 <= i < trees.len() ==> conforms(g, #[trigger] trees[i])
    &&& leaves_of(trees) == lexemes.subrange(at, end)
}

/// The lexemes are a sentence of the grammar: some tree that conforms to
/// the grammar grows from the start rule and has the lexemes as its
/// leaves.
pub open spec fn derivable(g: GrammarView, lexemes: Seq<LexemeView>) -> bool {
    exists|tree: TreeView| parse_tree(g, lexemes, tree)
}

/// The tree is a parse tree of all the lexemes from the start rule.
pub open spec fn parse_tree(g: GrammarView, lexemes: Seq<LexemeView>, tree: TreeView) -> bool {
    &&& root_symbol(tree) == SymbolView::Rule(crate::grammar::start_name())
    &&& conforms(g, tree)
    &&& leaves(tree) == lexemes
}

/// The index of the production of the rule `name` that consists of the
/// given symbols.
pub open spec fn production_index(
    g: GrammarView,
    name: Seq<char>,
    symbols: Seq<SymbolView>,
) -> int {
    choose|p: int|
        0 <= p < g[rule_named(g, name)].productions.len() && #[trigger] g[rule_named(
            g,
            name,
        )].productions[p] == symbols
}

/// The span of a node whose lexemes begin at `at`: the complete item of
/// the production that the node stands over, ending where the node's
/// lexemes end.
pub open spec fn span_at(g: GrammarView, tree: TreeView, at: int) -> Span {
    Span {
        item: Item {
            rule: rule_named(g, tree->name),
            production: production_index(g, tree->name, roots(tree->children)),
            dot: tree->children.len() as int,
            start: at,
        },
        end: at + leaves(tree).len(),
    }
}

/// A tree whose lexemes begin at `at` is fresh when none of its nodes has
/// a span that is among `active` or that is the span of a node above it
/// in the tree.
pub open spec fn fresh(g: GrammarView, tree: TreeView, at: int, active: Seq<Span>) -> bool
    decreases tree,
{
    match tree {
        TreeView::Leaf(lexeme) => true,
        TreeView::Node { name, children } => {
            &&& !active.contains(span_at(g, tree, at))
            &&& forall|i: int|
                0 <= i < children.len() ==> fresh(
                    g,
                    #[trigger] children[i],
                    at + leaves_upto(children, i).len(),
                    active.push(span_at(g, tree, at)),
                )
        },
    }
}

/// A grammar is branching when every production consists of two symbols
/// or more, or of one lexeme kind; but for the production of the start
/// rule, which refers to another rule.
pub open spec fn branching(g: GrammarView) -> bool {
    forall|r: int, p: int|
        0 <= r < g.len() && 0 <= p < g[r].productions.len() ==> {
            let symbols = #[trigger] g[r].productions[p];
            ||| symbols.len() >= 2
            ||| symbols.len() == 1 && symbols[0] is Lexeme
            ||| symbols.len() == 1 && g[r].name == start_name() && symbols[0]
                != SymbolView::Rule(start_name())
        }
}

/// The leaves of fewer trees of a list are the beginning of the leaves of
/// more of them.
pub proof fn lemma_leaves_upto_grow(trees: Seq<TreeView>, fewer: int, more: int)
    requires
        0 <= fewer <= more <= trees.len(),
    ensures
        leaves_upto(trees, fewer).len() <= leaves_upto(trees, more).len(),
        leaves_upto(trees, more).subrange(0, leaves_upto(trees, fewer).len() as int)
            == leaves_upto(trees, fewer),
    decreases more - fewer,
{
    if fewer < more {
        lemma_leaves_upto_grow(trees, fewer, more - 1);
        assert(leaves_upto(trees, more).subrange(0, leaves_upto(trees, fewer).len() as int)
            =~= leaves_upto(trees, fewer));
    } else {
        assert(leaves_upto(trees, more).subrange(0, leaves_upto(trees, fewer).len() as int)
            =~= leaves_upto(trees, fewer));
    }
}

/// Where the leaves of a list of trees are the lexemes from `at` up to
/// `end`, the leaves of each tree are a range of lexemes as well: the
/// tree `index` begins where the trees before it end.
pub proof fn lemma_leaves_of_child(
    lexemes: Seq<LexemeView>,
    trees: Seq<TreeView>,
    at: int,
    end: int,
    index: int,
)
    requires
        0 <= at <= end <= lexemes.len(),
        leaves_of(trees) == lexemes.subrange(at, end),
        0 <= index < trees.len(),
    ensures
        at + leaves_upto(trees, index + 1).len() <= end,
        leaves_upto(trees, index + 1).len() == leaves_upto(trees, index).len() + leaves(
            trees[index],
        ).len(),
        leaves(trees[index]) == lexemes.subrange(
            at + leaves_upto(trees, index).len(),
            at + leaves_upto(trees, index + 1).len(),
        ),
        leaves_upto(trees, index) == lexemes.subrange(at, at + leaves_upto(trees, index).len()),
{
    lemma_leaves_upto_grow(trees, index + 1, trees.len() as int);
    lemma_leaves_upto_grow(trees, index, trees.len() as int);
    let full = leaves_of(trees);
    let before = leaves_upto(trees, index);
    let with = leaves_upto(trees, index + 1);
    assert(with == before + leaves(trees[index]));
    assert(leaves(trees[index]) =~= with.subrange(before.len() as int, with.len() as int));
    assert(with == full.subrange(0, with.len() as int));
    assert(leaves(trees[index]) =~= lexemes.subrange(at + before.len(), at + with.len()));
    assert(before =~= lexemes.subrange(at, at + before.len()));
}

/// The leaves of the first trees of a list do not depend on the trees
/// that follow.
pub proof fn lemma_leaves_upto_begin(trees: Seq<TreeView>, more: Seq<TreeView>, count: int)
    requires
        count <= trees.len(),
    ensures
        leaves_upto(trees + more, count) == leaves_upto(trees, count),
    decreases count,
{
    if count > 0 {
        lemma_leaves_upto_begin(trees, more, count - 1);
        assert((trees + more)[count - 1] == trees[count - 1]);
    }
}

/// The leaves of two lists, one after the other.
pub proof fn lemma_leaves_upto_add(trees: Seq<TreeView>, more: Seq<TreeView>, count: int)
    requires
        0 <= count <= more.len(),
    ensures
        leaves_upto(trees + more, trees.len() + count)
            == leaves_of(trees) + leaves_upto(more, count),
    decreases count,
{
    if count == 0 {
        lemma_leaves_upto_begin(trees, more, trees.len() as int);
        assert(leaves_of(trees) + Seq::<LexemeView>::empty() =~= leaves_of(trees));
    } else {
        lemma_leaves_upto_add(trees, more, count - 1);
        assert((trees + more)[trees.len() + count - 1] == more[count - 1]);
        assert(leaves_upto(trees + more, trees.len() + count) =~= leaves_of(trees) + leaves_upto(
            more,
            count,
        ));
    }
}

/// The leaves of a list that begins with one tree.
pub proof fn lemma_leaves_of_prefixed(head: TreeView, tail: Seq<TreeView>)
    ensures
        leaves_of(seq![head] + tail) == leaves(head) + leaves_of(tail),
{
    lemma_leaves_upto_add(seq![head], tail, tail.len() as int);
    assert(leaves_of(seq![head]) =~= leaves(head)) by {
        assert(leaves_upto(seq![head], 0) =~= Seq::<LexemeView>::empty());
        assert(seq![head][0] == head);
    }
}

/// A tree in front of a list of trees derives what the two derive one
/// after the other.
pub proof fn lemma_prefixed_derives(
    g: GrammarView,
    lexemes: Seq<LexemeView>,
    head: TreeView,
    tail: Seq<TreeView>,
    symbol: SymbolView,
    rest: Seq<SymbolView>,
    at: int,
    mid: int,
    end: int,
)
    requires
        tree_derives(g, lexemes, head, symbol, at, mid),
        list_derives(g, lexemes, tail, rest, mid, end),
    ensures
        list_derives(g, lexemes, seq![head] + tail, seq![symbol] + rest, at, end),
{
    let trees = seq![head] + tail;
    lemma_leaves_of_prefixed(head, tail);
    assert(lexemes.subrange(at, mid) + lexemes.subrange(mid, end) =~= lexemes.subrange(at, end));
    assert(roots(trees) =~= seq![symbol] + rest) by {
        assert forall|i: int| 0 <= i < trees.len() implies roots(trees)[i] == (seq![symbol]
            + rest)[i] by {
            if i > 0 {
                assert(trees[i] == tail[i - 1]);
                assert(roots(tail)[i - 1] == rest[i - 1]);
            }
        }
    }
    assert forall|i: int| 0 <= i < trees.len() implies conforms(g, #[trigger] trees[i]) by {
        if i > 0 {
            assert(trees[i] == tail[i - 1]);
        }
    }
}

} // verus!
