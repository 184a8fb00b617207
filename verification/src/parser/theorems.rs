//! What is proved of the parser, over the model of its chart and forest.

use crate::grammar::GrammarView;
use crate::grammar::SymbolView;
use crate::grammar::lemma_rule_named;
use crate::grammar::rule_named;
use crate::grammar::start_name;
use crate::grammar::well_formed;
use crate::lex::lexeme::LexemeView;
use crate::lex::lexeme::kinds_of;
use crate::parser::chart::completed_chart;
use crate::parser::chart::earley_chart;
use crate::parser::chart::goal;
use crate::parser::chart::lemma_start_rule;
use crate::parser::chart::production_of;
use crate::parser::chart::recognizes;
use crate::parser::chart::seed;
use crate::parser::derivation::conforms;
use crate::parser::derivation::derivable;
use crate::parser::derivation::fresh;
use crate::parser::derivation::leaves;
use crate::parser::derivation::parse_tree;
use crate::parser::derivation::roots;
use crate::parser::derivation::span_at;
use crate::parser::derivation::tree_derives;
use crate::parser::error::ParseError;
use crate::parser::error::parsed;
use crate::parser::error::result_view;
use crate::parser::forest::Span;
use crate::parser::forest::TreeView;
use crate::parser::forest::forest;
use crate::parser::forest::nodes;
use crate::parser::proofs::closure::fresh_item;
use crate::parser::proofs::closure::lemma_chart_closed;
use crate::parser::proofs::distinct::lemma_completed_tidy;
use crate::parser::proofs::distinct::lemma_trees_distinct;
use crate::parser::proofs::found::lemma_production_index;
use crate::parser::proofs::found::lemma_supported;
use crate::parser::proofs::found::lemma_tree_found;
use crate::parser::proofs::reach::dotted;
use crate::parser::proofs::reach::lemma_reach_list;
use crate::parser::proofs::sound::lemma_completed_grid;
use crate::parser::proofs::sound::lemma_trees_sound;
use crate::parser::proofs::witness::lemma_placed_fresh;
use crate::parser::proofs::witness::lemma_placed_supported;
use crate::parser::proofs::witness::lemma_witness;
use crate::parser::proofs::witness::placed;
use crate::parser::tree::Tree;
use crate::parser::chart::furthest;
use crate::parser::chart::lemma_expected;
use crate::parser::chart::lemma_furthest;
use crate::parser::chart::waits_for;
use crate::parser::error::ErrorView;
use crate::parser::derivation::branching;
use crate::parser::proofs::plain::lemma_branching_fresh;
use crate::parser::proofs::pump::lemma_bounded;
use crate::parser::proofs::pump::lemma_unbounded;
use vstd::prelude::*;

verus! {

/// Soundness: every tree that parsing returns is a parse tree of the
/// input. It grows from the start rule, each of its nodes stands over the
/// trees of one production of the node's rule, and its leaves are the
/// lexemes of the input, all of them, in their order.
pub proof fn theorem_sound(g: GrammarView, lexemes: Seq<LexemeView>, k: int)
    requires
        parsed(g, lexemes) is Ok,
        0 <= k < parsed(g, lexemes)->Ok_0.len(),
    ensures
        parse_tree(g, lexemes, parsed(g, lexemes)->Ok_0[k]),
{
    let kinds = kinds_of(lexemes);
    let span = Span { item: goal(g), end: lexemes.len() as int };
    lemma_completed_grid(g, kinds);
    lemma_start_rule(g);
    lemma_trees_sound(g, lexemes, completed_chart(g, kinds), span, Seq::empty());
    let tree = forest(g, lexemes)[k];
    assert(tree_derives(g, lexemes, tree, SymbolView::Rule(start_name()), 0, lexemes.len() as int));
    assert(lexemes.subrange(0, lexemes.len() as int) =~= lexemes);
}

/// The recognizer accepts every input that has a parse tree.
pub proof fn theorem_recognized(g: GrammarView, lexemes: Seq<LexemeView>, tree: TreeView)
    requires
        well_formed(g),
        parse_tree(g, lexemes, tree),
    ensures
        recognizes(g, kinds_of(lexemes)),
{
    let kinds = kinds_of(lexemes);
    let chart = earley_chart(g, kinds);
    lemma_chart_closed(g, kinds);
    lemma_start_rule(g);
    let children = tree->children;
    let (r, p) = choose|r: int, p: int|
        0 <= r < g.len() && g[r].name == start_name() && 0 <= p < g[r].productions.len()
            && #[trigger] g[r].productions[p] == roots(children);
    lemma_rule_named(g, r);
    assert(seed(g) == fresh_item(r, p, 0));
    assert(lexemes.subrange(0, lexemes.len() as int) =~= lexemes);
    lemma_reach_list(g, lexemes, children, r, p, 0, lexemes.len() as int, children.len() as int);
    assert(dotted(r, p, children.len() as int, 0) == goal(g));
    assert(chart.last() == chart[lexemes.len() as int]);
}

/// Parsing never succeeds with nothing: where the input is recognized,
/// the forest holds a tree.
pub proof fn theorem_nonempty(g: GrammarView, lexemes: Seq<LexemeView>)
    requires
        parsed(g, lexemes) is Ok,
    ensures
        parsed(g, lexemes)->Ok_0.len() > 0,
{
    let kinds = kinds_of(lexemes);
    let chart = earley_chart(g, kinds);
    let last = lexemes.len() as int;
    lemma_chart_closed(g, kinds);
    lemma_start_rule(g);
    assert(chart.last() == chart[last]);
    let k = chart[last].index_of(goal(g));
    let children = lemma_witness(g, lexemes, last, k);
    let tree = TreeView::Node { name: start_name(), children };
    let r = rule_named(g, start_name());
    let symbols = production_of(g, goal(g));
    assert(symbols.subrange(0, 1) =~= symbols);
    lemma_production_index(g, r, 0);
    assert(g[r].productions[0] == roots(children));
    assert(conforms(g, tree));
    assert(lexemes.subrange(0, last) =~= lexemes);
    assert(span_at(g, tree, 0) == (Span { item: goal(g), end: last }));
    assert(placed(g, lexemes, tree, 0, last, k + 1));
    lemma_placed_supported(g, lexemes, tree, 0, last, k + 1);
    lemma_placed_fresh(g, lexemes, tree, 0, last, k + 1, Seq::empty());
    lemma_tree_found(g, lexemes, tree, 0, Seq::empty());
}

/// Parsing succeeds only on sentences of the grammar.
pub proof fn theorem_only_sentences(g: GrammarView, lexemes: Seq<LexemeView>)
    requires
        parsed(g, lexemes) is Ok,
    ensures
        derivable(g, lexemes),
{
    theorem_nonempty(g, lexemes);
    theorem_sound(g, lexemes, 0);
    assert(parse_tree(g, lexemes, parsed(g, lexemes)->Ok_0[0]));
}

/// Completeness: parsing succeeds, and returns at least one tree,
/// whenever the input has a parse tree.
pub proof fn theorem_complete(g: GrammarView, lexemes: Seq<LexemeView>, tree: TreeView)
    requires
        well_formed(g),
        parse_tree(g, lexemes, tree),
    ensures
        parsed(g, lexemes) is Ok,
        parsed(g, lexemes)->Ok_0.len() > 0,
{
    theorem_recognized(g, lexemes, tree);
    theorem_nonempty(g, lexemes);
}

/// Parsing succeeds on the sentences of the grammar, and on nothing else.
pub proof fn theorem_exact(g: GrammarView, lexemes: Seq<LexemeView>)
    requires
        well_formed(g),
    ensures
        parsed(g, lexemes) is Ok <==> derivable(g, lexemes),
{
    if parsed(g, lexemes) is Ok {
        theorem_only_sentences(g, lexemes);
    }
    if derivable(g, lexemes) {
        let tree = choose|tree: TreeView| parse_tree(g, lexemes, tree);
        theorem_complete(g, lexemes, tree);
    }
}

/// The forest is exhaustive: a parse tree of the input that passes
/// through no span twice on a way down from its root is among the trees
/// that parsing returns.
pub proof fn theorem_exhaustive(g: GrammarView, lexemes: Seq<LexemeView>, tree: TreeView)
    requires
        well_formed(g),
        parse_tree(g, lexemes, tree),
        fresh(g, tree, 0, Seq::empty()),
    ensures
        parsed(g, lexemes) is Ok,
        parsed(g, lexemes)->Ok_0.contains(tree),
{
    let kinds = kinds_of(lexemes);
    let chart = earley_chart(g, kinds);
    theorem_recognized(g, lexemes, tree);
    lemma_chart_closed(g, kinds);
    lemma_start_rule(g);
    let children = tree->children;
    let (r, p) = choose|r: int, p: int|
        0 <= r < g.len() && g[r].name == start_name() && 0 <= p < g[r].productions.len()
            && #[trigger] g[r].productions[p] == roots(children);
    lemma_production_index(g, r, p);
    assert(lexemes.subrange(0, lexemes.len() as int) =~= lexemes);
    assert(seed(g) == fresh_item(r, p, 0));
    assert(span_at(g, tree, 0) == (Span { item: goal(g), end: lexemes.len() as int }));
    lemma_supported(g, lexemes, tree, 0);
    lemma_tree_found(g, lexemes, tree, 0, Seq::empty());
}

/// Parsing returns no tree twice.
pub proof fn theorem_distinct(g: GrammarView, lexemes: Seq<LexemeView>)
    requires
        parsed(g, lexemes) is Ok,
    ensures
        parsed(g, lexemes)->Ok_0.no_duplicates(),
{
    let kinds = kinds_of(lexemes);
    let span = Span { item: goal(g), end: lexemes.len() as int };
    lemma_completed_tidy(g, kinds);
    lemma_start_rule(g);
    lemma_trees_distinct(g, lexemes, completed_chart(g, kinds), span, Seq::empty());
}

/// The parse trees of the lexemes from the start rule.
pub open spec fn parse_trees(g: GrammarView, lexemes: Seq<LexemeView>) -> Set<TreeView> {
    Set::new(|tree: TreeView| parse_tree(g, lexemes, tree))
}

/// Every parse tree of the lexemes passes through no span twice on a way
/// down from its root: no part of a derivation derives itself.
pub open spec fn plainly_derived(g: GrammarView, lexemes: Seq<LexemeView>) -> bool {
    forall|tree: TreeView| #[trigger]
        parse_tree(g, lexemes, tree) ==> fresh(g, tree, 0, Seq::empty())
}

/// Ambiguity is reported in full: where every parse tree of the input
/// passes through no span twice, parsing returns each parse tree exactly
/// once, so that the number of trees returned is the number
/// of parse trees; and it fails only where there is no parse tree.
pub proof fn theorem_counts(g: GrammarView, lexemes: Seq<LexemeView>)
    requires
        well_formed(g),
        plainly_derived(g, lexemes),
    ensures
        match parsed(g, lexemes) {
            Ok(trees) => {
                &&& trees.no_duplicates()
                &&& trees.to_set() == parse_trees(g, lexemes)
                &&& trees.len() == parse_trees(g, lexemes).len()
            },
            Err(_) => parse_trees(g, lexemes) == Set::<TreeView>::empty(),
        },
{
    let all = parse_trees(g, lexemes);
    match parsed(g, lexemes) {
        Ok(trees) => {
            theorem_distinct(g, lexemes);
            assert forall|tree: TreeView| trees.to_set().contains(tree) <==> all.contains(
                tree,
            ) by {
                if trees.contains(tree) {
                    let k = choose|k: int| 0 <= k < trees.len() && trees[k] == tree;
                    theorem_sound(g, lexemes, k);
                }
                if parse_tree(g, lexemes, tree) {
                    theorem_exhaustive(g, lexemes, tree);
                }
            }
            assert(trees.to_set() =~= all);
            trees.unique_seq_to_set();
        },
        Err(_) => {
            assert forall|tree: TreeView| !all.contains(tree) by {
                if parse_tree(g, lexemes, tree) {
                    theorem_complete(g, lexemes, tree);
                }
            }
            assert(all =~= Set::<TreeView>::empty());
        },
    }
}

/// An input with finitely many parse trees has none in which a part of
/// a derivation derives itself.
pub proof fn theorem_finite_plain(g: GrammarView, lexemes: Seq<LexemeView>)
    requires
        well_formed(g),
        parse_trees(g, lexemes).finite(),
    ensures
        plainly_derived(g, lexemes),
{
    let bound = lemma_bounded(parse_trees(g, lexemes));
    assert forall|tree: TreeView| #[trigger] parse_tree(g, lexemes, tree) implies fresh(
        g,
        tree,
        0,
        Seq::empty(),
    ) by {
        if !fresh(g, tree, 0, Seq::empty()) {
            let large = lemma_unbounded(g, lexemes, tree, bound + 1);
            assert(parse_trees(g, lexemes).contains(large));
        }
    }
}

/// Ambiguity is reported in full, for every input that has finitely many
/// parse trees: parsing returns each parse tree exactly once, so that the
/// number of trees returned is the number of parse trees; and it fails
/// only where there is no parse tree.
pub proof fn theorem_counts_finite(g: GrammarView, lexemes: Seq<LexemeView>)
    requires
        well_formed(g),
        parse_trees(g, lexemes).finite(),
    ensures
        match parsed(g, lexemes) {
            Ok(trees) => {
                &&& trees.no_duplicates()
                &&& trees.to_set() == parse_trees(g, lexemes)
                &&& trees.len() == parse_trees(g, lexemes).len()
            },
            Err(_) => parse_trees(g, lexemes) == Set::<TreeView>::empty(),
        },
{
    theorem_finite_plain(g, lexemes);
    theorem_counts(g, lexemes);
}

/// With a branching grammar parsing returns the parse trees of the input,
/// each exactly once, and fails only where there is none.
pub proof fn theorem_counts_branching(g: GrammarView, lexemes: Seq<LexemeView>)
    requires
        well_formed(g),
        branching(g),
    ensures
        match parsed(g, lexemes) {
            Ok(trees) => {
                &&& trees.no_duplicates()
                &&& trees.to_set() == parse_trees(g, lexemes)
                &&& trees.len() == parse_trees(g, lexemes).len()
            },
            Err(_) => parse_trees(g, lexemes) == Set::<TreeView>::empty(),
        },
{
    assert forall|tree: TreeView| #[trigger] parse_tree(g, lexemes, tree) implies fresh(
        g,
        tree,
        0,
        Seq::empty(),
    ) by {
        lemma_branching_fresh(g, tree, 0, Seq::empty());
    }
    theorem_counts(g, lexemes);
}

/// Without lexemes parsing succeeds exactly where the start rule derives
/// nothing; and then it returns at least one tree, and every tree that it
/// returns is without leaves.
pub proof fn theorem_empty_input(g: GrammarView)
    requires
        well_formed(g),
    ensures
        parsed(g, Seq::empty()) is Ok <==> derivable(g, Seq::empty()),
        parsed(g, Seq::empty()) is Ok ==> parsed(g, Seq::empty())->Ok_0.len() > 0 && forall|k: int|
            0 <= k < parsed(g, Seq::empty())->Ok_0.len() ==> leaves(
                #[trigger] parsed(g, Seq::empty())->Ok_0[k],
            ).len() == 0,
{
    theorem_exact(g, Seq::empty());
    if parsed(g, Seq::empty()) is Ok {
        theorem_nonempty(g, Seq::empty());
        assert forall|k: int| 0 <= k < parsed(g, Seq::empty())->Ok_0.len() implies leaves(
            #[trigger] parsed(g, Seq::empty())->Ok_0[k],
        ).len() == 0 by {
            theorem_sound(g, Seq::empty(), k);
        }
    }
}

/// What a rejection reports: the input is not recognized; `furthest` is
/// the last column that holds an item; and `expected` lists, each once,
/// the kinds of lexemes that items of that column wait for.
pub proof fn theorem_rejection(g: GrammarView, lexemes: Seq<LexemeView>, kind: Seq<char>)
    requires
        parsed(g, lexemes) matches Err(ErrorView::UnrecognizedInput { .. }),
    ensures
        ({
            let chart = earley_chart(g, kinds_of(lexemes));
            let furthest = parsed(g, lexemes)->Err_0->furthest;
            let expected = parsed(g, lexemes)->Err_0->expected;
            &&& well_formed(g)
            &&& !recognizes(g, kinds_of(lexemes))
            &&& 0 <= furthest <= lexemes.len()
            &&& furthest > 0 ==> chart[furthest].len() > 0
            &&& forall|j: int| furthest < j <= lexemes.len() ==> (#[trigger] chart[j]).len() == 0
            &&& expected.no_duplicates()
            &&& expected.contains(kind) <==> exists|k: int|
                0 <= k < chart[furthest].len() && waits_for(g, #[trigger] chart[furthest][k], kind)
        }),
{
    let kinds = kinds_of(lexemes);
    let chart = earley_chart(g, kinds);
    lemma_chart_closed(g, kinds);
    lemma_furthest(chart, chart.len() - 1);
    lemma_expected(g, chart[furthest(chart)], chart[furthest(chart)].len() as int);
}

/// Determinism: what parsing returns is a function of the grammar and the
/// lexemes. Two results for the same input hold the same trees in the
/// same order, or the same error.
pub proof fn theorem_deterministic(
    g: GrammarView,
    lexemes: Seq<LexemeView>,
    first: Result<Vec<Tree>, ParseError>,
    second: Result<Vec<Tree>, ParseError>,
)
    requires
        result_view(first) == parsed(g, lexemes),
        result_view(second) == parsed(g, lexemes),
    ensures
        result_view(first) == result_view(second),
{
}

} // verus!
