//! The forest holds no tree twice.

use crate::grammar::GrammarView;
use crate::grammar::SymbolView;
use crate::grammar::rule_sound;
use crate::grammar::well_formed;
use crate::lex::lexeme::LexemeView;
use crate::parser::chart::Chart;
use crate::parser::chart::Item;
use crate::parser::chart::column_ok;
use crate::parser::chart::completed_chart;
use crate::parser::chart::completeness;
use crate::parser::chart::earley_chart;
use crate::parser::chart::finished;
use crate::parser::chart::is_complete;
use crate::parser::chart::item_ok;
use crate::parser::chart::lemma_finished_empty;
use crate::parser::chart::lemma_finished_push;
use crate::parser::chart::lemma_swept;
use crate::parser::chart::production_of;
use crate::parser::derivation::leaves;
use crate::parser::derivation::roots;
use crate::parser::derivation::tree_derives;
use crate::parser::forest::Span;
use crate::parser::forest::TreeView;
use crate::parser::forest::child_lists;
use crate::parser::forest::crossed;
use crate::parser::forest::nodes;
use crate::parser::forest::prefixed;
use crate::parser::forest::room;
use crate::parser::forest::span_ok;
use crate::parser::forest::splits;
use crate::parser::forest::subtrees;
use crate::parser::forest::trees_of;
use crate::parser::proofs::sound::grid_ok;
use crate::parser::proofs::sound::lemma_completed_grid;
use crate::parser::proofs::sound::lemma_crossed_member;
use crate::parser::proofs::sound::lemma_subtrees_sound;
use crate::parser::proofs::sound::lemma_trees_shaped;
use vstd::prelude::*;
use vstd::seq_lib::lemma_no_dup_in_concat;

verus! {

/// A chart of complete items in which no column holds an item twice.
pub open spec fn tidy(g: GrammarView, chart: Chart, lexemes: nat) -> bool {
    &&& grid_ok(g, chart, lexemes)
    &&& forall|e: int| 0 <= e < chart.len() ==> (#[trigger] chart[e]).no_duplicates()
    &&& forall|e: int, j: int|
        0 <= e < chart.len() && 0 <= j < chart[e].len() ==> is_complete(g, #[trigger] chart[e][j])
}

/// The complete items of a column without duplicates are without
/// duplicates, and complete.
pub proof fn lemma_finished_distinct(g: GrammarView, column: Seq<Item>)
    requires
        column.no_duplicates(),
    ensures
        finished(g, column).no_duplicates(),
        forall|j: int|
            0 <= j < finished(g, column).len() ==>
                is_complete(g, #[trigger] finished(g, column)[j]),
    decreases column.len(),
{
    if column.len() == 0 {
        lemma_finished_empty(g);
        assert(column =~= Seq::<Item>::empty());
    } else {
        let shorter = column.drop_last();
        let item = column.last();
        assert(column =~= shorter.push(item));
        lemma_finished_distinct(g, shorter);
        lemma_finished_push(g, shorter, item);
        let kept = finished(g, shorter);
        if is_complete(g, item) {
            if kept.contains(item) {
                shorter.lemma_filter_contains_rev(completeness(g), item);
                let k = choose|k: int| 0 <= k < shorter.len() && shorter[k] == item;
                assert(column[k] == item);
            }
            let after = kept.push(item);
            assert forall|a: int, b: int|
                0 <= a < after.len() && 0 <= b < after.len() && a != b implies after[a]
                != after[b] by {
                if a < kept.len() && b < kept.len() {
                    assert(kept[a] != kept[b]);
                } else if a < kept.len() {
                    assert(kept.contains(kept[a]));
                } else {
                    assert(kept.contains(kept[b]));
                }
            }
        }
    }
}

/// The completed chart is tidy.
pub proof fn lemma_completed_tidy(g: GrammarView, kinds: Seq<Seq<char>>)
    requires
        well_formed(g),
    ensures
        tidy(g, completed_chart(g, kinds), kinds.len()),
{
    let chart = earley_chart(g, kinds);
    let done = completed_chart(g, kinds);
    lemma_completed_grid(g, kinds);
    lemma_swept(g, kinds, kinds.len() as int + 1);
    assert forall|e: int|
        0 <= e < done.len() implies (#[trigger] done[e]).no_duplicates() && forall|
        j: int,
    | 0 <= j < done[e].len() ==> is_complete(g, #[trigger] done[e][j]) by {
        assert(column_ok(g, chart[e], e));
        lemma_finished_distinct(g, chart[e]);
    }
}

/// Nodes over distinct lists of children are distinct.
pub proof fn lemma_nodes_distinct(name: Seq<char>, lists: Seq<Seq<TreeView>>)
    requires
        lists.no_duplicates(),
    ensures
        nodes(name, lists).no_duplicates(),
{
    let trees = nodes(name, lists);
    assert forall|a: int, b: int|
        0 <= a < trees.len() && 0 <= b < trees.len() && a != b implies trees[a] != trees[b] by {
        assert(trees[a]->children == lists[a]);
        assert(trees[b]->children == lists[b]);
        assert(lists[a] != lists[b]);
    }
}

/// Distinct lists stay distinct with the same tree in front.
pub proof fn lemma_prefixed_distinct(head: TreeView, tails: Seq<Seq<TreeView>>)
    requires
        tails.no_duplicates(),
    ensures
        prefixed(head, tails).no_duplicates(),
{
    let lists = prefixed(head, tails);
    assert forall|a: int, b: int|
        0 <= a < lists.len() && 0 <= b < lists.len() && a != b implies lists[a] != lists[b] by {
        assert(lists[a].subrange(1, lists[a].len() as int) =~= tails[a]);
        assert(lists[b].subrange(1, lists[b].len() as int) =~= tails[b]);
        assert(tails[a] != tails[b]);
    }
}

/// Distinct heads in front of distinct tails give distinct lists.
pub proof fn lemma_crossed_distinct(heads: Seq<TreeView>, tails: Seq<Seq<TreeView>>)
    requires
        heads.no_duplicates(),
        tails.no_duplicates(),
    ensures
        crossed(heads, tails).no_duplicates(),
    decreases heads.len(),
{
    if heads.len() > 0 {
        let shorter = heads.drop_last();
        let before = crossed(shorter, tails);
        let last = prefixed(heads.last(), tails);
        lemma_crossed_distinct(shorter, tails);
        lemma_prefixed_distinct(heads.last(), tails);
        assert forall|a: int, b: int| 0 <= a < before.len() && 0 <= b < last.len() implies before[a]
            != last[b] by {
            lemma_crossed_member(shorter, tails, a);
            let (i, j) = choose|i: int, j: int|
                0 <= i < shorter.len() && 0 <= j < tails.len() && before[a] == seq![
                    #[trigger] shorter[i],
                ] + #[trigger] tails[j];
            assert(before[a][0] == heads[i]);
            assert(last[b][0] == heads.last());
            assert(heads[i] != heads[heads.len() - 1]);
        }
        lemma_no_dup_in_concat(before, last);
    }
}

/// The trees that the model gives for a span are distinct.
pub proof fn lemma_trees_distinct(
    g: GrammarView,
    lexemes: Seq<LexemeView>,
    chart: Chart,
    span: Span,
    active: Seq<Span>,
)
    requires
        well_formed(g),
        tidy(g, chart, lexemes.len()),
        span_ok(g, lexemes.len(), span),
    ensures
        trees_of(g, lexemes, chart, span, active).no_duplicates(),
    decreases room(g, lexemes.len()) - active.len(), 0int, 0int, 0int,
{
    if !(active.contains(span) || active.len() >= room(g, lexemes.len())) {
        lemma_lists_distinct(g, lexemes, chart, span, 0, span.item.start, active.push(span));
        lemma_nodes_distinct(
            g[span.item.rule].name,
            child_lists(g, lexemes, chart, span, 0, span.item.start, active.push(span)),
        );
    }
}

/// The lists that the model gives for the rest of a production are
/// distinct.
pub proof fn lemma_lists_distinct(
    g: GrammarView,
    lexemes: Seq<LexemeView>,
    chart: Chart,
    span: Span,
    m: int,
    at: int,
    active: Seq<Span>,
)
    requires
        well_formed(g),
        tidy(g, chart, lexemes.len()),
        span_ok(g, lexemes.len(), span),
        0 <= m <= production_of(g, span.item).len(),
        0 <= at,
    ensures
        child_lists(g, lexemes, chart, span, m, at, active).no_duplicates(),
    decreases
        room(g,
        lexemes.len()) - active.len(),
        production_of(g,
        span.item).len() - m,
        2int,
        0int,
{
    let symbols = production_of(g, span.item);
    if m < symbols.len() {
        match symbols[m] {
            SymbolView::Lexeme(kind) => {
                if 0 <= at < span.end && at < lexemes.len() && lexemes[at].kind == kind {
                    lemma_lists_distinct(g, lexemes, chart, span, m + 1, at + 1, active);
                    lemma_prefixed_distinct(
                        TreeView::Leaf(lexemes[at]),
                        child_lists(g, lexemes, chart, span, m + 1, at + 1, active),
                    );
                }
            },
            SymbolView::Rule(_) => {
                lemma_splits_distinct(g, lexemes, chart, span, m, at, active, at);
            },
        }
    }
}

/// The lists in which the rule at `m` ends at `split` or later are
/// distinct, and the first tree of each spans as many lexemes as lie
/// between `at` and `split`, or more.
pub proof fn lemma_splits_distinct(
    g: GrammarView,
    lexemes: Seq<LexemeView>,
    chart: Chart,
    span: Span,
    m: int,
    at: int,
    active: Seq<Span>,
    split: int,
)
    requires
        well_formed(g),
        tidy(g, chart, lexemes.len()),
        span_ok(g, lexemes.len(), span),
        0 <= m < production_of(g, span.item).len(),
        0 <= at <= split,
    ensures
        splits(g, lexemes, chart, span, m, at, active, split).no_duplicates(),
        forall|k: int|
            0 <= k < splits(g, lexemes, chart, span, m, at, active, split).len() ==> {
                let list = #[trigger] splits(g, lexemes, chart, span, m, at, active, split)[k];
                list.len() > 0 && leaves(list[0]).len() >= split - at
            },
    decreases room(g, lexemes.len()) - active.len(),
        production_of(g, span.item).len() - m,
        1int,
        span.end - split + 1,
{
    let symbols = production_of(g, span.item);
    let lists = splits(g, lexemes, chart, span, m, at, active, split);
    if split <= span.end {
        match symbols[m] {
            SymbolView::Lexeme(_) => {},
            SymbolView::Rule(name) => {
                let heads = subtrees(
                    g,
                    lexemes,
                    chart,
                    name,
                    at,
                    split,
                    active,
                    chart[split].len() as int,
                );
                let tails = child_lists(g, lexemes, chart, span, m + 1, split, active);
                let here = crossed(heads, tails);
                let later = splits(g, lexemes, chart, span, m, at, active, split + 1);
                lemma_subtrees_distinct(
                    g,
                    lexemes,
                    chart,
                    name,
                    at,
                    split,
                    active,
                    chart[split].len() as int,
                );
                lemma_subtrees_sound(
                    g,
                    lexemes,
                    chart,
                    name,
                    at,
                    split,
                    active,
                    chart[split].len() as int,
                );
                lemma_lists_distinct(g, lexemes, chart, span, m + 1, split, active);
                lemma_splits_distinct(g, lexemes, chart, span, m, at, active, split + 1);
                lemma_crossed_distinct(heads, tails);
                assert forall|k: int| 0 <= k < here.len() implies (#[trigger] here[k]).len() > 0
                    && leaves(here[k][0]).len() == split - at by {
                    lemma_crossed_member(heads, tails, k);
                    let (i, j) = choose|i: int, j: int|
                        0 <= i < heads.len() && 0 <= j < tails.len() && here[k] == seq![
                            #[trigger] heads[i],
                        ] + #[trigger] tails[j];
                    assert(here[k][0] == heads[i]);
                    assert(tree_derives(g, lexemes, heads[i], SymbolView::Rule(name), at, split));
                }
                assert forall|a: int, b: int|
                    0 <= a < here.len() && 0 <= b < later.len() implies here[a] != later[b] by {
                    assert(leaves(here[a][0]).len() == split - at);
                    assert(leaves(later[b][0]).len() >= split + 1 - at);
                }
                lemma_no_dup_in_concat(here, later);
                assert forall|k: int| 0 <= k < lists.len() implies {
                    let list = #[trigger] lists[k];
                    list.len() > 0 && leaves(list[0]).len() >= split - at
                } by {
                    if k < here.len() {
                        assert(lists[k] == here[k]);
                    } else {
                        assert(lists[k] == later[k - here.len()]);
                    }
                }
            },
        }
    }
}

/// The tree stands over the production of one of the first `count` items
/// of the column `end` that belong to the rule `name` and start at `at`.
pub open spec fn stands_over(
    g: GrammarView,
    chart: Chart,
    name: Seq<char>,
    at: int,
    end: int,
    count: int,
    tree: TreeView,
) -> bool {
    exists|j: int|
        0 <= j < count && g[(#[trigger] chart[end][j]).rule].name == name && chart[end][j].start
            == at && roots(tree->children) == production_of(g, chart[end][j])
}

/// The trees that the model gives for a rule over a range of lexemes are
/// distinct, and each stands over the production of one of the items
/// looked at.
pub proof fn lemma_subtrees_distinct(
    g: GrammarView,
    lexemes: Seq<LexemeView>,
    chart: Chart,
    name: Seq<char>,
    at: int,
    end: int,
    active: Seq<Span>,
    count: int,
)
    requires
        well_formed(g),
        tidy(g, chart, lexemes.len()),
        0 <= end <= lexemes.len(),
        count <= chart[end].len(),
    ensures
        subtrees(g, lexemes, chart, name, at, end, active, count).no_duplicates(),
        forall|k: int|
            0 <= k < subtrees(g, lexemes, chart, name, at, end, active, count).len()
                ==> stands_over(
                g,
                chart,
                name,
                at,
                end,
                count,
                #[trigger] subtrees(g, lexemes, chart, name, at, end, active, count)[k],
            ),
    decreases room(g, lexemes.len()) - active.len(), 0int, 1int, count,
{
    if count > 0 {
        let trees = subtrees(g, lexemes, chart, name, at, end, active, count);
        let before = subtrees(g, lexemes, chart, name, at, end, active, count - 1);
        let item = chart[end][count - 1];
        lemma_subtrees_distinct(g, lexemes, chart, name, at, end, active, count - 1);
        assert(item_ok(g, item, end));
        assert forall|k: int| 0 <= k < before.len() implies stands_over(
            g,
            chart,
            name,
            at,
            end,
            count,
            #[trigger] before[k],
        ) by {
            assert(stands_over(g, chart, name, at, end, count - 1, before[k]));
            let j = choose|j: int|
                0 <= j < count - 1 && g[(#[trigger] chart[end][j]).rule].name == name
                    && chart[end][j].start == at && roots(before[k]->children) == production_of(
                    g,
                    chart[end][j],
                );
            assert(0 <= j < count);
        }
        if g[item.rule].name == name && item.start == at {
            let span = Span { item, end };
            let found = trees_of(g, lexemes, chart, span, active);
            lemma_trees_distinct(g, lexemes, chart, span, active);
            assert forall|a: int, b: int|
                0 <= a < before.len() && 0 <= b < found.len() implies before[a] != found[b] by {
                lemma_trees_shaped(g, lexemes, chart, span, active, b);
                assert(stands_over(g, chart, name, at, end, count - 1, before[a]));
                let j = choose|j: int|
                    0 <= j < count - 1 && g[(#[trigger] chart[end][j]).rule].name == name
                        && chart[end][j].start == at && roots(before[a]->children)
                        == production_of(g, chart[end][j]);
                let other = chart[end][j];
                assert(item_ok(g, other, end));
                if before[a] == found[b] {
                    assert(production_of(g, other) == production_of(g, item));
                    assert(other.rule == item.rule) by {
                        if other.rule < item.rule {
                            assert(g[other.rule].name != g[item.rule].name);
                        } else if item.rule < other.rule {
                            assert(g[item.rule].name != g[other.rule].name);
                        }
                    }
                    assert(rule_sound(g, g[item.rule]));
                    assert(other.production == item.production) by {
                        let rule = g[item.rule];
                        if other.production < item.production {
                            assert(rule.productions[other.production]
                                != rule.productions[item.production]);
                        } else if item.production < other.production {
                            assert(rule.productions[item.production]
                                != rule.productions[other.production]);
                        }
                    }
                    assert(is_complete(g, other) && is_complete(g, item));
                    assert(other == item);
                    assert(chart[end][j] != chart[end][count - 1]);
                }
            }
            lemma_no_dup_in_concat(before, found);
            assert forall|k: int| 0 <= k < trees.len() implies stands_over(
                g,
                chart,
                name,
                at,
                end,
                count,
                #[trigger] trees[k],
            ) by {
                if k < before.len() {
                    assert(trees[k] == before[k]);
                } else {
                    assert(trees[k] == found[k - before.len()]);
                    lemma_trees_shaped(g, lexemes, chart, span, active, k - before.len());
                    assert(chart[end][count - 1] == item);
                }
            }
        }
    }
}

} // verus!
