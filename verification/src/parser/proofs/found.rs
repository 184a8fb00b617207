//! The forest holds what the chart supports: a parse tree whose nodes all
//! have their items in the chart, and that passes through no span twice
//! on a way down from its root, is among the trees that the model gives.

use crate::grammar::GrammarView;
use crate::grammar::SymbolView;
use crate::grammar::lemma_rule_named;
use crate::grammar::rule_named;
use crate::grammar::rule_sound;
use crate::grammar::well_formed;
use crate::lex::lexeme::LexemeView;
use crate::lex::lexeme::kinds_of;
use crate::parser::chart::Chart;
use crate::parser::chart::column_ok;
use crate::parser::chart::completed_chart;
use crate::parser::chart::completeness;
use crate::parser::chart::earley_chart;
use crate::parser::chart::finished;
use crate::parser::chart::is_complete;
use crate::parser::chart::item_ok;
use crate::parser::chart::production_of;
use crate::parser::derivation::conforms;
use crate::parser::derivation::fresh;
use crate::parser::derivation::leaves;
use crate::parser::derivation::leaves_upto;
use crate::parser::derivation::lemma_leaves_of_child;
use crate::parser::derivation::production_index;
use crate::parser::derivation::root_symbol;
use crate::parser::derivation::roots;
use crate::parser::derivation::span_at;
use crate::parser::forest::Span;
use crate::parser::forest::TreeView;
use crate::parser::forest::child_lists;
use crate::parser::forest::crossed;
use crate::parser::forest::lemma_spans_fit;
use crate::parser::forest::nodes;
use crate::parser::forest::prefixed;
use crate::parser::forest::span_ok;
use crate::parser::forest::spans_ok;
use crate::parser::forest::splits;
use crate::parser::forest::subtrees;
use crate::parser::forest::trees_of;
use crate::parser::proofs::closure::fresh_item;
use crate::parser::proofs::closure::lemma_chart_closed;
use crate::parser::proofs::closure::processed;
use crate::parser::proofs::closure::settled;
use crate::parser::proofs::reach::dotted;
use crate::parser::proofs::reach::lemma_reach_list;
use vstd::prelude::*;

verus! {

/// In a well-formed grammar a production is found by its symbols.
pub proof fn lemma_production_index(g: GrammarView, r: int, p: int)
    requires
        well_formed(g),
        0 <= r < g.len(),
        0 <= p < g[r].productions.len(),
    ensures
        rule_named(g, g[r].name) == r,
        production_index(g, g[r].name, g[r].productions[p]) == p,
{
    lemma_rule_named(g, r);
    assert(rule_sound(g, g[r]));
    let found = production_index(g, g[r].name, g[r].productions[p]);
    assert(g[r].productions[p] == g[r].productions[p]);
    if found < p {
        assert(g[r].productions[found] != g[r].productions[p]);
    } else if p < found {
        assert(g[r].productions[p] != g[r].productions[found]);
    }
}

/// What one of two sequences holds, the two joined hold.
pub proof fn lemma_concat_contains<T>(a: Seq<T>, b: Seq<T>, x: T)
    requires
        a.contains(x) || b.contains(x),
    ensures
        (a + b).contains(x),
{
    if a.contains(x) {
        let k = choose|k: int| 0 <= k < a.len() && a[k] == x;
        assert((a + b)[k] == x);
    } else {
        let k = choose|k: int| 0 <= k < b.len() && b[k] == x;
        assert((a + b)[a.len() + k] == x);
    }
}

/// A tail among the tails is, with the head in front, among the
/// prefixed lists.
pub proof fn lemma_prefixed_contains(head: TreeView, tails: Seq<Seq<TreeView>>, tail: Seq<TreeView>)
    requires
        tails.contains(tail),
    ensures
        prefixed(head, tails).contains(seq![head] + tail),
{
    let k = choose|k: int| 0 <= k < tails.len() && tails[k] == tail;
    assert(prefixed(head, tails)[k] == seq![head] + tail);
}

/// A head among the heads in front of a tail among the tails is among
/// the crossed lists.
pub proof fn lemma_crossed_contains(
    heads: Seq<TreeView>,
    tails: Seq<Seq<TreeView>>,
    head: TreeView,
    tail: Seq<TreeView>,
)
    requires
        heads.contains(head),
        tails.contains(tail),
    ensures
        crossed(heads, tails).contains(seq![head] + tail),
    decreases heads.len(),
{
    let k = choose|k: int| 0 <= k < heads.len() && heads[k] == head;
    let before = crossed(heads.drop_last(), tails);
    let last = prefixed(heads.last(), tails);
    if k == heads.len() - 1 {
        lemma_prefixed_contains(head, tails, tail);
    } else {
        assert(heads.drop_last()[k] == head);
        lemma_crossed_contains(heads.drop_last(), tails, head, tail);
    }
    lemma_concat_contains(before, last, seq![head] + tail);
}

/// A tree of one of the items looked at is among the trees of the rule.
pub proof fn lemma_subtrees_contain(
    g: GrammarView,
    lexemes: Seq<LexemeView>,
    chart: Chart,
    name: Seq<char>,
    at: int,
    end: int,
    active: Seq<Span>,
    count: int,
    index: int,
    tree: TreeView,
)
    requires
        0 <= index < count <= chart[end].len(),
        g[chart[end][index].rule].name == name,
        chart[end][index].start == at,
        trees_of(g, lexemes, chart, Span { item: chart[end][index], end }, active).contains(tree),
    ensures
        subtrees(g, lexemes, chart, name, at, end, active, count).contains(tree),
    decreases count,
{
    let before = subtrees(g, lexemes, chart, name, at, end, active, count - 1);
    let item = chart[end][count - 1];
    if index < count - 1 {
        lemma_subtrees_contain(g, lexemes, chart, name, at, end, active, count - 1, index, tree);
        if g[item.rule].name == name && item.start == at {
            lemma_concat_contains(
                before,
                trees_of(g, lexemes, chart, Span { item, end }, active),
                tree,
            );
        }
    } else {
        lemma_concat_contains(before, trees_of(g, lexemes, chart, Span { item, end }, active), tree);
    }
}

/// A list in which the rule at `m` ends at `target` is among the lists
/// in which it ends at `split` or later, for every `split` up to `target`.
pub proof fn lemma_splits_contain(
    g: GrammarView,
    lexemes: Seq<LexemeView>,
    chart: Chart,
    span: Span,
    m: int,
    at: int,
    active: Seq<Span>,
    split: int,
    target: int,
    list: Seq<TreeView>,
)
    requires
        split <= target <= span.end,
        0 <= m < production_of(g, span.item).len(),
        production_of(g, span.item)[m] is Rule,
        crossed(
            subtrees(
                g,
                lexemes,
                chart,
                production_of(g, span.item)[m]->Rule_0,
                at,
                target,
                active,
                chart[target].len() as int,
            ),
            child_lists(g, lexemes, chart, span, m + 1, target, active),
        ).contains(list),
    ensures
        splits(g, lexemes, chart, span, m, at, active, split).contains(list),
    decreases target - split,
{
    let name = production_of(g, span.item)[m]->Rule_0;
    let here = crossed(
        subtrees(g, lexemes, chart, name, at, split, active, chart[split].len() as int),
        child_lists(g, lexemes, chart, span, m + 1, split, active),
    );
    let later = splits(g, lexemes, chart, span, m, at, active, split + 1);
    if split < target {
        lemma_splits_contain(g, lexemes, chart, span, m, at, active, split + 1, target, list);
    }
    lemma_concat_contains(here, later, list);
}

/// A tree whose lexemes begin at `at` is supported by the chart when the
/// complete item of each of its nodes is in the column at which the
/// node's lexemes end.
pub open spec fn supported(
    g: GrammarView,
    lexemes: Seq<LexemeView>,
    tree: TreeView,
    at: int,
) -> bool
    decreases tree,
{
    match tree {
        TreeView::Leaf(lexeme) => true,
        TreeView::Node { name, children } => {
            &&& earley_chart(g, kinds_of(lexemes))[span_at(g, tree, at).end].contains(
                span_at(g, tree, at).item,
            )
            &&& forall|i: int|
                0 <= i < children.len() ==> supported(
                    g,
                    lexemes,
                    #[trigger] children[i],
                    at + leaves_upto(children, i).len(),
                )
        },
    }
}

/// A tree of a complete item of the chart, in front of a list for the
/// symbols that follow, is among the lists for the symbols from the
/// item's rule on.
pub proof fn lemma_child_joined(
    g: GrammarView,
    lexemes: Seq<LexemeView>,
    span: Span,
    m: int,
    from: int,
    active: Seq<Span>,
    inner: Span,
    child: TreeView,
    rest: Seq<TreeView>,
)
    requires
        well_formed(g),
        0 <= m < production_of(g, span.item).len(),
        production_of(g, span.item)[m] == SymbolView::Rule(g[inner.item.rule].name),
        from <= inner.end <= span.end,
        0 <= inner.end <= lexemes.len(),
        inner.item.start == from,
        is_complete(g, inner.item),
        earley_chart(g, kinds_of(lexemes))[inner.end].contains(inner.item),
        trees_of(g, lexemes, completed_chart(g, kinds_of(lexemes)), inner, active).contains(child),
        child_lists(
            g,
            lexemes,
            completed_chart(g, kinds_of(lexemes)),
            span,
            m + 1,
            inner.end,
            active,
        ).contains(rest),
    ensures
        child_lists(g, lexemes, completed_chart(g, kinds_of(lexemes)), span, m, from, active).contains(
            seq![child] + rest,
        ),
{
    let kinds = kinds_of(lexemes);
    let chart = earley_chart(g, kinds);
    let done = completed_chart(g, kinds);
    let to = inner.end;
    let name = g[inner.item.rule].name;
    lemma_chart_closed(g, kinds);
    let at_chart = choose|j: int| 0 <= j < chart[to].len() && chart[to][j] == inner.item;
    chart[to].lemma_filter_contains(completeness(g), at_chart);
    assert(done[to] == finished(g, chart[to]));
    let index = choose|j: int| 0 <= j < done[to].len() && done[to][j] == inner.item;
    assert(inner == (Span { item: done[to][index], end: to }));
    lemma_subtrees_contain(
        g,
        lexemes,
        done,
        name,
        from,
        to,
        active,
        done[to].len() as int,
        index,
        child,
    );
    lemma_crossed_contains(
        subtrees(g, lexemes, done, name, from, to, active, done[to].len() as int),
        child_lists(g, lexemes, done, span, m + 1, to, active),
        child,
        rest,
    );
    lemma_splits_contain(g, lexemes, done, span, m, from, active, from, to, seq![child] + rest);
}

/// What the search for a node's tree starts from: the node conforms to
/// the grammar, is supported by the chart and fresh, and its lexemes are
/// those from `at` on.
pub open spec fn searchable(
    g: GrammarView,
    lexemes: Seq<LexemeView>,
    tree: TreeView,
    at: int,
    active: Seq<Span>,
) -> bool {
    &&& tree is Node
    &&& conforms(g, tree)
    &&& supported(g, lexemes, tree, at)
    &&& fresh(g, tree, at, active)
    &&& 0 <= at
    &&& at + leaves(tree).len() <= lexemes.len()
    &&& leaves(tree) == lexemes.subrange(at, at + leaves(tree).len())
    &&& spans_ok(g, lexemes.len(), active)
}

/// A parse tree is supported by the chart wherever the item for the
/// production of its root stands predicted.
pub proof fn lemma_supported(
    g: GrammarView,
    lexemes: Seq<LexemeView>,
    tree: TreeView,
    at: int,
)
    requires
        well_formed(g),
        tree is Node,
        conforms(g, tree),
        0 <= at,
        at + leaves(tree).len() <= lexemes.len(),
        leaves(tree) == lexemes.subrange(at, at + leaves(tree).len()),
        earley_chart(g, kinds_of(lexemes))[at].contains(
            fresh_item(span_at(g, tree, at).item.rule, span_at(g, tree, at).item.production, at),
        ),
    ensures
        supported(g, lexemes, tree, at),
    decreases tree,
{
    let kinds = kinds_of(lexemes);
    let chart = earley_chart(g, kinds);
    let name = tree->name;
    let children = tree->children;
    let span = span_at(g, tree, at);
    let (r, p) = choose|r: int, p: int|
        0 <= r < g.len() && g[r].name == name && 0 <= p < g[r].productions.len()
            && #[trigger] g[r].productions[p] == roots(children);
    lemma_production_index(g, r, p);
    lemma_chart_closed(g, kinds);
    lemma_reach_list(g, lexemes, children, r, p, at, span.end, children.len() as int);
    assert(span.item == dotted(r, p, children.len() as int, at));
    assert forall|i: int| 0 <= i < children.len() implies supported(
        g,
        lexemes,
        #[trigger] children[i],
        at + leaves_upto(children, i).len(),
    ) by {
        let child = children[i];
        let from = at + leaves_upto(children, i).len();
        match child {
            TreeView::Leaf(lexeme) => {},
            TreeView::Node { name: below, children: grandchildren } => {
                assert(conforms(g, child));
                lemma_leaves_of_child(lexemes, children, at, span.end, i);
                lemma_reach_list(g, lexemes, children, r, p, at, span.end, i);
                let waiting = dotted(r, p, i, at);
                let k = choose|k: int| 0 <= k < chart[from].len() && chart[from][k] == waiting;
                assert(settled(g, kinds, chart, from, chart[from].len() as int));
                assert(processed(g, kinds, chart, from, k));
                assert(roots(children)[i] == root_symbol(child));
                let (rc, pc) = choose|rc: int, pc: int|
                    0 <= rc < g.len() && g[rc].name == below && 0 <= pc < g[rc].productions.len()
                        && #[trigger] g[rc].productions[pc] == roots(grandchildren);
                lemma_production_index(g, rc, pc);
                assert(chart[from].contains(fresh_item(rc, pc, from)));
                lemma_supported(g, lexemes, child, from);
            },
        }
    }
}

/// A node that is searchable is among the trees of its span.
pub proof fn lemma_tree_found(
    g: GrammarView,
    lexemes: Seq<LexemeView>,
    tree: TreeView,
    at: int,
    active: Seq<Span>,
)
    requires
        well_formed(g),
        searchable(g, lexemes, tree, at, active),
    ensures
        trees_of(
            g,
            lexemes,
            completed_chart(g, kinds_of(lexemes)),
            span_at(g, tree, at),
            active,
        ).contains(tree),
    decreases tree, tree->children.len() + 1,
{
    let kinds = kinds_of(lexemes);
    let chart = earley_chart(g, kinds);
    let done = completed_chart(g, kinds);
    let name = tree->name;
    let children = tree->children;
    let span = span_at(g, tree, at);
    let (r, p) = choose|r: int, p: int|
        0 <= r < g.len() && g[r].name == name && 0 <= p < g[r].productions.len()
            && #[trigger] g[r].productions[p] == roots(children);
    lemma_production_index(g, r, p);
    assert(span.item == dotted(r, p, children.len() as int, at));
    lemma_chart_closed(g, kinds);
    assert(chart[span.end].contains(span.item));
    let here = choose|j: int| 0 <= j < chart[span.end].len() && chart[span.end][j] == span.item;
    assert(column_ok(g, chart[span.end], span.end));
    assert(item_ok(g, chart[span.end][here], span.end));
    let extended = active.push(span);
    assert(spans_ok(g, lexemes.len(), extended)) by {
        assert forall|a: int, b: int|
            0 <= a < extended.len() && 0 <= b < extended.len() && a != b implies extended[a]
            != extended[b] by {
            if a < active.len() && b < active.len() {
                assert(active[a] != active[b]);
            }
        }
        assert forall|k: int| 0 <= k < extended.len() implies span_ok(
            g,
            lexemes.len(),
            #[trigger] extended[k],
        ) by {
            if k < active.len() {
                assert(span_ok(g, lexemes.len(), active[k]));
            }
        }
    }
    lemma_spans_fit(g, lexemes.len(), extended);
    lemma_list_found(g, lexemes, tree, at, active, 0);
    let lists = child_lists(g, lexemes, done, span, 0, at, extended);
    assert(children.subrange(0, children.len() as int) =~= children);
    assert(leaves_upto(children, 0).len() == 0);
    let x = choose|x: int| 0 <= x < lists.len() && lists[x] == children;
    assert(nodes(g[r].name, lists)[x] == tree);
}

/// The trees of a searchable node from the child `m` on are among the
/// lists that the model gives for the rest of the node's production.
#[verifier::spinoff_prover]
#[verifier::rlimit(50)]
pub proof fn lemma_list_found(
    g: GrammarView,
    lexemes: Seq<LexemeView>,
    tree: TreeView,
    at: int,
    active: Seq<Span>,
    m: int,
)
    requires
        well_formed(g),
        searchable(g, lexemes, tree, at, active),
        spans_ok(g, lexemes.len(), active.push(span_at(g, tree, at))),
        0 <= m <= tree->children.len(),
    ensures
        child_lists(
            g,
            lexemes,
            completed_chart(g, kinds_of(lexemes)),
            span_at(g, tree, at),
            m,
            at + leaves_upto(tree->children, m).len(),
            active.push(span_at(g, tree, at)),
        ).contains(tree->children.subrange(m, tree->children.len() as int)),
    decreases tree, tree->children.len() - m,
{
    let kinds = kinds_of(lexemes);
    let chart = earley_chart(g, kinds);
    let done = completed_chart(g, kinds);
    let name = tree->name;
    let children = tree->children;
    let span = span_at(g, tree, at);
    let busy = active.push(span);
    let len = children.len() as int;
    let (r, p) = choose|r: int, p: int|
        0 <= r < g.len() && g[r].name == name && 0 <= p < g[r].productions.len()
            && #[trigger] g[r].productions[p] == roots(children);
    lemma_production_index(g, r, p);
    let symbols = production_of(g, span.item);
    assert(symbols == roots(children));
    let from = at + leaves_upto(children, m).len();
    let lists = child_lists(g, lexemes, done, span, m, from, busy);
    let wanted = children.subrange(m, len);
    if m == len {
        assert(wanted =~= Seq::<TreeView>::empty());
        assert(lists[0] == wanted);
    } else {
        let child = children[m];
        let to = at + leaves_upto(children, m + 1).len();
        lemma_leaves_of_child(lexemes, children, at, span.end, m);
        lemma_list_found(g, lexemes, tree, at, active, m + 1);
        let tails = child_lists(g, lexemes, done, span, m + 1, to, busy);
        let rest = children.subrange(m + 1, len);
        assert(wanted =~= seq![child] + rest);
        assert(symbols[m] == root_symbol(child));
        match child {
            TreeView::Leaf(lexeme) => {
                assert(leaves(child).len() == 1);
                assert(lexemes.subrange(from, to)[0] == lexeme);
                lemma_prefixed_contains(child, tails, rest);
            },
            TreeView::Node { name: below, children: grandchildren } => {
                assert(conforms(g, child));
                assert(supported(g, lexemes, child, from));
                assert(fresh(g, child, from, busy));
                let (rc, pc) = choose|rc: int, pc: int|
                    0 <= rc < g.len() && g[rc].name == below && 0 <= pc < g[rc].productions.len()
                        && #[trigger] g[rc].productions[pc] == roots(grandchildren);
                lemma_production_index(g, rc, pc);
                let inner = span_at(g, child, from);
                assert(inner.end == to);
                lemma_tree_found(g, lexemes, child, from, busy);
                lemma_child_joined(g, lexemes, span, m, from, busy, inner, child, rest);
            },
        }
    }
}

} // verus!
