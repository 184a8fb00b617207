//! Parse trees, and the forest builder that reads them off a finished
//! chart.

use crate::grammar::Grammar;
use crate::grammar::Symbol;
use crate::grammar::lemma_production_fits;
use crate::lex::lexeme::Lexeme;
use crate::lex::lexeme::lexeme_views;
use crate::parser::chart::production_of;
use crate::parser::forest::Span;
use crate::parser::forest::TreeView;
use crate::parser::forest::child_lists;
use crate::parser::forest::crossed;
use crate::parser::forest::lemma_crossed_empty;
use crate::parser::forest::lemma_spans_fit;
use crate::parser::forest::nodes;
use crate::parser::forest::prefixed;
use crate::parser::forest::room;
use crate::parser::forest::span_ok;
use crate::parser::forest::spans_ok;
use crate::parser::forest::splits;
use crate::parser::forest::subtrees;
use crate::parser::forest::trees_of;
use crate::parser::state::ParserColumn;
use crate::parser::state::ParserState;
use crate::parser::state::chart_of;
use crate::parser::state::columns_finished;
use crate::parser::state::spans_of;
use vstd::prelude::*;

verus! {

/// A parse tree: a lexeme of the input, or a rule's name over the trees of
/// the symbols of one of its productions.
#[derive(Debug, PartialEq, Eq)]
pub enum Tree {
    Leaf(Lexeme),
    Node { name: String, children: Vec<Tree> },
}

/// The value of a tree: the values of its lexemes under the names of its
/// nodes.
pub open spec fn tree_value(tree: Tree) -> TreeView
    decreases tree,
{
    match tree {
        Tree::Leaf(lexeme) => TreeView::Leaf(lexeme@),
        Tree::Node { name, children } => TreeView::Node {
            name: name@,
            children: Seq::new(
                children@.len(),
                |i: int|
                    if 0 <= i < children@.len() {
                        tree_value(children@[i])
                    } else {
                        arbitrary()
                    },
            ),
        },
    }
}

impl View for Tree {
    type V = TreeView;

    open spec fn view(&self) -> TreeView {
        tree_value(*self)
    }
}

/// The values of a sequence of trees.
pub open spec fn tree_views(trees: Seq<Tree>) -> Seq<TreeView> {
    trees.map_values(|tree: Tree| tree@)
}

/// The values of a sequence of lists of trees.
pub open spec fn list_views(lists: Seq<Vec<Tree>>) -> Seq<Seq<TreeView>> {
    lists.map_values(|list: Vec<Tree>| tree_views(list@))
}

/// The value of a node is the node of the values of its children.
pub proof fn lemma_node_view(name: String, children: Vec<Tree>)
    ensures
        (Tree::Node { name, children })@ == (TreeView::Node {
            name: name@,
            children: tree_views(children@),
        }),
{
    let tree = Tree::Node { name, children };
    assert(tree@->children =~= tree_views(children@));
}

impl Clone for Tree {
    #[verifier::loop_isolation(false)]
    fn clone(&self) -> (copy: Self)
        ensures
            copy@ == self@,
        decreases self,
    {
        match self {
            Tree::Leaf(lexeme) => Tree::Leaf(lexeme.clone()),
            Tree::Node { name, children } => {
                let mut copies: Vec<Tree> = Vec::new();
                let mut i: usize = 0;
                while i < children.len()
                    invariant
                        i <= children.len(),
                        copies.len() == i,
                        forall|j: int| 0 <= j < i ==> copies[j]@ == children[j]@,
                    decreases children.len() - i,
                {
                    copies.push(children[i].clone());
                    i += 1;
                }
                proof {
                    lemma_node_view(*name, *children);
                    assert(tree_views(copies@) =~= tree_views(children@));
                }
                let copied_name = name.clone();
                proof {
                    lemma_node_view(copied_name, copies);
                }
                Tree::Node { name: copied_name, children: copies }
            },
        }
    }
}

/// Adds copies of the trees at the end of `out`.
fn append_copies(out: &mut Vec<Tree>, trees: &Vec<Tree>)
    ensures
        tree_views(final(out)@) == tree_views(old(out)@) + tree_views(trees@),
{
    let ghost before = out@;
    let mut i: usize = 0;
    while i < trees.len()
        invariant
            i <= trees.len(),
            tree_views(out@) == tree_views(before) + tree_views(trees@.take(i as int)),
        decreases trees.len() - i,
    {
        let ghost sofar = out@;
        out.push(trees[i].clone());
        assert(tree_views(out@) =~= tree_views(sofar).push(trees@[i as int]@));
        assert(tree_views(trees@.take(i + 1)) =~= tree_views(trees@.take(i as int)).push(
            trees@[i as int]@,
        ));
        assert(tree_views(out@) =~= tree_views(before) + tree_views(trees@.take(i + 1)));
        i += 1;
    }
    assert(trees@.take(trees.len() as int) =~= trees@);
}

/// Each of the lists with a copy of `head` put in front.
fn prefix_all(head: &Tree, tails: &Vec<Vec<Tree>>) -> (lists: Vec<Vec<Tree>>)
    ensures
        list_views(lists@) == prefixed(head@, list_views(tails@)),
{
    let mut lists: Vec<Vec<Tree>> = Vec::new();
    let mut i: usize = 0;
    while i < tails.len()
        invariant
            i <= tails.len(),
            lists@.len() == i,
            forall|j: int|
                0 <= j < i ==> tree_views((#[trigger] lists@[j])@) == seq![head@] + tree_views(
                    tails@[j]@,
                ),
        decreases tails.len() - i,
    {
        let mut list: Vec<Tree> = Vec::new();
        list.push(head.clone());
        assert(tree_views(list@) =~= seq![head@]);
        append_copies(&mut list, &tails[i]);
        lists.push(list);
        i += 1;
    }
    assert(list_views(lists@) =~= prefixed(head@, list_views(tails@)));
    lists
}

/// Adds to `out` every way to put one of `heads` in front of one of
/// `tails`.
fn cross_into(out: &mut Vec<Vec<Tree>>, heads: &Vec<Tree>, tails: &Vec<Vec<Tree>>)
    ensures
        list_views(final(out)@) == list_views(old(out)@) + crossed(
            tree_views(heads@),
            list_views(tails@),
        ),
{
    let ghost before = list_views(out@);
    let ghost all = tree_views(heads@);
    let ghost rest = list_views(tails@);
    let mut i: usize = 0;
    while i < heads.len()
        invariant
            i <= heads.len(),
            all == tree_views(heads@),
            rest == list_views(tails@),
            list_views(out@) == before + crossed(all.take(i as int), rest),
        decreases heads.len() - i,
    {
        let ghost sofar = out@;
        let mut lists = prefix_all(&heads[i], tails);
        let ghost added = lists@;
        out.append(&mut lists);
        proof {
            assert(all.take(i + 1).drop_last() =~= all.take(i as int));
            assert(all.take(i + 1).last() == heads@[i as int]@);
            assert(list_views(out@) =~= list_views(sofar) + list_views(added));
            assert(list_views(out@) =~= before + crossed(all.take(i + 1), rest));
        }
        i += 1;
    }
    assert(all.take(heads.len() as int) =~= all);
}

/// A node of the given name over a copy of each of the lists.
fn wrap(name: &String, lists: &Vec<Vec<Tree>>) -> (trees: Vec<Tree>)
    ensures
        tree_views(trees@) == nodes(name@, list_views(lists@)),
{
    let mut trees: Vec<Tree> = Vec::new();
    let mut i: usize = 0;
    while i < lists.len()
        invariant
            i <= lists.len(),
            trees@.len() == i,
            forall|j: int|
                0 <= j < i ==> (#[trigger] trees@[j])@ == (TreeView::Node {
                    name: name@,
                    children: tree_views(lists@[j]@),
                }),
        decreases lists.len() - i,
    {
        let mut children: Vec<Tree> = Vec::new();
        append_copies(&mut children, &lists[i]);
        assert(tree_views(children@) =~= tree_views(lists@[i as int]@));
        let label = name.clone();
        proof {
            lemma_node_view(label, children);
        }
        trees.push(Tree::Node { name: label, children });
        i += 1;
    }
    assert(tree_views(trees@) =~= nodes(name@, list_views(lists@)));
    trees
}

/// Whether the span of `state` is among the spans of `active`.
fn is_active(active: &Vec<ParserState>, state: &ParserState) -> (found: bool)
    ensures
        found == spans_of(active@).contains(state.span()),
{
    let mut k: usize = 0;
    while k < active.len()
        invariant
            k <= active.len(),
            forall|j: int| 0 <= j < k ==> spans_of(active@)[j] != state.span(),
        decreases active.len() - k,
    {
        if active[k].same_span(state) {
            assert(spans_of(active@)[k as int] == state.span());
            return true;
        }
        k += 1;
    }
    false
}

/// What the forest builder asks of its arguments: a finished chart with
/// one column for each boundary between lexemes.
pub open spec fn forest_ready(
    grammar: &Grammar,
    lexemes: &[Lexeme],
    columns: &Vec<ParserColumn>,
) -> bool {
    &&& lexemes@.len() < usize::MAX
    &&& columns@.len() == lexemes@.len() + 1
    &&& columns_finished(grammar@, columns@)
}

/// The trees of a complete state: see [`trees_of`].
#[verifier::loop_isolation(false)]
fn trees_for(
    grammar: &Grammar,
    lexemes: &[Lexeme],
    columns: &Vec<ParserColumn>,
    state: &ParserState,
    active: &mut Vec<ParserState>,
) -> (trees: Vec<Tree>)
    requires
        forest_ready(grammar, lexemes, columns),
        span_ok(grammar@, lexemes@.len(), state.span()),
        spans_ok(grammar@, lexemes@.len(), spans_of(old(active)@)),
    ensures
        tree_views(trees@) == trees_of(
            grammar@,
            lexeme_views(lexemes@),
            chart_of(columns@),
            state.span(),
            spans_of(old(active)@),
        ),
        final(active)@ == old(active)@,
    decreases room(grammar@, lexemes@.len()) - old(active)@.len(), 0int, 0int, 0int,
{
    let ghost g = grammar@;
    let ghost count = lexemes@.len();
    let ghost stack = active@;
    assert(lexeme_views(lexemes@).len() == count);
    if is_active(active, state) {
        return Vec::new();
    }
    proof {
        let extended = spans_of(stack).push(state.span());
        assert forall|a: int, b: int|
            0 <= a < extended.len() && 0 <= b < extended.len() && a != b implies extended[a]
            != extended[b] by {
            if a < stack.len() && b < stack.len() {
                assert(spans_of(stack)[a] != spans_of(stack)[b]);
            }
        }
        assert forall|k: int| 0 <= k < extended.len() implies span_ok(
            g,
            count,
            #[trigger] extended[k],
        ) by {
            if k < stack.len() {
                assert(span_ok(g, count, spans_of(stack)[k]));
            }
        }
        lemma_spans_fit(g, count, extended);
    }
    active.push(*state);
    assert(spans_of(active@) =~= spans_of(stack).push(state.span()));
    let lists = lists_for(grammar, lexemes, columns, state, 0, state.start_column, active);
    active.pop();
    assert(active@ =~= stack);
    wrap(grammar.rule_name(state.rule), &lists)
}

/// The lists of trees for the symbols of the state's production from the
/// symbol `m` on, over the lexemes from `at` on: see [`child_lists`].
#[verifier::loop_isolation(false)]
fn lists_for(
    grammar: &Grammar,
    lexemes: &[Lexeme],
    columns: &Vec<ParserColumn>,
    state: &ParserState,
    m: usize,
    at: usize,
    active: &mut Vec<ParserState>,
) -> (lists: Vec<Vec<Tree>>)
    requires
        forest_ready(grammar, lexemes, columns),
        span_ok(grammar@, lexemes@.len(), state.span()),
        spans_ok(grammar@, lexemes@.len(), spans_of(old(active)@)),
        m <= production_of(grammar@, state@).len(),
    ensures
        list_views(lists@) == child_lists(
            grammar@,
            lexeme_views(lexemes@),
            chart_of(columns@),
            state.span(),
            m as int,
            at as int,
            spans_of(old(active)@),
        ),
        final(active)@ == old(active)@,
    decreases room(grammar@, lexemes@.len()) - old(active)@.len(),
        production_of(grammar@, state@).len() - m,
        2int,
        0int,
{
    let ghost g = grammar@;
    let ghost count = lexemes@.len();
    let ghost views = lexeme_views(lexemes@);
    let ghost chart = chart_of(columns@);
    let ghost stack = active@;
    let ghost busy = spans_of(active@);
    assert(views.len() == count);
    proof {
        lemma_production_fits(grammar, state.rule as int, state.production as int);
    }
    let len = grammar.production_len(state.rule, state.production);
    let mut lists: Vec<Vec<Tree>> = Vec::new();
    if m >= len {
        if at == state.end_column {
            lists.push(Vec::new());
            assert(tree_views(lists@[0]@) =~= Seq::<TreeView>::empty());
            assert(list_views(lists@) =~= seq![Seq::<TreeView>::empty()]);
        } else {
            assert(list_views(lists@) =~= Seq::<Seq<TreeView>>::empty());
        }
        return lists;
    }
    match grammar.symbol_at(state.rule, state.production, m) {
        Symbol::Lexeme(kind) => {
            if at < state.end_column && lexemes[at].kind == *kind {
                assert(views[at as int] == lexemes@[at as int]@);
                let tails = lists_for(grammar, lexemes, columns, state, m + 1, at + 1, active);
                let leaf = Tree::Leaf(lexemes[at].clone());
                prefix_all(&leaf, &tails)
            } else {
                if at < state.end_column {
                    assert(views[at as int] == lexemes@[at as int]@);
                }
                assert(list_views(lists@) =~= Seq::<Seq<TreeView>>::empty());
                lists
            }
        },
        Symbol::Rule(name) => {
            assert(list_views(lists@) =~= Seq::<Seq<TreeView>>::empty());
            let mut split: usize = at;
            while split <= state.end_column
                invariant
                    at <= split,
                    split <= state.end_column + 1 || at > state.end_column,
                    active@ == stack,
                    list_views(lists@) + splits(
                        g,
                        views,
                        chart,
                        state.span(),
                        m as int,
                        at as int,
                        busy,
                        split as int,
                    ) == splits(g, views, chart, state.span(), m as int, at as int, busy, at as int),
                decreases state.end_column + 1 - split,
            {
                let ghost sofar = list_views(lists@);
                let ghost later = splits(
                    g,
                    views,
                    chart,
                    state.span(),
                    m as int,
                    at as int,
                    busy,
                    split + 1,
                );
                let ghost heads_model = subtrees(
                    g,
                    views,
                    chart,
                    name@,
                    at as int,
                    split as int,
                    busy,
                    chart[split as int].len() as int,
                );
                let tails = lists_for(grammar, lexemes, columns, state, m + 1, split, active);
                if tails.len() > 0 {
                    let heads = subtrees_for(grammar, lexemes, columns, name, at, split, active);
                    cross_into(&mut lists, &heads, &tails);
                } else {
                    proof {
                        assert(list_views(tails@) =~= Seq::<Seq<TreeView>>::empty());
                        lemma_crossed_empty(heads_model);
                    }
                }
                assert(list_views(lists@) + later =~= sofar + (crossed(
                    heads_model,
                    list_views(tails@),
                ) + later));
                split += 1;
            }
            assert(list_views(lists@) + Seq::<Seq<TreeView>>::empty() =~= list_views(lists@));
            lists
        },
    }
}

/// The trees of the rule `name` over the lexemes from `at` up to `end`:
/// see [`subtrees`].
#[verifier::loop_isolation(false)]
fn subtrees_for(
    grammar: &Grammar,
    lexemes: &[Lexeme],
    columns: &Vec<ParserColumn>,
    name: &String,
    at: usize,
    end: usize,
    active: &mut Vec<ParserState>,
) -> (trees: Vec<Tree>)
    requires
        forest_ready(grammar, lexemes, columns),
        spans_ok(grammar@, lexemes@.len(), spans_of(old(active)@)),
        end <= lexemes@.len(),
    ensures
        tree_views(trees@) == subtrees(
            grammar@,
            lexeme_views(lexemes@),
            chart_of(columns@),
            name@,
            at as int,
            end as int,
            spans_of(old(active)@),
            chart_of(columns@)[end as int].len() as int,
        ),
        final(active)@ == old(active)@,
    decreases room(grammar@, lexemes@.len()) - old(active)@.len(), 0int, 1int, 0int,
{
    let ghost g = grammar@;
    let ghost views = lexeme_views(lexemes@);
    let ghost chart = chart_of(columns@);
    let ghost stack = active@;
    let ghost busy = spans_of(active@);
    let mut trees: Vec<Tree> = Vec::new();
    assert(tree_views(trees@) =~= Seq::<TreeView>::empty());
    let mut j: usize = 0;
    while j < columns[end].states.len()
        invariant
            j <= columns@[end as int].states@.len(),
            active@ == stack,
            tree_views(trees@)
                == subtrees(g, views, chart, name@, at as int, end as int, busy, j as int),
        decreases columns@[end as int].states@.len() - j,
    {
        let candidate = columns[end].states[j];
        assert(candidate == columns@[end as int].states@[j as int]);
        assert(chart[end as int][j as int] == candidate@);
        assert(candidate.span() == (Span { item: chart[end as int][j as int], end: end as int }));
        if *grammar.rule_name(candidate.rule) == *name && candidate.start_column == at {
            let ghost sofar = trees@;
            let mut found = trees_for(grammar, lexemes, columns, &candidate, active);
            let ghost added = found@;
            trees.append(&mut found);
            assert(tree_views(trees@) =~= tree_views(sofar) + tree_views(added));
        }
        j += 1;
    }
    trees
}

/// The trees of a complete state of a finished chart, none of them passing
/// through the same span twice on the way from its root to a leaf.
pub fn build_forest(
    grammar: &Grammar,
    lexemes: &[Lexeme],
    columns: &Vec<ParserColumn>,
    state: &ParserState,
) -> (trees: Vec<Tree>)
    requires
        forest_ready(grammar, lexemes, columns),
        span_ok(grammar@, lexemes@.len(), state.span()),
    ensures
        tree_views(trees@) == trees_of(
            grammar@,
            lexeme_views(lexemes@),
            chart_of(columns@),
            state.span(),
            Seq::empty(),
        ),
{
    let mut active: Vec<ParserState> = Vec::new();
    assert(spans_of(active@) =~= Seq::<Span>::empty());
    trees_for(grammar, lexemes, columns, state, &mut active)
}

} // verus!
