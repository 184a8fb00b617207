//! The mathematical model of parse trees and of the forest that is read
//! off a finished chart.

use crate::grammar::GrammarView;
use crate::grammar::SymbolView;
use crate::lex::lexeme::LexemeView;
use crate::lex::lexeme::kinds_of;
use crate::parser::bound::capacity;
use crate::parser::bound::code;
use crate::parser::bound::lemma_code_bound;
use crate::parser::bound::lemma_code_injective;
use crate::parser::bound::lemma_paired_bound;
use crate::parser::bound::lemma_paired_injective;
use crate::parser::bound::lemma_pigeonhole;
use crate::parser::bound::paired;
use crate::parser::chart::Chart;
use crate::parser::chart::Item;
use crate::parser::chart::completed_chart;
use crate::parser::chart::goal;
use crate::parser::chart::item_ok;
use crate::parser::chart::production_of;
use vstd::prelude::*;

verus! {

/// The mathematical value of a parse tree: a lexeme, or a rule's name over
/// the trees of one of its productions.
pub enum TreeView {
    Leaf(LexemeView),
    Node { name: Seq<char>, children: Seq<TreeView> },
}

/// A complete item together with the column in which it ends: the rule
/// derives the lexemes from `item.start` up to `end`.
pub struct Span {
    pub item: Item,
    pub end: int,
}

/// Each of the lists with one tree put in front.
pub open spec fn prefixed(head: TreeView, tails: Seq<Seq<TreeView>>) -> Seq<Seq<TreeView>> {
    tails.map_values(|tail: Seq<TreeView>| seq![head] + tail)
}

/// Every way to put one of `heads` in front of one of `tails`: all lists
/// with the first head come first.
pub open spec fn crossed(heads: Seq<TreeView>, tails: Seq<Seq<TreeView>>) -> Seq<Seq<TreeView>>
    decreases heads.len(),
{
    if heads.len() == 0 {
        Seq::empty()
    } else {
        crossed(heads.drop_last(), tails) + prefixed(heads.last(), tails)
    }
}

/// A node of the given name over each of the lists of children.
pub open spec fn nodes(name: Seq<char>, lists: Seq<Seq<TreeView>>) -> Seq<TreeView> {
    lists.map_values(|children: Seq<TreeView>| TreeView::Node { name, children })
}

/// A bound on the number of distinct spans over `lexemes` lexemes.
pub open spec fn room(g: GrammarView, lexemes: nat) -> int {
    (lexemes + 1) * capacity(g, lexemes as int)
}

/// The trees of a span. A span that is being expanded already (it is among
/// `active`) has none: a derivation that runs through itself adds no tree.
/// The check against `room` never fails for spans that are in order: see
/// [`lemma_spans_fit`].
pub open spec fn trees_of(
    g: GrammarView,
    lexemes: Seq<LexemeView>,
    chart: Chart,
    span: Span,
    active: Seq<Span>,
) -> Seq<TreeView>
    decreases room(g, lexemes.len()) - active.len(), 0int, 0int, 0int,
{
    if active.contains(span) || active.len() >= room(g, lexemes.len()) {
        Seq::empty()
    } else {
        nodes(
            g[span.item.rule].name,
            child_lists(g, lexemes, chart, span, 0, span.item.start, active.push(span)),
        )
    }
}

/// The lists of trees for the symbols of the span's production from the
/// symbol `m` on, over the lexemes from `at` up to the end of the span.
pub open spec fn child_lists(
    g: GrammarView,
    lexemes: Seq<LexemeView>,
    chart: Chart,
    span: Span,
    m: int,
    at: int,
    active: Seq<Span>,
) -> Seq<Seq<TreeView>>
    decreases
        room(g,
        lexemes.len()) - active.len(),
        production_of(g,
        span.item).len() - m,
        2int,
        0int,
{
    let symbols = production_of(g, span.item);
    if m < 0 || m >= symbols.len() {
        if m == symbols.len() && at == span.end {
            seq![Seq::empty()]
        } else {
            Seq::empty()
        }
    } else {
        match symbols[m] {
            SymbolView::Lexeme(kind) => if 0 <= at < span.end && at < lexemes.len()
                && lexemes[at].kind == kind {
                prefixed(
                    TreeView::Leaf(lexemes[at]),
                    child_lists(g, lexemes, chart, span, m + 1, at + 1, active),
                )
            } else {
                Seq::empty()
            },
            SymbolView::Rule(_) => splits(g, lexemes, chart, span, m, at, active, at),
        }
    }
}

/// The lists of [`child_lists`] in which the rule at `m` ends at `split`
/// or later: those with the earliest end first.
pub open spec fn splits(
    g: GrammarView,
    lexemes: Seq<LexemeView>,
    chart: Chart,
    span: Span,
    m: int,
    at: int,
    active: Seq<Span>,
    split: int,
) -> Seq<Seq<TreeView>>
    decreases room(g, lexemes.len()) - active.len(), production_of(g, span.item).len() - m, 1int,
        span.end - split + 1,
{
    let symbols = production_of(g, span.item);
    if split > span.end || m < 0 || m >= symbols.len() {
        Seq::empty()
    } else {
        match symbols[m] {
            SymbolView::Lexeme(_) => Seq::empty(),
            SymbolView::Rule(name) => crossed(
                subtrees(g, lexemes, chart, name, at, split, active, chart[split].len() as int),
                child_lists(g, lexemes, chart, span, m + 1, split, active),
            ) + splits(g, lexemes, chart, span, m, at, active, split + 1),
        }
    }
}

/// The trees of the rule `name` over the lexemes from `at` up to `end`,
/// as far as the first `count` items of the column `end` give them, in the
/// order of the column.
pub open spec fn subtrees(
    g: GrammarView,
    lexemes: Seq<LexemeView>,
    chart: Chart,
    name: Seq<char>,
    at: int,
    end: int,
    active: Seq<Span>,
    count: int,
) -> Seq<TreeView>
    decreases room(g, lexemes.len()) - active.len(), 0int, 1int, count,
{
    if count <= 0 {
        Seq::empty()
    } else {
        let before = subtrees(g, lexemes, chart, name, at, end, active, count - 1);
        let item = chart[end][count - 1];
        if g[item.rule].name == name && item.start == at {
            before + trees_of(g, lexemes, chart, Span { item, end }, active)
        } else {
            before
        }
    }
}

/// The parse forest of a recognized input: the trees of the goal over all
/// the lexemes, read off the completed chart.
pub open spec fn forest(g: GrammarView, lexemes: Seq<LexemeView>) -> Seq<TreeView> {
    trees_of(
        g,
        lexemes,
        completed_chart(g, kinds_of(lexemes)),
        Span { item: goal(g), end: lexemes.len() as int },
        Seq::empty(),
    )
}

/// No list has a head in front where there are no lists.
pub proof fn lemma_crossed_empty(heads: Seq<TreeView>)
    ensures
        crossed(heads, Seq::empty()) == Seq::<Seq<TreeView>>::empty(),
    decreases heads.len(),
{
    if heads.len() > 0 {
        lemma_crossed_empty(heads.drop_last());
        assert(prefixed(heads.last(), Seq::empty()) =~= Seq::<Seq<TreeView>>::empty());
    }
}

/// A span is in order when its item makes sense in its end column and the
/// column exists.
pub open spec fn span_ok(g: GrammarView, lexemes: nat, span: Span) -> bool {
    &&& 0 <= span.end <= lexemes
    &&& item_ok(g, span.item, span.end)
}

/// A list of spans is in order when each span is and none occurs twice.
pub open spec fn spans_ok(g: GrammarView, lexemes: nat, spans: Seq<Span>) -> bool {
    &&& forall|k: int| 0 <= k < spans.len() ==> span_ok(g, lexemes, #[trigger] spans[k])
    &&& spans.no_duplicates()
}

/// A list of spans that is in order has no more spans than there is room
/// for.
pub proof fn lemma_spans_fit(g: GrammarView, lexemes: nat, spans: Seq<Span>)
    requires
        spans_ok(g, lexemes, spans),
        spans.len() > 0,
    ensures
        spans.len() <= room(g, lexemes),
{
    let base = capacity(g, lexemes as int);
    let codes = spans.map_values(|span: Span| paired(span.end, code(g, span.item), base));
    assert forall|k: int| 0 <= k < codes.len() implies 0 <= #[trigger] codes[k] < room(
        g,
        lexemes,
    ) by {
        assert(span_ok(g, lexemes, spans[k]));
        lemma_code_bound(g, spans[k].item, lexemes as int);
        lemma_paired_bound(spans[k].end, code(g, spans[k].item), lexemes as int + 1, base);
    }
    assert(0 <= codes[0] < room(g, lexemes));
    assert forall|a: int, b: int|
        0 <= a < codes.len() && 0 <= b < codes.len() && a != b implies codes[a] != codes[b] by {
        if codes[a] == codes[b] {
            assert(span_ok(g, lexemes, spans[a]));
            assert(span_ok(g, lexemes, spans[b]));
            lemma_code_bound(g, spans[a].item, lexemes as int);
            lemma_code_bound(g, spans[b].item, lexemes as int);
            lemma_paired_injective(
                spans[a].end,
                code(g, spans[a].item),
                spans[b].end,
                code(g, spans[b].item),
                base,
            );
            lemma_code_injective(g, spans[a].item, spans[b].item, lexemes as int, lexemes as int);
        }
    }
    lemma_pigeonhole(codes, room(g, lexemes));
}

} // verus!
