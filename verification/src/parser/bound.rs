//! How many items a column can hold. The recognizer adds an item to a
//! column only once, so this bounds the work on every column.

use crate::grammar::GrammarView;
use crate::grammar::RuleView;
use crate::parser::chart::Item;
use crate::parser::chart::column_ok;
use crate::parser::chart::item_ok;
use vstd::prelude::*;

verus! {

/// The greatest number of productions among the first `rules` rules.
pub open spec fn widest_upto(g: GrammarView, rules: int) -> int
    decreases rules,
{
    if rules <= 0 {
        0
    } else if g[rules - 1].productions.len() > widest_upto(g, rules - 1) {
        g[rules - 1].productions.len() as int
    } else {
        widest_upto(g, rules - 1)
    }
}

/// The greatest number of productions of any rule.
pub open spec fn widest(g: GrammarView) -> int {
    widest_upto(g, g.len() as int)
}

/// The greatest length among the first `productions` productions of a
/// rule.
pub open spec fn longest_in(rule: RuleView, productions: int) -> int
    decreases productions,
{
    if productions <= 0 {
        0
    } else if rule.productions[productions - 1].len() > longest_in(rule, productions - 1) {
        rule.productions[productions - 1].len() as int
    } else {
        longest_in(rule, productions - 1)
    }
}

/// The greatest length of a production among the first `rules` rules.
pub open spec fn longest_upto(g: GrammarView, rules: int) -> int
    decreases rules,
{
    if rules <= 0 {
        0
    } else if longest_in(g[rules - 1], g[rules - 1].productions.len() as int) > longest_upto(
        g,
        rules - 1,
    ) {
        longest_in(g[rules - 1], g[rules - 1].productions.len() as int)
    } else {
        longest_upto(g, rules - 1)
    }
}

/// The greatest length of any production.
pub open spec fn longest(g: GrammarView) -> int {
    longest_upto(g, g.len() as int)
}

/// A bound on the number of distinct items that make sense in a column:
/// the number of starts, rules, productions and dots to choose from.
pub open spec fn capacity(g: GrammarView, column: int) -> int {
    (column + 1) * g.len() * widest(g) * (longest(g) + 1)
}

/// No rule among the first `rules` has more productions than the widest.
pub proof fn lemma_widest_upto(g: GrammarView, rules: int, r: int)
    requires
        0 <= r < rules <= g.len(),
    ensures
        g[r].productions.len() <= widest_upto(g, rules),
    decreases rules,
{
    if r < rules - 1 {
        lemma_widest_upto(g, rules - 1, r);
    }
}

/// None of the first `productions` productions is longer than the longest.
pub proof fn lemma_longest_in(rule: RuleView, productions: int, p: int)
    requires
        0 <= p < productions <= rule.productions.len(),
    ensures
        rule.productions[p].len() <= longest_in(rule, productions),
    decreases productions,
{
    if p < productions - 1 {
        lemma_longest_in(rule, productions - 1, p);
    }
}

/// No production among the first `rules` rules is longer than the longest.
pub proof fn lemma_longest_upto(g: GrammarView, rules: int, r: int, p: int)
    requires
        0 <= r < rules <= g.len(),
        0 <= p < g[r].productions.len(),
    ensures
        g[r].productions[p].len() <= longest_upto(g, rules),
    decreases rules,
{
    if r < rules - 1 {
        lemma_longest_upto(g, rules - 1, r, p);
    } else {
        lemma_longest_in(g[r], g[r].productions.len() as int, p);
    }
}

/// A pair of numbers, the second below `base`, as one number.
pub open spec fn paired(high: int, low: int, base: int) -> int {
    high * base + low
}

/// A pair of numbers below `limit` and `base` is a number below their
/// product.
pub proof fn lemma_paired_bound(high: int, low: int, limit: int, base: int)
    requires
        0 <= high < limit,
        0 <= low < base,
    ensures
        0 <= paired(high, low, base) < limit * base,
{
    assert(0 <= high * base && high * base + base <= limit * base) by (nonlinear_arith)
        requires
            0 <= high < limit,
            0 < base,
    ;
}

/// Different pairs are different numbers.
pub proof fn lemma_paired_injective(high1: int, low1: int, high2: int, low2: int, base: int)
    requires
        0 <= low1 < base,
        0 <= low2 < base,
        paired(high1, low1, base) == paired(high2, low2, base),
    ensures
        high1 == high2,
        low1 == low2,
{
    if high1 < high2 {
        assert(high1 * base + base <= high2 * base) by (nonlinear_arith)
            requires
                high1 < high2,
                0 < base,
        ;
    } else if high2 < high1 {
        assert(high2 * base + base <= high1 * base) by (nonlinear_arith)
            requires
                high2 < high1,
                0 < base,
        ;
    }
}

/// A sequence of distinct numbers from 0 up to, but not including,
/// `limit` has at most `limit` elements.
pub proof fn lemma_pigeonhole(numbers: Seq<int>, limit: int)
    requires
        0 <= limit,
        numbers.no_duplicates(),
        forall|k: int| 0 <= k < numbers.len() ==> 0 <= #[trigger] numbers[k] < limit,
    ensures
        numbers.len() <= limit,
{
    if numbers.len() > 0 {
        let range = vstd::set_lib::set_int_range(0, limit);
        assert(0 <= numbers[0] < limit);
        vstd::set_lib::lemma_int_range(0, limit);
        numbers.unique_seq_to_set();
        assert(numbers.to_set().subset_of(range)) by {
            assert forall|x: int| numbers.to_set().contains(x) implies range.contains(x) by {
                let k = choose|k: int| 0 <= k < numbers.len() && numbers[k] == x;
                assert(0 <= numbers[k] < limit);
            }
        }
        vstd::set_lib::lemma_len_subset(numbers.to_set(), range);
    }
}

/// A number for an item, different for different items.
pub open spec fn code(g: GrammarView, item: Item) -> int {
    paired(
        paired(paired(item.start, item.rule, g.len() as int), item.production, widest(g)),
        item.dot,
        longest(g) + 1,
    )
}

/// The code of an item that makes sense in a column is below the
/// capacity of the column.
pub proof fn lemma_code_bound(g: GrammarView, item: Item, column: int)
    requires
        item_ok(g, item, column),
    ensures
        0 <= code(g, item) < capacity(g, column),
{
    lemma_widest_upto(g, g.len() as int, item.rule);
    lemma_longest_upto(g, g.len() as int, item.rule, item.production);
    lemma_paired_bound(item.start, item.rule, column + 1, g.len() as int);
    let first = paired(item.start, item.rule, g.len() as int);
    lemma_paired_bound(first, item.production, (column + 1) * g.len(), widest(g));
    let second = paired(first, item.production, widest(g));
    lemma_paired_bound(second, item.dot, (column + 1) * g.len() * widest(g), longest(g) + 1);
}

/// Items that make sense have the same code only if they are the same.
pub proof fn lemma_code_injective(g: GrammarView, a: Item, b: Item, i: int, j: int)
    requires
        item_ok(g, a, i),
        item_ok(g, b, j),
        code(g, a) == code(g, b),
    ensures
        a == b,
{
    lemma_widest_upto(g, g.len() as int, a.rule);
    lemma_widest_upto(g, g.len() as int, b.rule);
    lemma_longest_upto(g, g.len() as int, a.rule, a.production);
    lemma_longest_upto(g, g.len() as int, b.rule, b.production);
    let a1 = paired(a.start, a.rule, g.len() as int);
    let b1 = paired(b.start, b.rule, g.len() as int);
    let a2 = paired(a1, a.production, widest(g));
    let b2 = paired(b1, b.production, widest(g));
    lemma_paired_injective(a2, a.dot, b2, b.dot, longest(g) + 1);
    lemma_paired_injective(a1, a.production, b1, b.production, widest(g));
    lemma_paired_injective(a.start, a.rule, b.start, b.rule, g.len() as int);
}

/// A column that is in order holds no more items than its capacity.
pub proof fn lemma_column_fits(g: GrammarView, column: Seq<Item>, i: int)
    requires
        column_ok(g, column, i),
        column.len() > 0,
    ensures
        column.len() <= capacity(g, i),
{
    let codes = column.map_values(|item: Item| code(g, item));
    lemma_code_bound(g, column[0], i);
    assert forall|k: int| 0 <= k < codes.len() implies 0 <= #[trigger] codes[k] < capacity(
        g,
        i,
    ) by {
        lemma_code_bound(g, column[k], i);
    }
    assert forall|a: int, b: int|
        0 <= a < codes.len() && 0 <= b < codes.len() && a != b implies codes[a] != codes[b] by {
        if codes[a] == codes[b] {
            lemma_code_injective(g, column[a], column[b], i, i);
        }
    }
    lemma_pigeonhole(codes, capacity(g, i));
}

} // verus!
