use santiago::grammar::Grammar;
use santiago::grammar::GrammarRule;
use santiago::grammar::Production;
use santiago::grammar::Symbol;
use santiago::grammar::START_RULE_NAME;
use santiago::lex::Lexeme;
use santiago::lex::Position;
use santiago::parser::parse;
use santiago::parser::ParseError;
use santiago::parser::Tree;

fn rule(name: &str) -> Symbol {
    Symbol::Rule(name.to_string())
}

fn lexeme(kind: &str) -> Symbol {
    Symbol::Lexeme(kind.to_string())
}

fn grammar_rule(name: &str, productions: Vec<Vec<Symbol>>) -> GrammarRule {
    GrammarRule {
        name: name.to_string(),
        productions: productions.into_iter().map(|symbols| Production { symbols }).collect(),
    }
}

fn grammar(start: &str, mut rules: Vec<GrammarRule>) -> Grammar {
    rules.push(grammar_rule(START_RULE_NAME, vec![vec![rule(start)]]));
    Grammar { rules }
}

fn token(kind: &str, raw: &str, column: usize) -> Lexeme {
    Lexeme { kind: kind.to_string(), raw: raw.to_string(), position: Position { line: 1, column } }
}

fn leaf(kind: &str, raw: &str, column: usize) -> Tree {
    Tree::Leaf(token(kind, raw, column))
}

fn node(name: &str, children: Vec<Tree>) -> Tree {
    Tree::Node { name: name.to_string(), children }
}

fn leaves(tree: &Tree) -> Vec<Lexeme> {
    match tree {
        Tree::Leaf(lexeme) => vec![lexeme.clone()],
        Tree::Node { children, .. } => children.iter().flat_map(leaves).collect(),
    }
}

fn sums() -> Grammar {
    grammar(
        "Sum",
        vec![
            grammar_rule("Sum", vec![vec![rule("Sum"), rule("Plus"), rule("Sum")], vec![lexeme("int")]]),
            grammar_rule("Plus", vec![vec![lexeme("plus")]]),
        ],
    )
}

fn number(raw: &str, column: usize) -> Tree {
    node("Sum", vec![leaf("int", raw, column)])
}

fn plus(column: usize) -> Tree {
    node("Plus", vec![leaf("plus", "+", column)])
}

#[test]
fn ambiguous_sum_has_both_groupings() {
    let lexemes = vec![
        token("int", "1", 1),
        token("plus", "+", 3),
        token("int", "2", 5),
        token("plus", "+", 7),
        token("int", "3", 9),
    ];
    let trees = parse(&sums(), &lexemes).unwrap();
    let left = node(
        START_RULE_NAME,
        vec![node(
            "Sum",
            vec![node("Sum", vec![number("1", 1), plus(3), number("2", 5)]), plus(7), number("3", 9)],
        )],
    );
    let right = node(
        START_RULE_NAME,
        vec![node(
            "Sum",
            vec![number("1", 1), plus(3), node("Sum", vec![number("2", 5), plus(7), number("3", 9)])],
        )],
    );
    assert_eq!(trees.len(), 2);
    assert!(trees.contains(&left));
    assert!(trees.contains(&right));
    assert_eq!(trees, vec![right, left]);
}

#[test]
fn single_lexeme_has_one_tree() {
    let lexemes = vec![token("int", "7", 1)];
    let trees = parse(&sums(), &lexemes).unwrap();
    assert_eq!(trees, vec![node(START_RULE_NAME, vec![number("7", 1)])]);
}

#[test]
fn two_ints_are_rejected_after_the_first() {
    let lexemes = vec![token("int", "1", 1), token("int", "2", 3)];
    let error = parse(&sums(), &lexemes).unwrap_err();
    assert_eq!(
        error,
        ParseError::UnrecognizedInput { furthest: 1, expected: vec!["plus".to_string()] }
    );
}

#[test]
fn nullable_tail_has_one_tree() {
    let g = grammar(
        "A",
        vec![
            grammar_rule("A", vec![vec![rule("B"), rule("A")], vec![]]),
            grammar_rule("B", vec![vec![lexeme("b")]]),
        ],
    );
    let lexemes = vec![token("b", "b", 1), token("b", "b", 2)];
    let trees = parse(&g, &lexemes).unwrap();
    let b = |column: usize| node("B", vec![leaf("b", "b", column)]);
    let expected = node(
        START_RULE_NAME,
        vec![node("A", vec![b(1), node("A", vec![b(2), node("A", vec![])])])],
    );
    assert_eq!(trees, vec![expected]);
    assert_eq!(leaves(&trees[0]), lexemes);
}

#[test]
fn left_recursion_has_a_left_spine() {
    let g = grammar("L", vec![grammar_rule("L", vec![vec![rule("L"), lexeme("a")], vec![lexeme("a")]])]);
    let lexemes = vec![token("a", "a", 1), token("a", "a", 2), token("a", "a", 3)];
    let trees = parse(&g, &lexemes).unwrap();
    let spine = node(
        "L",
        vec![
            node("L", vec![node("L", vec![leaf("a", "a", 1)]), leaf("a", "a", 2)]),
            leaf("a", "a", 3),
        ],
    );
    assert_eq!(trees, vec![node(START_RULE_NAME, vec![spine])]);
}

#[test]
fn empty_input_with_empty_start_has_one_tree() {
    let g = grammar("S", vec![grammar_rule("S", vec![vec![]])]);
    let trees = parse(&g, &[]).unwrap();
    assert_eq!(trees, vec![node(START_RULE_NAME, vec![node("S", vec![])])]);
    assert!(leaves(&trees[0]).is_empty());
}

#[test]
fn empty_input_without_empty_start_is_rejected_at_once() {
    let error = parse(&sums(), &[]).unwrap_err();
    assert_eq!(
        error,
        ParseError::UnrecognizedInput { furthest: 0, expected: vec!["int".to_string()] }
    );
}

fn ints(count: usize) -> Vec<Lexeme> {
    let mut lexemes = Vec::new();
    for i in 0..count {
        if i > 0 {
            lexemes.push(token("plus", "+", 2 * i));
        }
        lexemes.push(token("int", "1", 2 * i + 1));
    }
    lexemes
}

#[test]
fn sums_have_as_many_trees_as_groupings() {
    assert_eq!(parse(&sums(), &ints(1)).unwrap().len(), 1);
    assert_eq!(parse(&sums(), &ints(2)).unwrap().len(), 1);
    assert_eq!(parse(&sums(), &ints(3)).unwrap().len(), 2);
    assert_eq!(parse(&sums(), &ints(4)).unwrap().len(), 5);
    assert_eq!(parse(&sums(), &ints(5)).unwrap().len(), 14);
}

#[test]
fn every_tree_reads_back_as_the_input() {
    let lexemes = ints(5);
    let trees = parse(&sums(), &lexemes).unwrap();
    for tree in &trees {
        assert_eq!(leaves(tree), lexemes);
        assert!(matches!(tree, Tree::Node { name, children } if name == START_RULE_NAME && children.len() == 1));
    }
}

#[test]
fn no_tree_is_returned_twice() {
    let trees = parse(&sums(), &ints(5)).unwrap();
    for a in 0..trees.len() {
        for b in 0..a {
            assert_ne!(trees[a], trees[b]);
        }
    }
}

#[test]
fn parsing_twice_gives_the_same_trees_in_the_same_order() {
    let lexemes = ints(4);
    assert_eq!(parse(&sums(), &lexemes), parse(&sums(), &lexemes));
    let wrong = vec![token("plus", "+", 1)];
    assert_eq!(parse(&sums(), &wrong), parse(&sums(), &wrong));
}

#[test]
fn parsing_leaves_grammar_and_lexemes_as_they_were() {
    let g = sums();
    let lexemes = ints(3);
    let _ = parse(&g, &lexemes);
    assert_eq!(g, sums());
    assert_eq!(lexemes, ints(3));
}

#[test]
fn input_that_stops_short_is_rejected_at_its_end() {
    let lexemes = vec![token("int", "1", 1), token("plus", "+", 3)];
    let error = parse(&sums(), &lexemes).unwrap_err();
    assert_eq!(
        error,
        ParseError::UnrecognizedInput { furthest: 2, expected: vec!["int".to_string()] }
    );
}

#[test]
fn expected_kinds_are_listed_once_in_the_order_of_the_states() {
    let g = grammar(
        "S",
        vec![grammar_rule(
            "S",
            vec![
                vec![lexeme("a"), lexeme("b")],
                vec![lexeme("a"), lexeme("c")],
                vec![lexeme("a"), lexeme("b"), lexeme("d")],
            ],
        )],
    );
    let error = parse(&g, &[token("a", "a", 1), token("x", "x", 2)]).unwrap_err();
    assert_eq!(
        error,
        ParseError::UnrecognizedInput {
            furthest: 1,
            expected: vec!["b".to_string(), "c".to_string()],
        }
    );
}

#[test]
fn rule_that_derives_itself_terminates() {
    let g = grammar("A", vec![grammar_rule("A", vec![vec![rule("A")], vec![lexeme("a")]])]);
    let lexemes = vec![token("a", "a", 1)];
    let trees = parse(&g, &lexemes).unwrap();
    let direct = node("A", vec![leaf("a", "a", 1)]);
    let once = node("A", vec![node("A", vec![leaf("a", "a", 1)])]);
    assert_eq!(trees, vec![node(START_RULE_NAME, vec![direct]), node(START_RULE_NAME, vec![once])]);
}

#[test]
fn empty_rule_that_derives_itself_terminates() {
    let g = grammar("A", vec![grammar_rule("A", vec![vec![rule("A")], vec![]])]);
    let trees = parse(&g, &[]).unwrap();
    assert!(!trees.is_empty());
    for tree in &trees {
        assert!(leaves(tree).is_empty());
    }
}

#[test]
fn two_empty_rules_in_a_row_are_both_completed() {
    let g = grammar(
        "S",
        vec![grammar_rule("S", vec![vec![rule("A"), rule("A")]]), grammar_rule("A", vec![vec![]])],
    );
    let both = node("S", vec![node("A", vec![]), node("A", vec![])]);
    assert_eq!(parse(&g, &[]), Ok(vec![node(START_RULE_NAME, vec![both])]));
}

#[test]
fn empty_input_has_a_tree_for_each_empty_derivation() {
    let g = grammar(
        "S",
        vec![
            grammar_rule("S", vec![vec![rule("A"), rule("A")], vec![]]),
            grammar_rule("A", vec![vec![]]),
        ],
    );
    let trees = parse(&g, &[]).unwrap();
    let both = node(START_RULE_NAME, vec![node("S", vec![node("A", vec![]), node("A", vec![])])]);
    let none = node(START_RULE_NAME, vec![node("S", vec![])]);
    assert_eq!(trees.len(), 2);
    assert!(trees.contains(&both));
    assert!(trees.contains(&none));
}

#[test]
fn empty_rule_is_passed_by_a_state_that_is_found_after_it_was_completed() {
    let g = grammar(
        "S",
        vec![
            grammar_rule(
                "S",
                vec![vec![rule("X"), rule("A"), lexeme("c")], vec![rule("Z"), rule("A"), lexeme("d")]],
            ),
            grammar_rule("Z", vec![vec![rule("Y")]]),
            grammar_rule("Y", vec![vec![rule("X")]]),
            grammar_rule("X", vec![vec![lexeme("b")]]),
            grammar_rule("A", vec![vec![]]),
        ],
    );
    let x = node("X", vec![leaf("b", "b", 1)]);
    let lexemes = vec![token("b", "b", 1), token("d", "d", 2)];
    let z = node("Z", vec![node("Y", vec![x])]);
    let expected = node("S", vec![z, node("A", vec![]), leaf("d", "d", 2)]);
    assert_eq!(parse(&g, &lexemes), Ok(vec![node(START_RULE_NAME, vec![expected])]));
    let lexemes = vec![token("b", "b", 1), token("c", "c", 2)];
    let x = node("X", vec![leaf("b", "b", 1)]);
    let expected = node("S", vec![x, node("A", vec![]), leaf("c", "c", 2)]);
    assert_eq!(parse(&g, &lexemes), Ok(vec![node(START_RULE_NAME, vec![expected])]));
}

#[test]
fn empty_input_is_parsed_where_the_start_derives_nothing_through_many_rules() {
    let g = grammar(
        "S",
        vec![
            grammar_rule("S", vec![vec![rule("A"), rule("B"), rule("A")]]),
            grammar_rule("A", vec![vec![rule("B"), rule("B")], vec![lexeme("a")]]),
            grammar_rule("B", vec![vec![]]),
        ],
    );
    let b = || node("B", vec![]);
    let a = || node("A", vec![b(), b()]);
    assert_eq!(
        parse(&g, &[]),
        Ok(vec![node(START_RULE_NAME, vec![node("S", vec![a(), b(), a()])])])
    );
    let trees = parse(&g, &[token("a", "a", 1)]).unwrap();
    assert_eq!(trees.len(), 2);
    for tree in &trees {
        assert_eq!(leaves(tree), vec![token("a", "a", 1)]);
    }
}

#[test]
fn lexeme_text_and_position_reach_the_leaves() {
    let lexemes = vec![Lexeme {
        kind: "int".to_string(),
        raw: "0042".to_string(),
        position: Position { line: 7, column: 9 },
    }];
    let trees = parse(&sums(), &lexemes).unwrap();
    assert_eq!(leaves(&trees[0]), lexemes);
    assert_eq!(leaves(&trees[0])[0].raw, "0042");
    assert_eq!(leaves(&trees[0])[0].position, Position { line: 7, column: 9 });
}

#[test]
fn grammar_without_start_rule_is_a_violation() {
    let g = Grammar { rules: vec![grammar_rule("S", vec![vec![lexeme("a")]])] };
    assert_eq!(parse(&g, &[token("a", "a", 1)]), Err(ParseError::GrammarViolation));
}

#[test]
fn start_rule_without_productions_is_a_violation() {
    let g = Grammar { rules: vec![grammar_rule(START_RULE_NAME, vec![])] };
    assert_eq!(parse(&g, &[]), Err(ParseError::GrammarViolation));
}

#[test]
fn start_rule_alone_is_a_violation() {
    let g = grammar("S", vec![]);
    assert_eq!(parse(&g, &[]), Err(ParseError::GrammarViolation));
}

#[test]
fn reference_to_a_missing_rule_is_a_violation() {
    let g = grammar("S", vec![grammar_rule("S", vec![vec![lexeme("a"), rule("T")]])]);
    assert_eq!(parse(&g, &[token("a", "a", 1)]), Err(ParseError::GrammarViolation));
}
