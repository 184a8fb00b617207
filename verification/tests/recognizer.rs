use santiago::grammar::Grammar;
use santiago::grammar::GrammarRule;
use santiago::grammar::Production;
use santiago::grammar::Symbol;
use santiago::grammar::START_RULE_NAME;
use santiago::lex::Lexeme;
use santiago::lex::Position;
use santiago::parser::build_forest;
use santiago::parser::parse;
use santiago::parser::parse::catch_up;
use santiago::parser::parse::complete;
use santiago::parser::parse::expected_kinds;
use santiago::parser::parse::furthest_column;
use santiago::parser::parse::predict;
use santiago::parser::parse::retain_completed;
use santiago::parser::parse::scan;
use santiago::parser::recognize;
use santiago::parser::state::OPEN_END;
use santiago::parser::ParserColumn;
use santiago::parser::ParserState;
use santiago::parser::Tree;

fn sum_grammar() -> Grammar {
    let refer = |name: &str| Symbol::Rule(name.to_string());
    let kind = |name: &str| Symbol::Lexeme(name.to_string());
    Grammar {
        rules: vec![
            GrammarRule {
                name: "Sum".to_string(),
                productions: vec![
                    Production { symbols: vec![refer("Sum"), refer("Plus"), refer("Sum")] },
                    Production { symbols: vec![kind("int")] },
                ],
            },
            GrammarRule {
                name: "Plus".to_string(),
                productions: vec![Production { symbols: vec![kind("plus")] }],
            },
            GrammarRule {
                name: START_RULE_NAME.to_string(),
                productions: vec![Production { symbols: vec![refer("Sum")] }],
            },
        ],
    }
}

fn word(kind: &str, column: usize) -> Lexeme {
    Lexeme { kind: kind.to_string(), raw: kind.to_string(), position: Position { line: 1, column } }
}

fn state(rule: usize, production: usize, dot_index: usize, start_column: usize) -> ParserState {
    ParserState { rule, production, dot_index, start_column, end_column: OPEN_END }
}

fn items(column: &ParserColumn) -> Vec<(usize, usize, usize, usize)> {
    column
        .states
        .iter()
        .map(|state| (state.rule, state.production, state.dot_index, state.start_column))
        .collect()
}

#[test]
fn states_are_the_same_item_whatever_their_end() {
    let open = state(0, 1, 1, 0);
    let closed = ParserState { end_column: 3, ..open };
    assert!(open.same_item(&closed));
    assert!(!open.same_span(&closed));
    assert!(closed.same_span(&closed));
    assert!(!open.same_item(&state(0, 1, 0, 0)));
    assert!(!open.same_item(&state(0, 0, 1, 0)));
    assert!(!open.same_item(&state(1, 1, 1, 0)));
    assert!(!open.same_item(&state(0, 1, 1, 1)));
}

#[test]
fn states_know_their_next_symbol() {
    let g = sum_grammar();
    assert_eq!(state(0, 0, 0, 0).next_symbol(&g), Some(&Symbol::Rule("Sum".to_string())));
    assert_eq!(state(0, 0, 1, 0).next_symbol(&g), Some(&Symbol::Rule("Plus".to_string())));
    assert_eq!(state(0, 1, 0, 0).next_symbol(&g), Some(&Symbol::Lexeme("int".to_string())));
    assert_eq!(state(0, 1, 1, 0).next_symbol(&g), None);
    assert!(state(0, 1, 1, 0).completed(&g));
    assert!(!state(0, 0, 2, 0).completed(&g));
    assert!(state(0, 0, 3, 0).completed(&g));
}

#[test]
fn column_holds_each_item_once() {
    let mut column = ParserColumn::new(2, "int".to_string());
    assert_eq!(column.index, 2);
    assert_eq!(column.kind, "int");
    assert!(column.states.is_empty());
    column.add(state(0, 1, 1, 1));
    column.add(state(0, 0, 1, 1));
    column.add(ParserState { end_column: 2, ..state(0, 1, 1, 1) });
    assert_eq!(items(&column), vec![(0, 1, 1, 1), (0, 0, 1, 1)]);
    assert!(column.contains(&state(0, 0, 1, 1)));
    assert!(!column.contains(&state(0, 0, 2, 1)));
}

#[test]
fn prediction_adds_every_production_once() {
    let g = sum_grammar();
    let mut column = ParserColumn::new(3, "plus".to_string());
    column.add(state(0, 1, 0, 3));
    predict(&mut column, 0, &g.rules[0]);
    assert_eq!(items(&column), vec![(0, 1, 0, 3), (0, 0, 0, 3)]);
    predict(&mut column, 0, &g.rules[0]);
    assert_eq!(items(&column), vec![(0, 1, 0, 3), (0, 0, 0, 3)]);
    assert!(column.states.iter().all(|state| state.end_column == OPEN_END));
}

#[test]
fn scanning_moves_the_dot_over_a_lexeme_of_the_kind_of_the_column() {
    let g = sum_grammar();
    let mut column = ParserColumn::new(1, "int".to_string());
    scan(&mut column, &state(0, 1, 0, 0), &g);
    assert_eq!(items(&column), vec![(0, 1, 1, 0)]);
    scan(&mut column, &state(0, 1, 0, 0), &g);
    assert_eq!(items(&column), vec![(0, 1, 1, 0)]);
    assert!(column.states.iter().all(|state| state.end_column == OPEN_END));
}

#[test]
fn scanning_leaves_a_column_of_another_kind_as_it_is() {
    let g = sum_grammar();
    let mut column = ParserColumn::new(1, "plus".to_string());
    scan(&mut column, &state(0, 1, 0, 0), &g);
    assert!(column.states.is_empty());
    scan(&mut column, &state(0, 0, 0, 0), &g);
    scan(&mut column, &state(0, 1, 1, 0), &g);
    assert!(column.states.is_empty());
    scan(&mut column, &state(1, 0, 0, 0), &g);
    assert_eq!(items(&column), vec![(1, 0, 1, 0)]);
}

fn empties() -> Grammar {
    let refer = |name: &str| Symbol::Rule(name.to_string());
    Grammar {
        rules: vec![
            GrammarRule {
                name: "S".to_string(),
                productions: vec![Production { symbols: vec![refer("A"), refer("A")] }],
            },
            GrammarRule { name: "A".to_string(), productions: vec![Production { symbols: vec![] }] },
            GrammarRule {
                name: START_RULE_NAME.to_string(),
                productions: vec![Production { symbols: vec![refer("S")] }],
            },
        ],
    }
}

#[test]
fn catching_up_advances_over_a_rule_that_was_completed_before() {
    let g = empties();
    let mut column = ParserColumn::new(0, "^".to_string());
    column.add(state(2, 0, 0, 0));
    column.add(state(0, 0, 0, 0));
    column.add(state(1, 0, 0, 0));
    column.add(state(0, 0, 1, 0));
    catch_up(&mut column, &state(0, 0, 1, 0), &g, 3);
    assert_eq!(items(&column), vec![(2, 0, 0, 0), (0, 0, 0, 0), (1, 0, 0, 0), (0, 0, 1, 0), (0, 0, 2, 0)]);
    catch_up(&mut column, &state(0, 0, 1, 0), &g, 3);
    assert_eq!(column.states.len(), 5);
    assert_eq!(column.states[4].end_column, OPEN_END);
}

#[test]
fn catching_up_does_nothing_where_the_rule_was_not_completed_before() {
    let g = empties();
    let mut column = ParserColumn::new(0, "^".to_string());
    column.add(state(2, 0, 0, 0));
    column.add(state(0, 0, 0, 0));
    column.add(state(1, 0, 0, 0));
    catch_up(&mut column, &state(0, 0, 0, 0), &g, 2);
    assert_eq!(column.states.len(), 3);
    catch_up(&mut column, &state(2, 0, 0, 0), &g, 3);
    assert_eq!(column.states.len(), 3);
    let mut later = ParserColumn::new(1, "a".to_string());
    later.add(state(1, 0, 0, 0));
    later.add(state(0, 0, 1, 0));
    catch_up(&mut later, &state(0, 0, 1, 0), &g, 1);
    assert_eq!(later.states.len(), 2);
}

#[test]
fn chart_of_two_empty_rules_in_a_row_holds_the_goal() {
    let g = empties();
    let columns = recognize(&g, &[]);
    assert_eq!(
        items(&columns[0]),
        vec![(2, 0, 0, 0), (0, 0, 0, 0), (1, 0, 0, 0), (0, 0, 1, 0), (0, 0, 2, 0), (2, 0, 1, 0)]
    );
}

#[test]
fn completion_advances_the_states_that_waited() {
    let g = sum_grammar();
    let mut first = ParserColumn::new(0, "^".to_string());
    first.add(state(2, 0, 0, 0));
    first.add(state(0, 0, 0, 0));
    first.add(state(0, 1, 0, 0));
    let mut second = ParserColumn::new(1, "int".to_string());
    second.add(state(0, 1, 1, 0));
    let mut columns = vec![first, second];
    complete(&mut columns, 1, &state(0, 1, 1, 0), &g);
    assert_eq!(items(&columns[1]), vec![(0, 1, 1, 0), (2, 0, 1, 0), (0, 0, 1, 0)]);
    assert_eq!(items(&columns[0]), vec![(2, 0, 0, 0), (0, 0, 0, 0), (0, 1, 0, 0)]);
}

#[test]
fn completion_in_its_own_column_sees_the_column_as_it_was() {
    let refer = |name: &str| Symbol::Rule(name.to_string());
    let g = Grammar {
        rules: vec![
            GrammarRule {
                name: "A".to_string(),
                productions: vec![
                    Production { symbols: vec![] },
                    Production { symbols: vec![refer("A"), refer("A")] },
                ],
            },
            GrammarRule {
                name: START_RULE_NAME.to_string(),
                productions: vec![Production { symbols: vec![refer("A")] }],
            },
        ],
    };
    let mut column = ParserColumn::new(0, "^".to_string());
    column.add(state(1, 0, 0, 0));
    column.add(state(0, 1, 0, 0));
    column.add(state(0, 0, 0, 0));
    let mut columns = vec![column];
    complete(&mut columns, 0, &state(0, 0, 0, 0), &g);
    assert_eq!(
        items(&columns[0]),
        vec![(1, 0, 0, 0), (0, 1, 0, 0), (0, 0, 0, 0), (1, 0, 1, 0), (0, 1, 1, 0)]
    );
}

#[test]
fn chart_has_a_column_for_each_boundary() {
    let g = sum_grammar();
    let lexemes = vec![word("int", 1), word("plus", 2), word("int", 3)];
    let columns = recognize(&g, &lexemes);
    assert_eq!(columns.len(), 4);
    let kinds: Vec<&str> = columns.iter().map(|column| column.kind.as_str()).collect();
    assert_eq!(kinds, vec!["^", "int", "plus", "int"]);
    for (index, column) in columns.iter().enumerate() {
        assert_eq!(column.index, index);
    }
    assert_eq!(items(&columns[0]), vec![(2, 0, 0, 0), (0, 0, 0, 0), (0, 1, 0, 0)]);
    assert_eq!(items(&columns[1]), vec![(0, 1, 1, 0), (2, 0, 1, 0), (0, 0, 1, 0), (1, 0, 0, 1)]);
    assert!(columns[3].contains(&state(2, 0, 1, 0)));
    assert_eq!(furthest_column(&columns), 3);
}

#[test]
fn furthest_column_is_the_last_with_a_state() {
    let g = sum_grammar();
    let lexemes = vec![word("int", 1), word("int", 2), word("int", 3)];
    let columns = recognize(&g, &lexemes);
    assert!(columns[2].states.is_empty());
    assert!(columns[3].states.is_empty());
    assert_eq!(furthest_column(&columns), 1);
    assert_eq!(expected_kinds(&g, &columns[1]), vec!["plus".to_string()]);
    assert_eq!(expected_kinds(&g, &columns[0]), vec!["int".to_string()]);
    assert_eq!(furthest_column(&recognize(&g, &[word("plus", 1)])), 0);
}

#[test]
fn finished_chart_keeps_the_completed_states_and_tells_them_their_column() {
    let g = sum_grammar();
    let lexemes = vec![word("int", 1), word("plus", 2), word("int", 3)];
    let mut columns = recognize(&g, &lexemes);
    retain_completed(&mut columns, &g);
    assert!(columns[0].states.is_empty());
    assert_eq!(items(&columns[1]), vec![(0, 1, 1, 0), (2, 0, 1, 0)]);
    assert_eq!(items(&columns[2]), vec![(1, 0, 1, 1)]);
    assert_eq!(items(&columns[3]), vec![(0, 1, 1, 2), (0, 0, 3, 0), (2, 0, 1, 0)]);
    for (index, column) in columns.iter().enumerate() {
        assert_eq!(column.index, index);
        assert!(column.states.iter().all(|state| state.end_column == index));
    }
}

#[test]
fn forest_of_the_root_is_what_parsing_returns() {
    let g = sum_grammar();
    let lexemes = vec![
        word("int", 1),
        word("plus", 2),
        word("int", 3),
        word("plus", 4),
        word("int", 5),
    ];
    let mut columns = recognize(&g, &lexemes);
    retain_completed(&mut columns, &g);
    let root = ParserState { rule: 2, production: 0, dot_index: 1, start_column: 0, end_column: 5 };
    let trees = build_forest(&g, &lexemes, &columns, &root);
    assert_eq!(trees.len(), 2);
    assert_eq!(Ok(trees), parse(&g, &lexemes));
}

#[test]
fn forest_of_an_inner_state_is_rooted_at_its_rule() {
    let g = sum_grammar();
    let lexemes = vec![word("int", 1), word("plus", 2), word("int", 3)];
    let mut columns = recognize(&g, &lexemes);
    retain_completed(&mut columns, &g);
    let plus = ParserState { rule: 1, production: 0, dot_index: 1, start_column: 1, end_column: 2 };
    let trees = build_forest(&g, &lexemes, &columns, &plus);
    assert_eq!(
        trees,
        vec![Tree::Node { name: "Plus".to_string(), children: vec![Tree::Leaf(word("plus", 2))] }]
    );
    let copy = trees[0].clone();
    assert_eq!(copy, trees[0]);
}
