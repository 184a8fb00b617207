use santiago::grammar::Grammar;
use santiago::grammar::GrammarRule;
use santiago::grammar::Production;
use santiago::grammar::Symbol;
use santiago::grammar::START_RULE_NAME;
use santiago::lex::Lexeme;
use santiago::lex::Position;

fn production(symbols: Vec<Symbol>) -> Production {
    Production { symbols }
}

fn named(name: &str, productions: Vec<Production>) -> GrammarRule {
    GrammarRule { name: name.to_string(), productions }
}

fn refer(name: &str) -> Symbol {
    Symbol::Rule(name.to_string())
}

fn kind(name: &str) -> Symbol {
    Symbol::Lexeme(name.to_string())
}

fn start(name: &str) -> GrammarRule {
    named(START_RULE_NAME, vec![production(vec![refer(name)])])
}

fn letters() -> Grammar {
    Grammar {
        rules: vec![
            named("S", vec![production(vec![refer("T"), kind("a")]), production(vec![])]),
            named("T", vec![production(vec![kind("b")])]),
            start("S"),
        ],
    }
}

#[test]
fn start_rule_name_is_gamma() {
    assert_eq!(START_RULE_NAME, "\u{393}");
}

#[test]
fn sound_grammar_is_well_formed() {
    let g = letters();
    assert!(g.has_unique_names());
    assert!(g.has_sound_rule(0));
    assert!(g.has_sound_rule(1));
    assert!(g.has_sound_rule(2));
    assert!(g.has_sound_start());
    assert!(g.is_well_formed());
}

#[test]
fn rules_are_found_by_name() {
    let g = letters();
    assert_eq!(g.find_rule(&"S".to_string()), Some(0));
    assert_eq!(g.find_rule(&"T".to_string()), Some(1));
    assert_eq!(g.find_rule(&START_RULE_NAME.to_string()), Some(2));
    assert_eq!(g.find_rule(&"U".to_string()), None);
    assert_eq!(g.rule_index(&"T".to_string()), 1);
}

#[test]
fn rules_give_their_parts() {
    let g = letters();
    assert_eq!(g.rule_name(1), "T");
    assert_eq!(g.production_len(0, 0), 2);
    assert_eq!(g.production_len(0, 1), 0);
    assert_eq!(g.symbol_at(0, 0, 0), &refer("T"));
    assert_eq!(g.symbol_at(0, 0, 1), &kind("a"));
}

#[test]
fn symbols_are_the_same_by_variant_and_name() {
    assert!(refer("a").same(&refer("a")));
    assert!(kind("a").same(&kind("a")));
    assert!(!refer("a").same(&kind("a")));
    assert!(!kind("a").same(&refer("a")));
    assert!(!refer("a").same(&refer("b")));
    assert!(!kind("a").same(&kind("b")));
}

#[test]
fn productions_are_the_same_by_their_symbols() {
    let one = production(vec![refer("T"), kind("a")]);
    assert!(one.same(&production(vec![refer("T"), kind("a")])));
    assert!(!one.same(&production(vec![refer("T")])));
    assert!(!one.same(&production(vec![refer("T"), kind("b")])));
    assert!(production(vec![]).same(&production(vec![])));
}

#[test]
fn two_rules_of_one_name_are_not_well_formed() {
    let mut g = letters();
    g.rules.push(named("T", vec![production(vec![kind("c")])]));
    assert!(!g.has_unique_names());
    assert!(!g.is_well_formed());
}

#[test]
fn rule_without_productions_is_not_sound() {
    let mut g = letters();
    g.rules.push(named("U", vec![]));
    assert!(!g.has_sound_rule(3));
    assert!(!g.is_well_formed());
}

#[test]
fn rule_with_a_production_twice_is_not_sound() {
    let mut g = letters();
    g.rules.push(named("U", vec![production(vec![kind("c")]), production(vec![kind("c")])]));
    assert!(!g.has_sound_rule(3));
    assert!(!g.is_well_formed());
}

#[test]
fn rule_that_refers_to_no_rule_is_not_sound() {
    let mut g = letters();
    g.rules.push(named("U", vec![production(vec![kind("c"), refer("V")])]));
    assert!(!g.has_sound_rule(3));
    assert!(!g.is_well_formed());
}

#[test]
fn start_rule_must_be_one_reference() {
    let body = vec![
        named("S", vec![production(vec![kind("a")])]),
    ];
    let with = |rule: GrammarRule| {
        let mut rules = vec![named("S", vec![production(vec![kind("a")])])];
        rules.push(rule);
        Grammar { rules }
    };
    assert!(!Grammar { rules: body }.has_sound_start());
    assert!(with(start("S")).has_sound_start());
    assert!(!with(named(START_RULE_NAME, vec![])).has_sound_start());
    assert!(!with(named(START_RULE_NAME, vec![production(vec![])])).has_sound_start());
    assert!(!with(named(START_RULE_NAME, vec![production(vec![kind("a")])])).has_sound_start());
    assert!(!with(named(START_RULE_NAME, vec![production(vec![refer("S"), refer("S")])]))
        .has_sound_start());
    assert!(!with(named(
        START_RULE_NAME,
        vec![production(vec![refer("S")]), production(vec![kind("a")])]
    ))
    .has_sound_start());
}

#[test]
fn lexemes_are_made_and_copied() {
    let lexeme = Lexeme::new("int".to_string(), "12".to_string(), Position::new(3, 4));
    assert_eq!(
        lexeme,
        Lexeme {
            kind: "int".to_string(),
            raw: "12".to_string(),
            position: Position { line: 3, column: 4 },
        }
    );
    assert_eq!(lexeme.clone(), lexeme);
}
