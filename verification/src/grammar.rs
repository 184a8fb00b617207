use vstd::prelude::*;

verus! {

/// The name of the rule that every parse starts from. A grammar gives it one
/// production, which names the user's top-level rule.
pub const START_RULE_NAME: &'static str = "Γ";

/// One symbol of a production.
#[derive(Debug, PartialEq, Eq)]
pub enum Symbol {
    /// A reference to the rule of this name.
    Rule(String),
    /// A lexeme of this kind.
    Lexeme(String),
}

/// The mathematical value of a [`Symbol`].
pub enum SymbolView {
    Rule(Seq<char>),
    Lexeme(Seq<char>),
}

impl View for Symbol {
    type V = SymbolView;

    open spec fn view(&self) -> SymbolView {
        match self {
            Symbol::Rule(name) => SymbolView::Rule(name@),
            Symbol::Lexeme(kind) => SymbolView::Lexeme(kind@),
        }
    }
}

impl Symbol {
    /// Whether two symbols are of the same variant and carry the same name.
    pub fn same(&self, other: &Symbol) -> (eq: bool)
        ensures
            eq == (self@ == other@),
    {
        match self {
            Symbol::Rule(a) => match other {
                Symbol::Rule(b) => *a == *b,
                Symbol::Lexeme(_) => false,
            },
            Symbol::Lexeme(a) => match other {
                Symbol::Rule(_) => false,
                Symbol::Lexeme(b) => *a == *b,
            },
        }
    }
}

/// One alternative of a rule: the symbols it expands to, in order. No
/// symbols at all make an empty production.
#[derive(Debug, PartialEq, Eq)]
pub struct Production {
    /// The symbols of the production, from left to right.
    pub symbols: Vec<Symbol>,
}

impl View for Production {
    type V = Seq<SymbolView>;

    open spec fn view(&self) -> Seq<SymbolView> {
        self.symbols@.map_values(|symbol: Symbol| symbol@)
    }
}

impl Production {
    /// Whether two productions consist of the same symbols in the same order.
    pub fn same(&self, other: &Production) -> (eq: bool)
        ensures
            eq == (self@ == other@),
    {
        if self.symbols.len() != other.symbols.len() {
            assert(self@.len() != other@.len());
            return false;
        }
        let mut d: usize = 0;
        while d < self.symbols.len()
            invariant
                d <= self.symbols.len(),
                self.symbols.len() == other.symbols.len(),
                forall|j: int| 0 <= j < d ==> self@[j] == other@[j],
            decreases self.symbols.len() - d,
        {
            if !self.symbols[d].same(&other.symbols[d]) {
                assert(self@[d as int] != other@[d as int]);
                return false;
            }
            d += 1;
        }
        assert(self@ =~= other@);
        true
    }
}

/// A named rule and its productions.
#[derive(Debug, PartialEq, Eq)]
pub struct GrammarRule {
    /// The name that symbols refer to the rule by.
    pub name: String,
    /// The alternatives of the rule, in the order in which they are tried.
    pub productions: Vec<Production>,
}

/// The mathematical value of a [`GrammarRule`].
pub struct RuleView {
    pub name: Seq<char>,
    pub productions: Seq<Seq<SymbolView>>,
}

impl View for GrammarRule {
    type V = RuleView;

    open spec fn view(&self) -> RuleView {
        RuleView {
            name: self.name@,
            productions: self.productions@.map_values(|production: Production| production@),
        }
    }
}

/// A context-free grammar: its rules, found by name.
#[derive(Debug, PartialEq, Eq)]
pub struct Grammar {
    /// The rules of the grammar, the start rule among them.
    pub rules: Vec<GrammarRule>,
}

/// The mathematical value of a [`Grammar`]: its rules in order.
pub type GrammarView = Seq<RuleView>;

impl View for Grammar {
    type V = GrammarView;

    open spec fn view(&self) -> GrammarView {
        self.rules@.map_values(|rule: GrammarRule| rule@)
    }
}

/// The name of the start rule, as a sequence of characters.
pub open spec fn start_name() -> Seq<char> {
    START_RULE_NAME@
}

/// Whether the grammar has a rule of this name.
pub open spec fn defines(g: GrammarView, name: Seq<char>) -> bool {
    exists|r: int| 0 <= r < g.len() && (#[trigger] g[r]).name == name
}

/// The index of a rule of this name, when there is one.
pub open spec fn rule_named(g: GrammarView, name: Seq<char>) -> int {
    choose|r: int| 0 <= r < g.len() && (#[trigger] g[r]).name == name
}

/// No two rules share a name.
pub open spec fn names_unique(g: GrammarView) -> bool {
    forall|a: int, b: int| 0 <= a < b < g.len() ==> (#[trigger] g[a]).name != (#[trigger] g[b]).name
}

/// A symbol is resolved when it is a lexeme kind or names a rule of the
/// grammar.
pub open spec fn resolved(g: GrammarView, symbol: SymbolView) -> bool {
    match symbol {
        SymbolView::Rule(name) => defines(g, name),
        SymbolView::Lexeme(_) => true,
    }
}

/// A rule is sound when it has at least one production, no production
/// twice, and every symbol of its productions is resolved.
pub open spec fn rule_sound(g: GrammarView, rule: RuleView) -> bool {
    &&& rule.productions.len() > 0
    &&& forall|p: int, q: int|
        0 <= p < q < rule.productions.len() ==> #[trigger] rule.productions[p]
            != #[trigger] rule.productions[q]
    &&& forall|p: int, d: int|
        0 <= p < rule.productions.len() && 0 <= d < rule.productions[p].len() ==> resolved(
            g,
            #[trigger] rule.productions[p][d],
        )
}

/// The start rule is there and has exactly one production, which is a
/// single reference to a rule.
pub open spec fn start_sound(g: GrammarView) -> bool {
    &&& defines(g, start_name())
    &&& g[rule_named(g, start_name())].productions.len() == 1
    &&& g[rule_named(g, start_name())].productions[0].len() == 1
    &&& g[rule_named(g, start_name())].productions[0][0] is Rule
}

/// What parsing asks of a grammar.
pub open spec fn well_formed(g: GrammarView) -> bool {
    &&& names_unique(g)
    &&& forall|r: int| 0 <= r < g.len() ==> rule_sound(g, #[trigger] g[r])
    &&& start_sound(g)
}

/// Where names are unique, a rule is the rule of its name.
pub proof fn lemma_rule_named(g: GrammarView, r: int)
    requires
        names_unique(g),
        0 <= r < g.len(),
    ensures
        rule_named(g, g[r].name) == r,
{
    let found = rule_named(g, g[r].name);
    assert(0 <= found < g.len() && g[found].name == g[r].name);
    if found < r {
        assert(g[found].name != g[r].name);
    } else if r < found {
        assert(g[r].name != g[found].name);
    }
}

/// The productions of a grammar that is held in memory have lengths that
/// the machine can count.
pub proof fn lemma_production_fits(grammar: &Grammar, rule: int, production: int)
    requires
        0 <= rule < grammar@.len(),
        0 <= production < grammar@[rule].productions.len(),
    ensures
        grammar@[rule].productions[production].len() <= usize::MAX,
        grammar@[rule].productions.len() <= usize::MAX,
        grammar@.len() <= usize::MAX,
{
    let held = grammar.rules@[rule];
    assert(grammar@[rule] == held@);
    assert(held@.productions[production] == held.productions@[production]@);
    assert(held.productions@[production]@.len() == held.productions@[production].symbols.len());
    assert(held@.productions.len() == held.productions.len());
    assert(grammar@.len() == grammar.rules.len());
}

impl Grammar {
    /// The name of the rule at `rule`.
    pub fn rule_name(&self, rule: usize) -> (name: &String)
        requires
            rule < self@.len(),
        ensures
            name@ == self@[rule as int].name,
    {
        &self.rules[rule].name
    }

    /// The number of symbols of a production.
    pub fn production_len(&self, rule: usize, production: usize) -> (len: usize)
        requires
            rule < self@.len(),
            production < self@[rule as int].productions.len(),
        ensures
            len == self@[rule as int].productions[production as int].len(),
    {
        self.rules[rule].productions[production].symbols.len()
    }

    /// The symbol at `dot` of a production.
    pub fn symbol_at(&self, rule: usize, production: usize, dot: usize) -> (symbol: &Symbol)
        requires
            rule < self@.len(),
            production < self@[rule as int].productions.len(),
            dot < self@[rule as int].productions[production as int].len(),
        ensures
            symbol@ == self@[rule as int].productions[production as int][dot as int],
    {
        &self.rules[rule].productions[production].symbols[dot]
    }

    /// The index of the first rule of the given name.
    pub fn find_rule(&self, name: &String) -> (found: Option<usize>)
        ensures
            match found {
                Some(r) => r < self@.len() && self@[r as int].name == name@ && forall|j: int|
                    0 <= j < r ==> (#[trigger] self@[j]).name != name@,
                None => !defines(self@, name@),
            },
    {
        let mut r: usize = 0;
        while r < self.rules.len()
            invariant
                r <= self.rules.len(),
                forall|j: int| 0 <= j < r ==> (#[trigger] self@[j]).name != name@,
            decreases self.rules.len() - r,
        {
            if self.rules[r].name == *name {
                return Some(r);
            }
            r += 1;
        }
        None
    }

    /// The index of the rule of the given name, in a grammar that has one.
    pub fn rule_index(&self, name: &String) -> (r: usize)
        requires
            names_unique(self@),
            defines(self@, name@),
        ensures
            r == rule_named(self@, name@),
            r < self@.len(),
            self@[r as int].name == name@,
    {
        match self.find_rule(name) {
            Some(r) => {
                proof {
                    lemma_rule_named(self@, r as int);
                }
                r
            },
            None => vstd::pervasive::unreached(),
        }
    }

    /// Whether no two rules share a name.
    pub fn has_unique_names(&self) -> (ok: bool)
        ensures
            ok == names_unique(self@),
    {
        let mut b: usize = 0;
        while b < self.rules.len()
            invariant
                b <= self.rules.len(),
                forall|i: int, j: int|
                    0 <= i < j < b ==> (#[trigger] self@[i]).name != (#[trigger] self@[j]).name,
            decreases self.rules.len() - b,
        {
            let mut a: usize = 0;
            while a < b
                invariant
                    a <= b,
                    b < self.rules.len(),
                    forall|i: int|
                        0 <= i < a ==> (#[trigger] self@[i]).name != self@[b as int].name,
                decreases b - a,
            {
                if self.rules[a].name == self.rules[b].name {
                    assert(self@[a as int].name == self@[b as int].name);
                    return false;
                }
                a += 1;
            }
            b += 1;
        }
        true
    }

    /// Whether the rule at `r` is sound: see [`rule_sound`].
    pub fn has_sound_rule(&self, r: usize) -> (ok: bool)
        requires
            r < self.rules.len(),
        ensures
            ok == rule_sound(self@, self@[r as int]),
    {
        let rule = &self.rules[r];
        let ghost view = self@[r as int];
        assert(view == rule@);
        if rule.productions.len() == 0 {
            return false;
        }
        let mut q: usize = 0;
        while q < rule.productions.len()
            invariant
                q <= rule.productions.len(),
                view == rule@,
                view == self@[r as int],
                forall|i: int, j: int|
                    0 <= i < j < q ==> #[trigger] view.productions[i]
                        != #[trigger] view.productions[j],
                forall|i: int, d: int|
                    0 <= i < q && 0 <= d < view.productions[i].len() ==> resolved(
                        self@,
                        #[trigger] view.productions[i][d],
                    ),
            decreases rule.productions.len() - q,
        {
            let production = &rule.productions[q];
            assert(view.productions[q as int] == production@);
            let mut p: usize = 0;
            while p < q
                invariant
                    p <= q,
                    q < rule.productions.len(),
                    view == rule@,
                    view == self@[r as int],
                    view.productions[q as int] == production@,
                    forall|i: int|
                        0 <= i < p ==> #[trigger] view.productions[i] != view.productions[q as int],
                decreases q - p,
            {
                assert(view.productions[p as int] == rule.productions[p as int]@);
                if rule.productions[p].same(production) {
                    return false;
                }
                p += 1;
            }
            let mut d: usize = 0;
            while d < production.symbols.len()
                invariant
                    d <= production.symbols.len(),
                    q < rule.productions.len(),
                    view == rule@,
                    view == self@[r as int],
                    view.productions[q as int] == production@,
                    forall|j: int|
                        0 <= j < d ==> resolved(self@, #[trigger] view.productions[q as int][j]),
                decreases production.symbols.len() - d,
            {
                assert(view.productions[q as int][d as int] == production.symbols[d as int]@);
                match &production.symbols[d] {
                    Symbol::Rule(name) => {
                        if self.find_rule(name).is_none() {
                            assert(!resolved(self@, view.productions[q as int][d as int]));
                            return false;
                        }
                    },
                    Symbol::Lexeme(_) => {},
                }
                d += 1;
            }
            q += 1;
        }
        true
    }

    /// Whether the start rule is sound: see [`start_sound`].
    pub fn has_sound_start(&self) -> (ok: bool)
        requires
            names_unique(self@),
        ensures
            ok == start_sound(self@),
    {
        let start = String::from_str(START_RULE_NAME);
        match self.find_rule(&start) {
            None => false,
            Some(r) => {
                proof {
                    lemma_rule_named(self@, r as int);
                }
                let rule = &self.rules[r];
                assert(self@[r as int] == rule@);
                if rule.productions.len() != 1 {
                    return false;
                }
                let production = &rule.productions[0];
                assert(rule@.productions[0] == production@);
                if production.symbols.len() != 1 {
                    return false;
                }
                assert(production@[0] == production.symbols[0]@);
                match &production.symbols[0] {
                    Symbol::Rule(_) => true,
                    Symbol::Lexeme(_) => false,
                }
            },
        }
    }

    /// Whether the grammar is fit for parsing: see [`well_formed`].
    pub fn is_well_formed(&self) -> (ok: bool)
        ensures
            ok == well_formed(self@),
    {
        if !self.has_unique_names() {
            return false;
        }
        let mut r: usize = 0;
        while r < self.rules.len()
            invariant
                r <= self.rules.len(),
                forall|j: int| 0 <= j < r ==> rule_sound(self@, #[trigger] self@[j]),
            decreases self.rules.len() - r,
        {
            if !self.has_sound_rule(r) {
                return false;
            }
            r += 1;
        }
        self.has_sound_start()
    }
}

} // verus!
