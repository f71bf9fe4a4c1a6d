use pomelo_impl::config::EAction;
use pomelo_impl::decl::{Decl, Ident, RhsSlot, TokenEnum, TypeRef};
use pomelo_impl::error::{ErrorKind, Fault};
use pomelo_impl::grammar::Lemon;
use pomelo_impl::minor::slot_of;
use pomelo_impl::precedence::{Associativity, Precedence};
use pomelo_impl::runtime::{find_reduce_action, find_shift_action};
use pomelo_impl::symbol::SymbolKind;
use pomelo_impl::tables::Tables;
use std::collections::HashMap;

fn id(name: &str) -> Ident {
    Ident { name: name.to_string(), span: 1 }
}

fn id_at(name: &str, span: usize) -> Ident {
    Ident { name: name.to_string(), span }
}

fn ty(n: usize) -> TypeRef {
    TypeRef { id: n, span: 100 + n }
}

fn slot(name: &str) -> RhsSlot {
    RhsSlot { toks: vec![id(name)], alias: None }
}

fn rule(lhs: &str, rhs: &[&str]) -> Decl {
    Decl::Rule { lhs: id(lhs), rhs: rhs.iter().map(|n| slot(n)).collect(), action: None, prec: None }
}

fn rule_prec(lhs: &str, rhs: &[&str], prec: &str) -> Decl {
    Decl::Rule {
        lhs: id(lhs),
        rhs: rhs.iter().map(|n| slot(n)).collect(),
        action: None,
        prec: Some(id(prec)),
    }
}

fn assoc(a: Associativity, names: &[&str]) -> Decl {
    Decl::Assoc(a, names.iter().map(|n| id(n)).collect())
}

fn load(decls: Vec<Decl>) -> Lemon {
    Lemon::new_from_decls(decls).expect("the grammar loads")
}

fn build(decls: Vec<Decl>) -> (Lemon, Tables) {
    let mut lem = load(decls);
    assert!(lem.can_build());
    let tables = lem.build().expect("the grammar builds");
    (lem, tables)
}

fn symbol(lem: &Lemon, name: &str) -> usize {
    lem.symbol_find(&name.to_string()).expect("the symbol exists")
}

fn token(t: &Tables, name: &str) -> usize {
    t.tokens.iter().find(|tok| tok.name == name).expect("the token exists").index
}

/// A parser that reads the tables as the generated parser does, and keeps
/// the rules it reduced by.
struct Run<'a> {
    t: &'a Tables,
    stack: Vec<(usize, usize)>,
    reduced: Vec<usize>,
    accepted: bool,
    failed: bool,
    errors: usize,
    errcnt: i32,
}

impl<'a> Run<'a> {
    fn new(t: &'a Tables) -> Self {
        Run {
            t,
            stack: vec![(0, 0)],
            reduced: Vec::new(),
            accepted: false,
            failed: false,
            errors: 0,
            errcnt: -1,
        }
    }

    fn top(&self) -> usize {
        self.stack[self.stack.len() - 1].0
    }

    fn reduce(&mut self, rule: usize) {
        let n = self.t.rules[rule].rhs.len();
        for _ in 0..n {
            self.stack.pop().expect("the stack holds the right-hand side");
        }
        self.reduced.push(rule);
        let goto = self.t.rule_info[rule];
        let act = find_reduce_action(self.t, self.top(), goto);
        if act < self.t.n_state {
            self.stack.push((act, goto));
        } else {
            assert_eq!(act, self.t.n_state + self.t.n_rule + 1);
            self.accepted = true;
            self.stack.clear();
        }
    }

    /// Feeds one token; 0 is the end of input.
    fn feed(&mut self, major: usize) {
        assert!(!self.accepted && !self.failed);
        let end = major == 0;
        let mut error_hit = false;
        while !self.accepted && !self.failed {
            let act = find_shift_action(self.t, self.top(), major);
            if act < self.t.n_state {
                assert!(!end);
                self.stack.push((act, major));
                self.errcnt -= 1;
                break;
            } else if act < self.t.n_state + self.t.n_rule {
                self.reduce(act - self.t.n_state);
            } else {
                assert_eq!(act, self.t.n_state + self.t.n_rule);
                if self.errcnt < 0 {
                    self.errors += 1;
                }
                let mx = self.stack[self.stack.len() - 1].1;
                if mx == self.t.error_symbol || error_hit {
                    break;
                }
                while !self.stack.is_empty() {
                    let act = find_reduce_action(self.t, self.top(), self.t.error_symbol);
                    if act < self.t.n_state {
                        if !end {
                            self.stack.push((act, self.t.error_symbol));
                        }
                        break;
                    }
                    self.stack.pop();
                }
                if self.stack.is_empty() || end {
                    self.failed = true;
                    return;
                }
                self.errcnt = 3;
                error_hit = true;
            }
        }
    }

    fn run(t: &'a Tables, input: &[usize]) -> Run<'a> {
        let mut run = Run::new(t);
        for &tok in input {
            if run.failed {
                return run;
            }
            run.feed(tok);
        }
        if !run.failed && !run.accepted {
            run.feed(0);
        }
        run
    }
}

fn arithmetic() -> Vec<Decl> {
    vec![
        assoc(Associativity::Left, &["Plus"]),
        assoc(Associativity::Left, &["Mult"]),
        rule("expr", &["expr", "Plus", "expr"]),
        rule("expr", &["expr", "Mult", "expr"]),
        rule("expr", &["Num"]),
    ]
}

/// The arithmetic grammar with a start rule of its own, so that the start
/// symbol stands on no right-hand side.
fn arithmetic_with_start() -> Vec<Decl> {
    let mut decls = vec![rule("input", &["expr"])];
    decls.extend(arithmetic());
    decls
}

#[test]
fn loader_creates_the_fixed_symbols() {
    let lem = load(vec![rule("s", &[])]);
    assert_eq!(lem.symbols[0].name, "$");
    assert_eq!(lem.symbols[0].kind, SymbolKind::Terminal);
    assert_eq!(lem.symbols[1].name, "error");
    assert_eq!(lem.symbols[1].kind, SymbolKind::NonTerminal);
    assert_eq!(lem.symbols.last().unwrap().name, "{default}");
    assert_eq!(lem.symbols.last().unwrap().kind, SymbolKind::NonTerminal);
    assert_eq!(lem.module_name().name, "parser");
}

#[test]
fn loader_counts_rules_and_numbers_them_densely() {
    let lem = load(arithmetic_with_start());
    assert_eq!(lem.rules.len(), 4);
    for (i, r) in lem.rules.iter().enumerate() {
        assert_eq!(r.index, i);
    }
}

#[test]
fn loader_reuses_symbols_and_counts_uses() {
    let lem = load(arithmetic());
    let expr = symbol(&lem, "expr");
    // three left-hand sides and four mentions on right-hand sides
    assert_eq!(lem.symbols[expr].use_cnt, 7);
    assert_eq!(lem.symbols[expr].rules, vec![0, 1, 2]);
    let plus = symbol(&lem, "Plus");
    assert_eq!(lem.symbols[plus].use_cnt, 2);
}

#[test]
fn loader_gives_each_associativity_directive_its_own_level() {
    let lem = load(vec![
        assoc(Associativity::Left, &["A", "B"]),
        assoc(Associativity::Right, &["C"]),
        assoc(Associativity::Nonassoc, &["D"]),
        rule("s", &["A"]),
    ]);
    let prec = |name: &str| {
        let p: Precedence = lem.symbols[symbol(&lem, name)].assoc.unwrap();
        (p.0, p.1)
    };
    assert_eq!(prec("A"), (1, Associativity::Left));
    assert_eq!(prec("B"), (1, Associativity::Left));
    assert_eq!(prec("C"), (2, Associativity::Right));
    assert_eq!(prec("D"), (3, Associativity::Nonassoc));
}

#[test]
fn loader_rejects_bad_identifiers() {
    let cases: Vec<(Decl, Fault)> = vec![
        (Decl::Type(id_at("_x", 7), ty(1)), Fault::SymbolNotAscii),
        (assoc(Associativity::Left, &["lower"]), Fault::PrecedenceOnNonTerminal),
        (Decl::StartSymbol(id("Upper")), Fault::StartNotNonTerminal),
        (Decl::Fallback(id("lower"), vec![id("A")]), Fault::FallbackNotToken),
        (Decl::Fallback(id("Id"), vec![id("lower")]), Fault::FallbackNotToken),
        (Decl::Wildcard(id("lower")), Fault::WildcardNotToken),
        (rule("Upper", &["A"]), Fault::LhsNotNonTerminal),
        (rule("s", &["_x"]), Fault::RhsInvalidToken),
        (
            Decl::Rule {
                lhs: id("s"),
                rhs: vec![RhsSlot { toks: vec![id("A"), id("b")], alias: None }],
                action: None,
                prec: None,
            },
            Fault::CompoundWithNonTerminal,
        ),
        (rule_prec("s", &["A"], "lower"), Fault::PrecedenceSymbolNotTerminal),
        (Decl::TokenClass(id("Cls"), vec![id("lower")]), Fault::TokenClassMemberNotToken),
    ];
    for (decl, fault) in cases {
        let err = Lemon::new_from_decls(vec![decl]).unwrap_err();
        assert_eq!(err.fault, fault);
        assert_eq!(err.kind(), ErrorKind::BadIdentifier);
    }
    let err = Lemon::new_from_decls(vec![Decl::Type(id_at("_x", 7), ty(1))]).unwrap_err();
    assert_eq!(err.span, 7);
}

#[test]
fn loader_rejects_duplicate_directives() {
    let twice = |d: Decl, fault: Fault| {
        let err = Lemon::new_from_decls(vec![d.clone(), d]).unwrap_err();
        assert_eq!(err.fault, fault);
        assert_eq!(err.kind(), ErrorKind::DuplicateDirective);
    };
    twice(Decl::StartSymbol(id("s")), Fault::StartAlreadyDefined);
    twice(Decl::DefaultType(ty(1)), Fault::DefaultTypeAlreadyDefined);
    twice(Decl::ExtraArgument(ty(1)), Fault::ExtraArgumentAlreadyDefined);
    twice(Decl::Error(ty(1)), Fault::ErrorTypeAlreadyDefined);
    twice(Decl::Wildcard(id("Any")), Fault::WildcardAlreadyDefined);
    twice(Decl::Type(id("A"), ty(1)), Fault::TypeAlreadyDefined);
    twice(assoc(Associativity::Left, &["A"]), Fault::PrecedenceAlreadyGiven);
    twice(Decl::Fallback(id("Id"), vec![id("Kw")]), Fault::FallbackAlreadyAssigned);
    twice(
        Decl::Token(TokenEnum { item: 0, span: 3, n_variants: 0 }),
        Fault::TokenRedeclared,
    );
}

#[test]
fn loader_keeps_the_first_error() {
    let err = Lemon::new_from_decls(vec![
        rule("s", &["A"]),
        Decl::StartSymbol(id_at("Upper", 11)),
        Decl::Wildcard(id_at("lower", 12)),
    ])
    .unwrap_err();
    assert_eq!(err.fault, Fault::StartNotNonTerminal);
    assert_eq!(err.span, 11);
}

#[test]
fn compound_slot_makes_a_multi_terminal() {
    let lem = load(vec![Decl::Rule {
        lhs: id("s"),
        rhs: vec![RhsSlot { toks: vec![id("A"), id("B"), id("C")], alias: None }],
        action: None,
        prec: None,
    }]);
    let mt = lem.rules[0].rhs[0].sym;
    assert_eq!(lem.symbols[mt].kind, SymbolKind::MultiTerminal);
    assert_eq!(lem.symbols[mt].name, "");
    let names: Vec<&str> =
        lem.symbols[mt].sub_sym.iter().map(|&c| lem.symbols[c].name.as_str()).collect();
    assert_eq!(names, vec!["A", "B", "C"]);
}

#[test]
fn prepare_numbers_terminals_first() {
    let mut lem = load(vec![
        rule("s", &["a", "X"]),
        rule("a", &["Y"]),
        Decl::TokenClass(id("Cls"), vec![id("X"), id("Y")]),
    ]);
    lem.prepare();
    // $ X Y | error s a {default} | Cls
    let index = |name: &str| lem.symbols[symbol(&lem, name)].index;
    assert_eq!(index("$"), 0);
    assert_eq!(index("X"), 1);
    assert_eq!(index("Y"), 2);
    assert_eq!(index("error"), 3);
    assert_eq!(index("s"), 4);
    assert_eq!(index("a"), 5);
    assert_eq!(index("{default}"), 6);
    assert_eq!(index("Cls"), 7);
    assert_eq!(lem.nterminal, 3);
    assert_eq!(lem.nsymbol, 6);
    assert!(lem.nterminal <= lem.nsymbol);
    for (i, &s) in lem.by_index.iter().enumerate() {
        assert_eq!(lem.symbols[s].index, i);
        assert_eq!(lem.symbols[s].kind == SymbolKind::Terminal, i < lem.nterminal);
    }
    assert_eq!(lem.start, Some(symbol(&lem, "s")));
}

#[test]
fn rule_precedence_is_that_of_the_first_slot_that_has_one() {
    let mut lem = load(vec![
        assoc(Associativity::Left, &["Plus"]),
        assoc(Associativity::Right, &["Pow"]),
        rule("e", &["e", "Plus", "e", "Pow", "e"]),
        rule_prec("e", &["Minus", "e"], "Pow"),
        rule("e", &["Num"]),
        Decl::Rule {
            lhs: id("e"),
            rhs: vec![RhsSlot { toks: vec![id("Lp"), id("Pow")], alias: None }],
            action: None,
            prec: None,
        },
        rule("top", &["e"]),
        Decl::StartSymbol(id("top")),
    ]);
    lem.prepare();
    lem.find_rule_precedences();
    assert_eq!(lem.rules[0].prec_sym, Some(symbol(&lem, "Plus")));
    assert_eq!(lem.rules[1].prec_sym, Some(symbol(&lem, "Pow")));
    assert_eq!(lem.rules[2].prec_sym, None);
    // of a compound, the first alternative that has a precedence
    assert_eq!(lem.rules[3].prec_sym, Some(symbol(&lem, "Pow")));
}

#[test]
fn first_sets_and_nullable_symbols() {
    // s ::= a b C ;  a ::= ;  a ::= A ;  b ::= ;  b ::= B b ;
    let mut lem = load(vec![
        rule("s", &["a", "b", "C"]),
        rule("a", &[]),
        rule("a", &["A"]),
        rule("b", &[]),
        rule("b", &["B", "b"]),
    ]);
    lem.prepare();
    lem.find_rule_precedences();
    lem.find_first_sets();
    let sym = |name: &str| &lem.symbols[symbol(&lem, name)];
    assert!(!sym("s").lambda);
    assert!(sym("a").lambda);
    assert!(sym("b").lambda);
    let first = |name: &str| -> Vec<usize> { sym(name).first_set.iter().cloned().collect() };
    let (a, b, c) = (sym("A").index, sym("B").index, sym("C").index);
    assert_eq!(first("a"), vec![a]);
    assert_eq!(first("b"), vec![b]);
    let mut all = vec![a, b, c];
    all.sort();
    assert_eq!(first("s"), all);
    // every rule's contribution is in the first set of its left-hand side
    for r in &lem.rules {
        let lhs = &lem.symbols[r.lhs];
        for item in &r.rhs {
            let x = &lem.symbols[item.sym];
            match x.kind {
                SymbolKind::Terminal => assert!(lhs.first_set.contains(&x.index)),
                _ => assert!(x.first_set.is_subset(&lhs.first_set)),
            }
            if !x.lambda {
                break;
            }
        }
    }
}

#[test]
fn empty_rule_accepts_exactly_the_empty_input() {
    let (_, t) = build(vec![rule("s", &[])]);
    let run = Run::run(&t, &[]);
    assert!(run.accepted);
    assert_eq!(run.reduced, vec![0]);
}

#[test]
fn empty_rule_rejects_any_token() {
    // the token is declared by giving it a type
    let (_, t) = build(vec![Decl::Type(id("X"), ty(1)), rule("s", &[])]);
    let x = token(&t, "X");
    let run = Run::run(&t, &[x]);
    assert!(!run.accepted);
    assert!(run.failed || run.errors > 0);
}

#[test]
fn arithmetic_builds_without_conflicts() {
    let (lem, t) = build(arithmetic_with_start());
    assert_eq!(lem.nconflict, 0);
    assert_eq!(t.n_rule, 4);
    assert_eq!(t.n_state, lem.states.len());
    assert!(lem.rules.iter().all(|r| r.can_reduce));
}

#[test]
fn arithmetic_gives_multiplication_precedence() {
    let (_, t) = build(arithmetic_with_start());
    let (num, plus, mult) = (token(&t, "Num"), token(&t, "Plus"), token(&t, "Mult"));
    // rules: 0 input ::= expr; 1 expr ::= expr Plus expr; 2 expr ::= expr Mult expr; 3 expr ::= Num
    let run = Run::run(&t, &[num, plus, num, mult, num]);
    assert!(run.accepted);
    // (Num) Plus ((Num) Mult (Num)): the product is reduced before the sum
    assert_eq!(run.reduced, vec![3, 3, 3, 2, 1, 0]);
    let run = Run::run(&t, &[num, mult, num, plus, num]);
    assert!(run.accepted);
    assert_eq!(run.reduced, vec![3, 3, 2, 3, 1, 0]);
    // left association
    let run = Run::run(&t, &[num, plus, num, plus, num]);
    assert!(run.accepted);
    assert_eq!(run.reduced, vec![3, 3, 1, 3, 1, 0]);
}

#[test]
fn arithmetic_reports_syntax_errors() {
    let (_, t) = build(arithmetic_with_start());
    let (num, plus) = (token(&t, "Num"), token(&t, "Plus"));
    let run = Run::run(&t, &[num, plus, plus]);
    assert!(!run.accepted);
    let run = Run::run(&t, &[num, plus]);
    assert!(!run.accepted);
}

#[test]
fn start_symbol_on_a_right_hand_side_is_rejected() {
    let mut lem = load(vec![
        Decl::StartSymbol(id("start")),
        rule("start", &["start", "Add", "Num"]),
        rule("start", &["Num"]),
    ]);
    let err = lem.build().unwrap_err();
    assert_eq!(err.fault, Fault::StartOnRhs);
    assert_eq!(err.kind(), ErrorKind::StartOnRhs);
}

#[test]
fn arithmetic_without_start_rule_is_rejected() {
    // the start symbol is the left-hand side of the first rule, and it
    // stands on right-hand sides
    let mut lem = load(arithmetic());
    assert_eq!(lem.build().unwrap_err().kind(), ErrorKind::StartOnRhs);
}

#[test]
fn dangling_else_resolves_to_shift() {
    let decls = vec![
        assoc(Associativity::Nonassoc, &["IfPrec"]),
        assoc(Associativity::Nonassoc, &["Else"]),
        rule("prog", &["stmt"]),
        rule_prec("stmt", &["If", "expr", "stmt"], "IfPrec"),
        rule("stmt", &["If", "expr", "stmt", "Else", "stmt"]),
        rule("stmt", &["Other"]),
        rule("expr", &["Cond"]),
    ];
    let (lem, t) = build(decls);
    assert_eq!(lem.nconflict, 0);
    let (i, c, o, e) = (token(&t, "If"), token(&t, "Cond"), token(&t, "Other"), token(&t, "Else"));
    // if c if c other else other: the else belongs to the inner if
    let run = Run::run(&t, &[i, c, i, c, o, e, o]);
    assert!(run.accepted);
    // rules: 0 prog, 1 short if, 2 long if, 3 other, 4 expr
    assert_eq!(run.reduced, vec![4, 4, 3, 3, 2, 1, 0]);
    // some state holds the reduce that lost against the shift
    assert!(lem
        .states
        .iter()
        .any(|s| s.ap.iter().any(|a| matches!(a.x, EAction::RDResolved(1)))));
}

#[test]
fn reduce_reduce_conflict_is_reported() {
    // a ::= X and b ::= X clash on the lookahead Y; after Z, b ::= X is
    // reduced without a rival
    let mut lem = load(vec![
        rule("s", &["a", "Y"]),
        rule("s", &["b", "Y"]),
        rule("a", &["X"]),
        rule("b", &["X"]),
        rule("s", &["Z", "b", "W"]),
    ]);
    let err = lem.build().unwrap_err();
    assert_eq!(err.fault, Fault::ParsingConflicts);
    assert_eq!(err.kind(), ErrorKind::Conflicts);
    assert_eq!(lem.nconflict, 1);
    let mut kept = Vec::new();
    let mut lost = Vec::new();
    for s in &lem.states {
        for a in &s.ap {
            match a.x {
                EAction::RRConflict(r) => lost.push(r),
                EAction::Reduce(r) if r == 2 || r == 3 => kept.push(r),
                _ => {}
            }
        }
    }
    // the rule with the lower number wins
    assert_eq!(lost, vec![3]);
    kept.sort();
    assert_eq!(kept, vec![2, 3]);
}

#[test]
fn rule_that_only_loses_conflicts_is_never_reduced() {
    let mut lem = load(vec![
        rule("s", &["a", "Y"]),
        rule("s", &["b", "Y"]),
        rule("a", &["X"]),
        rule("b", &["X"]),
    ]);
    let err = lem.build().unwrap_err();
    assert_eq!(err.fault, Fault::RuleNeverReduced);
}

#[test]
fn shift_reduce_conflict_without_precedence_is_reported() {
    let mut lem = load(vec![
        rule("top", &["e"]),
        rule("e", &["e", "Plus", "e"]),
        rule("e", &["Num"]),
    ]);
    let err = lem.build().unwrap_err();
    assert_eq!(err.kind(), ErrorKind::Conflicts);
    assert_eq!(lem.nconflict, 1);
    assert!(lem
        .states
        .iter()
        .any(|s| s.ap.iter().any(|a| matches!(a.x, EAction::SRConflict(1)))));
}

#[test]
fn nonterminal_without_rules_is_rejected() {
    let mut lem = load(vec![rule("s", &["missing", "X"])]);
    let err = lem.build().unwrap_err();
    assert_eq!(err.fault, Fault::NonterminalWithoutRules);
    assert_eq!(err.kind(), ErrorKind::EmptyNonterminal);
}

#[test]
fn rule_that_is_never_reduced_is_rejected() {
    let mut lem = load(vec![rule("s", &["X"]), rule("orphan", &["Y"])]);
    let err = lem.build().unwrap_err();
    assert_eq!(err.fault, Fault::RuleNeverReduced);
    assert_eq!(err.kind(), ErrorKind::UnreachableRule);
}

fn fallback_grammar(kw_type: usize) -> Vec<Decl> {
    vec![
        Decl::Type(id("Id"), ty(1)),
        Decl::Type(id("Kw1"), ty(kw_type)),
        Decl::Type(id("Kw2"), ty(kw_type)),
        Decl::Fallback(id("Id"), vec![id("Kw1"), id("Kw2")]),
        rule("s", &["names"]),
        rule("names", &["Id"]),
        rule("names", &["Kw2", "Id"]),
    ]
}

#[test]
fn fallback_of_another_type_is_rejected() {
    let mut lem = load(fallback_grammar(2));
    let err = lem.build().unwrap_err();
    assert_eq!(err.fault, Fault::FallbackTypeMismatch);
    assert_eq!(err.kind(), ErrorKind::BadFallbackType);
}

#[test]
fn fallback_of_the_same_type_is_taken_at_run_time() {
    let (_, t) = build(fallback_grammar(1));
    let (idt, kw1, kw2) = (token(&t, "Id"), token(&t, "Kw1"), token(&t, "Kw2"));
    assert_eq!(t.fallback[kw1], idt);
    assert_eq!(t.fallback[kw2], idt);
    assert_eq!(t.fallback[idt], 0);
    // Kw1 has no action of its own anywhere and is read as Id
    let run = Run::run(&t, &[kw1]);
    assert!(run.accepted);
    assert_eq!(run.reduced, vec![1, 0]);
    // Kw2 has an action of its own first, and is read as Id after that
    let run = Run::run(&t, &[kw2, kw2]);
    assert!(run.accepted);
    assert_eq!(run.reduced, vec![2, 0]);
}

#[test]
fn right_recursion_keeps_the_number_of_states() {
    let (lem, t) = build(vec![
        rule("top", &["list"]),
        rule("list", &["Item", "list"]),
        rule("list", &["Item"]),
    ]);
    let item = token(&t, "Item");
    let states = lem.states.len();
    for n in [1usize, 10, 200] {
        let input = vec![item; n];
        let mut run = Run::new(&t);
        let mut deepest = 0;
        for &tok in &input {
            run.feed(tok);
            deepest = deepest.max(run.stack.len());
        }
        run.feed(0);
        assert!(run.accepted);
        assert_eq!(run.reduced.len(), n + 1);
        // the stack grows with the input, one entry per item
        assert_eq!(deepest, n + 1);
    }
    assert_eq!(lem.states.len(), states);
}

#[test]
fn building_twice_gives_the_same_tables() {
    let (_, a) = build(arithmetic_with_start());
    let (_, b) = build(arithmetic_with_start());
    assert_eq!(a.action, b.action);
    assert_eq!(a.lookahead, b.lookahead);
    assert_eq!(a.shift_ofst, b.shift_ofst);
    assert_eq!(a.reduce_ofst, b.reduce_ofst);
    assert_eq!(a.default, b.default);
    assert_eq!(a.fallback, b.fallback);
    assert_eq!(a.rule_info, b.rule_info);
    assert_eq!((a.shift_use_dflt, a.reduce_use_dflt), (b.shift_use_dflt, b.reduce_use_dflt));
}

#[test]
fn order_of_type_and_code_directives_does_not_matter() {
    let extras = vec![
        Decl::Include(vec![5]),
        Decl::SyntaxError(6),
        Decl::Type(id("Num"), ty(1)),
        Decl::Type(id("expr"), ty(1)),
    ];
    let mut one = arithmetic_with_start();
    one.extend(extras.clone());
    let mut other = arithmetic_with_start();
    other.extend(extras.into_iter().rev());
    let (_, a) = build(one);
    let (_, b) = build(other);
    assert_eq!(a.action, b.action);
    assert_eq!(a.lookahead, b.lookahead);
    assert_eq!(a.shift_ofst, b.shift_ofst);
    assert_eq!(a.reduce_ofst, b.reduce_ofst);
    assert_eq!(a.default, b.default);
    assert_eq!(a.rule_info, b.rule_info);
    // and they are the tables of the grammar without the directives
    let (_, c) = build(arithmetic_with_start());
    assert_eq!(a.action, c.action);
    assert_eq!(a.lookahead, c.lookahead);
}

#[test]
fn type_directive_that_mentions_a_symbol_first_renumbers_it() {
    // a symbol is numbered by its first mention, be it in a type directive
    let mut early = vec![Decl::Type(id("Num"), ty(1))];
    early.extend(arithmetic_with_start());
    let (a, _) = build(early);
    let (b, _) = build(arithmetic_with_start());
    assert_eq!(a.symbols[symbol(&a, "Num")].index, 1);
    assert_eq!(b.symbols[symbol(&b, "Num")].index, 3);
}

#[test]
fn order_of_associativity_directives_matters() {
    let mut decls = vec![rule("input", &["expr"])];
    decls.push(assoc(Associativity::Left, &["Mult"]));
    decls.push(assoc(Associativity::Left, &["Plus"]));
    decls.push(rule("expr", &["expr", "Plus", "expr"]));
    decls.push(rule("expr", &["expr", "Mult", "expr"]));
    decls.push(rule("expr", &["Num"]));
    let (_, t) = build(decls);
    let (num, plus, mult) = (token(&t, "Num"), token(&t, "Plus"), token(&t, "Mult"));
    let run = Run::run(&t, &[num, mult, num, plus, num]);
    assert!(run.accepted);
    // now the sum binds tighter: Num Mult (Num Plus Num)
    assert_eq!(run.reduced, vec![3, 3, 3, 1, 2, 0]);
}

#[test]
fn tables_read_back_the_rows_of_the_states() {
    let (lem, t) = build(arithmetic_with_start());
    for (rank, &s) in lem.state_order.iter().enumerate() {
        let st = &lem.states[s];
        assert_eq!(st.state_num, rank);
        for a in &st.ap {
            let index = lem.symbols[a.sp].index;
            let code = match lem.compute_action(a) {
                Some(c) => c,
                None => continue,
            };
            if index < lem.nterminal {
                let o = st.i_tkn_ofst.unwrap();
                let k = (o + index as i32) as usize;
                assert_eq!(t.lookahead[k], index);
                assert_eq!(t.action[k], code);
                assert_eq!(find_shift_action(&t, rank, index), code);
            } else if index < lem.nsymbol {
                let o = st.i_nt_ofst.unwrap();
                let k = (o + index as i32) as usize;
                assert_eq!(t.lookahead[k], index);
                assert_eq!(t.action[k], code);
                assert_eq!(find_reduce_action(&t, rank, index), code);
            } else {
                assert_eq!(t.default[rank], code);
            }
        }
        // a lookahead that the state has no action on finds the default
        for la in 0..lem.nterminal {
            let has = st.ap.iter().any(|a| {
                lem.symbols[a.sp].index == la && lem.compute_action(a).is_some()
            });
            if !has {
                assert_eq!(find_shift_action(&t, rank, la), t.default[rank]);
            }
        }
    }
}

#[test]
fn states_are_ordered_by_their_numbers_of_actions() {
    let (lem, _) = build(arithmetic_with_start());
    assert_eq!(lem.state_order[0], 0);
    let key = |s: usize| (lem.states[s].n_nt_act, lem.states[s].n_tkn_act);
    for w in lem.state_order[1..].windows(2) {
        assert!(key(w[0]) >= key(w[1]));
    }
}

#[test]
fn follow_sets_are_handed_along_the_links() {
    let (lem, _) = build(arithmetic_with_start());
    for c in &lem.configs {
        for &to in &c.fplp {
            assert!(c.fws.is_subset(&lem.configs[to].fws));
        }
    }
}

#[test]
fn values_get_the_slots_of_their_types() {
    let mut decls = vec![
        Decl::DefaultType(ty(9)),
        Decl::Type(id("Num"), ty(1)),
        Decl::Type(id("expr"), ty(1)),
        Decl::Type(id("input"), ty(2)),
    ];
    decls.extend(arithmetic_with_start());
    let (lem, t) = build(decls);
    let dt = |name: &str| lem.symbols[symbol(&lem, name)].dt_num;
    // in the order of the indices: $ Plus Mult Num | error input expr
    assert_eq!(dt("$"), 1);
    assert_eq!(dt("Plus"), 1);
    assert_eq!(dt("Mult"), 1);
    assert_eq!(dt("Num"), 2);
    assert_eq!(dt("input"), 3);
    assert_eq!(dt("expr"), 2);
    assert_eq!(dt("{default}"), 0);
    assert_eq!(dt("error"), 4);
    assert_eq!(t.minor_types.iter().map(|t| t.id).collect::<Vec<_>>(), vec![9, 1, 2]);
    assert_eq!(t.start_dt_num, 3);
}

#[test]
fn typed_wildcard_is_rejected() {
    let mut lem = load(vec![
        Decl::Wildcard(id("Any")),
        Decl::Type(id("Any"), ty(1)),
        rule("s", &["Any"]),
    ]);
    let err = lem.build().unwrap_err();
    assert_eq!(err.fault, Fault::WildcardHasType);
    assert_eq!(err.kind(), ErrorKind::WildcardTyped);
}

#[test]
fn token_enum_with_variants_is_rejected() {
    let mut lem = load(vec![
        Decl::Token(TokenEnum { item: 1, span: 42, n_variants: 2 }),
        rule("s", &["X"]),
    ]);
    let err = lem.build().unwrap_err();
    assert_eq!(err.fault, Fault::TokenEnumNotEmpty);
    assert_eq!(err.kind(), ErrorKind::TokenEnumNonEmpty);
    assert_eq!(err.span, 42);
}

#[test]
fn compound_token_of_mixed_types_cannot_be_bound() {
    let mut lem = load(vec![
        Decl::Type(id("A"), ty(1)),
        Decl::Type(id("B"), ty(2)),
        Decl::Rule {
            lhs: id("s"),
            rhs: vec![RhsSlot { toks: vec![id("A"), id("B")], alias: Some(1) }],
            action: None,
            prec: None,
        },
    ]);
    let err = lem.build().unwrap_err();
    assert_eq!(err.fault, Fault::CompoundTypeMismatch);
    assert_eq!(err.kind(), ErrorKind::CompoundTokenTypeMismatch);
}

#[test]
fn wildcard_matches_any_token() {
    let (_, t) = build(vec![Decl::Wildcard(id("Any")), rule("s", &["Open", "Any", "Close"])]);
    let (open, close) = (token(&t, "Open"), token(&t, "Close"));
    assert!(t.wildcard > 0);
    // Close between the brackets is taken for the wildcard
    let run = Run::run(&t, &[open, close, close]);
    assert!(run.accepted);
    let run = Run::run(&t, &[open, open, close]);
    assert!(run.accepted);
    let run = Run::run(&t, &[open, close]);
    assert!(!run.accepted);
}

#[test]
fn rules_without_symbols_give_one_state() {
    let (lem, t) = build(vec![rule("s", &[])]);
    assert_eq!(lem.states.len(), 1);
    assert_eq!(t.n_state, 1);
    assert_eq!(t.n_rule, 1);
    assert_eq!(t.n_terminal, 1);
}

#[test]
fn every_state_but_the_first_is_entered_over_a_symbol() {
    let (lem, _) = build(arithmetic_with_start());
    assert!(lem.states.len() > 1);
    for bp in lem.states[0].bp.iter() {
        assert_eq!(lem.configs[*bp].dot, 0);
    }
    for st in lem.states.iter().skip(1) {
        assert!(!st.bp.is_empty());
        for bp in st.bp.iter() {
            assert!(lem.configs[*bp].dot > 0);
        }
    }
}

#[test]
fn first_state_of_the_empty_rule_accepts_and_reduces() {
    let (lem, t) = build(vec![rule("s", &[])]);
    let start = lem.start.expect("a start symbol");
    let ap = &lem.states[0].ap;
    assert!(ap.iter().any(|a| a.sp == start && a.x == EAction::Accept));
    assert!(ap.iter().any(|a| a.x == EAction::Reduce(0)));
    // on the end of input the parser reduces by the rule
    assert_eq!(find_shift_action(&t, 0, 0), t.n_state);
}

#[test]
fn types_get_their_slots_by_their_handles() {
    let mut types = Vec::new();
    let mut slots = HashMap::new();
    assert_eq!(slot_of(&mut types, &mut slots, ty(7)), 1);
    assert_eq!(slot_of(&mut types, &mut slots, ty(9)), 2);
    assert_eq!(slot_of(&mut types, &mut slots, ty(7)), 1);
    assert_eq!(types.len(), 2);
    assert_eq!(types[1].id, 9);
    assert_eq!(slots.len(), 2);
}
