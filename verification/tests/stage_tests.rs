use pomelo_impl::acttab::{ActTab, ActionSet, LookaheadAction};
use pomelo_impl::config::{Action, EAction};
use pomelo_impl::decl::{Decl, Ident, RhsSlot};
use pomelo_impl::error::Fault;
use pomelo_impl::grammar::Lemon;
use pomelo_impl::order::{sorted_order, Key3};
use pomelo_impl::precedence::{precedence_cmp, Associativity, Precedence};
use pomelo_impl::resolve::resolve;
use pomelo_impl::runtime::probe;
use pomelo_impl::tables::{
    minimum_signed_type, minimum_unsigned_type, SignedWidth, UnsignedWidth,
};
use std::cmp::Ordering;

fn ident(name: &str) -> Ident {
    Ident { name: name.to_string(), span: 1 }
}

fn plain(lhs: &str, rhs: &[&str]) -> Decl {
    Decl::Rule {
        lhs: ident(lhs),
        rhs: rhs.iter().map(|n| RhsSlot { toks: vec![ident(n)], alias: None }).collect(),
        action: None,
        prec: None,
    }
}

fn grammar(decls: Vec<Decl>) -> Lemon {
    Lemon::new_from_decls(decls).expect("the grammar loads")
}

/// Runs the passes up to the finding of the states.
fn with_states(decls: Vec<Decl>) -> Lemon {
    let mut lem = grammar(decls);
    assert!(lem.can_prepare());
    lem.prepare();
    lem.find_rule_precedences();
    lem.find_first_sets();
    lem.find_states().expect("the states are found");
    lem
}

fn name_of(lem: &Lemon, sym: usize) -> &str {
    &lem.symbols[sym].name
}

fn cells(row: &[(usize, usize)]) -> ActionSet {
    let mut set = ActionSet::new();
    for &(lookahead, action) in row {
        set.add_action(lookahead, action);
    }
    set
}

fn key(k0: usize, k1: usize, k2: usize) -> Key3 {
    Key3 { k0, k1, k2 }
}

#[test]
fn precedence_compares_level_before_associativity() {
    let low_left = Precedence(1, Associativity::Left);
    let high_right = Precedence(2, Associativity::Right);
    assert_eq!(precedence_cmp(&low_left, &high_right), Ordering::Less);
    assert_eq!(precedence_cmp(&high_right, &low_left), Ordering::Greater);
}

#[test]
fn precedence_at_equal_level_goes_by_the_first_associativity() {
    let left = Precedence(3, Associativity::Left);
    let right = Precedence(3, Associativity::Right);
    let none = Precedence(3, Associativity::Nonassoc);
    assert_eq!(precedence_cmp(&left, &right), Ordering::Less);
    assert_eq!(precedence_cmp(&right, &left), Ordering::Greater);
    assert_eq!(precedence_cmp(&none, &left), Ordering::Equal);
    assert_eq!(precedence_cmp(&left, &none), Ordering::Less);
}

#[test]
fn two_shifts_are_in_conflict() {
    let p = Some(Precedence(1, Associativity::Left));
    assert_eq!(
        resolve(p, p, EAction::Shift(4), EAction::Shift(5)),
        (EAction::Shift(4), EAction::SSConflict(5), true)
    );
}

#[test]
fn shift_against_reduce_goes_by_precedence() {
    let low = Some(Precedence(1, Associativity::Left));
    let high = Some(Precedence(2, Associativity::Left));
    // the lookahead yields to the rule
    assert_eq!(
        resolve(low, high, EAction::Shift(4), EAction::Reduce(7)),
        (EAction::SHResolved(4), EAction::Reduce(7), false)
    );
    // the lookahead wins over the rule
    assert_eq!(
        resolve(high, low, EAction::Shift(4), EAction::Reduce(7)),
        (EAction::Shift(4), EAction::RDResolved(7), false)
    );
}

#[test]
fn shift_against_reduce_at_a_tie_goes_by_associativity() {
    let rule = Some(Precedence(1, Associativity::Left));
    let left = Some(Precedence(1, Associativity::Left));
    let right = Some(Precedence(1, Associativity::Right));
    let none = Some(Precedence(1, Associativity::Nonassoc));
    assert_eq!(
        resolve(left, rule, EAction::Shift(4), EAction::Reduce(7)),
        (EAction::SHResolved(4), EAction::Reduce(7), false)
    );
    assert_eq!(
        resolve(right, rule, EAction::Shift(4), EAction::Reduce(7)),
        (EAction::Shift(4), EAction::RDResolved(7), false)
    );
    assert_eq!(
        resolve(none, rule, EAction::Shift(4), EAction::Reduce(7)),
        (EAction::Error, EAction::Error, false)
    );
}

#[test]
fn shift_against_reduce_without_precedence_is_a_conflict() {
    let p = Some(Precedence(1, Associativity::Left));
    assert_eq!(
        resolve(None, p, EAction::Shift(4), EAction::Reduce(7)),
        (EAction::Shift(4), EAction::SRConflict(7), true)
    );
    assert_eq!(
        resolve(p, None, EAction::Shift(4), EAction::Reduce(7)),
        (EAction::Shift(4), EAction::SRConflict(7), true)
    );
}

#[test]
fn two_reduces_go_by_precedence() {
    let low = Some(Precedence(1, Associativity::Right));
    let high = Some(Precedence(2, Associativity::Right));
    assert_eq!(
        resolve(low, high, EAction::Reduce(3), EAction::Reduce(7)),
        (EAction::RDResolved(3), EAction::Reduce(7), false)
    );
    assert_eq!(
        resolve(high, low, EAction::Reduce(3), EAction::Reduce(7)),
        (EAction::Reduce(3), EAction::RDResolved(7), false)
    );
}

#[test]
fn two_reduces_at_a_tie_or_without_precedence_are_in_conflict() {
    let none = Some(Precedence(1, Associativity::Nonassoc));
    let left = Some(Precedence(1, Associativity::Left));
    let right = Some(Precedence(1, Associativity::Right));
    assert_eq!(
        resolve(none, none, EAction::Reduce(3), EAction::Reduce(7)),
        (EAction::Reduce(3), EAction::RRConflict(7), true)
    );
    // associativity does not break a tie between two rules
    assert_eq!(
        resolve(left, right, EAction::Reduce(3), EAction::Reduce(7)),
        (EAction::Reduce(3), EAction::RRConflict(7), true)
    );
    assert_eq!(
        resolve(right, left, EAction::Reduce(3), EAction::Reduce(7)),
        (EAction::Reduce(3), EAction::RRConflict(7), true)
    );
    assert_eq!(
        resolve(None, None, EAction::Reduce(3), EAction::Reduce(7)),
        (EAction::Reduce(3), EAction::RRConflict(7), true)
    );
}

#[test]
fn other_pairs_are_left_alone() {
    let p = Some(Precedence(1, Associativity::Left));
    assert_eq!(
        resolve(p, p, EAction::Reduce(3), EAction::Shift(7)),
        (EAction::Reduce(3), EAction::Shift(7), false)
    );
    assert_eq!(
        resolve(p, p, EAction::Accept, EAction::Reduce(7)),
        (EAction::Accept, EAction::Reduce(7), false)
    );
    assert_eq!(
        resolve(p, p, EAction::SHResolved(3), EAction::Reduce(7)),
        (EAction::SHResolved(3), EAction::Reduce(7), false)
    );
}

#[test]
fn sorting_keeps_equal_keys_in_their_order() {
    let keys = vec![key(2, 0, 0), key(1, 9, 9), key(2, 0, 0), key(0, 5, 1), key(1, 9, 8)];
    assert_eq!(sorted_order(&keys), vec![3, 4, 1, 0, 2]);
}

#[test]
fn sorting_nothing_gives_nothing() {
    assert_eq!(sorted_order(&Vec::new()), Vec::<usize>::new());
}

#[test]
fn signed_width_changes_at_the_powers_of_two() {
    assert_eq!(minimum_signed_type(0), SignedWidth::I8);
    assert_eq!(minimum_signed_type(0x7f), SignedWidth::I8);
    assert_eq!(minimum_signed_type(0x80), SignedWidth::I16);
    assert_eq!(minimum_signed_type(0x7fff), SignedWidth::I16);
    assert_eq!(minimum_signed_type(0x8000), SignedWidth::I32);
}

#[test]
fn unsigned_width_changes_at_the_powers_of_two() {
    assert_eq!(minimum_unsigned_type(0), UnsignedWidth::U8);
    assert_eq!(minimum_unsigned_type(0xff), UnsignedWidth::U8);
    assert_eq!(minimum_unsigned_type(0x100), UnsignedWidth::U16);
    assert_eq!(minimum_unsigned_type(0xffff), UnsignedWidth::U16);
    assert_eq!(minimum_unsigned_type(0x10000), UnsignedWidth::U32);
}

#[test]
fn row_is_not_shared_where_a_stranger_would_answer() {
    let mut tab = ActTab::new();
    assert_eq!(tab.insert_action_set(&cells(&[(1, 7), (3, 8)])), -1);
    // The slot for lookahead 1 holds the right action, but at the same
    // offset lookahead 3 would find an entry that the new row does not have.
    let ofs = tab.insert_action_set(&cells(&[(1, 7)]));
    assert_eq!(ofs, 0);
    assert_eq!(
        tab.a_action,
        vec![
            Some(LookaheadAction { lookahead: 1, action: 7 }),
            Some(LookaheadAction { lookahead: 1, action: 7 }),
            Some(LookaheadAction { lookahead: 3, action: 8 }),
        ]
    );
}

#[test]
fn row_with_another_action_gets_its_own_place() {
    let mut tab = ActTab::new();
    assert_eq!(tab.insert_action_set(&cells(&[(0, 1)])), 0);
    let ofs = tab.insert_action_set(&cells(&[(0, 2)]));
    assert_eq!(ofs, 1);
    assert_eq!(
        tab.a_action,
        vec![
            Some(LookaheadAction { lookahead: 0, action: 1 }),
            Some(LookaheadAction { lookahead: 0, action: 2 }),
        ]
    );
}

#[test]
fn action_set_keeps_the_order_of_its_lookaheads() {
    let set = cells(&[(1, 10), (4, 11), (6, 12)]);
    assert_eq!(
        set.a_lookahead,
        vec![
            LookaheadAction { lookahead: 1, action: 10 },
            LookaheadAction { lookahead: 4, action: 11 },
            LookaheadAction { lookahead: 6, action: 12 },
        ]
    );
}

#[test]
fn probing_finds_only_entries_of_the_lookahead() {
    let mut lem = grammar(vec![plain("s", &["A"])]);
    let mut t = lem.build().expect("the grammar builds");
    t.action = vec![10, 11, 12];
    t.lookahead = vec![2, 9, 4];
    // offset -2: lookahead 2 reads slot 0, lookahead 4 reads slot 2
    assert_eq!(probe(&t, -2, 2), Some(10));
    assert_eq!(probe(&t, -2, 4), Some(12));
    // slot 1 is for another lookahead
    assert_eq!(probe(&t, -2, 3), None);
    // before the table and behind it
    assert_eq!(probe(&t, -2, 1), None);
    assert_eq!(probe(&t, -2, 5), None);
    assert_eq!(probe(&t, 1, 2), None);
    assert_eq!(probe(&t, 0, 2), None);
}

#[test]
fn first_state_starts_every_rule_of_the_start_symbol() {
    let lem = with_states(vec![plain("s", &["A", "t"]), plain("s", &["B"]), plain("t", &["C"])]);
    let first = &lem.states[0];
    let mut basis: Vec<(usize, usize)> =
        first.bp.iter().map(|&c| (lem.configs[c].rule, lem.configs[c].dot)).collect();
    basis.sort();
    assert_eq!(basis, vec![(0, 0), (1, 0)]);
    for &c in &first.bp {
        assert!(lem.configs[c].fws.contains(&0));
    }
    assert!(lem.rules[0].lhs_start && lem.rules[1].lhs_start && !lem.rules[2].lhs_start);
}

#[test]
fn states_are_closed_and_have_different_bases() {
    let lem = with_states(vec![
        plain("s", &["e"]),
        plain("e", &["e", "Plus", "t"]),
        plain("e", &["t"]),
        plain("t", &["Num"]),
        plain("t", &["Open", "e", "Close"]),
    ]);
    let item = |c: usize| (lem.configs[c].rule, lem.configs[c].dot);
    let mut bases: Vec<Vec<(usize, usize)>> = Vec::new();
    for st in &lem.states {
        let items: Vec<(usize, usize)> = st.cfp.iter().map(|&c| item(c)).collect();
        // in order, without repetition
        assert!(items.windows(2).all(|w| w[0] < w[1]));
        let basis: Vec<(usize, usize)> = st.bp.iter().map(|&c| item(c)).collect();
        assert!(basis.windows(2).all(|w| w[0] < w[1]));
        assert!(basis.iter().all(|b| items.contains(b)));
        // what is not of the basis has its mark at the start
        assert!(items.iter().all(|it| basis.contains(it) || it.1 == 0));
        // closed: before a nonterminal, every rule of it is there
        for &(r, d) in &items {
            let rhs = &lem.rules[r].rhs;
            if d < rhs.len() {
                for &q in &lem.symbols[rhs[d].sym].rules {
                    assert!(items.contains(&(q, 0)));
                }
            }
        }
        assert!(!bases.contains(&basis));
        bases.push(basis);
    }
    // the start; after e, t, Num, Open; after e Plus, Open e; after
    // e Plus t, Open e Close
    assert_eq!(lem.states.len(), 9);
}

#[test]
fn every_state_has_the_shifts_that_its_configurations_ask_for() {
    let lem = with_states(vec![
        plain("s", &["e"]),
        plain("e", &["e", "Plus", "t"]),
        plain("e", &["t"]),
        plain("t", &["Num"]),
    ]);
    for st in &lem.states {
        for &c in &st.cfp {
            let cfg = &lem.configs[c];
            let rhs = &lem.rules[cfg.rule].rhs;
            if cfg.dot < rhs.len() {
                let sym = rhs[cfg.dot].sym;
                let target = st
                    .ap
                    .iter()
                    .find_map(|a| match a.x {
                        EAction::Shift(t) if a.sp == sym => Some(t),
                        _ => None,
                    })
                    .expect("the state shifts on the symbol after the mark");
                // the state shifted to holds the configuration advanced,
                // with a link back
                assert!(lem.states[target].bp.iter().any(|&d| {
                    lem.configs[d].rule == cfg.rule
                        && lem.configs[d].dot == cfg.dot + 1
                        && lem.configs[d].bplp.contains(&c)
                }));
            }
        }
        // and nothing but shifts that a configuration asks for
        for a in &st.ap {
            assert!(matches!(a.x, EAction::Shift(_)));
            assert!(st.cfp.iter().any(|&c| {
                let cfg = &lem.configs[c];
                let rhs = &lem.rules[cfg.rule].rhs;
                cfg.dot < rhs.len() && rhs[cfg.dot].sym == a.sp
            }));
        }
    }
}

#[test]
fn compound_slot_is_shifted_on_each_alternative() {
    let decls = vec![Decl::Rule {
        lhs: ident("s"),
        rhs: vec![RhsSlot { toks: vec![ident("A"), ident("B")], alias: None }],
        action: None,
        prec: None,
    }];
    let lem = with_states(decls);
    let mut shifted: Vec<&str> = lem.states[0].ap.iter().map(|a| name_of(&lem, a.sp)).collect();
    shifted.sort();
    assert_eq!(shifted, vec!["A", "B"]);
    let targets: Vec<EAction> = lem.states[0].ap.iter().map(|a| a.x).collect();
    assert_eq!(targets, vec![EAction::Shift(1), EAction::Shift(1)]);
}

#[test]
fn every_reduce_asked_for_is_among_the_actions() {
    let mut lem = grammar(vec![
        Decl::Assoc(Associativity::Left, vec![ident("Plus")]),
        Decl::Assoc(Associativity::Left, vec![ident("Times")]),
        plain("s", &["e"]),
        plain("e", &["e", "Plus", "e"]),
        plain("e", &["e", "Times", "e"]),
        plain("e", &["Num"]),
    ]);
    lem.analyse().expect("the grammar is analysed");
    for (s, st) in lem.states.iter().enumerate() {
        for &c in &st.cfp {
            let cfg = &lem.configs[c];
            if cfg.dot == lem.rules[cfg.rule].rhs.len() {
                for &j in &cfg.fws {
                    let sp = lem.by_index[j];
                    // the reduce, or what precedence left of it
                    assert!(st.ap.iter().any(|a| a.sp == sp
                        && (a.x == EAction::Reduce(cfg.rule)
                            || a.x == EAction::RDResolved(cfg.rule))));
                }
            }
        }
        for a in &st.ap {
            match a.x {
                EAction::Reduce(r) => {
                    assert!(st.cfp.iter().any(|&c| {
                        let cfg = &lem.configs[c];
                        cfg.rule == r
                            && cfg.dot == lem.rules[r].rhs.len()
                            && cfg.fws.contains(&lem.symbols[a.sp].index)
                    }));
                },
                EAction::Accept => {
                    assert_eq!(s, 0);
                    assert_eq!(Some(a.sp), lem.start);
                },
                _ => {},
            }
        }
    }
    assert!(lem.states[0].ap.contains(&Action { sp: lem.start.unwrap(), x: EAction::Accept }));
}

#[test]
fn most_frequent_reduce_becomes_the_default() {
    let mut lem = grammar(vec![
        plain("s", &["e", "X"]),
        plain("s", &["e", "Y"]),
        plain("e", &["A"]),
    ]);
    lem.analyse().expect("the grammar is analysed");
    // the state after A reduces by e ::= A on X and on Y
    let after_a = lem
        .states
        .iter()
        .position(|st| st.ap.iter().any(|a| a.x == EAction::Reduce(2)))
        .expect("some state reduces by the rule");
    let before: Vec<EAction> = lem.states[after_a].ap.iter().map(|a| a.x).collect();
    assert_eq!(before, vec![EAction::Reduce(2), EAction::Reduce(2)]);
    lem.compress_tables();
    let after: Vec<(&str, EAction)> =
        lem.states[after_a].ap.iter().map(|a| (name_of(&lem, a.sp), a.x)).collect();
    assert_eq!(after, vec![("Y", EAction::NotUsed), ("{default}", EAction::Reduce(2))]);
}

#[test]
fn reduce_by_a_rule_of_the_start_symbol_is_no_default() {
    let mut lem = grammar(vec![plain("s", &["A"])]);
    lem.analyse().expect("the grammar is analysed");
    let before: Vec<Vec<Action>> = lem.states.iter().map(|st| st.ap.clone()).collect();
    lem.compress_tables();
    let after: Vec<Vec<Action>> = lem.states.iter().map(|st| st.ap.clone()).collect();
    assert_eq!(before, after);
}

#[test]
fn state_that_shifts_the_wildcard_keeps_its_reduces() {
    let mut lem = grammar(vec![
        Decl::Wildcard(ident("Any")),
        plain("s", &["b", "End"]),
        plain("b", &["a"]),
        plain("a", &["X"]),
        plain("a", &["a", "Any"]),
    ]);
    lem.analyse().expect("the grammar is analysed");
    let any = lem.symbol_find(&"Any".to_string()).unwrap();
    // after a: b ::= a . is reduced on End, a ::= a . Any shifts
    let st = lem
        .states
        .iter()
        .position(|st| {
            st.ap.iter().any(|a| a.sp == any && matches!(a.x, EAction::Shift(_)))
        })
        .expect("some state shifts the wildcard");
    let before = lem.states[st].ap.clone();
    assert!(before.contains(&Action {
        sp: lem.symbol_find(&"End".to_string()).unwrap(),
        x: EAction::Reduce(1),
    }));
    lem.compress_tables();
    assert_eq!(lem.states[st].ap, before);
}

#[test]
fn report_lists_the_states_in_conflict() {
    let mut lem = grammar(vec![
        plain("s", &["e"]),
        plain("e", &["e", "Plus", "e"]),
        plain("e", &["Num"]),
    ]);
    let err = lem.analyse().unwrap_err();
    assert_eq!(err.fault, Fault::ParsingConflicts);
    assert_eq!(lem.nconflict, 1);
    let reports = lem.report_output();
    assert_eq!(reports.len(), 1);
    let rep = &reports[0];
    assert_eq!(rep.num_conflicts, 1);
    // e ::= e Plus e .  and  e ::= e . Plus e
    let items: Vec<(usize, usize)> = rep.items.iter().map(|it| (it.rule, it.dot)).collect();
    assert_eq!(items, vec![(1, 1), (1, 3)]);
    assert_eq!(rep.lines.len(), lem.states[rep.state].ap.len());
    assert_eq!(
        rep.lines.iter().filter(|a| matches!(a.x, EAction::SRConflict(1))).count(),
        1
    );
}

#[test]
fn no_report_without_conflicts() {
    let mut lem = grammar(vec![plain("s", &["A"])]);
    lem.analyse().expect("the grammar is analysed");
    assert!(lem.report_output().is_empty());
    assert!(lem
        .states
        .iter()
        .all(|st| st.ap.iter().all(|a| !matches!(
            a.x,
            EAction::SSConflict(_) | EAction::SRConflict(_) | EAction::RRConflict(_)
        ))));
}

fn at(name: &str, span: usize) -> Ident {
    Ident { name: name.to_string(), span }
}

#[test]
fn name_listed_twice_in_one_directive_has_its_precedence_already() {
    let err = Lemon::new_from_decls(vec![Decl::Assoc(
        Associativity::Left,
        vec![at("Plus", 3), at("Minus", 4), at("Plus", 5)],
    )])
    .unwrap_err();
    assert_eq!(err.fault, Fault::PrecedenceAlreadyGiven);
    assert_eq!(err.span, 5);
}

#[test]
fn associativity_directive_leaves_other_precedences_alone() {
    let lem = grammar(vec![
        Decl::Assoc(Associativity::Left, vec![ident("Plus")]),
        Decl::Assoc(Associativity::Right, vec![ident("Power")]),
        plain("s", &["Plus", "Power", "Num"]),
    ]);
    let assoc = |name: &str| {
        let s = lem.symbol_find(&name.to_string()).unwrap();
        lem.symbols[s].assoc.map(|p| (p.0, p.1))
    };
    assert_eq!(assoc("Plus"), Some((1, Associativity::Left)));
    assert_eq!(assoc("Power"), Some((2, Associativity::Right)));
    assert_eq!(assoc("Num"), None);
}

#[test]
fn second_fallback_of_a_token_is_rejected_at_its_name() {
    let err = Lemon::new_from_decls(vec![
        Decl::Fallback(ident("Id"), vec![at("Begin", 7)]),
        Decl::Fallback(ident("Name"), vec![at("End", 8), at("Begin", 9)]),
    ])
    .unwrap_err();
    assert_eq!(err.fault, Fault::FallbackAlreadyAssigned);
    assert_eq!(err.span, 9);
}

#[test]
fn fallback_directive_records_that_there_are_fallbacks() {
    let lem = grammar(vec![plain("s", &["Id"])]);
    assert!(!lem.has_fallback);
    let lem = grammar(vec![Decl::Fallback(ident("Id"), vec![ident("Begin")]), plain("s", &["Id"])]);
    assert!(lem.has_fallback);
    let begin = lem.symbol_find(&"Begin".to_string()).unwrap();
    let id = lem.symbol_find(&"Id".to_string()).unwrap();
    assert_eq!(lem.symbols[begin].fallback, Some(id));
    assert_eq!(lem.symbols[id].fallback, None);
}

#[test]
fn token_class_cannot_hold_itself_or_a_nonterminal() {
    let err = Lemon::new_from_decls(vec![Decl::TokenClass(
        ident("Op"),
        vec![at("Plus", 2), at("Op", 3)],
    )])
    .unwrap_err();
    assert_eq!(err.fault, Fault::TokenClassMemberNotToken);
    assert_eq!(err.span, 3);
    let err = Lemon::new_from_decls(vec![Decl::TokenClass(
        ident("Op"),
        vec![at("plus", 4), at("Minus", 5)],
    )])
    .unwrap_err();
    assert_eq!(err.fault, Fault::TokenClassMemberNotToken);
    assert_eq!(err.span, 4);
}

#[test]
fn token_class_holds_its_members_in_order() {
    let lem = grammar(vec![
        Decl::TokenClass(ident("Op"), vec![ident("Plus"), ident("Minus")]),
        Decl::TokenClass(ident("Op"), vec![ident("Times")]),
    ]);
    let op = lem.symbol_find(&"Op".to_string()).unwrap();
    let members: Vec<&str> = lem.symbols[op].sub_sym.iter().map(|&c| name_of(&lem, c)).collect();
    assert_eq!(members, vec!["Plus", "Minus", "Times"]);
}

#[test]
fn rule_fails_on_the_first_thing_that_is_wrong_with_it() {
    let compound = |names: &[(&str, usize)]| RhsSlot {
        toks: names.iter().map(|&(n, s)| at(n, s)).collect(),
        alias: None,
    };
    // a nonterminal among the alternatives of a compound
    let err = Lemon::new_from_decls(vec![Decl::Rule {
        lhs: at("s", 1),
        rhs: vec![compound(&[("A", 2)]), compound(&[("B", 3), ("c", 4), ("?", 5)])],
        action: None,
        prec: Some(at("low", 6)),
    }])
    .unwrap_err();
    assert_eq!((err.fault, err.span), (Fault::CompoundWithNonTerminal, 4));
    // the name given for the precedence comes last
    let err = Lemon::new_from_decls(vec![Decl::Rule {
        lhs: at("s", 1),
        rhs: vec![compound(&[("A", 2)])],
        action: None,
        prec: Some(at("low", 6)),
    }])
    .unwrap_err();
    assert_eq!((err.fault, err.span), (Fault::PrecedenceSymbolNotTerminal, 6));
    // the left-hand side comes first
    let err = Lemon::new_from_decls(vec![Decl::Rule {
        lhs: at("S", 1),
        rhs: vec![compound(&[("?", 2)])],
        action: None,
        prec: None,
    }])
    .unwrap_err();
    assert_eq!((err.fault, err.span), (Fault::LhsNotNonTerminal, 1));
}

#[test]
fn rule_refers_to_the_symbols_that_its_slots_name() {
    let lem = grammar(vec![Decl::Rule {
        lhs: ident("s"),
        rhs: vec![
            RhsSlot { toks: vec![ident("A")], alias: Some(11) },
            RhsSlot { toks: vec![ident("B"), ident("C")], alias: None },
            RhsSlot { toks: vec![ident("t")], alias: None },
        ],
        action: Some(5),
        prec: Some(ident("C")),
    }]);
    let rule = &lem.rules[0];
    assert_eq!(name_of(&lem, rule.lhs), "s");
    assert_eq!(name_of(&lem, rule.rhs[0].sym), "A");
    assert_eq!(rule.rhs[0].alias, Some(11));
    let alternatives: Vec<&str> =
        lem.symbols[rule.rhs[1].sym].sub_sym.iter().map(|&c| name_of(&lem, c)).collect();
    assert_eq!(alternatives, vec!["B", "C"]);
    assert_eq!(name_of(&lem, rule.rhs[2].sym), "t");
    assert_eq!(rule.prec_sym.map(|p| name_of(&lem, p)), Some("C"));
    assert_eq!(rule.code, Some(5));
}

#[test]
fn missing_rules_are_reported_at_the_slot_that_asks_for_them() {
    let mut lem = grammar(vec![Decl::Rule {
        lhs: at("s", 1),
        rhs: vec![
            RhsSlot { toks: vec![at("A", 2)], alias: None },
            RhsSlot { toks: vec![at("t", 3)], alias: None },
        ],
        action: None,
        prec: None,
    }]);
    let err = lem.build().unwrap_err();
    assert_eq!((err.fault, err.span), (Fault::NonterminalWithoutRules, 3));
}

#[test]
fn rule_never_reduced_is_reported_at_the_rule() {
    // b ::= X loses against a ::= X on every lookahead
    let decls = vec![
        Decl::Assoc(Associativity::Left, vec![ident("Low")]),
        Decl::Assoc(Associativity::Left, vec![ident("High")]),
        plain("s", &["a", "Y"]),
        plain("s", &["b", "Y"]),
        Decl::Rule {
            lhs: at("a", 20),
            rhs: vec![RhsSlot { toks: vec![ident("X")], alias: None }],
            action: None,
            prec: Some(ident("High")),
        },
        Decl::Rule {
            lhs: at("b", 30),
            rhs: vec![RhsSlot { toks: vec![ident("X")], alias: None }],
            action: None,
            prec: Some(ident("Low")),
        },
    ];
    let mut lem = grammar(decls);
    let err = lem.build().unwrap_err();
    assert_eq!((err.fault, err.span), (Fault::RuleNeverReduced, 30));
}

#[test]
fn two_rules_of_equal_precedence_are_in_conflict() {
    let decls = vec![
        Decl::Assoc(Associativity::Left, vec![ident("Op")]),
        plain("s", &["a", "Y"]),
        plain("s", &["b", "Y"]),
        plain("s", &["Z", "b", "W"]),
        Decl::Rule {
            lhs: ident("a"),
            rhs: vec![RhsSlot { toks: vec![ident("X")], alias: None }],
            action: None,
            prec: Some(ident("Op")),
        },
        Decl::Rule {
            lhs: ident("b"),
            rhs: vec![RhsSlot { toks: vec![ident("X")], alias: None }],
            action: None,
            prec: Some(ident("Op")),
        },
    ];
    let mut lem = grammar(decls);
    let err = lem.build().unwrap_err();
    assert_eq!(err.fault, Fault::ParsingConflicts);
    assert_eq!(lem.nconflict, 1);
    // the rule that comes first stays, the other is marked
    let marked: Vec<EAction> = lem
        .states
        .iter()
        .flat_map(|st| st.ap.iter().map(|a| a.x))
        .filter(|x| matches!(x, EAction::RRConflict(_)))
        .collect();
    assert_eq!(marked, vec![EAction::RRConflict(4)]);
}

#[test]
fn states_are_numbered_as_they_are_found() {
    let lem = with_states(vec![
        plain("s", &["e"]),
        plain("e", &["e", "Plus", "t"]),
        plain("e", &["t"]),
        plain("t", &["Num"]),
    ]);
    for (i, st) in lem.states.iter().enumerate() {
        assert_eq!(st.state_num, i);
    }
}

#[test]
fn start_symbol_on_a_right_hand_side_is_reported_at_its_first_slot() {
    let mut lem = grammar(vec![
        Decl::Rule {
            lhs: at("s", 1),
            rhs: vec![
                RhsSlot { toks: vec![at("A", 2)], alias: None },
                RhsSlot { toks: vec![at("s", 3)], alias: None },
            ],
            action: None,
            prec: None,
        },
        Decl::Rule {
            lhs: at("s", 4),
            rhs: vec![RhsSlot { toks: vec![at("s", 5)], alias: None }],
            action: None,
            prec: None,
        },
    ]);
    let err = lem.build().unwrap_err();
    assert_eq!((err.fault, err.span), (Fault::StartOnRhs, 3));
    assert!(lem.states.is_empty());
    assert!(lem.rules.iter().all(|r| !r.lhs_start));
}

#[test]
fn no_lookahead_keeps_two_shifts_or_reduces() {
    let mut lem = grammar(vec![
        Decl::Assoc(Associativity::Left, vec![ident("Plus")]),
        Decl::Assoc(Associativity::Left, vec![ident("Times")]),
        plain("s", &["e"]),
        plain("e", &["e", "Plus", "e"]),
        plain("e", &["e", "Times", "e"]),
        plain("e", &["Num"]),
    ]);
    lem.analyse().expect("the grammar is analysed");
    for st in &lem.states {
        for (i, a) in st.ap.iter().enumerate() {
            for b in &st.ap[i + 1..] {
                let live = |x: EAction| matches!(x, EAction::Shift(_) | EAction::Reduce(_));
                assert!(!(a.sp == b.sp && live(a.x) && live(b.x)));
            }
        }
    }
}

#[test]
fn configurations_with_the_same_symbol_go_to_one_state() {
    let lem = with_states(vec![
        plain("s", &["e"]),
        plain("e", &["e", "Plus", "t"]),
        plain("e", &["t"]),
        plain("t", &["Num"]),
        plain("t", &["Open", "e", "Close"]),
    ]);
    for st in &lem.states {
        let mut targets: Vec<(usize, usize)> = Vec::new();
        for &c in &st.cfp {
            let cfg = &lem.configs[c];
            let rhs = &lem.rules[cfg.rule].rhs;
            if cfg.dot < rhs.len() {
                let t = lem
                    .states
                    .iter()
                    .position(|to| {
                        to.bp.iter().any(|&d| {
                            lem.configs[d].rule == cfg.rule
                                && lem.configs[d].dot == cfg.dot + 1
                                && lem.configs[d].bplp.contains(&c)
                        })
                    })
                    .expect("the configuration goes somewhere");
                targets.push((rhs[cfg.dot].sym, t));
                // the basis there is made of this state's configurations
                for &d in &lem.states[t].bp {
                    assert!(st.cfp.iter().any(|&e| {
                        let from = &lem.configs[e];
                        from.rule == lem.configs[d].rule
                            && from.dot + 1 == lem.configs[d].dot
                            && lem.rules[from.rule].rhs[from.dot].sym == rhs[cfg.dot].sym
                    }));
                }
            }
        }
        for &(sym, t) in &targets {
            assert!(targets.iter().all(|&(other, to)| other != sym || to == t));
        }
    }
}
