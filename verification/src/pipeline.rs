//! Building a parser from a grammar.

use crate::actions::{lookahead_sorted, same_but_actions, some_conflict, state_nums};
use crate::acttab::MAX_TABLE_INDEX;
use crate::backing::{
    actions_complete, actions_sound, lemma_backed_same, lemma_compressed_backed, lemma_found_backed,
    refs_exist, same_automaton,
};
use crate::emit::{emission_fault, emission_verdict, rows_read_back, tables_of};
use crate::error::{Error, Fault};
use crate::first::{
    firsts, is_first, is_nullable, lambdas, lemma_first_same_shape, lemma_nullable_same_sides,
    lemma_rhs_in_range, same_shape,
};
use crate::follow::{
    follows, lemma_shifts_kept, lemma_shifts_respected, links_closed, same_links, shifts_respected,
};
use crate::formed::{automaton_formed, lemma_automaton_formed_kept, lemma_formed_same_grammar};
use crate::grammar::{lemma_rule_ok, lemma_symbol_ok, same_but_analysis, unanalyzed, Lemon};
use crate::prepare::same_but_index;
use crate::states::{first_mention, mentioned_at, new_lacking, on_rhs, starts_with};
use crate::symbol::{Rule, Symbol};
use crate::tables::Tables;
use vstd::prelude::*;

verus! {

/// The faults that the analysis of a grammar can meet.
pub open spec fn analysis_fault(f: Fault) -> bool {
    f == Fault::StartOnRhs || f == Fault::NonterminalWithoutRules || f == Fault::RuleNeverReduced
        || f == Fault::ParsingConflicts
}

/// The start symbol that the grammar will be built for: the one declared,
/// or else the left-hand side of the first rule.
pub open spec fn start_of(lem: Lemon) -> usize {
    match lem.start {
        Some(s) => s,
        None => lem.rules@[0].lhs,
    }
}

/// What an error of the analysis says of the grammar `was` that was to be
/// analysed and of the grammar `now` that the analysis left:
///
/// - the start symbol stands on a right-hand side, and the error points at
///   the first slot that mentions it; or
/// - it does not, and a configuration of the automaton has its mark before
///   a nonterminal that has no rule and is not the error symbol; or
/// - the analysis is done, and the error points at the first rule that no
///   state reduces by; or
/// - the analysis is done, every rule is reduced somewhere, and conflicts
///   are left.
pub open spec fn analysis_verdict(was: Lemon, now: Lemon, e: Error) -> bool {
    match e.fault {
        Fault::StartOnRhs => exists|q: int, k: int|
            #[trigger] first_mention(was.symbols@, was.rules@, start_of(was), q, k)
                && was.rules@[q].rhs@[k].span == e.span,
        Fault::NonterminalWithoutRules => !on_rhs(was.symbols@, was.rules@, start_of(was))
            && new_lacking(0, now.configs@, now.rules@, now.symbols@, now.err_sym),
        Fault::RuleNeverReduced => now.analysed_core() && exists|q: int|
            0 <= q < now.rules@.len() && !(#[trigger] now.rules@[q]).can_reduce && e.span
                == now.rules@[q].span && forall|x: int|
                0 <= x < q ==> (#[trigger] now.rules@[x]).can_reduce,
        Fault::ParsingConflicts => now.analysed_core() && now.nconflict > 0 && e.span
            == crate::decl::CALL_SITE && forall|q: int|
            0 <= q < now.rules@.len() ==> (#[trigger] now.rules@[q]).can_reduce,
        _ => false,
    }
}

/// Grammar `b` has what was declared of the types of the symbols, of the
/// wildcard and of the set of tokens in grammar `a`.
pub open spec fn same_input(a: Lemon, b: Lemon) -> bool {
    &&& b.wildcard == a.wildcard
    &&& b.token_enum == a.token_enum
    &&& b.var_type == a.var_type
    &&& b.err_sym == a.err_sym
    &&& b.symbols@.len() == a.symbols@.len()
    &&& forall|s: int|
        0 <= s < a.symbols@.len() ==> (#[trigger] b.symbols@[s]).data_type == a.symbols@[s].data_type
            && b.symbols@[s].kind == a.symbols@[s].kind && b.symbols@[s].sub_sym
            == a.symbols@[s].sub_sym && b.symbols@[s].fallback == a.symbols@[s].fallback
}

/// The grammar may be too large for its tables: its states and rules are
/// more than the codes of actions can tell apart, or the rows of its states
/// may need more slots than an offset can address.
pub open spec fn too_large(lem: Lemon) -> bool {
    lem.states@.len() + lem.rules@.len() + 2 > MAX_TABLE_INDEX || crate::pack::may_overflow(lem)
}

/// Symbol `b` is symbol `a` with its number, what the analysis found of it,
/// and the type and slot of its value filled in.
pub open spec fn symbol_filled(a: Symbol, b: Symbol) -> bool {
    b == (Symbol {
        index: b.index,
        lambda: b.lambda,
        first_set: b.first_set,
        data_type: b.data_type,
        dt_num: b.dt_num,
        ..a
    })
}

/// Rule `b` is rule `a` with its precedence settled by the symbols of the
/// grammar given, and with the marks of the analysis filled in.
pub open spec fn rule_filled(symbols: Seq<Symbol>, a: Rule, b: Rule) -> bool {
    b == (Rule {
        prec_sym: crate::prepare::rule_precedence(symbols, a),
        lhs_start: b.lhs_start,
        can_reduce: b.can_reduce,
        ..a
    })
}

/// Grammar `now` is the grammar `was` that was given, analysed: what was
/// declared of the module, the code, the types, the wildcard and the set of
/// tokens is as given; the start symbol is the one declared, or else the
/// left-hand side of the first rule; the rules are those given, in order,
/// with their precedences settled; and the symbols are those given, in
/// order, with their names, kinds, alternatives, fallbacks and precedences.
pub open spec fn same_grammar(was: Lemon, now: Lemon) -> bool {
    &&& (Lemon {
        states: was.states,
        configs: was.configs,
        state_order: was.state_order,
        rules: was.rules,
        nsymbol: was.nsymbol,
        nterminal: was.nterminal,
        symbols: was.symbols,
        by_index: was.by_index,
        nconflict: was.nconflict,
        start: was.start,
        ..now
    }) == was
    &&& now.start == Some(start_of(was))
    &&& now.rules@.len() == was.rules@.len()
    &&& forall|q: int|
        0 <= q < was.rules@.len() ==> rule_filled(was.symbols@, was.rules@[q], #[trigger] now.rules@[q])
    &&& now.symbols@.len() == was.symbols@.len()
    &&& forall|s: int|
        0 <= s < was.symbols@.len() ==> symbol_filled(was.symbols@[s], #[trigger] now.symbols@[s])
}

/// Rule `b` has the sides of rule `a`.
pub open spec fn same_sides(a: Seq<Rule>, b: Seq<Rule>) -> bool {
    &&& a.len() == b.len()
    &&& forall|r: int| 0 <= r < a.len() ==> (#[trigger] b[r]).lhs == a[r].lhs && b[r].rhs == a[r].rhs
}

/// What finding the actions makes of a grammar whose automaton is built:
/// the analysis is done.
proof fn lemma_acted(pre: Lemon, now: Lemon)
    requires
        pre.followed(),
        now.built_wf(),
        now.is_numbered(),
        now == (Lemon { states: now.states, rules: now.rules, nconflict: now.nconflict, ..pre }),
        now.states@.len() == pre.states@.len(),
        forall|s: int|
            0 <= s < pre.states@.len() ==> same_but_actions(pre.states@[s], #[trigger] now.states@[s]),
        forall|s: int|
            0 <= s < pre.states@.len() ==> #[trigger] crate::actions::actions_found(
                pre,
                now.states@,
                s,
            ),
        now.rules@.len() == pre.rules@.len(),
        forall|q: int|
            0 <= q < pre.rules@.len() ==> #[trigger] now.rules@[q] == (Rule {
                can_reduce: now.rules@[q].can_reduce,
                ..pre.rules@[q]
            }),
        (forall|s: int| 0 <= s < pre.states@.len() ==> !some_conflict((#[trigger] pre.states@[s]).ap@))
            ==> now.nconflict == crate::actions::capped(
            pre.nconflict + crate::actions::total_marked(now.states@, now.states@.len() as int),
        ),
        pre.nconflict < usize::MAX && now.nconflict == pre.nconflict ==> forall|s: int|
            0 <= s < now.states@.len() && some_conflict((#[trigger] now.states@[s]).ap@)
                ==> some_conflict(pre.states@[s].ap@),
        forall|s: int|
            0 <= s < now.states@.len() ==> lookahead_sorted(
                now.symbols@,
                (#[trigger] now.states@[s]).ap@,
            ),
        forall|s: int|
            0 <= s < now.states@.len() ==> crate::actions::live_unique((#[trigger] now.states@[s]).ap@),
    ensures
        now.analysed_core(),
        now.nconflict == 0 ==> forall|s: int|
            0 <= s < now.states@.len() ==> !some_conflict((#[trigger] now.states@[s]).ap@),
{
    let st1 = pre.states@;
    let c3 = pre.configs@;
    let r2 = pre.rules@;
    let s2 = pre.symbols@;
    let r3 = now.rules@;
    pre.lemma_listed_exist();
    pre.lemma_refs_exist();
    assert forall|s: int| 0 <= s < now.states@.len() implies #[trigger] crate::shifts::one_target(
        now.states@,
        c3,
        r3,
        s,
    ) by {
        assert forall|t: int| 0 <= t < st1.len() implies (#[trigger] now.states@[t]).bp == st1[t].bp
            && now.states@[t].cfp == st1[t].cfp by {
            assert(same_but_actions(st1[t], now.states@[t]));
        }
        crate::shifts::lemma_one_target_same(st1, now.states@, c3, r2, r3, s);
    }
    assert forall|s: int| 0 < s < now.states@.len() implies #[trigger] crate::shifts::advanced_state(
        now.states@,
        c3,
        s,
    ) by {
        assert(same_but_actions(st1[s], now.states@[s]));
        crate::shifts::lemma_advanced_kept(st1, now.states@, c3, c3, s);
    }
    assert(!new_lacking(0, c3, r3, s2, now.err_sym)) by {
        if new_lacking(0, c3, r3, s2, now.err_sym) {
            let c = choose|c: int| #[trigger] crate::states::lacks_after(0, c3, r3, s2, now.err_sym, c);
            assert(c3[c].rule < r2.len());
            assert(r3[c3[c].rule as int].rhs == r2[c3[c].rule as int].rhs);
            assert(crate::states::lacks_after(0, c3, r2, s2, pre.err_sym, c));
        }
    }
    assert forall|s: int| 0 <= s < pre.states@.len() implies !some_conflict(
        (#[trigger] pre.states@[s]).ap@,
    ) by {
        if some_conflict(pre.states@[s].ap@) {
            let k = choose|k: int|
                0 <= k < pre.states@[s].ap@.len() && crate::actions::is_conflict(
                    (#[trigger] pre.states@[s].ap@[k]).x,
                );
            assert(crate::shifts::shifted(st1, c3, r2, s2, s));
            assert(crate::shifts::shift_justified(
                st1,
                c3,
                r2,
                s2,
                st1[s].cfp@,
                pre.states@[s].ap@[k],
            ));
        }
    }
    pre.lemma_refs_exist();
    assert(same_automaton(pre, now)) by {
        assert forall|t: int| 0 <= t < pre.states@.len() implies (#[trigger] now.states@[t]).cfp
            == pre.states@[t].cfp && now.states@[t].bp == pre.states@[t].bp by {
            assert(same_but_actions(pre.states@[t], now.states@[t]));
        }
    }
    assert forall|s: int| 0 <= s < now.states@.len() implies #[trigger] actions_sound(
        now,
        s,
    ) && actions_complete(now, s) by {
        lemma_found_backed(pre, now, s);
    }
    if now.nconflict == 0 {
        assert forall|s: int| 0 <= s < now.states@.len() implies !some_conflict(
            (#[trigger] now.states@[s]).ap@,
        ) by {
            if some_conflict(now.states@[s].ap@) {
                assert(some_conflict(pre.states@[s].ap@));
                let k = choose|k: int|
                    0 <= k < pre.states@[s].ap@.len() && crate::actions::is_conflict(
                        (#[trigger] pre.states@[s].ap@[k]).x,
                    );
                assert(crate::shifts::shifted(st1, c3, r2, s2, s));
                assert(crate::shifts::shift_justified(
                    st1,
                    c3,
                    r2,
                    s2,
                    st1[s].cfp@,
                    pre.states@[s].ap@[k],
                ));
            }
        }
    }
    assert forall|c: int| 0 <= c < c3.len() implies (#[trigger] c3[c]).rule < r2.len() by {
        crate::automaton::lemma_config_ok(
            now.configs@,
            now.states@,
            now.rules@,
            now.symbols@.len(),
            c,
        );
    }
    now.lemma_shifts_same_rules(st1, c3, r2, r3);
    assert forall|s: int| 0 <= s < st1.len() implies (#[trigger] now.states@[s]).cfp
        == st1[s].cfp && now.states@[s].bp == st1[s].bp by {
        assert(same_but_actions(st1[s], now.states@[s]));
    }
    lemma_shifts_kept(st1, now.states@, c3, r3);
    assert(crate::formed::shape_kept(st1, now.states@, c3, c3)) by {
        assert forall|x: int| 0 <= x < c3.len() implies c3[x].fplp@.is_prefix_of(
            (#[trigger] c3[x]).fplp@,
        ) by {}
    }
    lemma_automaton_formed_kept(st1, now.states@, c3, c3, r2, s2);
    lemma_rhs_in_range(s2, r2);
    assert(crate::formed::slots_exist(s2, r2)) by {
        assert forall|s: int, k: int|
            0 <= s < s2.len() && 0 <= k < s2[s].sub_sym@.len() implies (
        #[trigger] s2[s].sub_sym@[k]) < s2.len() by {
            lemma_symbol_ok(s2, r3, s);
        }
    }
    lemma_formed_same_grammar(now.states@, c3, r2, r3, s2, s2);
    if s2[now.start->0 as int].kind is NonTerminal {
        now.lemma_start_kept(st1, now.states@, c3, c3, s2, s2, now.start->0);
    }
    lemma_nullable_same_sides(lambdas(s2), r2, r3);
    lemma_rhs_in_range(s2, r2);
    assert forall|s: int, k: int|
        0 <= s < s2.len() && 0 <= k < s2[s].sub_sym@.len() implies (
    #[trigger] s2[s].sub_sym@[k]) < s2.len() by {
        lemma_symbol_ok(s2, r3, s);
    }
    lemma_first_same_shape(s2, s2, r2, r3, lambdas(s2), firsts(s2));
}

impl Lemon {
    /// The grammar is as the loader left it and can be built.
    pub open spec fn ready(&self) -> bool {
        &&& self.wf()
        &&& self.fresh()
        &&& self.loaded()
        &&& unanalyzed(self.symbols@)
        &&& self.has_start()
    }

    /// The grammar has been analysed without fault: its symbols are
    /// numbered, the nullable symbols and first sets are found, the automaton
    /// is built and its follow sets propagated, every state has the actions
    /// that its configurations ask for, in order, no conflict is left, and
    /// every rule is reduced somewhere.
    pub open spec fn analysed(&self) -> bool {
        &&& self.analysed_core()
        &&& forall|q: int| 0 <= q < self.rules@.len() ==> (#[trigger] self.rules@[q]).can_reduce
        &&& self.nconflict == 0
        &&& forall|s: int|
            0 <= s < self.states@.len() ==> !some_conflict((#[trigger] self.states@[s]).ap@)
    }

    /// The automaton of the grammar is built and its follow sets are
    /// propagated: the symbols are numbered, the nullable symbols and first
    /// sets are found, the states are well formed and have the shifts that
    /// their configurations ask for, and no configuration has its mark
    /// before a nonterminal without rules.
    pub open spec fn followed(&self) -> bool {
        &&& self.built_wf()
        &&& self.loaded()
        &&& self.is_numbered()
        &&& self.nterminal <= self.nsymbol
        &&& self.symbols@[0].index == 0
        &&& self.start is Some
        &&& self.states@.len() >= 1
        &&& self.nconflict == 0
        &&& is_nullable(lambdas(self.symbols@), self.rules@)
        &&& is_first(self.symbols@, self.rules@, lambdas(self.symbols@), firsts(self.symbols@))
        &&& links_closed(self.configs@, follows(self.configs@))
        &&& shifts_respected(self.states@, self.configs@, self.rules@)
        &&& automaton_formed(self.states@, self.configs@, self.rules@, self.symbols@)
        &&& self.symbols@[self.start->0 as int].kind is NonTerminal ==> starts_with(
            self.states@,
            self.configs@,
            self.symbols@,
            self.start->0,
        )
        &&& !new_lacking(0, self.configs@, self.rules@, self.symbols@, self.err_sym)
        &&& forall|s: int|
            0 <= s < self.states@.len() ==> #[trigger] crate::shifts::one_target(
                self.states@,
                self.configs@,
                self.rules@,
                s,
            )
        &&& forall|s: int|
            0 < s < self.states@.len() ==> #[trigger] crate::shifts::advanced_state(
                self.states@,
                self.configs@,
                s,
            )
        &&& forall|s: int|
            0 <= s < self.states@.len() ==> #[trigger] crate::shifts::shifted(
                self.states@,
                self.configs@,
                self.rules@,
                self.symbols@,
                s,
            )
    }

    /// The grammar has been analysed as far as the actions of the states:
    /// all that `analysed` says, but that conflicts may be left and rules
    /// may be reduced nowhere. The count of conflicts is the number of
    /// actions marked as in conflict.
    pub open spec fn analysed_core(&self) -> bool {
        &&& self.built_wf()
        &&& self.loaded()
        &&& self.is_numbered()
        &&& self.nterminal <= self.nsymbol
        &&& self.symbols@[0].index == 0
        &&& self.start is Some
        &&& self.states@.len() >= 1
        &&& is_nullable(lambdas(self.symbols@), self.rules@)
        &&& is_first(self.symbols@, self.rules@, lambdas(self.symbols@), firsts(self.symbols@))
        &&& links_closed(self.configs@, follows(self.configs@))
        &&& shifts_respected(self.states@, self.configs@, self.rules@)
        &&& automaton_formed(self.states@, self.configs@, self.rules@, self.symbols@)
        &&& self.symbols@[self.start->0 as int].kind is NonTerminal ==> starts_with(
            self.states@,
            self.configs@,
            self.symbols@,
            self.start->0,
        )
        &&& self.nconflict == crate::actions::capped(
            crate::actions::total_marked(self.states@, self.states@.len() as int) as int,
        )
        &&& !new_lacking(0, self.configs@, self.rules@, self.symbols@, self.err_sym)
        &&& forall|s: int|
            0 <= s < self.states@.len() ==> #[trigger] crate::shifts::one_target(
                self.states@,
                self.configs@,
                self.rules@,
                s,
            )
        &&& forall|s: int|
            0 < s < self.states@.len() ==> #[trigger] crate::shifts::advanced_state(
                self.states@,
                self.configs@,
                s,
            )
        &&& forall|s: int|
            0 <= s < self.states@.len() ==> crate::actions::live_unique(
                (#[trigger] self.states@[s]).ap@,
            )
        &&& forall|s: int|
            0 <= s < self.states@.len() ==> #[trigger] actions_sound(*self, s) && actions_complete(
                *self,
                s,
            )
        &&& forall|s: int|
            0 <= s < self.states@.len() ==> lookahead_sorted(
                self.symbols@,
                (#[trigger] self.states@[s]).ap@,
            )
    }

    /// Builds the automaton of the grammar: numbers the symbols, finds the
    /// precedences of the rules, the nullable symbols and the first sets,
    /// finds the states, and propagates the follow sets.
    ///
    /// Fails where the start symbol stands on the right-hand side of a rule,
    /// and where a nonterminal other than the error symbol has no rule.
    #[verifier::rlimit(100)]
    pub fn analyse_automaton(&mut self) -> (r: Result<(), Error>)
        requires
            old(self).ready(),
        ensures
            r is Ok ==> final(self).followed() && same_input(*old(self), *final(self)),
            r is Ok ==> same_grammar(*old(self), *final(self)),
            r matches Err(e) ==> (e.fault == Fault::StartOnRhs || e.fault
                == Fault::NonterminalWithoutRules) && final(self).built_wf() && analysis_verdict(
                *old(self),
                *final(self),
                e,
            ),
            on_rhs(old(self).symbols@, old(self).rules@, start_of(*old(self))) ==> (r matches Err(e)
                && e.fault == Fault::StartOnRhs),
            final(self).rules@.len() == old(self).rules@.len(),
            final(self).symbols@.len() == old(self).symbols@.len(),
    {
        let ghost s0 = self.symbols@;
        let ghost r0 = self.rules@;
        proof {
            lemma_rhs_in_range(s0, r0);
        }
        self.prepare();
        let ghost s1 = self.symbols@;
        proof {
            assert(self.loaded()) by {
                assert(same_but_index(s0[s0.len() - 1], s1[s1.len() - 1]));
            }
            assert(unanalyzed(s1)) by {
                assert forall|s: int| 0 <= s < s1.len() implies !(#[trigger] s1[s]).lambda
                    && s1[s].first_set@ == Set::<usize>::empty() by {
                    assert(same_but_index(s0[s], s1[s]));
                }
            }
            assert(on_rhs(s0, r0, start_of(*old(self))) == on_rhs(s1, r0, self.start->0)) by {
                self.lemma_on_rhs_same(s0, s1, r0, r0, self.start->0);
            }
        }
        self.find_rule_precedences();
        let ghost r1 = self.rules@;
        proof {
            self.lemma_on_rhs_same(s1, s1, r0, r1, self.start->0);
            lemma_rhs_in_range(s1, r1);
        }
        self.find_first_sets();
        let ghost s2 = self.symbols@;
        proof {
            assert(self.loaded()) by {
                assert(same_but_analysis(s1[s1.len() - 1], s2[s2.len() - 1]));
            }
            assert(s2[0].index == 0) by {
                assert(same_but_analysis(s1[0], s2[0]));
            }
            self.lemma_on_rhs_same(s1, s2, r1, r1, self.start->0);
        }
        match self.find_states() {
            Err(e) => {
                proof {
                    self.lemma_on_rhs_same(s0, s1, r0, r0, self.start->0);
                    self.lemma_on_rhs_same(s1, s1, r0, r1, self.start->0);
                    self.lemma_on_rhs_same(s1, s2, r1, r1, self.start->0);
                    if e.fault == Fault::StartOnRhs {
                        let (q, k) = choose|q: int, k: int|
                            #[trigger] first_mention(s2, r1, self.start->0, q, k) && r1[q].rhs@[k].span
                                == e.span;
                        assert(first_mention(s0, r0, self.start->0, q, k));
                        assert(r0[q].rhs == r1[q].rhs);
                    }
                }
                return Err(e);
            },
            Ok(()) => {},
        }
        let ghost r2 = self.rules@;
        proof {
            lemma_nullable_same_sides(lambdas(s2), r1, r2);
            lemma_rhs_in_range(s2, r1);
            assert forall|s: int, k: int|
                0 <= s < s2.len() && 0 <= k < s2[s].sub_sym@.len() implies (
            #[trigger] s2[s].sub_sym@[k]) < s2.len() by {
                lemma_symbol_ok(s2, r2, s);
            }
            lemma_first_same_shape(s2, s2, r1, r2, lambdas(s2), firsts(s2));
        }
        let ghost c1 = self.configs@;
        let ghost st1 = self.states@;
        proof {
            self.lemma_listed_exist();
        }
        self.find_links();
        let ghost c2 = self.configs@;
        self.find_follow_sets();
        let ghost c3 = self.configs@;
        proof {
            lemma_shifts_respected(st1, c1, c2, c3, r2);
            assert(crate::formed::shape_kept(st1, st1, c1, c3)) by {
                assert forall|x: int| 0 <= x < c1.len() implies (#[trigger] c3[x]).rule == c1[x].rule
                    && c3[x].dot == c1[x].dot && c1[x].fws@.subset_of(c3[x].fws@)
                    && c1[x].fplp@.is_prefix_of(c3[x].fplp@) by {
                    assert(crate::follow::same_links(c2[x], c3[x]));
                    assert(follows(c2)[x].subset_of(follows(c3)[x]));
                }
            }
            lemma_automaton_formed_kept(st1, st1, c1, c3, r2, s2);
            if s2[self.start->0 as int].kind is NonTerminal {
                self.lemma_start_kept(st1, st1, c1, c3, s2, s2, self.start->0);
            }
        }
        proof {
            assert(self.nconflict == 0);
            assert(crate::shifts::links_kept(st1, st1, c1, c3)) by {
                assert forall|d: int| 0 <= d < c1.len() implies (#[trigger] c3[d]).rule == c1[d].rule
                    && c3[d].dot == c1[d].dot && c1[d].bplp@.is_prefix_of(c3[d].bplp@) by {
                    assert(crate::follow::same_links(c2[d], c3[d]));
                }
            }
            assert forall|s: int| 0 <= s < st1.len() implies #[trigger] crate::shifts::shifted(
                st1,
                c3,
                r2,
                s2,
                s,
            ) by {
                crate::shifts::lemma_shifted_kept(st1, st1, c1, c3, r2, s2, s);
            }
            assert forall|s: int| 0 <= s < st1.len() implies #[trigger] crate::shifts::one_target(
                st1,
                c3,
                r2,
                s,
            ) by {
                crate::shifts::lemma_one_target_kept(st1, st1, c1, c3, r2, s);
            }
            assert forall|s: int| 0 < s < st1.len() implies #[trigger] crate::shifts::advanced_state(
                st1,
                c3,
                s,
            ) by {
                crate::shifts::lemma_advanced_kept(st1, st1, c1, c3, s);
            }
        }
        proof {
            assert(!new_lacking(0, c3, r2, s2, self.err_sym)) by {
                if new_lacking(0, c3, r2, s2, self.err_sym) {
                    let c = choose|c: int| #[trigger]
                        crate::states::lacks_after(0, c3, r2, s2, self.err_sym, c);
                    assert(crate::follow::same_links(c2[c], c3[c]));
                    assert(c3[c].rule == c1[c].rule && c3[c].dot == c1[c].dot);
                    assert(crate::states::lacks_after(0, c1, r2, s2, self.err_sym, c));
                }
            }
            assert forall|s: int| 0 <= s < s0.len() implies (#[trigger] self.symbols@[s]).data_type
                == s0[s].data_type && self.symbols@[s].kind == s0[s].kind && self.symbols@[s].sub_sym
                == s0[s].sub_sym && self.symbols@[s].fallback == s0[s].fallback by {
                assert(same_but_index(s0[s], s1[s]));
                assert(same_but_analysis(s1[s], s2[s]));
            }
            assert forall|s: int| 0 <= s < s0.len() implies symbol_filled(
                s0[s],
                #[trigger] self.symbols@[s],
            ) by {
                assert(same_but_index(s0[s], s1[s]));
                assert(same_but_analysis(s1[s], s2[s]));
            }
            assert forall|q: int| 0 <= q < r0.len() implies rule_filled(
                s0,
                r0[q],
                #[trigger] self.rules@[q],
            ) by {
                assert(r1[q] == (Rule { prec_sym: crate::prepare::rule_precedence(s1, r0[q]), ..r0[q] }));
                assert(r2[q] == (Rule { lhs_start: r2[q].lhs_start, ..r1[q] }));
                lemma_rhs_in_range(s0, r0);
                assert forall|t: int, k: int|
                    0 <= t < s0.len() && 0 <= k < s0[t].sub_sym@.len() implies (
                #[trigger] s0[t].sub_sym@[k]) < s0.len() by {
                    lemma_symbol_ok(s0, r0, t);
                }
                assert forall|t: int| 0 <= t < s0.len() implies (#[trigger] s1[t]).kind == s0[t].kind
                    && s1[t].assoc == s0[t].assoc && s1[t].sub_sym == s0[t].sub_sym by {
                    assert(same_but_index(s0[t], s1[t]));
                }
                crate::prepare::lemma_precedence_same(s0, s1, r0[q]);
            }
            assert(same_grammar(*old(self), *self));
        }
        Ok(())
    }

    /// Analyses the grammar: builds its automaton, gives the states their
    /// actions, and resolves the conflicts among them by precedence.
    ///
    /// Fails where the automaton cannot be built, where a rule is never
    /// reduced, and where conflicts are left that precedence does not
    /// settle. After a failure for conflicts the states still hold the
    /// actions in conflict, for a report.
    pub fn analyse(&mut self) -> (r: Result<(), Error>)
        requires
            old(self).ready(),
        ensures
            r is Ok ==> final(self).analysed(),
            r matches Err(e) ==> analysis_fault(e.fault) && final(self).built_wf()
                && analysis_verdict(*old(self), *final(self), e),
            on_rhs(old(self).symbols@, old(self).rules@, start_of(*old(self))) ==> (r matches Err(e)
                && e.fault == Fault::StartOnRhs),
            final(self).rules@.len() == old(self).rules@.len(),
            final(self).symbols@.len() == old(self).symbols@.len(),
            r is Ok ==> same_input(*old(self), *final(self)),
            r is Ok ==> same_grammar(*old(self), *final(self)),
            r is Ok <==> !on_rhs(old(self).symbols@, old(self).rules@, start_of(*old(self)))
                && !new_lacking(
                0,
                final(self).configs@,
                final(self).rules@,
                final(self).symbols@,
                final(self).err_sym,
            ) && final(self).nconflict == 0 && forall|q: int|
                0 <= q < final(self).rules@.len() ==> (#[trigger] final(self).rules@[q]).can_reduce,
    {
        match self.analyse_automaton() {
            Err(e) => {
                return Err(e);
            },
            Ok(()) => {},
        }
        let ghost pre = *self;
        let found = self.find_actions();
        proof {
            lemma_acted(pre, *self);
        }
        match found {
            Err(e) => {
                return Err(e);
            },
            Ok(()) => {},
        }
        if self.nconflict > 0 {
            return Err(Error::new(Fault::ParsingConflicts, crate::decl::CALL_SITE));
        }
        Ok(())
    }

    /// What consistency says of what the grammar refers to.
    proof fn lemma_refs_exist(&self)
        requires
            self.built_wf(),
        ensures
            refs_exist(*self),
    {
        self.lemma_listed_exist();
        assert forall|c: int| 0 <= c < self.configs@.len() implies (#[trigger] self.configs@[c]).rule
            < self.rules@.len() by {
            crate::automaton::lemma_config_ok(
                self.configs@,
                self.states@,
                self.rules@,
                self.symbols@.len(),
                c,
            );
        }
        lemma_rhs_in_range(self.symbols@, self.rules@);
    }

    /// The basis of the first state stays what it is while the states keep
    /// their configurations, the configurations their rules and marks, and
    /// the symbols their rules, and follow sets only grow.
    proof fn lemma_start_kept(
        &self,
        sta: Seq<crate::config::State>,
        stb: Seq<crate::config::State>,
        ca: Seq<crate::config::Config>,
        cb: Seq<crate::config::Config>,
        sa: Seq<Symbol>,
        sb: Seq<Symbol>,
        sp: usize,
    )
        requires
            starts_with(sta, ca, sa, sp),
            0 < sta.len() <= stb.len(),
            stb[0].bp == sta[0].bp,
            forall|j: int| 0 <= j < sta[0].bp@.len() ==> (#[trigger] sta[0].bp@[j]) < ca.len(),
            ca.len() <= cb.len(),
            forall|x: int|
                0 <= x < ca.len() ==> (#[trigger] cb[x]).rule == ca[x].rule && cb[x].dot == ca[x].dot
                    && ca[x].fws@.subset_of(cb[x].fws@),
            sb[sp as int].rules == sa[sp as int].rules,
        ensures
            starts_with(stb, cb, sb, sp),
    {
        let bp = sta[0].bp@;
        assert forall|k: int| 0 <= k < sb[sp as int].rules@.len() implies crate::states::starts_rule(
            stb,
            cb,
            #[trigger] sb[sp as int].rules@[k],
        ) by {
            let q = sa[sp as int].rules@[k];
            assert(crate::states::starts_rule(sta, ca, q));
            let j = choose|j: int|
                0 <= j < bp.len() && ca[(#[trigger] bp[j]) as int].rule == q && ca[bp[j] as int].dot == 0
                    && ca[bp[j] as int].fws@.contains(0);
            assert(cb[bp[j] as int].rule == q);
            assert(ca[bp[j] as int].fws@.subset_of(cb[bp[j] as int].fws@));
        }
        assert forall|j: int| 0 <= j < bp.len() implies cb[(#[trigger] bp[j]) as int].dot == 0
            && sb[sp as int].rules@.contains(cb[bp[j] as int].rule) by {
            assert(cb[bp[j] as int].rule == ca[bp[j] as int].rule);
        }
    }

    /// The respect of shifts depends on the right-hand sides of the rules
    /// only.
    proof fn lemma_shifts_same_rules(
        &self,
        states: Seq<crate::config::State>,
        configs: Seq<crate::config::Config>,
        ra: Seq<Rule>,
        rb: Seq<Rule>,
    )
        requires
            shifts_respected(states, configs, ra),
            same_sides(ra, rb),
            forall|s: int, k: int|
                0 <= s < states.len() && 0 <= k < states[s].cfp@.len() ==> (
                #[trigger] states[s].cfp@[k]) < configs.len(),
            forall|c: int| 0 <= c < configs.len() ==> (#[trigger] configs[c]).rule < ra.len(),
        ensures
            shifts_respected(states, configs, rb),
    {
        assert forall|s: int, k: int|
            0 <= s < states.len() && 0 <= k < states[s].cfp@.len() && crate::shifts::can_shift(
                configs,
                rb,
                (#[trigger] states[s].cfp@[k]) as int,
            ) implies crate::follow::edge_respected(states, configs, states[s].cfp@[k] as int) by {
            let c = states[s].cfp@[k] as int;
            assert(configs[c].rule < ra.len());
            assert(rb[configs[c].rule as int].rhs == ra[configs[c].rule as int].rhs);
        }
    }

    /// Whether a symbol stands on a right-hand side does not depend on what
    /// the passes fill in.
    proof fn lemma_on_rhs_same(
        &self,
        sa: Seq<Symbol>,
        sb: Seq<Symbol>,
        ra: Seq<Rule>,
        rb: Seq<Rule>,
        sp: usize,
    )
        requires
            sa.len() == sb.len(),
            forall|s: int|
                0 <= s < sa.len() ==> (#[trigger] sb[s]).kind == sa[s].kind && sb[s].sub_sym
                    == sa[s].sub_sym,
            same_sides(ra, rb),
            forall|q: int, k: int|
                0 <= q < ra.len() && 0 <= k < ra[q].rhs@.len() ==> (#[trigger] ra[q].rhs@[k]).sym
                    < sa.len(),
        ensures
            on_rhs(sa, ra, sp) == on_rhs(sb, rb, sp),
            forall|r: int, k: int|
                #[trigger] mentioned_at(sa, ra, sp, r, k) == mentioned_at(sb, rb, sp, r, k),
            forall|r: int, k: int|
                #[trigger] first_mention(sa, ra, sp, r, k) == first_mention(sb, rb, sp, r, k),
    {
        assert forall|r: int, k: int|
            #[trigger] mentioned_at(sa, ra, sp, r, k) == mentioned_at(sb, rb, sp, r, k) by {
            if 0 <= r < ra.len() && 0 <= k < ra[r].rhs@.len() {
                assert(rb[r].rhs == ra[r].rhs);
                assert(ra[r].rhs@[k].sym < sa.len());
            }
        }
        assert forall|r: int, k: int|
            #[trigger] first_mention(sa, ra, sp, r, k) == first_mention(sb, rb, sp, r, k) by {
            if first_mention(sa, ra, sp, r, k) {
                assert forall|x: int, j: int| x < r || (x == r && j < k) implies !#[trigger] mentioned_at(
                    sb,
                    rb,
                    sp,
                    x,
                    j,
                ) by {
                    assert(!mentioned_at(sa, ra, sp, x, j));
                }
            }
            if first_mention(sb, rb, sp, r, k) {
                assert forall|x: int, j: int| x < r || (x == r && j < k) implies !#[trigger] mentioned_at(
                    sa,
                    ra,
                    sp,
                    x,
                    j,
                ) by {
                    assert(!mentioned_at(sb, rb, sp, x, j));
                }
            }
        }
        if on_rhs(sa, ra, sp) {
            let (r, k) = choose|r: int, k: int| #[trigger]
                mentioned_at(sa, ra, sp, r, k);
            assert(mentioned_at(sb, rb, sp, r, k));
        }
        if on_rhs(sb, rb, sp) {
            let (r, k) = choose|r: int, k: int| #[trigger]
                mentioned_at(sb, rb, sp, r, k);
            assert(mentioned_at(sa, ra, sp, r, k));
        }
    }

    /// Builds the tables of a parser for the grammar.
    ///
    /// The grammar is analysed; default reductions are folded; the states
    /// are numbered anew; and the tables are put together. What the tables
    /// hold at the offsets of a state is the state's rows of actions.
    #[verifier::rlimit(100)]
    pub fn build(&mut self) -> (r: Result<Tables, Error>)
        requires
            old(self).ready(),
        ensures
            r matches Ok(t) ==> {
                &&& final(self).built_wf()
                &&& final(self).is_numbered()
                &&& final(self).states@.len() >= 1
                &&& final(self).nterminal <= final(self).nsymbol
                &&& final(self).symbols@[0].index == 0
                &&& forall|q: int|
                    0 <= q < final(self).rules@.len() ==> (#[trigger] final(self).rules@[q]).index
                        == q && final(self).rules@[q].can_reduce
                &&& final(self).rules@.len() == old(self).rules@.len()
                &&& is_nullable(lambdas(final(self).symbols@), final(self).rules@)
                &&& is_first(
                    final(self).symbols@,
                    final(self).rules@,
                    lambdas(final(self).symbols@),
                    firsts(final(self).symbols@),
                )
                &&& links_closed(final(self).configs@, follows(final(self).configs@))
                &&& shifts_respected(final(self).states@, final(self).configs@, final(self).rules@)
                &&& automaton_formed(
                    final(self).states@,
                    final(self).configs@,
                    final(self).rules@,
                    final(self).symbols@,
                )
                &&& forall|s: int|
                    0 <= s < final(self).states@.len() ==> #[trigger] crate::shifts::one_target(
                        final(self).states@,
                        final(self).configs@,
                        final(self).rules@,
                        s,
                    )
                &&& forall|s: int|
                    0 < s < final(self).states@.len() ==> #[trigger] crate::shifts::advanced_state(
                        final(self).states@,
                        final(self).configs@,
                        s,
                    )
                &&& final(self).start is Some
                &&& final(self).symbols@[final(self).start->0 as int].kind is NonTerminal ==> starts_with(
                    final(self).states@,
                    final(self).configs@,
                    final(self).symbols@,
                    final(self).start->0,
                )
                &&& final(self).nconflict == 0
                &&& forall|s: int|
                    0 <= s < final(self).states@.len() ==> !some_conflict(
                        (#[trigger] final(self).states@[s]).ap@,
                    )
                &&& forall|s: int|
                    0 <= s < final(self).states@.len() ==> #[trigger] actions_sound(*final(self), s)
                        && actions_complete(*final(self), s)
                &&& crate::pack::ranked(*final(self))
                &&& tables_of(t, *final(self))
                &&& rows_read_back(t, *final(self))
                &&& same_grammar(*old(self), *final(self))
                &&& exists|was: Lemon| #[trigger]
                    same_input(*old(self), was) && crate::minor::slots_assigned(
                        was,
                        final(self).symbols@,
                        t.minor_types@,
                    )
            },
            r matches Err(e) ==> analysis_fault(e.fault) || emission_fault(e.fault),
            r matches Err(e) ==> analysis_fault(e.fault) ==> analysis_verdict(
                *old(self),
                *final(self),
                e,
            ),
            r matches Err(e) ==> e.fault == Fault::TablesTooLarge ==> e.span == crate::decl::CALL_SITE
                && too_large(*final(self)),
            r matches Err(e) ==> emission_fault(e.fault) ==> !on_rhs(
                old(self).symbols@,
                old(self).rules@,
                start_of(*old(self)),
            ) && !new_lacking(
                0,
                final(self).configs@,
                final(self).rules@,
                final(self).symbols@,
                final(self).err_sym,
            ) && final(self).nconflict == 0 && forall|q: int|
                0 <= q < final(self).rules@.len() ==> (#[trigger] final(self).rules@[q]).can_reduce,
            !too_large(*final(self)) ==> (r is Ok <==> !on_rhs(
                old(self).symbols@,
                old(self).rules@,
                start_of(*old(self)),
            ) && !new_lacking(
                0,
                final(self).configs@,
                final(self).rules@,
                final(self).symbols@,
                final(self).err_sym,
            ) && (forall|q: int|
                0 <= q < final(self).rules@.len() ==> (#[trigger] final(self).rules@[q]).can_reduce)
                && final(self).nconflict == 0 && !crate::minor::typed_wildcard(*old(self))
                && !crate::emit::enum_has_variants(*old(self)) && !crate::emit::any_fallback_mismatch(
                *final(self),
            ) && !crate::emit::any_rule_fault(*final(self))),
            r matches Err(e) ==> emission_fault(e.fault) && e.fault != Fault::TablesTooLarge
                ==> exists|was: Lemon| #[trigger]
                emission_verdict(was, *final(self), e) && same_input(*old(self), was),
            r is Ok ==> !crate::minor::typed_wildcard(*old(self)) && !crate::emit::enum_has_variants(
                *old(self),
            ) && !crate::emit::any_fallback_mismatch(*final(self)) && !crate::emit::any_rule_fault(
                *final(self),
            ),
            on_rhs(old(self).symbols@, old(self).rules@, start_of(*old(self))) ==> (r matches Err(e)
                && e.fault == Fault::StartOnRhs),
    {
        let ghost o_lem = *self;
        match self.analyse() {
            Err(e) => {
                return Err(e);
            },
            Ok(()) => {},
        }
        if self.states.len() > MAX_TABLE_INDEX || self.rules.len() > MAX_TABLE_INDEX
            - self.states.len() || self.rules.len() + self.states.len() + 2 > MAX_TABLE_INDEX {
            return Err(Error::new(Fault::TablesTooLarge, crate::decl::CALL_SITE));
        }
        let ghost a_syms = self.symbols@;
        let ghost a_rules = self.rules@;
        let ghost a_states = self.states@;
        let ghost a_configs = self.configs@;
        let ghost a_lem = *self;
        proof {
            self.lemma_refs_exist();
            self.lemma_listed_exist();
            assert forall|c: int| 0 <= c < a_configs.len() implies (#[trigger] a_configs[c]).rule
                < a_rules.len() by {
                crate::automaton::lemma_config_ok(
                    self.configs@,
                    self.states@,
                    self.rules@,
                    self.symbols@.len(),
                    c,
                );
            }
        }
        self.compress_tables();
        let ghost c_states = self.states@;
        self.resort_states();
        let ghost s_states = self.states@;
        proof {
            assert forall|s: int| 0 <= s < s_states.len() implies lookahead_sorted(
                self.symbols@,
                (#[trigger] s_states[s]).ap@,
            ) by {
                assert(crate::resort::same_but_counts(c_states[s], s_states[s]));
            }
        }
        let ghost g_lem = *self;
        proof {
            assert(same_input(o_lem, g_lem)) by {
                assert(same_input(o_lem, a_lem));
            }
        }
        let res = self.generate_tables();
        proof {
            assert forall|s: int| 0 <= s < a_states.len() implies (#[trigger] self.states@[s]).cfp
                == a_states[s].cfp && self.states@[s].bp == a_states[s].bp by {
                assert(same_but_actions(a_states[s], c_states[s]));
                assert(crate::resort::same_but_counts(c_states[s], s_states[s]));
                assert(crate::pack::same_but_offsets(s_states[s], self.states@[s]));
            }
            lemma_shifts_kept(a_states, self.states@, self.configs@, self.rules@);
            let f_syms = self.symbols@;
            assert(self.states@.len() == g_lem.states@.len() && self.symbols@.len()
                == g_lem.symbols@.len() && self.rules@ == a_rules && self.configs@ == a_configs);
            assert(crate::pack::may_overflow(g_lem) == crate::pack::may_overflow(*self));
            assert(crate::minor::typed_wildcard(g_lem) == crate::minor::typed_wildcard(o_lem)) by {
                if g_lem.wildcard is Some {
                    assert(g_lem.wildcard->0 < g_lem.symbols@.len());
                }
            }
            assert(!new_lacking(0, self.configs@, self.rules@, f_syms, self.err_sym)) by {
                assert(a_lem.analysed_core());
                if new_lacking(0, a_configs, a_rules, f_syms, self.err_sym) {
                    let c = choose|c: int| #[trigger]
                        crate::states::lacks_after(0, a_configs, a_rules, f_syms, self.err_sym, c);
                    let cfg = a_configs[c];
                    assert(cfg.rule < a_rules.len());
                    lemma_rhs_in_range(a_syms, a_rules);
                    let sym = a_rules[cfg.rule as int].rhs@[cfg.dot as int].sym as int;
                    assert(sym < a_syms.len());
                    assert(crate::minor::same_but_type(a_syms[sym], f_syms[sym]));
                    assert(crate::states::lacks_after(0, a_configs, a_rules, a_syms, a_lem.err_sym, c));
                }
            }
            assert forall|s: int| 0 <= s < self.states@.len() implies #[trigger] crate::shifts::one_target(
                self.states@,
                self.configs@,
                self.rules@,
                s,
            ) by {
                assert(a_lem.analysed_core());
                crate::shifts::lemma_one_target_same(
                    a_states,
                    self.states@,
                    a_configs,
                    a_rules,
                    a_rules,
                    s,
                );
            }
            assert forall|s: int| 0 < s < self.states@.len() implies #[trigger] crate::shifts::advanced_state(
                self.states@,
                self.configs@,
                s,
            ) by {
                assert(a_lem.analysed_core());
                a_lem.lemma_listed_exist();
                crate::shifts::lemma_advanced_kept(a_states, self.states@, a_configs, self.configs@, s);
            }
            if res is Ok {
                assert(same_grammar(o_lem, a_lem));
                assert forall|s: int| 0 <= s < o_lem.symbols@.len() implies symbol_filled(
                    o_lem.symbols@[s],
                    #[trigger] self.symbols@[s],
                ) by {
                    assert(symbol_filled(o_lem.symbols@[s], a_syms[s]));
                    assert(crate::minor::same_but_type(a_syms[s], f_syms[s]));
                }
                assert(same_grammar(o_lem, *self));
                assert(same_input(o_lem, g_lem) && crate::minor::slots_assigned(
                    g_lem,
                    self.symbols@,
                    res->Ok_0.minor_types@,
                ));
                assert(same_automaton(a_lem, *self)) by {
                    assert forall|y: int| 0 <= y < a_syms.len() implies (#[trigger] f_syms[y]).kind
                        == a_syms[y].kind && f_syms[y].sub_sym == a_syms[y].sub_sym by {
                        assert(crate::minor::same_but_type(a_syms[y], f_syms[y]));
                    }
                }
                assert forall|s: int| 0 <= s < self.states@.len() implies !some_conflict(
                    (#[trigger] self.states@[s]).ap@,
                ) && actions_sound(*self, s) && actions_complete(*self, s) by {
                    assert(same_but_actions(a_states[s], c_states[s]));
                    assert(crate::resort::same_but_counts(c_states[s], s_states[s]));
                    assert(crate::pack::same_but_offsets(s_states[s], self.states@[s]));
                    assert(self.states@[s].ap@ == c_states[s].ap@);
                    assert(a_lem.analysed_core());
                    assert(0 <= s < a_lem.states@.len());
                    assert(actions_sound(a_lem, s));
                    assert(actions_complete(a_lem, s));
                    lemma_compressed_backed(
                        a_lem,
                        s,
                        state_nums(a_states),
                        a_states[s].ap@,
                        c_states[s].ap@,
                    );
                    lemma_backed_same(a_lem, *self, s, c_states[s].ap@);
                    if some_conflict(c_states[s].ap@) {
                        crate::compress::lemma_compressed_conflict(
                            a_syms,
                            state_nums(a_states),
                            a_rules,
                            a_lem.wildcard,
                            (a_syms.len() - 1) as usize,
                            a_states[s].ap@,
                            c_states[s].ap@,
                        );
                    }
                }
                assert(self.configs@ == a_configs);
                assert(self.rules@ == a_rules);
                assert(crate::formed::shape_kept(a_states, self.states@, a_configs, a_configs)) by {
                    assert forall|x: int| 0 <= x < a_configs.len() implies a_configs[x].fplp@.is_prefix_of(
                        (#[trigger] a_configs[x]).fplp@,
                    ) by {}
                }
                lemma_automaton_formed_kept(
                    a_states,
                    self.states@,
                    a_configs,
                    a_configs,
                    a_rules,
                    a_syms,
                );
                lemma_rhs_in_range(a_syms, a_rules);
                assert(crate::formed::slots_exist(a_syms, a_rules)) by {
                    assert forall|s: int, k: int|
                        0 <= s < a_syms.len() && 0 <= k < a_syms[s].sub_sym@.len() implies (
                    #[trigger] a_syms[s].sub_sym@[k]) < a_syms.len() by {
                        lemma_symbol_ok(a_syms, a_rules, s);
                    }
                }
                assert(crate::formed::same_facts(a_syms, f_syms)) by {
                    assert forall|s: int| 0 <= s < a_syms.len() implies (#[trigger] f_syms[s]).kind
                        == a_syms[s].kind && f_syms[s].index == a_syms[s].index && f_syms[s].sub_sym
                        == a_syms[s].sub_sym && f_syms[s].rules == a_syms[s].rules && f_syms[s].lambda
                        == a_syms[s].lambda && f_syms[s].first_set@ == a_syms[s].first_set@ by {
                        assert(crate::minor::same_but_type(a_syms[s], f_syms[s]));
                    }
                }
                assert(crate::formed::same_rhs(a_rules, a_rules));
                lemma_formed_same_grammar(self.states@, a_configs, a_rules, a_rules, a_syms, f_syms);
                let sp = self.start->0;
                assert(sp < a_syms.len());
                assert(crate::minor::same_but_type(a_syms[sp as int], f_syms[sp as int]));
                if a_syms[sp as int].kind is NonTerminal {
                    self.lemma_start_kept(
                        a_states,
                        self.states@,
                        a_configs,
                        a_configs,
                        a_syms,
                        f_syms,
                        sp,
                    );
                }
            }
            assert forall|q: int| 0 <= q < self.rules@.len() implies (#[trigger] self.rules@[q]).index
                == q by {
                lemma_rule_ok(self.symbols@, self.rules@, q);
            }
            assert(lambdas(f_syms) =~= lambdas(a_syms)) by {
                assert forall|s: int| 0 <= s < a_syms.len() implies lambdas(f_syms)[s] == lambdas(
                    a_syms,
                )[s] by {
                    assert(crate::minor::same_but_type(a_syms[s], f_syms[s]));
                }
            }
            assert(firsts(f_syms) =~= firsts(a_syms)) by {
                assert forall|s: int| 0 <= s < a_syms.len() implies firsts(f_syms)[s] == firsts(
                    a_syms,
                )[s] by {
                    assert(crate::minor::same_but_type(a_syms[s], f_syms[s]));
                }
            }
            assert(same_shape(a_syms, f_syms)) by {
                assert forall|s: int| 0 <= s < a_syms.len() implies (#[trigger] f_syms[s]).kind
                    == a_syms[s].kind && f_syms[s].index == a_syms[s].index && f_syms[s].sub_sym
                    == a_syms[s].sub_sym by {
                    assert(crate::minor::same_but_type(a_syms[s], f_syms[s]));
                }
            }
            lemma_rhs_in_range(a_syms, a_rules);
            assert forall|s: int, k: int|
                0 <= s < a_syms.len() && 0 <= k < a_syms[s].sub_sym@.len() implies (
            #[trigger] a_syms[s].sub_sym@[k]) < a_syms.len() by {
                lemma_symbol_ok(a_syms, a_rules, s);
            }
            lemma_first_same_shape(
                a_syms,
                f_syms,
                a_rules,
                a_rules,
                lambdas(a_syms),
                firsts(a_syms),
            );
            assert(f_syms[0].index == 0) by {
                assert(crate::minor::same_but_type(a_syms[0], f_syms[0]));
            }
        }
        res
    }

    /// Whether the grammar can be built: it has a start symbol, or a rule to
    /// take it from.
    pub fn can_build(&self) -> (b: bool)
        ensures
            b == self.has_start(),
    {
        self.can_prepare()
    }
}

/// A grammar none of whose rules has a right-hand side has an automaton of
/// one state at most: every state but the first is entered over a symbol of
/// a rule, and there is none.
pub proof fn law_rules_without_symbols_one_state(lem: Lemon)
    requires
        lem.built_wf(),
        forall|s: int|
            0 < s < lem.states@.len() ==> #[trigger] crate::shifts::advanced_state(
                lem.states@,
                lem.configs@,
                s,
            ),
        forall|q: int| 0 <= q < lem.rules@.len() ==> (#[trigger] lem.rules@[q]).rhs@.len() == 0,
    ensures
        lem.states@.len() <= 1,
{
    if lem.states@.len() > 1 {
        reveal(crate::shifts::advanced_state);
        assert(crate::shifts::advanced_state(lem.states@, lem.configs@, 1));
        let d: int = lem.states@[1].bp@[0] as int;
        crate::automaton::lemma_state_ok(
            lem.configs@,
            lem.states@,
            lem.rules@,
            lem.symbols@.len(),
            1,
        );
        crate::automaton::lemma_config_ok(
            lem.configs@,
            lem.states@,
            lem.rules@,
            lem.symbols@.len(),
            d,
        );
        assert(lem.rules@[lem.configs@[d].rule as int].rhs@.len() == 0);
    }
}

/// The first state accepts on the start symbol, and for a rule of the start
/// symbol that has no right-hand side it holds, on the end of input, what is
/// left of the reduce by that rule, or it reduces by the rule by default.
pub proof fn law_first_state_ends_the_input(lem: Lemon, k: int)
    requires
        lem.states@.len() >= 1,
        lem.nterminal >= 1,
        lem.start is Some,
        automaton_formed(lem.states@, lem.configs@, lem.rules@, lem.symbols@),
        starts_with(lem.states@, lem.configs@, lem.symbols@, lem.start->0),
        actions_complete(lem, 0),
        0 <= k < lem.symbols@[lem.start->0 as int].rules@.len(),
        lem.rules@[lem.symbols@[lem.start->0 as int].rules@[k] as int].rhs@.len() == 0,
    ensures
        crate::backing::has_accept(lem.states@[0].ap@, lem.start->0),
        crate::backing::covers_reduce(
            lem.states@[0].ap@,
            lem.by_index@[0],
            lem.symbols@[lem.start->0 as int].rules@[k],
            crate::backing::default_symbol(lem),
        ),
{
    let q: usize = lem.symbols@[lem.start->0 as int].rules@[k];
    let bp = lem.states@[0].bp@;
    let cfp = lem.states@[0].cfp@;
    assert(crate::states::starts_rule(lem.states@, lem.configs@, q));
    let j: int = choose|j: int|
        0 <= j < bp.len() && lem.configs@[(#[trigger] bp[j]) as int].rule == q && lem.configs@[bp[j] as int].dot
            == 0 && lem.configs@[bp[j] as int].fws@.contains(0);
    assert(crate::formed::formed(lem.states@, lem.configs@, lem.rules@, lem.symbols@, 0));
    assert(cfp.contains(bp[j]));
    let i: int = choose|i: int| 0 <= i < cfp.len() && cfp[i] == bp[j];
    let end: int = 0;
    assert(crate::actions::reduces_on(lem.configs@, lem.rules@, cfp[i] as int, end as usize));
    assert(crate::backing::list_complete(lem, 0, lem.states@[0].ap@));
}

} // verus!
