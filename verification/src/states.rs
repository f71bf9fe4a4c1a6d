//! Finding the states of the automaton.
//!
//! A state is known by its basis: the configurations that lead into it,
//! ordered by rule and mark. A basis that was met before names the state it
//! was met with; a new one is closed, becomes a new state, and the states
//! that its configurations shift to are found in turn.

use crate::automaton::{
    config_ok, lemma_config_ok, lemma_configs_changed, lemma_empty_automaton, lemma_rules_marked,
    lemma_state_ok, lemma_states_changed, state_ok,
};
use crate::closure::{add_to_list, items_distinct, lacks_rules};
use crate::config::{Config, State};
use crate::error::{Error, Fault};
use crate::formed::{
    automaton_formed, carries, formed, given_has, has_key, holds_basis, in_order, keys_are,
    known_basis, lemma_automaton_formed_kept, lemma_basis_found, lemma_basis_holds,
    lemma_kept_shape, lemma_new_state_formed, same_keys, shape_kept, takes_follow,
};
use crate::grammar::{
    lemma_marked_keeps_wf, lemma_rule_ok, lemma_symbol_ok, rule_marked, rule_ok, symbol_ok, Lemon,
};
use crate::order::{is_sorted_order, sorted_order, Key3};
use crate::sets::{below, insert_into};
use crate::shifts::{advanced_state, all_grouped, lemma_contains_kept, linked, one_target, shifted};
use crate::symbol::{Rule, Symbol, SymbolKind};
use vstd::prelude::*;

verus! {

/// Every configuration of `before` is still there in `after`, unchanged but
/// for links back that were added and, where `touched` lists it, its status.
pub open spec fn configs_kept(before: Seq<Config>, after: Seq<Config>, touched: Seq<usize>) -> bool {
    &&& before.len() <= after.len()
    &&& forall|c: int|
        0 <= c < before.len() ==> (#[trigger] after[c]) == (Config {
            bplp: after[c].bplp,
            status: after[c].status,
            ..before[c]
        }) && before[c].bplp@.is_prefix_of(after[c].bplp@) && (after[c].status != before[c].status
            ==> touched.contains(c as usize))
}

/// Configuration `c` stands at position `from` or later, and its mark
/// stands before a nonterminal that has no rule and is not the error symbol.
pub open spec fn lacks_after(
    from: int,
    configs: Seq<Config>,
    rules: Seq<Rule>,
    symbols: Seq<Symbol>,
    err_sym: usize,
    c: int,
) -> bool {
    from <= c < configs.len() && lacks_rules(configs, rules, symbols, err_sym, c)
}

/// Some configuration from position `from` on has its mark before a
/// nonterminal that has no rule and is not the error symbol.
pub open spec fn new_lacking(
    from: int,
    configs: Seq<Config>,
    rules: Seq<Rule>,
    symbols: Seq<Symbol>,
    err_sym: usize,
) -> bool {
    exists|c: int| #[trigger] lacks_after(from, configs, rules, symbols, err_sym, c)
}

/// The basis of state `s` has the given rules and marks, in order.
pub open spec fn basis_matches(
    states: Seq<State>,
    configs: Seq<Config>,
    s: int,
    keys: Seq<Key3>,
) -> bool {
    &&& states[s].bp@.len() == keys.len()
    &&& forall|i: int|
        0 <= i < keys.len() ==> configs[(#[trigger] states[s].bp@[i]) as int].rule == keys[i].k0
            && configs[states[s].bp@[i] as int].dot == keys[i].k1
}

/// The configurations of a list are such as can seed a state: each is for a
/// rule that exists, with its mark inside the rule, and links back only to
/// configurations that exist.
pub open spec fn basis_ok(
    basis: Seq<Config>,
    rules: Seq<Rule>,
    nsyms: nat,
    nconfigs: nat,
) -> bool {
    forall|j: int|
        0 <= j < basis.len() ==> {
            let cfg = #[trigger] basis[j];
            &&& cfg.rule < rules.len()
            &&& cfg.dot <= rules[cfg.rule as int].rhs@.len()
            &&& below(cfg.fws@, nsyms)
            &&& cfg.fplp@.len() == 0
            &&& forall|k: int| 0 <= k < cfg.bplp@.len() ==> (#[trigger] cfg.bplp@[k]) < nconfigs
        }
}

/// No two configurations of the list are for the same rule and mark.
pub open spec fn basis_distinct(basis: Seq<Config>) -> bool {
    items_distinct(basis, 0)
}

/// Configuration `d` is for the rule and mark of `given` and has all links
/// back that `given` has.
pub open spec fn hands_over(given: Config, configs: Seq<Config>, d: int) -> bool {
    &&& configs[d].rule == given.rule
    &&& configs[d].dot == given.dot
    &&& forall|x: usize| given.bplp@.contains(x) ==> #[trigger] configs[d].bplp@.contains(x)
}

/// The basis of state `t` has a configuration that `given` was handed over
/// to.
pub open spec fn taken_by(given: Config, states: Seq<State>, configs: Seq<Config>, t: int) -> bool {
    exists|j: int|
        0 <= j < states[t].bp@.len() && hands_over(given, configs, (#[trigger] states[t].bp@[j]) as int)
}

/// Every one of the given configurations was handed over to the basis of
/// state `t`.
pub open spec fn basis_taken(
    given: Seq<Config>,
    states: Seq<State>,
    configs: Seq<Config>,
    t: int,
) -> bool {
    forall|i: int| 0 <= i < given.len() ==> taken_by(#[trigger] given[i], states, configs, t)
}

/// Keeping carries over from step to step, where the second step touches no
/// status.
pub proof fn lemma_kept_then(a: Seq<Config>, b: Seq<Config>, c: Seq<Config>, touched: Seq<usize>)
    requires
        configs_kept(a, b, touched),
        configs_kept(b, c, Seq::empty()),
    ensures
        configs_kept(a, c, touched),
{
    assert forall|x: int| 0 <= x < a.len() implies (#[trigger] c[x]) == (Config {
        bplp: c[x].bplp,
        status: c[x].status,
        ..a[x]
    }) && a[x].bplp@.is_prefix_of(c[x].bplp@) && (c[x].status != a[x].status ==> touched.contains(
        x as usize,
    )) by {
        assert(b[x] == (Config { bplp: b[x].bplp, status: b[x].status, ..a[x] }));
        assert(a[x].bplp@.is_prefix_of(b[x].bplp@));
        assert(b[x].bplp@.is_prefix_of(c[x].bplp@));
        if c[x].status != b[x].status {
            assert(Seq::<usize>::empty().contains(x as usize));
        }
    }
}

/// Configurations keep themselves.
pub proof fn lemma_kept_same(a: Seq<Config>, touched: Seq<usize>)
    ensures
        configs_kept(a, a, touched),
{
    assert forall|x: int| 0 <= x < a.len() implies a[x].bplp@.is_prefix_of((#[trigger] a[x]).bplp@) by {}
}

/// The basis of the first state has a configuration for rule `q` with the
/// mark at the start, and the end of input in its follow set.
pub open spec fn starts_rule(states: Seq<State>, configs: Seq<Config>, q: usize) -> bool {
    exists|j: int|
        0 <= j < states[0].bp@.len() && configs[(#[trigger] states[0].bp@[j]) as int].rule == q
            && configs[states[0].bp@[j] as int].dot == 0 && configs[states[0].bp@[j] as int].fws@.contains(
            0,
        )
}

/// The basis of the first state is made of the rules of symbol `sp`, each
/// with the mark at the start and the end of input in its follow set.
pub open spec fn starts_with(
    states: Seq<State>,
    configs: Seq<Config>,
    symbols: Seq<Symbol>,
    sp: usize,
) -> bool {
    &&& forall|k: int|
        0 <= k < symbols[sp as int].rules@.len() ==> starts_rule(
            states,
            configs,
            #[trigger] symbols[sp as int].rules@[k],
        )
    &&& forall|j: int|
        0 <= j < states[0].bp@.len() ==> configs[(#[trigger] states[0].bp@[j]) as int].dot == 0
            && symbols[sp as int].rules@.contains(configs[states[0].bp@[j] as int].rule)
}

/// A slot holding `sym` mentions `sp`: it holds `sp` itself or a
/// multi-terminal that has `sp` among its alternatives.
pub open spec fn slot_mentions(symbols: Seq<Symbol>, sym: usize, sp: usize) -> bool {
    sym == sp || (symbols[sym as int].kind is MultiTerminal && symbols[sym as int].sub_sym@.contains(
        sp,
    ))
}

/// Slot `k` of rule `r` mentions `sp`.
pub open spec fn mentioned_at(
    symbols: Seq<Symbol>,
    rules: Seq<Rule>,
    sp: usize,
    r: int,
    k: int,
) -> bool {
    &&& 0 <= r < rules.len()
    &&& 0 <= k < rules[r].rhs@.len()
    &&& slot_mentions(symbols, rules[r].rhs@[k].sym, sp)
}

/// Slot `k` of rule `r` is the first slot, in the order of the rules, that
/// mentions `sp`.
pub open spec fn first_mention(
    symbols: Seq<Symbol>,
    rules: Seq<Rule>,
    sp: usize,
    r: int,
    k: int,
) -> bool {
    &&& mentioned_at(symbols, rules, sp, r, k)
    &&& forall|x: int, j: int|
        x < r || (x == r && j < k) ==> !#[trigger] mentioned_at(symbols, rules, sp, x, j)
}

/// Some slot of some rule mentions `sp`.
pub open spec fn on_rhs(symbols: Seq<Symbol>, rules: Seq<Rule>, sp: usize) -> bool {
    exists|r: int, k: int| #[trigger] mentioned_at(symbols, rules, sp, r, k)
}

impl Lemon {
    /// Whether the basis of state `s` has the given rules and marks.
    fn basis_is(&self, s: usize, keys: &Vec<Key3>) -> (b: bool)
        requires
            self.built_wf(),
            s < self.states@.len(),
        ensures
            b == basis_matches(self.states@, self.configs@, s as int, keys@),
    {
        proof {
            lemma_state_ok(
                self.configs@,
                self.states@,
                self.rules@,
                self.symbols@.len(),
                s as int,
            );
        }
        let n = self.states[s].bp.len();
        if n != keys.len() {
            return false;
        }
        let mut i: usize = 0;
        while i < n
            invariant
                i <= n,
                s < self.states@.len(),
                n == self.states@[s as int].bp@.len(),
                n == keys@.len(),
                state_ok(
                    self.states@,
                    self.configs@.len(),
                    self.symbols@.len(),
                    self.rules@.len(),
                    s as int,
                ),
                forall|x: int|
                    0 <= x < i ==> self.configs@[(#[trigger] self.states@[s as int].bp@[x]) as int].rule
                        == keys@[x].k0 && self.configs@[self.states@[s as int].bp@[x] as int].dot
                        == keys@[x].k1,
            decreases n - i,
        {
            let c = self.states[s].bp[i];
            assert(self.states@[s as int].bp@[i as int] < self.configs@.len());
            if self.configs[c].rule != keys[i].k0 || self.configs[c].dot != keys[i].k1 {
                return false;
            }
            i += 1;
        }
        true
    }

    /// Finds the state whose basis has the given rules and marks: the one
    /// found first, if there are several.
    pub fn state_find(&self, keys: &Vec<Key3>) -> (r: Option<usize>)
        requires
            self.built_wf(),
        ensures
            match r {
                Some(s) => s < self.states@.len() && basis_matches(
                    self.states@,
                    self.configs@,
                    s as int,
                    keys@,
                ) && forall|x: int|
                    0 <= x < s ==> !#[trigger] basis_matches(self.states@, self.configs@, x, keys@),
                None => forall|x: int|
                    0 <= x < self.states@.len() ==> !#[trigger] basis_matches(
                        self.states@,
                        self.configs@,
                        x,
                        keys@,
                    ),
            },
    {
        let n = self.states.len();
        let mut s: usize = 0;
        while s < n
            invariant
                s <= n,
                n == self.states@.len(),
                self.built_wf(),
                forall|x: int|
                    0 <= x < s ==> !#[trigger] basis_matches(self.states@, self.configs@, x, keys@),
            decreases n - s,
        {
            if self.basis_is(s, keys) {
                return Some(s);
            }
            s += 1;
        }
        None
    }

    /// Adds a state with the given configurations and basis.
    fn push_state(&mut self, cfp: Vec<usize>, bp: Vec<usize>) -> (s: usize)
        requires
            old(self).built_wf(),
            forall|k: int| 0 <= k < cfp@.len() ==> (#[trigger] cfp@[k]) < old(self).configs@.len(),
            forall|k: int| 0 <= k < bp@.len() ==> (#[trigger] bp@[k]) < old(self).configs@.len(),
        ensures
            final(self).built_wf(),
            *final(self) == (Lemon { states: final(self).states, ..*old(self) }),
            s == old(self).states@.len(),
            final(self).states@ == old(self).states@.push(final(self).states@[s as int]),
            final(self).states@[s as int].cfp@ == cfp@,
            final(self).states@[s as int].bp@ == bp@,
            final(self).states@[s as int].ap@.len() == 0,
            final(self).states@[s as int].state_num == s,
    {
        let s = self.states.len();
        let ghost before = self.states@;
        self.states.push(
            State {
                cfp,
                bp,
                state_num: s,
                ap: Vec::new(),
                n_tkn_act: 0,
                n_nt_act: 0,
                i_tkn_ofst: None,
                i_nt_ofst: None,
                i_dflt: 0,
            },
        );
        proof {
            let after = self.states@;
            let nsyms = self.symbols@.len();
            assert forall|x: int| 0 <= x < after.len() implies #[trigger] state_ok(
                after,
                self.configs@.len(),
                nsyms,
                self.rules@.len(),
                x,
            ) by {
                if x < before.len() {
                    lemma_state_ok(self.configs@, before, self.rules@, nsyms, x);
                    assert(after[x] == before[x]);
                }
            }
            lemma_states_changed(self.configs@, before, after, self.rules@, nsyms);
        }
        s
    }

    /// What consistency says of the configurations that states list.
    pub proof fn lemma_listed_exist(&self)
        requires
            self.built_wf(),
        ensures
            forall|t: int, j: int|
                0 <= t < self.states@.len() && 0 <= j < self.states@[t].bp@.len() ==> (
                #[trigger] self.states@[t].bp@[j]) < self.configs@.len(),
            forall|t: int, j: int|
                0 <= t < self.states@.len() && 0 <= j < self.states@[t].cfp@.len() ==> (
                #[trigger] self.states@[t].cfp@[j]) < self.configs@.len(),
    {
        assert forall|t: int, j: int|
            0 <= t < self.states@.len() && 0 <= j < self.states@[t].bp@.len() implies (
        #[trigger] self.states@[t].bp@[j]) < self.configs@.len() by {
            lemma_state_ok(self.configs@, self.states@, self.rules@, self.symbols@.len(), t);
        }
        assert forall|t: int, j: int|
            0 <= t < self.states@.len() && 0 <= j < self.states@[t].cfp@.len() implies (
        #[trigger] self.states@[t].cfp@[j]) < self.configs@.len() by {
            lemma_state_ok(self.configs@, self.states@, self.rules@, self.symbols@.len(), t);
        }
    }

    /// Hands the links back of the given configurations to the basis of state
    /// `st`: those of the configuration that `order` names at position `p` go
    /// to the configuration of the basis at position `p`.
    fn hand_links(&mut self, st: usize, basis: &Vec<Config>, order: &Vec<usize>)
        requires
            old(self).built_wf(),
            old(self).is_numbered(),
            st < old(self).states@.len(),
            old(self).states@[st as int].bp@.len() == basis@.len(),
            order@.len() == basis@.len(),
            forall|p: int| 0 <= p < order@.len() ==> (#[trigger] order@[p]) < basis@.len(),
            basis_ok(
                basis@,
                old(self).rules@,
                old(self).symbols@.len(),
                old(self).configs@.len(),
            ),
        ensures
            final(self).built_wf(),
            final(self).is_numbered(),
            *final(self) == (Lemon { configs: final(self).configs, ..*old(self) }),
            final(self).configs@.len() == old(self).configs@.len(),
            configs_kept(old(self).configs@, final(self).configs@, Seq::empty()),
            forall|p: int, x: usize|
                0 <= p < basis@.len() && basis@[order@[p] as int].bplp@.contains(x)
                    ==> #[trigger] final(self).configs@[final(self).states@[st as int].bp@[p] as int].bplp@.contains(
                    x,
                ),
    {
        let ghost start = *self;
        let ghost given = basis@;
        let m = basis.len();
        proof {
            lemma_state_ok(
                self.configs@,
                self.states@,
                self.rules@,
                self.symbols@.len(),
                st as int,
            );
            lemma_kept_same(self.configs@, Seq::empty());
        }
        let mut i: usize = 0;
        while i < m
            invariant
                i <= m,
                m == basis@.len(),
                m == order@.len(),
                given == basis@,
                forall|p: int| 0 <= p < order@.len() ==> (#[trigger] order@[p]) < basis@.len(),
                self.built_wf(),
                self.is_numbered(),
                *self == (Lemon { configs: self.configs, ..start }),
                start == *old(self),
                st < self.states@.len(),
                self.states@[st as int].bp@.len() == m,
                state_ok(
                    self.states@,
                    start.configs@.len(),
                    self.symbols@.len(),
                    self.rules@.len(),
                    st as int,
                ),
                basis_ok(basis@, self.rules@, self.symbols@.len(), start.configs@.len()),
                configs_kept(start.configs@, self.configs@, Seq::empty()),
                self.configs@.len() == start.configs@.len(),
                forall|p: int, x: usize|
                    0 <= p < i && given[order@[p] as int].bplp@.contains(x)
                        ==> #[trigger] self.configs@[self.states@[st as int].bp@[p] as int].bplp@.contains(
                        x,
                    ),
            decreases m - i,
        {
            let target = self.states[st].bp[i];
            assert(self.states@[st as int].bp@[i as int] < start.configs@.len());
            let src = order[i];
            let nb = basis[src].bplp.len();
            let mut k: usize = 0;
            while k < nb
                invariant
                    k <= nb,
                    i < m,
                    m == basis@.len(),
                    m == order@.len(),
                    given == basis@,
                    forall|p: int| 0 <= p < order@.len() ==> (#[trigger] order@[p]) < basis@.len(),
                    src == order@[i as int],
                    src < basis@.len(),
                    nb == basis@[src as int].bplp@.len(),
                    self.built_wf(),
                    self.is_numbered(),
                    *self == (Lemon { configs: self.configs, ..start }),
                    st < self.states@.len(),
                    self.states@[st as int].bp@.len() == m,
                    target == self.states@[st as int].bp@[i as int],
                    target < start.configs@.len(),
                    state_ok(
                        self.states@,
                        start.configs@.len(),
                        self.symbols@.len(),
                        self.rules@.len(),
                        st as int,
                    ),
                    basis_ok(basis@, self.rules@, self.symbols@.len(), start.configs@.len()),
                    configs_kept(start.configs@, self.configs@, Seq::empty()),
                self.configs@.len() == start.configs@.len(),
                    forall|p: int, x: usize|
                        0 <= p < i && given[order@[p] as int].bplp@.contains(x)
                            ==> #[trigger] self.configs@[self.states@[st as int].bp@[p] as int].bplp@.contains(
                            x,
                        ),
                    forall|y: int|
                        0 <= y < k ==> self.configs@[target as int].bplp@.contains(
                            #[trigger] given[src as int].bplp@[y],
                        ),
                decreases nb - k,
            {
                let from = basis[src].bplp[k];
                assert(basis@[src as int].bplp@[k as int] < start.configs@.len());
                let ghost mid = self.configs@;
                self.link_backward(target, from);
                proof {
                    let after = self.configs@;
                    assert(configs_kept(mid, after, Seq::empty())) by {
                        assert forall|x: int| 0 <= x < mid.len() implies mid[x].bplp@.is_prefix_of(
                            (#[trigger] after[x]).bplp@,
                        ) by {}
                    }
                    lemma_kept_then(start.configs@, mid, after, Seq::empty());
                    assert forall|p: int, x: usize|
                        0 <= p < i && given[order@[p] as int].bplp@.contains(x)
                        implies #[trigger] after[self.states@[st as int].bp@[p] as int].bplp@.contains(
                        x,
                    ) by {
                        let d = self.states@[st as int].bp@[p] as int;
                        assert(d < start.configs@.len());
                        lemma_contains_kept(mid[d].bplp@, after[d].bplp@, x);
                    }
                    assert forall|y: int| 0 <= y < k + 1 implies after[target as int].bplp@.contains(
                        #[trigger] given[src as int].bplp@[y],
                    ) by {
                        if y < k {
                            lemma_contains_kept(
                                mid[target as int].bplp@,
                                after[target as int].bplp@,
                                given[src as int].bplp@[y],
                            );
                        } else {
                            let l = after[target as int].bplp@;
                            assert(l[l.len() - 1] == from);
                        }
                    }
                }
                k += 1;
            }
            proof {
                assert forall|p: int, x: usize|
                    0 <= p < i + 1 && given[order@[p] as int].bplp@.contains(x)
                    implies #[trigger] self.configs@[self.states@[st as int].bp@[p] as int].bplp@.contains(
                    x,
                ) by {
                    if p == i {
                        let y = choose|y: int|
                            0 <= y < given[src as int].bplp@.len() && given[src as int].bplp@[y]
                                == x;
                        assert(self.configs@[target as int].bplp@.contains(
                            given[src as int].bplp@[y],
                        ));
                    }
                }
            }
            i += 1;
        }
    }

    /// Names the state that the given configurations are the basis of,
    /// making it, and all states that it leads to, if it is new. The links
    /// back of the given configurations are handed to the basis of the state.
    #[verifier::rlimit(100)]
    pub fn get_state(&mut self, basis: Vec<Config>) -> (r: Result<usize, Error>)
        requires
            old(self).built_wf(),
            old(self).is_numbered(),
            basis_ok(
                basis@,
                old(self).rules@,
                old(self).symbols@.len(),
                old(self).configs@.len(),
            ),
            basis_distinct(basis@),
            automaton_formed(
                old(self).states@,
                old(self).configs@,
                old(self).rules@,
                old(self).symbols@,
            ),
        ensures
            final(self).built_wf(),
            final(self).is_numbered(),
            *final(self) == (Lemon {
                configs: final(self).configs,
                states: final(self).states,
                ..*old(self)
            }),
            old(self).states@.len() <= final(self).states@.len(),
            forall|s: int|
                0 <= s < old(self).states@.len() ==> #[trigger] final(self).states@[s] == old(self).states@[s],
            configs_kept(old(self).configs@, final(self).configs@, Seq::empty()),
            r matches Ok(s) ==> s < final(self).states@.len() && basis_taken(
                basis@,
                final(self).states@,
                final(self).configs@,
                s as int,
            ),
            r is Ok ==> forall|x: int|
                old(self).states@.len() <= x < final(self).states@.len() ==> #[trigger] linked(
                    final(self).states@,
                    final(self).configs@,
                    final(self).rules@,
                    x,
                ),
            r matches Ok(s) ==> holds_basis(
                final(self).states@,
                final(self).configs@,
                s as int,
                basis@,
            ),
            known_basis(old(self).states@, old(self).configs@, basis@) ==> r is Ok
                && final(self).states@.len() == old(self).states@.len() && final(self).configs@.len()
                == old(self).configs@.len(),
            r matches Ok(s) ==> s <= old(self).states@.len() && (s < old(self).states@.len()
                <==> known_basis(old(self).states@, old(self).configs@, basis@)),
            r matches Ok(s) ==> s >= old(self).states@.len() ==> forall|i: int|
                0 <= i < basis@.len() ==> carries(
                    #[trigger] basis@[i],
                    final(self).states@,
                    final(self).configs@,
                    s as int,
                ),
            r is Ok ==> automaton_formed(
                final(self).states@,
                final(self).configs@,
                final(self).rules@,
                final(self).symbols@,
            ),
            r is Ok ==> forall|x: int|
                old(self).states@.len() <= x < final(self).states@.len() ==> #[trigger] shifted(
                    final(self).states@,
                    final(self).configs@,
                    final(self).rules@,
                    final(self).symbols@,
                    x,
                ),
            r is Err <==> new_lacking(
                old(self).configs@.len() as int,
                final(self).configs@,
                final(self).rules@,
                final(self).symbols@,
                final(self).err_sym,
            ),
            forall|x: int|
                old(self).states@.len() <= x < final(self).states@.len() ==> (
                #[trigger] final(self).states@[x]).state_num == x,
            r is Ok ==> forall|x: int|
                old(self).states@.len() <= x < final(self).states@.len() ==> #[trigger] all_grouped(
                    final(self).states@,
                    final(self).configs@,
                    final(self).rules@,
                    x,
                ),
            r is Ok ==> forall|x: int|
                old(self).states@.len() <= x < final(self).states@.len() ==> #[trigger] one_target(
                    final(self).states@,
                    final(self).configs@,
                    final(self).rules@,
                    x,
                ),
            r is Ok ==> forall|x: int|
                old(self).states@.len() < x < final(self).states@.len() ==> #[trigger] advanced_state(
                    final(self).states@,
                    final(self).configs@,
                    x,
                ),
            r matches Err(e) ==> e.fault == Fault::NonterminalWithoutRules,
        decreases usize::MAX - old(self).states@.len(), 0int,
    {
        let ghost start = *self;
        let ghost given = basis@;
        let m = basis.len();
        let mut keys: Vec<Key3> = Vec::new();
        let mut j: usize = 0;
        while j < m
            invariant
                j <= m,
                m == basis@.len(),
                keys@.len() == j,
                forall|x: int|
                    0 <= x < j ==> #[trigger] keys@[x] == (Key3 {
                        k0: basis@[x].rule,
                        k1: basis@[x].dot,
                        k2: 0,
                    }),
            decreases m - j,
        {
            keys.push(Key3 { k0: basis[j].rule, k1: basis[j].dot, k2: 0 });
            j += 1;
        }
        let order = sorted_order(&keys);
        let mut sorted_keys: Vec<Key3> = Vec::new();
        let mut j: usize = 0;
        while j < m
            invariant
                j <= m,
                m == basis@.len(),
                m == keys@.len(),
                is_sorted_order(keys@, order@),
                sorted_keys@.len() == j,
                forall|x: int| 0 <= x < j ==> #[trigger] sorted_keys@[x] == keys@[order@[x] as int],
            decreases m - j,
        {
            sorted_keys.push(keys[order[j]]);
            j += 1;
        }
        proof {
            assert(keys_are(keys@, given));
            assert(in_order(keys@, order@, sorted_keys@));
            self.lemma_listed_exist();
        }
        match self.state_find(&sorted_keys) {
            Some(st) => {
                proof {
                    lemma_basis_holds(
                        self.states@,
                        self.configs@,
                        st as int,
                        given,
                        keys@,
                        order@,
                        sorted_keys@,
                    );
                    lemma_state_ok(
                        self.configs@,
                        self.states@,
                        self.rules@,
                        self.symbols@.len(),
                        st as int,
                    );
                    lemma_kept_same(self.configs@, Seq::empty());
                }
                self.hand_links(st, &basis, &order);
                proof {
                    // every given configuration was handed over
                    let bp = self.states@[st as int].bp@;
                    assert forall|i: int| 0 <= i < given.len() implies taken_by(
                        #[trigger] given[i],
                        self.states@,
                        self.configs@,
                        st as int,
                    ) by {
                        assert(crate::order::occurs(order@, i));
                        let p = choose|p: int| 0 <= p < order@.len() && #[trigger] order@[p] == i;
                        let d = bp[p] as int;
                        assert(d < start.configs@.len());
                        assert(self.configs@[d] == (Config {
                            bplp: self.configs@[d].bplp,
                            status: self.configs@[d].status,
                            ..start.configs@[d]
                        }));
                        assert(start.configs@[bp[p] as int].rule == sorted_keys@[p].k0);
                        assert(sorted_keys@[p] == keys@[order@[p] as int]);
                        assert(hands_over(given[i], self.configs@, bp[p] as int));
                        assert(has_key(self.configs@, bp, given[i].rule, given[i].dot));
                    }
                    assert forall|j: int| 0 <= j < bp.len() implies given_has(
                        given,
                        self.configs@[(#[trigger] bp[j]) as int].rule,
                        self.configs@[bp[j] as int].dot,
                    ) by {
                        let d = bp[j] as int;
                        assert(d < start.configs@.len());
                        assert(self.configs@[d] == (Config {
                            bplp: self.configs@[d].bplp,
                            status: self.configs@[d].status,
                            ..start.configs@[d]
                        }));
                        assert(given_has(given, start.configs@[d].rule, start.configs@[d].dot));
                    }
                    lemma_kept_shape(
                        start.states@,
                        self.states@,
                        start.configs@,
                        self.configs@,
                        Seq::empty(),
                    );
                    lemma_automaton_formed_kept(
                        start.states@,
                        self.states@,
                        start.configs@,
                        self.configs@,
                        self.rules@,
                        self.symbols@,
                    );
                }
                Ok(st)
            },
            None => {
                proof {
                    assert forall|x: int| 0 <= x < self.states@.len() implies !#[trigger] holds_basis(
                        self.states@,
                        self.configs@,
                        x,
                        given,
                    ) by {
                        if holds_basis(self.states@, self.configs@, x, given) {
                            assert(formed(self.states@, self.configs@, self.rules@, self.symbols@, x));
                            lemma_basis_found(
                                self.states@,
                                self.configs@,
                                x,
                                given,
                                keys@,
                                order@,
                                sorted_keys@,
                            );
                        }
                    }
                }
                let base = self.configs.len();
                let mut basis = basis;
                self.configs.append(&mut basis);
                proof {
                    let after = self.configs@;
                    let nsyms = self.symbols@.len();
                    assert forall|x: int| 0 <= x < after.len() implies #[trigger] config_ok(
                        after,
                        self.rules@,
                        nsyms,
                        x,
                    ) by {
                        if x < base {
                            lemma_config_ok(start.configs@, self.states@, self.rules@, nsyms, x);
                            assert(after[x] == start.configs@[x]);
                        } else {
                            assert(after[x] == given[x - base]);
                        }
                    }
                    lemma_configs_changed(start.configs@, after, self.states@, self.rules@, nsyms);
                    assert(items_distinct(after, base as int)) by {
                        assert forall|a: int, b: int|
                            base <= a < b < after.len() implies !((#[trigger] after[a]).rule == (
                        #[trigger] after[b]).rule && after[a].dot == after[b].dot) by {
                            assert(after[a] == given[a - base]);
                            assert(after[b] == given[b - base]);
                        }
                    }
                }
                let ghost appended = self.configs@;
                match self.configlist_closure(base) {
                    Err(e) => {
                        proof {
                            self.lemma_old_configs_kept(start.configs@);
                            let c = choose|c: int|
                                base <= c < self.configs@.len() && #[trigger] lacks_rules(
                                    self.configs@,
                                    self.rules@,
                                    self.symbols@,
                                    self.err_sym,
                                    c,
                                );
                            assert(lacks_after(
                                base as int,
                                self.configs@,
                                self.rules@,
                                self.symbols@,
                                self.err_sym,
                                c,
                            ));
                        }
                        return Err(e);
                    },
                    Ok(()) => {},
                }
                let end = self.configs.len();
                // order the configurations of the state by rule and mark
                let mut keys2: Vec<Key3> = Vec::new();
                let mut c: usize = base;
                while c < end
                    invariant
                        base <= c <= end,
                        end == self.configs@.len(),
                        keys2@.len() == c - base,
                        forall|x: int|
                            0 <= x < c - base ==> #[trigger] keys2@[x] == (Key3 {
                                k0: self.configs@[base + x].rule,
                                k1: self.configs@[base + x].dot,
                                k2: 0,
                            }),
                    decreases end - c,
                {
                    keys2.push(Key3 { k0: self.configs[c].rule, k1: self.configs[c].dot, k2: 0 });
                    c += 1;
                }
                let order2 = sorted_order(&keys2);
                let mut cfp: Vec<usize> = Vec::new();
                let mut i: usize = 0;
                while i < end - base
                    invariant
                        i <= end - base,
                        base <= end,
                        end == self.configs@.len(),
                        keys2@.len() == end - base,
                        is_sorted_order(keys2@, order2@),
                        cfp@.len() == i,
                        forall|x: int| 0 <= x < i ==> base <= (#[trigger] cfp@[x]) < end,
                        forall|x: int| 0 <= x < i ==> #[trigger] cfp@[x] == base + order2@[x],
                    decreases end - base - i,
                {
                    cfp.push(base + order2[i]);
                    i += 1;
                }
                let mut bp: Vec<usize> = Vec::new();
                let mut i: usize = 0;
                while i < m
                    invariant
                        i <= m,
                        m == keys@.len(),
                        base + m <= end,
                        end == self.configs@.len(),
                        is_sorted_order(keys@, order@),
                        bp@.len() == i,
                        forall|x: int| 0 <= x < i ==> base <= (#[trigger] bp@[x]) < end,
                        forall|x: int| 0 <= x < i ==> #[trigger] bp@[x] == base + order@[x],
                    decreases m - i,
                {
                    bp.push(base + order[i]);
                    i += 1;
                }
                let ghost closed = self.configs@;
                let ghost bp_list = bp@;
                let ghost cfp_list = cfp@;
                let st = self.push_state(cfp, bp);
                let ghost pushed = self.states@;
                assert(self.states.len() == start.states@.len() + 1);
                proof {
                    assert forall|x: int| 0 <= x < base implies (#[trigger] closed[x]) == start.configs@[x] by {
                        assert(appended[x] == start.configs@[x]);
                    }
                    assert(shape_kept(start.states@, pushed, start.configs@, closed)) by {
                        assert forall|x: int| 0 <= x < start.configs@.len() implies start.configs@[x].fplp@.is_prefix_of(
                            (#[trigger] closed[x]).fplp@,
                        ) by {}
                    }
                    lemma_automaton_formed_kept(
                        start.states@,
                        pushed,
                        start.configs@,
                        closed,
                        self.rules@,
                        self.symbols@,
                    );
                    assert forall|i: int| 0 <= i < m implies #[trigger] keys@[i] == keys2@[i] by {
                        assert(appended[base + i] == given[i]);
                        assert(closed[base + i].rule == appended[base + i].rule);
                    }
                    lemma_new_state_formed(
                        pushed,
                        closed,
                        self.rules@,
                        self.symbols@,
                        st as int,
                        base as int,
                        m as int,
                        keys@,
                        order@,
                        keys2@,
                        order2@,
                    );
                    assert forall|x: int, y: int| 0 <= x < y < pushed.len() implies !same_keys(
                        closed,
                        (#[trigger] pushed[x]).bp@,
                        (#[trigger] pushed[y]).bp@,
                    ) by {
                        if y == st && same_keys(closed, pushed[x].bp@, pushed[y].bp@) {
                            assert(pushed[x] == start.states@[x]);
                            let bx = start.states@[x].bp@;
                            assert forall|i: int| 0 <= i < sorted_keys@.len() implies start.configs@[(
                            #[trigger] bx[i]) as int].rule == sorted_keys@[i].k0
                                && start.configs@[bx[i] as int].dot == sorted_keys@[i].k1 by {
                                assert(bx[i] < start.configs@.len());
                                assert(closed[bx[i] as int] == start.configs@[bx[i] as int]);
                                assert(bp_list[i] == base + order@[i]);
                                let o = order@[i] as int;
                                assert(appended[base + o] == given[o]);
                                assert(closed[base + o].rule == appended[base + o].rule);
                                assert(sorted_keys@[i] == keys@[o]);
                            }
                            assert(basis_matches(start.states@, start.configs@, x, sorted_keys@));
                        }
                    }
                    assert(automaton_formed(pushed, closed, self.rules@, self.symbols@));
                }
                let res = self.build_shifts(st);
                proof {
                    // the configurations that were there before this state are
                    // not among its own, whose status the shifts may have set
                    assert forall|x: int| 0 <= x < base implies (#[trigger] self.configs@[x]) == (Config {
                        bplp: self.configs@[x].bplp,
                        status: self.configs@[x].status,
                        ..start.configs@[x]
                    }) && start.configs@[x].bplp@.is_prefix_of(self.configs@[x].bplp@)
                        && self.configs@[x].status == start.configs@[x].status by {
                        assert(closed[x] == appended[x]);
                        assert(appended[x] == start.configs@[x]);
                        if self.configs@[x].status != closed[x].status {
                            assert(cfp_list.contains(x as usize));
                            let w = choose|w: int| 0 <= w < cfp_list.len() && cfp_list[w] == x as usize;
                            assert(base <= cfp_list[w]);
                        }
                    }
                    if res is Ok {
                        let fin = self.configs@;
                        assert forall|i: int| 0 <= i < given.len() implies taken_by(
                            #[trigger] given[i],
                            self.states@,
                            fin,
                            st as int,
                        ) by {
                            assert(crate::order::occurs(order@, i));
                            let p = choose|p: int| 0 <= p < order@.len() && #[trigger] order@[p] == i;
                            let d = base + i;
                            assert(bp_list[p] == d);
                            assert(self.states@[st as int].bp@ == bp_list);
                            assert(appended[d] == given[i]);
                            assert(closed[d].rule == appended[d].rule && closed[d].bplp
                                == appended[d].bplp);
                            assert(fin[d] == (Config {
                                bplp: fin[d].bplp,
                                status: fin[d].status,
                                ..closed[d]
                            }));
                            assert forall|x: usize| given[i].bplp@.contains(x) implies #[trigger] fin[d].bplp@.contains(
                                x,
                            ) by {
                                lemma_contains_kept(closed[d].bplp@, fin[d].bplp@, x);
                            }
                            assert(hands_over(given[i], fin, self.states@[st as int].bp@[p] as int));
                            assert(has_key(fin, self.states@[st as int].bp@, given[i].rule, given[i].dot));
                            assert(appended[d].fws@.subset_of(closed[d].fws@));
                            assert(takes_follow(given[i], fin, self.states@[st as int].bp@[p] as int));
                        }
                        assert forall|j: int| 0 <= j < bp_list.len() implies given_has(
                            given,
                            fin[(#[trigger] bp_list[j]) as int].rule,
                            fin[bp_list[j] as int].dot,
                        ) by {
                            let o = order@[j] as int;
                            let d = base + o;
                            assert(bp_list[j] == d);
                            assert(appended[d] == given[o]);
                            assert(closed[d].rule == appended[d].rule);
                            assert(fin[d] == (Config {
                                bplp: fin[d].bplp,
                                status: fin[d].status,
                                ..closed[d]
                            }));
                        }
                    }
                }
                proof {
                    let fin = self.configs@;
                    if res is Ok {
                        assert forall|c: int| base <= c < fin.len() implies !#[trigger] lacks_rules(
                            fin,
                            self.rules@,
                            self.symbols@,
                            self.err_sym,
                            c,
                        ) by {
                            if c < closed.len() {
                                assert(!lacks_rules(
                                    closed,
                                    self.rules@,
                                    self.symbols@,
                                    self.err_sym,
                                    c,
                                ));
                                assert(fin[c].rule == closed[c].rule && fin[c].dot == closed[c].dot);
                            } else {
                                assert(!lacks_after(
                                    closed.len() as int,
                                    fin,
                                    self.rules@,
                                    self.symbols@,
                                    self.err_sym,
                                    c,
                                ));
                            }
                        }
                    } else {
                        let c = choose|c: int| #[trigger]
                            lacks_after(
                                closed.len() as int,
                                fin,
                                self.rules@,
                                self.symbols@,
                                self.err_sym,
                                c,
                            );
                        assert(lacks_after(
                            base as int,
                            fin,
                            self.rules@,
                            self.symbols@,
                            self.err_sym,
                            c,
                        ));
                    }
                }
                match res {
                    Err(e) => Err(e),
                    Ok(()) => Ok(st),
                }
            },
        }
    }

    /// The configurations below a state's own are unchanged by its closure.
    proof fn lemma_old_configs_kept(&self, before: Seq<Config>)
        requires
            before.len() <= self.configs@.len(),
            forall|c: int| 0 <= c < before.len() ==> #[trigger] self.configs@[c] == before[c],
        ensures
            configs_kept(before, self.configs@, Seq::empty()),
    {
        assert forall|x: int| 0 <= x < before.len() implies before[x].bplp@.is_prefix_of(
            (#[trigger] self.configs@[x]).bplp@,
        ) by {}
    }

    /// Whether a slot holding `sym` mentions `sp`.
    fn mentions(&self, sym: usize, sp: usize) -> (b: bool)
        requires
            self.wf(),
            sym < self.symbols@.len(),
        ensures
            b == slot_mentions(self.symbols@, sym, sp),
    {
        if sym == sp {
            return true;
        }
        match self.symbols[sym].kind {
            SymbolKind::MultiTerminal => {
                let n = self.symbols[sym].sub_sym.len();
                let mut c: usize = 0;
                while c < n
                    invariant
                        c <= n,
                        sym < self.symbols@.len(),
                        self.symbols@[sym as int].kind is MultiTerminal,
                        n == self.symbols@[sym as int].sub_sym@.len(),
                        forall|x: int| 0 <= x < c ==> self.symbols@[sym as int].sub_sym@[x] != sp,
                    decreases n - c,
                {
                    if self.symbols[sym].sub_sym[c] == sp {
                        return true;
                    }
                    c += 1;
                }
                false
            },
            _ => false,
        }
    }

    /// Finds the first slot of a rule that mentions `sp`.
    fn find_on_rhs(&self, sp: usize) -> (r: Option<usize>)
        requires
            self.wf(),
        ensures
            r is Some == on_rhs(self.symbols@, self.rules@, sp),
            r matches Some(span) ==> exists|q: int, k: int|
                #[trigger] first_mention(self.symbols@, self.rules@, sp, q, k)
                    && self.rules@[q].rhs@[k].span == span,
    {
        let n = self.rules.len();
        let mut q: usize = 0;
        while q < n
            invariant
                q <= n,
                n == self.rules@.len(),
                self.wf(),
                forall|x: int, k: int|
                    0 <= x < q ==> !#[trigger] mentioned_at(self.symbols@, self.rules@, sp, x, k),
            decreases n - q,
        {
            proof {
                lemma_rule_ok(self.symbols@, self.rules@, q as int);
            }
            let m = self.rules[q].rhs.len();
            let mut k: usize = 0;
            while k < m
                invariant
                    k <= m,
                    q < n,
                    n == self.rules@.len(),
                    m == self.rules@[q as int].rhs@.len(),
                    self.wf(),
                    rule_ok(self.symbols@, self.rules@, q as int),
                    forall|x: int, j: int|
                        0 <= x < q ==> !#[trigger] mentioned_at(self.symbols@, self.rules@, sp, x, j),
                    forall|j: int|
                        0 <= j < k ==> !#[trigger] mentioned_at(
                            self.symbols@,
                            self.rules@,
                            sp,
                            q as int,
                            j,
                        ),
                decreases m - k,
            {
                let sym = self.rules[q].rhs[k].sym;
                assert(self.rules@[q as int].rhs@[k as int].sym < self.symbols@.len());
                if self.mentions(sym, sp) {
                    assert(mentioned_at(self.symbols@, self.rules@, sp, q as int, k as int));
                    assert(first_mention(self.symbols@, self.rules@, sp, q as int, k as int));
                    return Some(self.rules[q].rhs[k].span);
                }
                k += 1;
            }
            q += 1;
        }
        None
    }

    /// Marks rule `r` as a rule of the start symbol.
    fn mark_start_rule(&mut self, r: usize)
        requires
            old(self).built_wf(),
            r < old(self).rules@.len(),
        ensures
            final(self).built_wf(),
            *final(self) == (Lemon { rules: final(self).rules, ..*old(self) }),
            final(self).rules@.len() == old(self).rules@.len(),
            forall|x: int|
                0 <= x < old(self).rules@.len() && x != r ==> #[trigger] final(self).rules@[x]
                    == old(self).rules@[x],
            final(self).rules@[r as int] == (Rule { lhs_start: true, ..old(self).rules@[r as int] }),
    {
        let ghost before = self.rules@;
        self.rules[r].lhs_start = true;
        proof {
            assert forall|x: int| 0 <= x < before.len() implies rule_marked(
                before[x],
                #[trigger] self.rules@[x],
            ) by {}
            assert forall|x: int| 0 <= x < before.len() implies ((
            #[trigger] self.rules@[x]).prec_sym matches Some(q) ==> q < self.symbols@.len()) by {
                lemma_rule_ok(self.symbols@, before, x);
            }
            lemma_marked_keeps_wf(self.symbols@, before, self.rules@);
            assert forall|x: int| 0 <= x < before.len() implies (#[trigger] self.rules@[x]).rhs
                == before[x].rhs by {}
            lemma_rules_marked(
                self.configs@,
                self.states@,
                before,
                self.rules@,
                self.symbols@.len(),
            );
        }
    }

    /// Builds the automaton: the first state from the rules of the start
    /// symbol, and from it all states that can be reached.
    ///
    /// The start symbol may not stand on the right-hand side of a rule.
    pub fn find_states(&mut self) -> (r: Result<(), Error>)
        requires
            old(self).wf(),
            old(self).is_numbered(),
            old(self).fresh(),
            old(self).start is Some,
        ensures
            final(self).built_wf(),
            final(self).is_numbered(),
            *final(self) == (Lemon {
                rules: final(self).rules,
                configs: final(self).configs,
                states: final(self).states,
                ..*old(self)
            }),
            final(self).rules@.len() == old(self).rules@.len(),
            forall|x: int|
                0 <= x < old(self).rules@.len() ==> #[trigger] final(self).rules@[x] == (Rule {
                    lhs_start: final(self).rules@[x].lhs_start,
                    ..old(self).rules@[x]
                }),
            on_rhs(old(self).symbols@, old(self).rules@, old(self).start->0) ==> (r matches Err(e)
                && e.fault == Fault::StartOnRhs),
            r matches Err(e) ==> e.fault == Fault::StartOnRhs || e.fault
                == Fault::NonterminalWithoutRules,
            r matches Err(e) ==> e.fault == Fault::StartOnRhs ==> *final(self) == *old(self)
                && exists|q: int, k: int|
                #[trigger] first_mention(old(self).symbols@, old(self).rules@, old(self).start->0, q, k)
                    && old(self).rules@[q].rhs@[k].span == e.span,
            r matches Err(e) ==> e.fault == Fault::NonterminalWithoutRules ==> !on_rhs(
                old(self).symbols@,
                old(self).rules@,
                old(self).start->0,
            ),
            r is Err <==> on_rhs(old(self).symbols@, old(self).rules@, old(self).start->0)
                || new_lacking(
                0,
                final(self).configs@,
                final(self).rules@,
                final(self).symbols@,
                final(self).err_sym,
            ),
            forall|x: int|
                0 <= x < final(self).states@.len() ==> (#[trigger] final(self).states@[x]).state_num
                    == x,
            r is Ok ==> final(self).states@.len() >= 1 && forall|x: int|
                0 <= x < final(self).rules@.len() && old(self).symbols@[old(self).start->0 as int].kind is NonTerminal ==> (#[trigger] final(self).rules@[x]).lhs_start
                    == (old(self).rules@[x].lhs_start || old(self).rules@[x].lhs == old(self).start->0),
            r is Ok ==> forall|x: int|
                0 <= x < final(self).states@.len() ==> #[trigger] linked(
                    final(self).states@,
                    final(self).configs@,
                    final(self).rules@,
                    x,
                ),
            r is Ok ==> automaton_formed(
                final(self).states@,
                final(self).configs@,
                final(self).rules@,
                final(self).symbols@,
            ),
            r is Ok ==> forall|x: int|
                0 <= x < final(self).states@.len() ==> #[trigger] all_grouped(
                    final(self).states@,
                    final(self).configs@,
                    final(self).rules@,
                    x,
                ),
            r is Ok ==> forall|x: int|
                0 <= x < final(self).states@.len() ==> #[trigger] one_target(
                    final(self).states@,
                    final(self).configs@,
                    final(self).rules@,
                    x,
                ),
            r is Ok ==> forall|x: int|
                0 < x < final(self).states@.len() ==> #[trigger] advanced_state(
                    final(self).states@,
                    final(self).configs@,
                    x,
                ),
            r is Ok ==> forall|x: int|
                0 <= x < final(self).states@.len() ==> #[trigger] shifted(
                    final(self).states@,
                    final(self).configs@,
                    final(self).rules@,
                    final(self).symbols@,
                    x,
                ),
            r is Ok && old(self).symbols@[old(self).start->0 as int].kind is NonTerminal ==> starts_with(
                final(self).states@,
                final(self).configs@,
                final(self).symbols@,
                old(self).start->0,
            ),
    {
        let sp = match self.start {
            Some(sp) => sp,
            None => 0,
        };
        proof {
            lemma_empty_automaton(
                self.configs@,
                self.states@,
                self.rules@,
                self.symbols@.len(),
            );
        }
        match self.find_on_rhs(sp) {
            Some(span) => {
                return Err(Error::new(Fault::StartOnRhs, span));
            },
            None => {},
        }
        let mut basis: Vec<Config> = Vec::new();
        proof {
            lemma_symbol_ok(self.symbols@, self.rules@, sp as int);
        }
        let ghost orig = self.rules@;
        if self.symbols[sp].kind == SymbolKind::NonTerminal {
            let n = self.symbols[sp].rules.len();
            let mut k: usize = 0;
            while k < n
                invariant
                    k <= n,
                    self.built_wf(),
                    self.is_numbered(),
                    *self == (Lemon { rules: self.rules, ..*old(self) }),
                    orig == old(self).rules@,
                    sp < self.symbols@.len(),
                    self.symbols@[sp as int].kind is NonTerminal,
                    n == self.symbols@[sp as int].rules@.len(),
                    symbol_ok(self.symbols@, orig, sp as int),
                    self.rules@.len() == orig.len(),
                    forall|x: int|
                        0 <= x < orig.len() ==> #[trigger] self.rules@[x] == (Rule {
                            lhs_start: self.rules@[x].lhs_start,
                            ..orig[x]
                        }),
                    forall|x: int|
                        0 <= x < orig.len() ==> ((#[trigger] self.rules@[x]).lhs_start == (
                        orig[x].lhs_start || exists|j: int|
                            0 <= j < k && self.symbols@[sp as int].rules@[j] == x)),
                    basis_ok(basis@, self.rules@, self.symbols@.len(), 0),
                    basis_distinct(basis@),
                    self.configs@.len() == 0,
                    self.states@.len() == 0,
                    forall|i: int|
                        0 <= i < basis@.len() ==> (#[trigger] basis@[i]).dot == 0 && basis@[i].fws@.contains(0)
                            && self.symbols@[sp as int].rules@.contains(basis@[i].rule),
                    forall|j: int|
                        0 <= j < k ==> given_has(basis@, #[trigger] self.symbols@[sp as int].rules@[j], 0),
                decreases n - k,
            {
                let rp = self.symbols[sp].rules[k];
                assert(self.symbols@[sp as int].rules@[k as int] < orig.len());
                let ghost prev = self.rules@;
                self.mark_start_rule(rp);
                let ghost list = basis@;
                let cfg = add_to_list(&mut basis, rp, 0);
                let ghost grown = basis@;
                insert_into(&mut basis[cfg].fws, 0);
                proof {
                    assert forall|i: int| 0 <= i < basis@.len() implies (#[trigger] basis@[i]).dot == 0
                        && basis@[i].fws@.contains(0) && self.symbols@[sp as int].rules@.contains(
                        basis@[i].rule,
                    ) by {
                        assert(basis@[i].rule == grown[i].rule && basis@[i].dot == grown[i].dot);
                        if i != cfg {
                            assert(basis@[i] == grown[i]);
                            assert(grown[i] == list[i]);
                        } else {
                            assert(self.symbols@[sp as int].rules@[k as int] == rp);
                        }
                    }
                    assert forall|j: int| 0 <= j < k + 1 implies given_has(
                        basis@,
                        #[trigger] self.symbols@[sp as int].rules@[j],
                        0,
                    ) by {
                        if j < k {
                            assert(given_has(list, self.symbols@[sp as int].rules@[j], 0));
                            let i = choose|i: int|
                                0 <= i < list.len() && (#[trigger] list[i]).rule
                                    == self.symbols@[sp as int].rules@[j] && list[i].dot == 0;
                            assert(grown[i] == list[i]);
                            assert(basis@[i].rule == grown[i].rule && basis@[i].dot == grown[i].dot);
                        } else {
                            assert(basis@[cfg as int].rule == rp);
                        }
                    }
                    assert(basis_distinct(basis@)) by {
                        assert forall|a: int, b: int|
                            0 <= a < b < basis@.len() implies !((#[trigger] basis@[a]).rule == (
                        #[trigger] basis@[b]).rule && basis@[a].dot == basis@[b].dot) by {
                            assert(basis@[a].rule == grown[a].rule && basis@[a].dot == grown[a].dot);
                            assert(basis@[b].rule == grown[b].rule && basis@[b].dot == grown[b].dot);
                            if b < list.len() {
                                assert(grown[a] == list[a] && grown[b] == list[b]);
                            } else if cfg >= list.len() {
                                assert(grown[a] == list[a]);
                            }
                        }
                    }
                    assert forall|x: int| 0 <= x < orig.len() implies ((
                    #[trigger] self.rules@[x]).lhs_start == (orig[x].lhs_start || exists|j: int|
                        0 <= j < k + 1 && self.symbols@[sp as int].rules@[j] == x)) by {
                        if x == rp {
                            assert(self.symbols@[sp as int].rules@[k as int] == x);
                        } else {
                            assert(self.rules@[x] == prev[x]);
                            if exists|j: int|
                                0 <= j < k + 1 && self.symbols@[sp as int].rules@[j] == x {
                                let j = choose|j: int|
                                    0 <= j < k + 1 && self.symbols@[sp as int].rules@[j] == x;
                                assert(j < k);
                            }
                        }
                    }
                    assert(basis_ok(basis@, self.rules@, self.symbols@.len(), 0)) by {
                        assert forall|j: int| 0 <= j < basis@.len() implies {
                            let c = #[trigger] basis@[j];
                            &&& c.rule < self.rules@.len()
                            &&& c.dot <= self.rules@[c.rule as int].rhs@.len()
                            &&& below(c.fws@, self.symbols@.len())
                            &&& c.fplp@.len() == 0
                            &&& forall|i: int| 0 <= i < c.bplp@.len() ==> (#[trigger] c.bplp@[i]) < 0
                        } by {
                            if j < list.len() {
                                let was = list[j];
                                assert(was.rule < prev.len());
                                assert(self.rules@[was.rule as int].rhs == prev[was.rule as int].rhs);
                            }
                        }
                    }
                }
                k += 1;
            }
            proof {
                // the rules listed with the start symbol are those that reduce
                // to it
                assert forall|x: int| 0 <= x < orig.len() implies ((
                #[trigger] self.rules@[x]).lhs_start == (orig[x].lhs_start || orig[x].lhs == sp)) by {
                    lemma_rule_ok(self.symbols@, orig, x);
                    if orig[x].lhs == sp {
                        let w = choose|w: int|
                            0 <= w < self.symbols@[sp as int].rules@.len()
                                && self.symbols@[sp as int].rules@[w] == x as usize;
                        assert(exists|j: int| 0 <= j < n && self.symbols@[sp as int].rules@[j] == x);
                    }
                    if exists|j: int| 0 <= j < n && self.symbols@[sp as int].rules@[j] == x {
                        let j = choose|j: int| 0 <= j < n && self.symbols@[sp as int].rules@[j] == x;
                        assert(orig[self.symbols@[sp as int].rules@[j] as int].lhs == sp);
                    }
                }
            }
        }
        let ghost given = basis@;
        let ghost is_nt = self.symbols@[sp as int].kind is NonTerminal;
        assert(!known_basis(self.states@, self.configs@, given));
        match self.get_state(basis) {
            Err(e) => Err(e),
            Ok(s) => {
                proof {
                    if is_nt {
                        let bp = self.states@[0].bp@;
                        let cfgs = self.configs@;
                        assert(holds_basis(self.states@, cfgs, 0, given));
                        assert forall|k: int|
                            0 <= k < self.symbols@[sp as int].rules@.len() implies starts_rule(
                            self.states@,
                            cfgs,
                            #[trigger] self.symbols@[sp as int].rules@[k],
                        ) by {
                            let q = self.symbols@[sp as int].rules@[k];
                            assert(given_has(given, q, 0));
                            let i = choose|i: int|
                                0 <= i < given.len() && (#[trigger] given[i]).rule == q && given[i].dot
                                    == 0;
                            assert(carries(given[i], self.states@, cfgs, 0));
                            let j = choose|j: int|
                                0 <= j < bp.len() && takes_follow(
                                    given[i],
                                    cfgs,
                                    (#[trigger] bp[j]) as int,
                                );
                            assert(cfgs[bp[j] as int].fws@.contains(0));
                        }
                        assert forall|j: int| 0 <= j < bp.len() implies cfgs[(#[trigger] bp[j]) as int].dot
                            == 0 && self.symbols@[sp as int].rules@.contains(cfgs[bp[j] as int].rule) by {
                            assert(given_has(given, cfgs[bp[j] as int].rule, cfgs[bp[j] as int].dot));
                        }
                    }
                }
                Ok(())
            },
        }
    }
}

} // verus!
