//! Configurations of a state: finding them, adding them, and closing a set
//! of them under the rules of the nonterminals that follow their marks.

use crate::automaton::{automaton_wf, config_ok, lemma_config_ok, lemma_configs_changed};
use crate::config::{CfgStatus, Config};
use crate::error::{Error, Fault};
use crate::first::{firsts, lemma_firsts_bounded, slot_first};
use crate::grammar::{lemma_rule_ok, lemma_symbol_ok, rule_ok, symbol_ok, Lemon};
use crate::sets::{below, insert_into, lemma_bounded_finite, union_into};
use crate::symbol::{RhsItem, Rule, Symbol, SymbolKind};
use std::collections::BTreeSet;
use vstd::prelude::*;

verus! {

/// A configuration of the given rule and mark that nothing links to yet.
pub open spec fn is_new_config(cfg: Config, rule: usize, dot: usize) -> bool {
    &&& cfg.rule == rule
    &&& cfg.dot == dot
    &&& cfg.fws@ == Set::<usize>::empty()
    &&& cfg.fplp@.len() == 0
    &&& cfg.bplp@.len() == 0
    &&& cfg.status is Incomplete
}

/// None of the configurations from position `from` on is for the given rule
/// and mark.
pub open spec fn item_absent(configs: Seq<Config>, from: int, rule: usize, dot: usize) -> bool {
    forall|c: int|
        from <= c < configs.len() ==> !((#[trigger] configs[c]).rule == rule && configs[c].dot == dot)
}

/// What the slots from position `from` on can begin with: what the first of
/// them can begin with and, if that one is nullable, what the rest can.
pub open spec fn suffix_first(symbols: Seq<Symbol>, rhs: Seq<RhsItem>, from: int) -> Set<usize>
    decreases rhs.len() - from,
{
    if from < 0 || from >= rhs.len() {
        Set::empty()
    } else {
        let here = slot_first(symbols, firsts(symbols), rhs[from].sym as int);
        if symbols[rhs[from].sym as int].lambda {
            here.union(suffix_first(symbols, rhs, from + 1))
        } else {
            here
        }
    }
}

/// All slots from position `from` on are nullable.
pub open spec fn suffix_nullable(symbols: Seq<Symbol>, rhs: Seq<RhsItem>, from: int) -> bool
    decreases rhs.len() - from,
{
    if from < 0 || from >= rhs.len() {
        true
    } else {
        symbols[rhs[from].sym as int].lambda && suffix_nullable(symbols, rhs, from + 1)
    }
}

/// `t` is the index of one of the first `k` alternatives of the
/// multi-terminal `sym`.
pub open spec fn child_index_before(symbols: Seq<Symbol>, sym: int, k: int, t: usize) -> bool {
    exists|j: int|
        0 <= j < k && symbols[(#[trigger] symbols[sym].sub_sym@[j]) as int].index == t
}

/// Looks in a list of configurations for one of the given rule and mark, and
/// adds a new one at the end where there is none.
pub fn add_to_list(cfgs: &mut Vec<Config>, rule: usize, dot: usize) -> (i: usize)
    ensures
        i < final(cfgs)@.len(),
        final(cfgs)@[i as int].rule == rule,
        final(cfgs)@[i as int].dot == dot,
        i < old(cfgs)@.len() ==> final(cfgs)@ == old(cfgs)@ && item_absent(
            old(cfgs)@.take(i as int),
            0,
            rule,
            dot,
        ),
        i >= old(cfgs)@.len() ==> {
            &&& i == old(cfgs)@.len()
            &&& item_absent(old(cfgs)@, 0, rule, dot)
            &&& final(cfgs)@ == old(cfgs)@.push(final(cfgs)@[i as int])
            &&& is_new_config(final(cfgs)@[i as int], rule, dot)
        },
{
    let n = cfgs.len();
    let mut c: usize = 0;
    while c < n
        invariant
            c <= n,
            n == cfgs@.len(),
            cfgs@ == old(cfgs)@,
            forall|x: int| 0 <= x < c ==> !((#[trigger] cfgs@[x]).rule == rule && cfgs@[x].dot == dot),
        decreases n - c,
    {
        if cfgs[c].rule == rule && cfgs[c].dot == dot {
            return c;
        }
        c += 1;
    }
    cfgs.push(
        Config {
            rule,
            dot,
            fws: BTreeSet::new(),
            fplp: Vec::new(),
            bplp: Vec::new(),
            status: CfgStatus::Incomplete,
        },
    );
    n
}

impl Lemon {
    /// Looks among the configurations from position `base` on for one of the
    /// given rule and mark, and adds a new one at the end where there is
    /// none.
    pub fn add_config(&mut self, base: usize, rule: usize, dot: usize) -> (i: usize)
        requires
            old(self).built_wf(),
            base <= old(self).configs@.len(),
            rule < old(self).rules@.len(),
            dot <= old(self).rules@[rule as int].rhs@.len(),
        ensures
            final(self).built_wf(),
            *final(self) == (Lemon { configs: final(self).configs, ..*old(self) }),
            base <= i < final(self).configs@.len(),
            final(self).configs@[i as int].rule == rule,
            final(self).configs@[i as int].dot == dot,
            i < old(self).configs@.len() ==> final(self).configs@ == old(self).configs@,
            i >= old(self).configs@.len() ==> {
                &&& i == old(self).configs@.len()
                &&& item_absent(old(self).configs@, base as int, rule, dot)
                &&& final(self).configs@ == old(self).configs@.push(final(self).configs@[i as int])
                &&& is_new_config(final(self).configs@[i as int], rule, dot)
            },
    {
        let n = self.configs.len();
        let mut c: usize = base;
        while c < n
            invariant
                base <= c <= n,
                n == self.configs@.len(),
                *self == *old(self),
                self.built_wf(),
                forall|x: int|
                    base <= x < c ==> !((#[trigger] self.configs@[x]).rule == rule
                        && self.configs@[x].dot == dot),
            decreases n - c,
        {
            if self.configs[c].rule == rule && self.configs[c].dot == dot {
                return c;
            }
            c += 1;
        }
        let ghost before = self.configs@;
        self.configs.push(
            Config {
                rule,
                dot,
                fws: BTreeSet::new(),
                fplp: Vec::new(),
                bplp: Vec::new(),
                status: CfgStatus::Incomplete,
            },
        );
        proof {
            let after = self.configs@;
            let nsyms = self.symbols@.len();
            assert forall|x: int| 0 <= x < after.len() implies #[trigger] config_ok(
                after,
                self.rules@,
                nsyms,
                x,
            ) by {
                if x < before.len() {
                    lemma_config_ok(before, self.states@, self.rules@, nsyms, x);
                    assert(after[x] == before[x]);
                }
            }
            lemma_configs_changed(before, after, self.states@, self.rules@, nsyms);
        }
        n
    }

    /// Adds `t` to the follow set of configuration `c`.
    pub fn follow_insert(&mut self, c: usize, t: usize) -> (grew: bool)
        requires
            old(self).built_wf(),
            c < old(self).configs@.len(),
            t < old(self).symbols@.len(),
        ensures
            final(self).built_wf(),
            *final(self) == (Lemon { configs: final(self).configs, ..*old(self) }),
            final(self).configs@.len() == old(self).configs@.len(),
            forall|x: int|
                0 <= x < old(self).configs@.len() && x != c ==> #[trigger] final(self).configs@[x]
                    == old(self).configs@[x],
            final(self).configs@[c as int] == (Config {
                fws: final(self).configs@[c as int].fws,
                ..old(self).configs@[c as int]
            }),
            final(self).configs@[c as int].fws@ == old(self).configs@[c as int].fws@.insert(t),
            grew == !old(self).configs@[c as int].fws@.contains(t),
    {
        let ghost before = self.configs@;
        proof {
            lemma_config_ok(
                before,
                self.states@,
                self.rules@,
                self.symbols@.len(),
                c as int,
            );
        }
        let grew = insert_into(&mut self.configs[c].fws, t);
        proof {
            self.lemma_follow_changed(before, c as int);
        }
        grew
    }

    /// Adds the elements of `add` to the follow set of configuration `c`.
    pub fn follow_union(&mut self, c: usize, add: BTreeSet<usize>) -> (grew: bool)
        requires
            old(self).built_wf(),
            c < old(self).configs@.len(),
            below(add@, old(self).symbols@.len()),
        ensures
            final(self).built_wf(),
            *final(self) == (Lemon { configs: final(self).configs, ..*old(self) }),
            final(self).configs@.len() == old(self).configs@.len(),
            forall|x: int|
                0 <= x < old(self).configs@.len() && x != c ==> #[trigger] final(self).configs@[x]
                    == old(self).configs@[x],
            final(self).configs@[c as int] == (Config {
                fws: final(self).configs@[c as int].fws,
                ..old(self).configs@[c as int]
            }),
            final(self).configs@[c as int].fws@ == old(self).configs@[c as int].fws@.union(add@),
            grew == (final(self).configs@[c as int].fws@ != old(self).configs@[c as int].fws@),
    {
        let ghost before = self.configs@;
        proof {
            lemma_config_ok(
                before,
                self.states@,
                self.rules@,
                self.symbols@.len(),
                c as int,
            );
            lemma_bounded_finite(before[c as int].fws@, self.symbols@.len());
            lemma_bounded_finite(add@, self.symbols@.len());
        }
        let grew = union_into(&mut self.configs[c].fws, add);
        proof {
            self.lemma_follow_changed(before, c as int);
        }
        grew
    }

    /// A follow set that grew within the indices of symbols leaves the
    /// automaton consistent.
    proof fn lemma_follow_changed(&self, before: Seq<Config>, c: int)
        requires
            self.wf(),
            automaton_wf(before, self.states@, self.rules@, self.symbols@.len()),
            0 <= c < before.len(),
            self.configs@.len() == before.len(),
            forall|x: int| 0 <= x < before.len() && x != c ==> #[trigger] self.configs@[x] == before[x],
            self.configs@[c] == (Config { fws: self.configs@[c].fws, ..before[c] }),
            below(self.configs@[c].fws@, self.symbols@.len()),
        ensures
            self.built_wf(),
    {
        let after = self.configs@;
        let nsyms = self.symbols@.len();
        assert forall|x: int| 0 <= x < after.len() implies #[trigger] config_ok(
            after,
            self.rules@,
            nsyms,
            x,
        ) by {
            lemma_config_ok(before, self.states@, self.rules@, nsyms, x);
        }
        lemma_configs_changed(before, after, self.states@, self.rules@, nsyms);
    }

    /// Adds to the follow set of configuration `c` what a slot holding `sym`
    /// can begin with.
    fn follow_add_slot(&mut self, c: usize, sym: usize)
        requires
            old(self).built_wf(),
            old(self).is_numbered(),
            c < old(self).configs@.len(),
            sym < old(self).symbols@.len(),
        ensures
            final(self).built_wf(),
            *final(self) == (Lemon { configs: final(self).configs, ..*old(self) }),
            final(self).configs@.len() == old(self).configs@.len(),
            forall|x: int|
                0 <= x < old(self).configs@.len() && x != c ==> #[trigger] final(self).configs@[x]
                    == old(self).configs@[x],
            final(self).configs@[c as int] == (Config {
                fws: final(self).configs@[c as int].fws,
                ..old(self).configs@[c as int]
            }),
            final(self).configs@[c as int].fws@ == old(self).configs@[c as int].fws@.union(
                slot_first(old(self).symbols@, firsts(old(self).symbols@), sym as int),
            ),
    {
        let ghost orig = self.configs@;
        let ghost syms = self.symbols@;
        let ghost add = slot_first(self.symbols@, firsts(self.symbols@), sym as int);
        proof {
            lemma_symbol_ok(self.symbols@, self.rules@, sym as int);
            lemma_firsts_bounded(self.symbols@, self.rules@);
        }
        match self.symbols[sym].kind {
            SymbolKind::Terminal => {
                let t = self.symbols[sym].index;
                self.follow_insert(c, t);
                proof {
                    assert(self.configs@[c as int].fws@ =~= orig[c as int].fws@.union(add));
                }
            },
            SymbolKind::MultiTerminal => {
                let n = self.symbols[sym].sub_sym.len();
                let mut k: usize = 0;
                while k < n
                    invariant
                        k <= n,
                        self.built_wf(),
                        self.is_numbered(),
                        *self == (Lemon { configs: self.configs, ..*old(self) }),
                        c < orig.len(),
                        orig == old(self).configs@,
                        syms == self.symbols@,
                        sym < syms.len(),
                        syms[sym as int].kind is MultiTerminal,
                        n == syms[sym as int].sub_sym@.len(),
                        symbol_ok(syms, self.rules@, sym as int),
                        self.configs@.len() == orig.len(),
                        forall|x: int|
                            0 <= x < orig.len() && x != c ==> #[trigger] self.configs@[x] == orig[x],
                        self.configs@[c as int] == (Config {
                            fws: self.configs@[c as int].fws,
                            ..orig[c as int]
                        }),
                        forall|t: usize| #[trigger]
                            self.configs@[c as int].fws@.contains(t) <==> (orig[c as int].fws@.contains(
                                t,
                            ) || child_index_before(syms, sym as int, k as int, t)),
                    decreases n - k,
                {
                    let child = self.symbols[sym].sub_sym[k];
                    assert(syms[sym as int].sub_sym@[k as int] < syms.len());
                    let t = self.symbols[child].index;
                    let ghost prev = self.configs@[c as int].fws@;
                    self.follow_insert(c, t);
                    proof {
                        let cur = self.configs@[c as int].fws@;
                        assert forall|u: usize| #[trigger]
                            cur.contains(u) <==> (orig[c as int].fws@.contains(u)
                                || child_index_before(syms, sym as int, k + 1, u)) by {
                            assert(prev.contains(u) <==> (orig[c as int].fws@.contains(u)
                                || child_index_before(syms, sym as int, k as int, u)));
                            if cur.contains(u) && u == t {
                                assert(syms[syms[sym as int].sub_sym@[k as int] as int].index == u);
                            }
                            if child_index_before(syms, sym as int, k + 1, u) {
                                let j = choose|j: int|
                                    0 <= j < k + 1 && syms[(
                                    #[trigger] syms[sym as int].sub_sym@[j]) as int].index == u;
                                if j < k {
                                    assert(child_index_before(syms, sym as int, k as int, u));
                                }
                            }
                            if child_index_before(syms, sym as int, k as int, u) {
                                let j = choose|j: int|
                                    0 <= j < k && syms[(#[trigger] syms[sym as int].sub_sym@[j]) as int].index
                                        == u;
                                assert(0 <= j < k + 1);
                            }
                        }
                    }
                    k += 1;
                }
                proof {
                    let cur = self.configs@[c as int].fws@;
                    let both = orig[c as int].fws@.union(add);
                    assert(k == n);
                    assert forall|u: usize| cur.contains(u) <==> both.contains(u) by {
                        assert(add.contains(u) == crate::first::is_child_index(syms, sym as int, u));
                        assert(both.contains(u) == (orig[c as int].fws@.contains(u) || add.contains(
                            u,
                        )));
                        assert(cur.contains(u) <==> (orig[c as int].fws@.contains(u)
                            || child_index_before(syms, sym as int, k as int, u)));
                        if crate::first::is_child_index(syms, sym as int, u) {
                            let j = choose|j: int|
                                0 <= j < syms[sym as int].sub_sym@.len() && syms[(
                                #[trigger] syms[sym as int].sub_sym@[j]) as int].index == u;
                            assert(0 <= j < k);
                        }
                        if child_index_before(syms, sym as int, k as int, u) {
                            let j = choose|j: int|
                                0 <= j < k && syms[(#[trigger] syms[sym as int].sub_sym@[j]) as int].index
                                    == u;
                            assert(0 <= j < syms[sym as int].sub_sym@.len());
                        }
                    }
                    assert(cur =~= both);
                }
            },
            SymbolKind::NonTerminal => {
                let tmp = self.symbols[sym].first_set.clone();
                self.follow_union(c, tmp);
            },
        }
    }

    /// Adds to the follow set of configuration `c` what the slots of rule
    /// `rule` from position `from` on can begin with, and says whether all of
    /// them are nullable.
    pub fn seed_follow(&mut self, c: usize, rule: usize, from: usize) -> (through: bool)
        requires
            old(self).built_wf(),
            old(self).is_numbered(),
            c < old(self).configs@.len(),
            rule < old(self).rules@.len(),
        ensures
            final(self).built_wf(),
            *final(self) == (Lemon { configs: final(self).configs, ..*old(self) }),
            final(self).configs@.len() == old(self).configs@.len(),
            forall|x: int|
                0 <= x < old(self).configs@.len() && x != c ==> #[trigger] final(self).configs@[x]
                    == old(self).configs@[x],
            final(self).configs@[c as int] == (Config {
                fws: final(self).configs@[c as int].fws,
                ..old(self).configs@[c as int]
            }),
            final(self).configs@[c as int].fws@ == old(self).configs@[c as int].fws@.union(
                suffix_first(old(self).symbols@, old(self).rules@[rule as int].rhs@, from as int),
            ),
            through == suffix_nullable(
                old(self).symbols@,
                old(self).rules@[rule as int].rhs@,
                from as int,
            ),
    {
        let ghost orig = self.configs@;
        let ghost syms = self.symbols@;
        let ghost rhs = self.rules@[rule as int].rhs@;
        proof {
            lemma_rule_ok(self.symbols@, self.rules@, rule as int);
        }
        let n = self.rules[rule].rhs.len();
        let mut k: usize = from;
        let mut through = true;
        proof {
            assert(orig[c as int].fws@.union(suffix_first(syms, rhs, from as int))
                =~= orig[c as int].fws@.union(suffix_first(syms, rhs, from as int)).union(
                orig[c as int].fws@,
            ));
        }
        while k < n && through
            invariant
                from <= k,
                k <= n || k == from,
                self.built_wf(),
                self.is_numbered(),
                *self == (Lemon { configs: self.configs, ..*old(self) }),
                c < orig.len(),
                orig == old(self).configs@,
                syms == self.symbols@,
                rule < self.rules@.len(),
                rhs == self.rules@[rule as int].rhs@,
                n == rhs.len(),
                rule_ok(syms, self.rules@, rule as int),
                self.configs@.len() == orig.len(),
                forall|x: int|
                    0 <= x < orig.len() && x != c ==> #[trigger] self.configs@[x] == orig[x],
                self.configs@[c as int] == (Config {
                    fws: self.configs@[c as int].fws,
                    ..orig[c as int]
                }),
                through ==> orig[c as int].fws@.union(suffix_first(syms, rhs, from as int))
                    == self.configs@[c as int].fws@.union(suffix_first(syms, rhs, k as int)),
                !through ==> orig[c as int].fws@.union(suffix_first(syms, rhs, from as int))
                    == self.configs@[c as int].fws@,
                through ==> suffix_nullable(syms, rhs, from as int) == suffix_nullable(
                    syms,
                    rhs,
                    k as int,
                ),
                !through ==> !suffix_nullable(syms, rhs, from as int),
            decreases n - k, if through { 1int } else { 0int },
        {
            let sym = self.rules[rule].rhs[k].sym;
            assert(rhs[k as int].sym < syms.len());
            let ghost prev = self.configs@[c as int].fws@;
            self.follow_add_slot(c, sym);
            let nullable = self.symbols[sym].lambda;
            proof {
                let here = slot_first(syms, firsts(syms), sym as int);
                let cur = self.configs@[c as int].fws@;
                assert(cur == prev.union(here));
                if nullable {
                    assert(prev.union(suffix_first(syms, rhs, k as int)) =~= cur.union(
                        suffix_first(syms, rhs, k + 1),
                    ));
                } else {
                    assert(prev.union(suffix_first(syms, rhs, k as int)) =~= cur);
                }
            }
            if !nullable {
                through = false;
            }
            k += 1;
        }
        proof {
            if through {
                assert(suffix_first(syms, rhs, k as int) =~= Set::<usize>::empty());
                assert(self.configs@[c as int].fws@.union(Set::<usize>::empty())
                    =~= self.configs@[c as int].fws@);
            }
        }
        through
    }

    /// Records that the follow set of configuration `to` inherits that of
    /// configuration `from`.
    pub fn link_forward(&mut self, from: usize, to: usize)
        requires
            old(self).built_wf(),
            from < old(self).configs@.len(),
            to < old(self).configs@.len(),
        ensures
            final(self).built_wf(),
            *final(self) == (Lemon { configs: final(self).configs, ..*old(self) }),
            final(self).configs@.len() == old(self).configs@.len(),
            forall|x: int|
                0 <= x < old(self).configs@.len() && x != from ==> #[trigger] final(self).configs@[x] == old(self).configs@[x],
            final(self).configs@[from as int] == (Config {
                fplp: final(self).configs@[from as int].fplp,
                ..old(self).configs@[from as int]
            }),
            final(self).configs@[from as int].fplp@ == old(self).configs@[from as int].fplp@.push(to),
    {
        let ghost before = self.configs@;
        self.configs[from].fplp.push(to);
        proof {
            let after = self.configs@;
            let nsyms = self.symbols@.len();
            assert forall|x: int| 0 <= x < after.len() implies #[trigger] config_ok(
                after,
                self.rules@,
                nsyms,
                x,
            ) by {
                lemma_config_ok(before, self.states@, self.rules@, nsyms, x);
            }
            lemma_configs_changed(before, after, self.states@, self.rules@, nsyms);
        }
    }

    /// Records that the follow set of configuration `to` is inherited from
    /// configuration `from`, at the inheriting end.
    pub fn link_backward(&mut self, to: usize, from: usize)
        requires
            old(self).built_wf(),
            from < old(self).configs@.len(),
            to < old(self).configs@.len(),
        ensures
            final(self).built_wf(),
            *final(self) == (Lemon { configs: final(self).configs, ..*old(self) }),
            final(self).configs@.len() == old(self).configs@.len(),
            forall|x: int|
                0 <= x < old(self).configs@.len() && x != to ==> #[trigger] final(self).configs@[x]
                    == old(self).configs@[x],
            final(self).configs@[to as int] == (Config {
                bplp: final(self).configs@[to as int].bplp,
                ..old(self).configs@[to as int]
            }),
            final(self).configs@[to as int].bplp@ == old(self).configs@[to as int].bplp@.push(from),
    {
        let ghost before = self.configs@;
        self.configs[to].bplp.push(from);
        proof {
            let after = self.configs@;
            let nsyms = self.symbols@.len();
            assert forall|x: int| 0 <= x < after.len() implies #[trigger] config_ok(
                after,
                self.rules@,
                nsyms,
                x,
            ) by {
                lemma_config_ok(before, self.states@, self.rules@, nsyms, x);
            }
            lemma_configs_changed(before, after, self.states@, self.rules@, nsyms);
        }
    }

    /// Sets the status of configuration `c`.
    pub fn set_status(&mut self, c: usize, status: CfgStatus)
        requires
            old(self).built_wf(),
            c < old(self).configs@.len(),
        ensures
            final(self).built_wf(),
            *final(self) == (Lemon { configs: final(self).configs, ..*old(self) }),
            final(self).configs@.len() == old(self).configs@.len(),
            forall|x: int|
                0 <= x < old(self).configs@.len() && x != c ==> #[trigger] final(self).configs@[x]
                    == old(self).configs@[x],
            final(self).configs@[c as int] == (Config { status, ..old(self).configs@[c as int] }),
    {
        let ghost before = self.configs@;
        self.configs[c].status = status;
        proof {
            let after = self.configs@;
            let nsyms = self.symbols@.len();
            assert forall|x: int| 0 <= x < after.len() implies #[trigger] config_ok(
                after,
                self.rules@,
                nsyms,
                x,
            ) by {
                lemma_config_ok(before, self.states@, self.rules@, nsyms, x);
            }
            lemma_configs_changed(before, after, self.states@, self.rules@, nsyms);
        }
    }
}

/// Some configuration from position `base` on is for the given rule and
/// mark.
pub open spec fn has_item(configs: Seq<Config>, base: int, rule: usize, dot: usize) -> bool {
    exists|c: int|
        base <= c < configs.len() && (#[trigger] configs[c]).rule == rule && configs[c].dot == dot
}

/// No two configurations from position `base` on are for the same rule and
/// mark.
pub open spec fn items_distinct(configs: Seq<Config>, base: int) -> bool {
    forall|a: int, b: int|
        base <= a < b < configs.len() ==> !((#[trigger] configs[a]).rule == (
        #[trigger] configs[b]).rule && configs[a].dot == configs[b].dot)
}

/// The mark of configuration `c` stands before a nonterminal that has no
/// rule and is not the error symbol.
pub open spec fn lacks_rules(
    configs: Seq<Config>,
    rules: Seq<Rule>,
    symbols: Seq<Symbol>,
    err_sym: usize,
    c: int,
) -> bool {
    let cfg = configs[c];
    let rhs = rules[cfg.rule as int].rhs@;
    &&& cfg.dot < rhs.len()
    &&& symbols[rhs[cfg.dot as int].sym as int].kind is NonTerminal
    &&& symbols[rhs[cfg.dot as int].sym as int].rules@.len() == 0
    &&& rhs[cfg.dot as int].sym != err_sym
}

/// Configuration `c` is the first from `base` on whose mark stands before a
/// nonterminal without rules.
pub open spec fn first_lacking(
    configs: Seq<Config>,
    rules: Seq<Rule>,
    symbols: Seq<Symbol>,
    err_sym: usize,
    base: int,
    c: int,
) -> bool {
    &&& lacks_rules(configs, rules, symbols, err_sym, c)
    &&& forall|b: int| base <= b < c ==> !#[trigger] lacks_rules(configs, rules, symbols, err_sym, b)
}

/// Where the slot after the mark of configuration `c` stands in the source.
pub open spec fn slot_span(configs: Seq<Config>, rules: Seq<Rule>, c: int) -> usize {
    rules[configs[c].rule as int].rhs@[configs[c].dot as int].span
}

/// The mark of configuration `c` stands before a nonterminal that has rule
/// `q`.
pub open spec fn asks(
    configs: Seq<Config>,
    rules: Seq<Rule>,
    symbols: Seq<Symbol>,
    c: int,
    q: usize,
) -> bool {
    let cfg = configs[c];
    let rhs = rules[cfg.rule as int].rhs@;
    &&& cfg.dot < rhs.len()
    &&& symbols[rhs[cfg.dot as int].sym as int].kind is NonTerminal
    &&& symbols[rhs[cfg.dot as int].sym as int].rules@.contains(q)
}

/// Configuration `d` is for a rule that some configuration from `base` on
/// asks for.
pub open spec fn asked_for(
    configs: Seq<Config>,
    rules: Seq<Rule>,
    symbols: Seq<Symbol>,
    base: int,
    d: int,
) -> bool {
    exists|c: int| base <= c < configs.len() && #[trigger] asks(configs, rules, symbols, c, configs[d].rule)
}

/// Configuration `c` asks for the rule of configuration `d`, which has its
/// mark at the start, and what follows the slot at the mark of `c` can
/// begin with terminal `t`.
pub open spec fn seeds_with(
    configs: Seq<Config>,
    rules: Seq<Rule>,
    symbols: Seq<Symbol>,
    c: int,
    d: int,
    t: usize,
) -> bool {
    &&& asks(configs, rules, symbols, c, configs[d].rule)
    &&& configs[d].dot == 0
    &&& suffix_first(symbols, rules[configs[c].rule as int].rhs@, configs[c].dot + 1).contains(t)
}

/// Terminal `t` is in the follow set of configuration `d` because some
/// configuration from `base` on asks for the rule of `d` and can be followed
/// by `t` there.
pub open spec fn follow_seeded(
    configs: Seq<Config>,
    rules: Seq<Rule>,
    symbols: Seq<Symbol>,
    base: int,
    d: int,
    t: usize,
) -> bool {
    exists|c: int| base <= c < configs.len() && #[trigger] seeds_with(configs, rules, symbols, c, d, t)
}

/// How many links forward configuration `c` had in `before`: none, if it
/// was not there.
pub open spec fn links_before(before: Seq<Config>, c: int) -> int {
    if c < before.len() {
        before[c].fplp@.len() as int
    } else {
        0
    }
}

/// The `j`-th link forward of configuration `c` leads to a configuration
/// with its mark at the start, for a rule that `c` asks for, and what
/// follows the slot at the mark of `c` is nullable.
pub open spec fn link_seeded(
    configs: Seq<Config>,
    rules: Seq<Rule>,
    symbols: Seq<Symbol>,
    c: int,
    j: int,
) -> bool {
    let d = configs[c].fplp@[j] as int;
    &&& d < configs.len()
    &&& asks(configs, rules, symbols, c, configs[d].rule)
    &&& configs[d].dot == 0
    &&& suffix_nullable(symbols, rules[configs[c].rule as int].rhs@, configs[c].dot + 1)
}

/// Configuration `d` is for rule `q` with the mark at the start; its follow
/// set holds what the rest of the rule of `c`, after the slot at its mark,
/// can begin with; and if that rest is nullable, `d` inherits the follow set
/// of `c`.
pub open spec fn seeds(
    configs: Seq<Config>,
    symbols: Seq<Symbol>,
    rules: Seq<Rule>,
    c: int,
    q: usize,
    d: int,
) -> bool {
    let rhs = rules[configs[c].rule as int].rhs@;
    &&& configs[d].rule == q
    &&& configs[d].dot == 0
    &&& suffix_first(symbols, rhs, configs[c].dot + 1).subset_of(configs[d].fws@)
    &&& suffix_nullable(symbols, rhs, configs[c].dot + 1) ==> configs[c].fplp@.contains(
        d as usize,
    )
}

/// Some configuration from position `base` on is seeded by `c` for rule `q`.
pub open spec fn seeded(
    configs: Seq<Config>,
    symbols: Seq<Symbol>,
    rules: Seq<Rule>,
    base: int,
    c: int,
    q: usize,
) -> bool {
    exists|d: int| base <= d < configs.len() && #[trigger] seeds(configs, symbols, rules, c, q, d)
}

/// Configuration `c`, if its mark stands before a nonterminal, has beside it,
/// from position `base` on, a configuration for each rule of that
/// nonterminal, with the mark at the start and seeded by `c`.
pub open spec fn closed_at(
    configs: Seq<Config>,
    rules: Seq<Rule>,
    symbols: Seq<Symbol>,
    base: int,
    c: int,
) -> bool {
    let cfg = configs[c];
    cfg.dot < rules[cfg.rule as int].rhs@.len() && symbols[rules[cfg.rule as int].rhs@[cfg.dot as int].sym as int].kind is NonTerminal
        ==> forall|k: int|
        0 <= k < symbols[rules[cfg.rule as int].rhs@[cfg.dot as int].sym as int].rules@.len()
            ==> seeded(
            configs,
            symbols,
            rules,
            base,
            c,
            #[trigger] symbols[rules[cfg.rule as int].rhs@[cfg.dot as int].sym as int].rules@[k],
        )
}

/// From `before` to `after`, the configurations from `base` on kept their
/// rules and marks, and their follow sets and links forward only grew.
pub open spec fn grown_from(before: Seq<Config>, after: Seq<Config>, base: int) -> bool {
    &&& before.len() <= after.len()
    &&& forall|x: int|
        base <= x < before.len() ==> (#[trigger] after[x]).rule == before[x].rule && after[x].dot
            == before[x].dot && before[x].fws@.subset_of(after[x].fws@)
            && before[x].fplp@.is_prefix_of(after[x].fplp@)
}

/// An item that is there stays there when configurations are added and
/// none changes its rule or mark.
proof fn lemma_has_item_kept(
    before: Seq<Config>,
    after: Seq<Config>,
    base: int,
    rule: usize,
    dot: usize,
)
    requires
        has_item(before, base, rule, dot),
        0 <= base,
        before.len() <= after.len(),
        forall|c: int|
            base <= c < before.len() ==> (#[trigger] after[c]).rule == before[c].rule && after[c].dot
                == before[c].dot,
    ensures
        has_item(after, base, rule, dot),
{
    let w = choose|c: int|
        base <= c < before.len() && (#[trigger] before[c]).rule == rule && before[c].dot == dot;
    assert(after[w].rule == rule && after[w].dot == dot);
}

/// A configuration that was seeded stays seeded when follow sets and links
/// grow.
pub proof fn lemma_seeded_kept(
    before: Seq<Config>,
    after: Seq<Config>,
    symbols: Seq<Symbol>,
    rules: Seq<Rule>,
    base: int,
    c: int,
    q: usize,
)
    requires
        0 <= base <= c < before.len(),
        grown_from(before, after, base),
        seeded(before, symbols, rules, base, c, q),
    ensures
        seeded(after, symbols, rules, base, c, q),
{
    let d = choose|d: int| base <= d < before.len() && #[trigger] seeds(before, symbols, rules, c, q, d);
    assert(after[c].rule == before[c].rule);
    assert(after[d].rule == before[d].rule);
    if before[c].fplp@.contains(d as usize) {
        let w = choose|w: int| 0 <= w < before[c].fplp@.len() && before[c].fplp@[w] == d as usize;
        assert(after[c].fplp@[w] == d as usize);
    }
    assert(seeds(after, symbols, rules, c, q, d));
}

/// A configuration that is closed stays closed when configurations are added
/// and follow sets and links grow.
pub proof fn lemma_closed_kept(
    before: Seq<Config>,
    after: Seq<Config>,
    rules: Seq<Rule>,
    symbols: Seq<Symbol>,
    base: int,
    c: int,
)
    requires
        closed_at(before, rules, symbols, base, c),
        0 <= base <= c < before.len(),
        grown_from(before, after, base),
    ensures
        closed_at(after, rules, symbols, base, c),
{
    let cfg = before[c];
    assert(after[c].rule == cfg.rule && after[c].dot == cfg.dot);
    if cfg.dot < rules[cfg.rule as int].rhs@.len() && symbols[rules[cfg.rule as int].rhs@[cfg.dot as int].sym as int].kind is NonTerminal {
        let sp = rules[cfg.rule as int].rhs@[cfg.dot as int].sym as int;
        assert forall|k: int| 0 <= k < symbols[sp].rules@.len() implies seeded(
            after,
            symbols,
            rules,
            base,
            c,
            #[trigger] symbols[sp].rules@[k],
        ) by {
            lemma_seeded_kept(before, after, symbols, rules, base, c, symbols[sp].rules@[k]);
        }
    }
}

/// Growing carries over from step to step.
pub proof fn lemma_grown_trans(a: Seq<Config>, b: Seq<Config>, c: Seq<Config>, base: int)
    requires
        grown_from(a, b, base),
        grown_from(b, c, base),
    ensures
        grown_from(a, c, base),
{
    assert forall|x: int| base <= x < a.len() implies (#[trigger] c[x]).rule == a[x].rule && c[x].dot
        == a[x].dot && a[x].fws@.subset_of(c[x].fws@) && a[x].fplp@.is_prefix_of(c[x].fplp@) by {
        assert(b[x].rule == a[x].rule);
        assert(a[x].fws@.subset_of(b[x].fws@));
        assert(b[x].fws@.subset_of(c[x].fws@));
        assert(a[x].fplp@.is_prefix_of(b[x].fplp@));
        assert(b[x].fplp@.is_prefix_of(c[x].fplp@));
    }
}

impl Lemon {
    /// Closes the configurations from position `base` on: for every one of
    /// them whose mark stands before a nonterminal, adds a configuration for
    /// each rule of that nonterminal, with the mark at the start and with a
    /// follow set of what the rest of the first one's rule can begin with. If
    /// that rest is nullable, the new configuration inherits the follow set of
    /// the first one.
    #[verifier::rlimit(100)]
    pub fn configlist_closure(&mut self, base: usize) -> (r: Result<(), Error>)
        requires
            old(self).built_wf(),
            old(self).is_numbered(),
            base <= old(self).configs@.len(),
            items_distinct(old(self).configs@, base as int),
        ensures
            final(self).built_wf(),
            final(self).is_numbered(),
            *final(self) == (Lemon { configs: final(self).configs, ..*old(self) }),
            old(self).configs@.len() <= final(self).configs@.len(),
            forall|c: int| 0 <= c < base ==> #[trigger] final(self).configs@[c] == old(self).configs@[c],
            forall|c: int|
                base <= c < old(self).configs@.len() ==> (#[trigger] final(self).configs@[c]).rule
                    == old(self).configs@[c].rule && final(self).configs@[c].dot == old(self).configs@[c].dot
                    && final(self).configs@[c].bplp == old(self).configs@[c].bplp,
            forall|c: int|
                old(self).configs@.len() <= c < final(self).configs@.len() ==> (#[trigger] final(self).configs@[c]).dot == 0
                    && final(self).configs@[c].bplp@.len() == 0,
            forall|c: int|
                base <= c < old(self).configs@.len() ==> old(self).configs@[c].fws@.subset_of(
                    (#[trigger] final(self).configs@[c]).fws@,
                ),
            items_distinct(final(self).configs@, base as int),
            r is Ok ==> forall|c: int|
                base <= c < final(self).configs@.len() ==> #[trigger] closed_at(
                    final(self).configs@,
                    final(self).rules@,
                    final(self).symbols@,
                    base as int,
                    c,
                ),
            forall|d: int|
                old(self).configs@.len() <= d < final(self).configs@.len() ==> #[trigger] asked_for(
                    final(self).configs@,
                    final(self).rules@,
                    final(self).symbols@,
                    base as int,
                    d,
                ),
            forall|d: int, t: usize|
                base <= d < final(self).configs@.len() && #[trigger] final(self).configs@[d].fws@.contains(
                    t,
                ) ==> (d < old(self).configs@.len() && old(self).configs@[d].fws@.contains(t))
                    || follow_seeded(
                    final(self).configs@,
                    final(self).rules@,
                    final(self).symbols@,
                    base as int,
                    d,
                    t,
                ),
            forall|c: int, j: int|
                base <= c < final(self).configs@.len() && links_before(old(self).configs@, c) <= j
                    < final(self).configs@[c].fplp@.len() ==> #[trigger] link_seeded(
                    final(self).configs@,
                    final(self).rules@,
                    final(self).symbols@,
                    c,
                    j,
                ),
            r is Err <==> exists|c: int|
                base <= c < final(self).configs@.len() && #[trigger] lacks_rules(
                    final(self).configs@,
                    final(self).rules@,
                    final(self).symbols@,
                    final(self).err_sym,
                    c,
                ),
            r matches Err(e) ==> e.fault == Fault::NonterminalWithoutRules && exists|c: int|
                base <= c < final(self).configs@.len() && #[trigger] first_lacking(
                    final(self).configs@,
                    final(self).rules@,
                    final(self).symbols@,
                    final(self).err_sym,
                    base as int,
                    c,
                ) && e.span == slot_span(final(self).configs@, final(self).rules@, c),
    {
        let ghost orig = self.configs@;
        let ghost first_new = orig.len();
        let ghost nrules = self.rules@.len();
        let ghost syms = self.symbols@;
        let ghost rules = self.rules@;
        let ghost mut seen: Set<usize> = Set::empty();
        let mut i: usize = base;
        while i < self.configs.len()
            invariant
                base <= i <= self.configs@.len(),
                self.built_wf(),
                self.is_numbered(),
                *self == (Lemon { configs: self.configs, ..*old(self) }),
                orig == old(self).configs@,
                syms == self.symbols@,
                rules == self.rules@,
                first_new == orig.len(),
                nrules == self.rules@.len(),
                base <= first_new <= self.configs@.len(),
                forall|c: int| 0 <= c < base ==> #[trigger] self.configs@[c] == orig[c],
                forall|c: int|
                    base <= c < first_new ==> (#[trigger] self.configs@[c]).rule == orig[c].rule
                        && self.configs@[c].dot == orig[c].dot && self.configs@[c].bplp
                        == orig[c].bplp,
                forall|c: int|
                    first_new <= c < self.configs@.len() ==> (#[trigger] self.configs@[c]).dot == 0
                        && self.configs@[c].bplp@.len() == 0,
                forall|c: int|
                    base <= c < first_new ==> orig[c].fws@.subset_of((#[trigger] self.configs@[c]).fws@),
                items_distinct(self.configs@, base as int),
                forall|c: int|
                    first_new <= c < self.configs@.len() ==> seen.contains(
                        (#[trigger] self.configs@[c]).rule,
                    ),
                forall|x: usize| #[trigger]
                    seen.contains(x) ==> x < nrules && has_item(self.configs@, first_new as int, x, 0),
                seen.finite(),
                seen.len() == self.configs@.len() - first_new,
                forall|c: int|
                    base <= c < i ==> #[trigger] closed_at(self.configs@, rules, syms, base as int, c),
                forall|c: int|
                    base <= c < i ==> !#[trigger] lacks_rules(
                        self.configs@,
                        rules,
                        syms,
                        self.err_sym,
                        c,
                    ),
                forall|d: int|
                    first_new <= d < self.configs@.len() ==> #[trigger] asked_for(
                        self.configs@,
                        rules,
                        syms,
                        base as int,
                        d,
                    ),
                forall|d: int, t: usize|
                    base <= d < self.configs@.len() && #[trigger] self.configs@[d].fws@.contains(t) ==> (d
                        < first_new && orig[d].fws@.contains(t)) || follow_seeded(
                        self.configs@,
                        rules,
                        syms,
                        base as int,
                        d,
                        t,
                    ),
                forall|c: int, j: int|
                    base <= c < self.configs@.len() && links_before(orig, c) <= j < self.configs@[c].fplp@.len()
                        ==> #[trigger] link_seeded(self.configs@, rules, syms, c, j),
            decreases first_new + nrules - i,
        {
            proof {
                assert(below(seen, nrules));
                lemma_bounded_finite(seen, nrules);
                lemma_config_ok(
                    self.configs@,
                    self.states@,
                    self.rules@,
                    self.symbols@.len(),
                    i as int,
                );
            }
            let rule = self.configs[i].rule;
            let dot = self.configs[i].dot;
            proof {
                lemma_rule_ok(self.symbols@, self.rules@, rule as int);
            }
            if dot < self.rules[rule].rhs.len() {
                let sp = self.rules[rule].rhs[dot].sym;
                let span = self.rules[rule].rhs[dot].span;
                assert(self.rules@[rule as int].rhs@[dot as int].sym < self.symbols@.len());
                proof {
                    lemma_symbol_ok(self.symbols@, self.rules@, sp as int);
                }
                if self.symbols[sp].kind == SymbolKind::NonTerminal {
                    let nr = self.symbols[sp].rules.len();
                    if nr == 0 && sp != self.err_sym {
                        proof {
                            assert(lacks_rules(self.configs@, rules, syms, self.err_sym, i as int));
                            assert(first_lacking(
                                self.configs@,
                                rules,
                                syms,
                                self.err_sym,
                                base as int,
                                i as int,
                            ));
                        }
                        return Err(Error::new(Fault::NonterminalWithoutRules, span));
                    }
                    let mut k: usize = 0;
                    while k < nr
                        invariant
                            k <= nr,
                            base <= i < self.configs@.len(),
                            self.built_wf(),
                            self.is_numbered(),
                            *self == (Lemon { configs: self.configs, ..*old(self) }),
                            orig == old(self).configs@,
                            syms == self.symbols@,
                            rules == self.rules@,
                            first_new == orig.len(),
                            nrules == self.rules@.len(),
                            base <= first_new <= self.configs@.len(),
                            rule < self.rules@.len(),
                            rule == self.configs@[i as int].rule,
                            dot == self.configs@[i as int].dot,
                            dot < self.rules@[rule as int].rhs@.len(),
                            dot < usize::MAX,
                            sp == self.rules@[rule as int].rhs@[dot as int].sym,
                            sp < self.symbols@.len(),
                            self.symbols@[sp as int].kind is NonTerminal,
                            nr == self.symbols@[sp as int].rules@.len(),
                            symbol_ok(self.symbols@, self.rules@, sp as int),
                            forall|c: int| 0 <= c < base ==> #[trigger] self.configs@[c] == orig[c],
                            forall|c: int|
                                base <= c < first_new ==> (#[trigger] self.configs@[c]).rule
                                    == orig[c].rule && self.configs@[c].dot == orig[c].dot
                                    && self.configs@[c].bplp == orig[c].bplp,
                            forall|c: int|
                                first_new <= c < self.configs@.len() ==> (
                                #[trigger] self.configs@[c]).dot == 0 && self.configs@[c].bplp@.len()
                                    == 0,
                            forall|c: int|
                                base <= c < first_new ==> orig[c].fws@.subset_of(
                                    (#[trigger] self.configs@[c]).fws@,
                                ),
                            items_distinct(self.configs@, base as int),
                            forall|c: int|
                                first_new <= c < self.configs@.len() ==> seen.contains(
                                    (#[trigger] self.configs@[c]).rule,
                                ),
                            forall|x: usize| #[trigger]
                                seen.contains(x) ==> x < nrules && has_item(
                                    self.configs@,
                                    first_new as int,
                                    x,
                                    0,
                                ),
                            seen.finite(),
                            seen.len() == self.configs@.len() - first_new,
                            forall|c: int|
                                base <= c < i ==> #[trigger] closed_at(
                                    self.configs@,
                                    rules,
                                    syms,
                                    base as int,
                                    c,
                                ),
                            forall|x: int|
                                0 <= x < k ==> seeded(
                                    self.configs@,
                                    syms,
                                    rules,
                                    base as int,
                                    i as int,
                                    #[trigger] syms[sp as int].rules@[x],
                                ),
                            nr > 0 || sp == self.err_sym,
                            forall|c: int, j: int|
                                base <= c < self.configs@.len() && links_before(orig, c) <= j < self.configs@[c].fplp@.len()
                                    ==> #[trigger] link_seeded(self.configs@, rules, syms, c, j),
                            forall|d: int, t: usize|
                                base <= d < self.configs@.len() && #[trigger] self.configs@[d].fws@.contains(t) ==> (d
                                    < first_new && orig[d].fws@.contains(t)) || follow_seeded(
                                    self.configs@,
                                    rules,
                                    syms,
                                    base as int,
                                    d,
                                    t,
                                ),
                            forall|c: int|
                                base <= c < i ==> !#[trigger] lacks_rules(
                                    self.configs@,
                                    rules,
                                    syms,
                                    self.err_sym,
                                    c,
                                ),
                            forall|d: int|
                                first_new <= d < self.configs@.len() ==> #[trigger] asked_for(
                                    self.configs@,
                                    rules,
                                    syms,
                                    base as int,
                                    d,
                                ),
                        decreases nr - k,
                    {
                        let newrp = self.symbols[sp].rules[k];
                        assert(self.symbols@[sp as int].rules@[k as int] < self.rules@.len());
                        let ghost before = self.configs@;
                        let newcfp = self.add_config(base, newrp, 0);
                        let ghost mid = self.configs@;
                        proof {
                            if newcfp >= before.len() {
                                // the new configuration is for a rule not seen yet
                                if seen.contains(newrp) {
                                    let w = choose|c: int|
                                        first_new <= c < before.len() && (#[trigger] before[c]).rule
                                            == newrp && before[c].dot == 0;
                                    assert(!(before[w].rule == newrp && before[w].dot == 0));
                                }
                                let ghost_seen = seen.insert(newrp);
                                assert forall|x: usize| #[trigger]
                                    ghost_seen.contains(x) implies x < nrules && has_item(
                                    mid,
                                    first_new as int,
                                    x,
                                    0,
                                ) by {
                                    if x == newrp {
                                        assert(mid[newcfp as int].rule == x && mid[newcfp as int].dot
                                            == 0);
                                    } else {
                                        assert(has_item(before, first_new as int, x, 0));
                                        lemma_has_item_kept(before, mid, first_new as int, x, 0);
                                    }
                                }
                                seen = ghost_seen;
                                assert(items_distinct(mid, base as int)) by {
                                    assert forall|a: int, b: int|
                                        base <= a < b < mid.len() implies !((#[trigger] mid[a]).rule
                                        == (#[trigger] mid[b]).rule && mid[a].dot == mid[b].dot) by {
                                        if b < before.len() {
                                            assert(mid[a] == before[a] && mid[b] == before[b]);
                                        } else {
                                            assert(mid[a] == before[a]);
                                        }
                                    }
                                }
                            }
                            assert(grown_from(before, mid, base as int)) by {
                                assert forall|x: int| base <= x < before.len() implies (
                                #[trigger] mid[x]).rule == before[x].rule && mid[x].dot
                                    == before[x].dot && before[x].fws@.subset_of(mid[x].fws@)
                                    && before[x].fplp@.is_prefix_of(mid[x].fplp@) by {
                                    assert(mid[x] == before[x]);
                                }
                            }
                        }
                        let through = self.seed_follow(newcfp, rule, dot + 1);
                        let ghost seeded_cfgs = self.configs@;
                        if through {
                            self.link_forward(i, newcfp);
                        }
                        proof {
                            let after = self.configs@;
                            assert(grown_from(mid, after, base as int)) by {
                                assert forall|x: int| base <= x < mid.len() implies (
                                #[trigger] after[x]).rule == mid[x].rule && after[x].dot == mid[x].dot
                                    && mid[x].fws@.subset_of(after[x].fws@) && mid[x].fplp@.is_prefix_of(
                                    after[x].fplp@,
                                ) by {
                                    assert(mid[x].fws@.subset_of(seeded_cfgs[x].fws@));
                                    assert(seeded_cfgs[x].fplp@.is_prefix_of(after[x].fplp@));
                                }
                            }
                            lemma_grown_trans(before, mid, after, base as int);
                            assert forall|c: int, j: int|
                                base <= c < after.len() && links_before(orig, c) <= j
                                    < after[c].fplp@.len() implies #[trigger] link_seeded(
                                after,
                                rules,
                                syms,
                                c,
                                j,
                            ) by {
                                assert(seeded_cfgs[c].fplp == mid[c].fplp);
                                if c < before.len() && j < before[c].fplp@.len() {
                                    assert(mid[c] == before[c]);
                                    assert(link_seeded(before, rules, syms, c, j));
                                    assert(before[c].fplp@.is_prefix_of(after[c].fplp@));
                                    let d = before[c].fplp@[j] as int;
                                    assert(after[c].fplp@[j] == d);
                                    assert(after[d].rule == before[d].rule && after[d].dot
                                        == before[d].dot);
                                    assert(after[c].rule == before[c].rule && after[c].dot
                                        == before[c].dot);
                                } else {
                                    // the link just made
                                    if c < before.len() {
                                        assert(mid[c] == before[c]);
                                    }
                                    assert(c == i && through);
                                    assert(after[c].fplp@[j] == newcfp);
                                    assert(syms[sp as int].rules@[k as int] == newrp);
                                    assert(after[newcfp as int].rule == newrp && after[newcfp as int].dot
                                        == 0);
                                    assert(after[i as int].rule == rule && after[i as int].dot == dot);
                                }
                            }
                            assert forall|d: int, t: usize|
                                base <= d < after.len() && #[trigger] after[d].fws@.contains(t) implies (d
                                < first_new && orig[d].fws@.contains(t)) || follow_seeded(
                                after,
                                rules,
                                syms,
                                base as int,
                                d,
                                t,
                            ) by {
                                assert(after[d].fws == seeded_cfgs[d].fws);
                                let from_here = d == newcfp && suffix_first(
                                    syms,
                                    rules[rule as int].rhs@,
                                    dot + 1,
                                ).contains(t);
                                if from_here {
                                    assert(syms[sp as int].rules@[k as int] == newrp);
                                    assert(after[d].rule == newrp && after[d].dot == 0);
                                    assert(after[i as int].rule == rule && after[i as int].dot == dot);
                                    assert(seeds_with(after, rules, syms, i as int, d, t));
                                } else {
                                    if d == newcfp {
                                        assert(mid[d].fws@.contains(t));
                                    } else {
                                        assert(seeded_cfgs[d] == mid[d]);
                                    }
                                    assert(d < before.len());
                                    assert(mid[d] == before[d]);
                                    assert(before[d].fws@.contains(t));
                                    if !(d < first_new && orig[d].fws@.contains(t)) {
                                        assert(follow_seeded(before, rules, syms, base as int, d, t));
                                        let c = choose|c: int|
                                            base <= c < before.len() && #[trigger] seeds_with(
                                                before,
                                                rules,
                                                syms,
                                                c,
                                                d,
                                                t,
                                            );
                                        assert(after[c].rule == before[c].rule && after[c].dot
                                            == before[c].dot);
                                        assert(after[d].rule == before[d].rule && after[d].dot
                                            == before[d].dot);
                                        assert(seeds_with(after, rules, syms, c, d, t));
                                    }
                                }
                            }
                            assert forall|c: int| base <= c < i implies !#[trigger] lacks_rules(
                                after,
                                rules,
                                syms,
                                self.err_sym,
                                c,
                            ) by {
                                assert(!lacks_rules(before, rules, syms, self.err_sym, c));
                                assert(after[c].rule == before[c].rule && after[c].dot == before[c].dot);
                            }
                            assert forall|d: int| first_new <= d < after.len() implies #[trigger] asked_for(
                                after,
                                rules,
                                syms,
                                base as int,
                                d,
                            ) by {
                                if d < before.len() {
                                    assert(asked_for(before, rules, syms, base as int, d));
                                    let c = choose|c: int|
                                        base <= c < before.len() && #[trigger] asks(
                                            before,
                                            rules,
                                            syms,
                                            c,
                                            before[d].rule,
                                        );
                                    assert(after[c].rule == before[c].rule && after[c].dot
                                        == before[c].dot);
                                    assert(after[d].rule == before[d].rule);
                                    assert(asks(after, rules, syms, c, after[d].rule));
                                } else {
                                    assert(d == newcfp);
                                    assert(after[d].rule == mid[d].rule);
                                    assert(syms[sp as int].rules@[k as int] == newrp);
                                    assert(asks(after, rules, syms, i as int, after[d].rule));
                                }
                            }
                            assert forall|c: int| base <= c < first_new implies orig[c].fws@.subset_of(
                                (#[trigger] after[c]).fws@,
                            ) by {
                                assert(orig[c].fws@.subset_of(before[c].fws@));
                                assert(before[c].fws@.subset_of(after[c].fws@));
                            }
                            assert forall|c: int| 0 <= c < base implies #[trigger] after[c] == orig[c] by {
                                assert(mid[c] == before[c]);
                                assert(seeded_cfgs[c] == mid[c]);
                            }
                            assert forall|c: int| base <= c < first_new implies (#[trigger] after[c]).rule
                                == orig[c].rule && after[c].dot == orig[c].dot && after[c].bplp
                                == orig[c].bplp by {
                                assert(mid[c] == before[c]);
                                assert(seeded_cfgs[c].bplp == mid[c].bplp);
                            }
                            assert forall|c: int| first_new <= c < after.len() implies (
                            #[trigger] after[c]).dot == 0 && after[c].bplp@.len() == 0 by {
                                assert(seeded_cfgs[c].bplp == mid[c].bplp);
                                if c < before.len() {
                                    assert(mid[c] == before[c]);
                                }
                            }
                            assert(items_distinct(after, base as int)) by {
                                assert forall|a: int, b: int|
                                    base <= a < b < after.len() implies !((#[trigger] after[a]).rule
                                    == (#[trigger] after[b]).rule && after[a].dot == after[b].dot) by {
                                    assert(after[a].rule == mid[a].rule && after[a].dot == mid[a].dot);
                                    assert(after[b].rule == mid[b].rule && after[b].dot == mid[b].dot);
                                }
                            }
                            assert forall|c: int| first_new <= c < after.len() implies seen.contains(
                                (#[trigger] after[c]).rule,
                            ) by {
                                assert(after[c].rule == mid[c].rule);
                                if c < before.len() {
                                    assert(mid[c] == before[c]);
                                }
                            }
                            assert forall|x: usize| #[trigger]
                                seen.contains(x) implies x < nrules && has_item(
                                after,
                                first_new as int,
                                x,
                                0,
                            ) by {
                                assert(has_item(mid, first_new as int, x, 0));
                                lemma_has_item_kept(mid, after, first_new as int, x, 0);
                            }
                            assert forall|c: int| base <= c < i implies #[trigger] closed_at(
                                after,
                                rules,
                                syms,
                                base as int,
                                c,
                            ) by {
                                lemma_closed_kept(before, after, rules, syms, base as int, c);
                            }
                            assert forall|x: int| 0 <= x < k + 1 implies seeded(
                                after,
                                syms,
                                rules,
                                base as int,
                                i as int,
                                #[trigger] syms[sp as int].rules@[x],
                            ) by {
                                if x < k {
                                    lemma_seeded_kept(
                                        before,
                                        after,
                                        syms,
                                        rules,
                                        base as int,
                                        i as int,
                                        syms[sp as int].rules@[x],
                                    );
                                } else {
                                    let rhs = rules[rule as int].rhs@;
                                    assert(after[i as int].rule == rule && after[i as int].dot == dot);
                                    assert(suffix_first(syms, rhs, dot + 1).subset_of(
                                        seeded_cfgs[newcfp as int].fws@,
                                    ));
                                    assert(seeded_cfgs[newcfp as int].fws@.subset_of(
                                        after[newcfp as int].fws@,
                                    ));
                                    if through {
                                        let l = after[i as int].fplp@;
                                        assert(l[l.len() - 1] == newcfp);
                                    }
                                    assert(seeds(after, syms, rules, i as int, newrp, newcfp as int));
                                }
                            }
                        }
                        k += 1;
                    }
                }
            }
            proof {
                assert(below(seen, nrules));
                lemma_bounded_finite(seen, nrules);
                assert(self.configs@[i as int].rule == rule && self.configs@[i as int].dot == dot);
                assert(!lacks_rules(self.configs@, rules, syms, self.err_sym, i as int));
            }
            i += 1;
        }
        Ok(())
    }
}

} // verus!
