//! Nullable nonterminals and first sets.
//!
//! Both are least fixed points. A nonterminal is nullable when some rule for
//! it has only nullable symbols on its right-hand side. The first set of a
//! nonterminal holds, for each of its rules, what the slots of the right-hand
//! side can begin with, up to and including the first slot that is not
//! nullable.

use crate::grammar::{
    lemma_analysis_keeps_wf, lemma_rule_ok, lemma_symbol_ok, rule_ok, same_but_analysis, symbol_ok,
    tables_wf, unanalyzed, Lemon,
};
use crate::prepare::numbered;
use crate::sets::{
    below, count_true, insert_into, lemma_bounded_finite, lemma_count_true_bound,
    lemma_count_true_set, lemma_total_len_bound, lemma_total_len_mono, total_len, union_into,
};
use crate::symbol::{RhsItem, Rule, Symbol, SymbolKind};
use vstd::prelude::*;

verus! {

/// The nullable flags of the symbols.
pub open spec fn lambdas(symbols: Seq<Symbol>) -> Seq<bool> {
    Seq::new(symbols.len(), |s: int| symbols[s].lambda)
}

/// The first sets of the symbols.
pub open spec fn firsts(symbols: Seq<Symbol>) -> Seq<Set<usize>> {
    Seq::new(symbols.len(), |s: int| symbols[s].first_set@)
}

/// The first `upto` slots are all flagged.
pub open spec fn prefix_nullable(l: Seq<bool>, rhs: Seq<RhsItem>, upto: int) -> bool {
    forall|k: int| 0 <= k < upto ==> l[(#[trigger] rhs[k]).sym as int]
}

/// Every slot of the rule is flagged.
pub open spec fn rule_nullable(l: Seq<bool>, rule: Rule) -> bool {
    prefix_nullable(l, rule.rhs@, rule.rhs@.len() as int)
}

/// Rule `r` respects the flags: if all its slots are flagged, so is its
/// left-hand side.
pub open spec fn lambda_closed_at(l: Seq<bool>, rules: Seq<Rule>, r: int) -> bool {
    rule_nullable(l, rules[r]) ==> l[rules[r].lhs as int]
}

/// Every rule respects the flags.
pub open spec fn lambda_closed(l: Seq<bool>, rules: Seq<Rule>) -> bool {
    forall|r: int| 0 <= r < rules.len() ==> #[trigger] lambda_closed_at(l, rules, r)
}

/// Symbol `s` is the left-hand side of a rule whose slots are all flagged.
pub open spec fn has_nullable_rule(l: Seq<bool>, rules: Seq<Rule>, s: int) -> bool {
    exists|r: int| 0 <= r < rules.len() && (#[trigger] rules[r]).lhs == s && rule_nullable(l, rules[r])
}

/// Every flagged symbol has a rule whose slots are all flagged.
pub open spec fn lambda_supported(l: Seq<bool>, rules: Seq<Rule>) -> bool {
    forall|s: int| 0 <= s < l.len() && l[s] ==> #[trigger] has_nullable_rule(l, rules, s)
}

/// Whatever `l` flags, `m` flags too.
pub open spec fn flags_below(l: Seq<bool>, m: Seq<bool>) -> bool {
    forall|s: int| 0 <= s < l.len() && #[trigger] l[s] ==> m[s]
}

/// `l` flags no more than any flags that every rule respects.
pub open spec fn lambda_least(l: Seq<bool>, rules: Seq<Rule>) -> bool {
    forall|m: Seq<bool>|
        m.len() == l.len() && #[trigger] lambda_closed(m, rules) ==> flags_below(l, m)
}

/// `l` flags exactly the nullable symbols: a symbol is flagged if and only if
/// it has a rule whose slots are all flagged, and no flags with that property
/// flag less.
pub open spec fn is_nullable(l: Seq<bool>, rules: Seq<Rule>) -> bool {
    &&& lambda_closed(l, rules)
    &&& lambda_supported(l, rules)
    &&& lambda_least(l, rules)
}

/// What a slot holding symbol `sym` can begin with: the terminal itself, any
/// alternative of a multi-terminal, or what the nonterminal can begin with.
pub open spec fn slot_first(symbols: Seq<Symbol>, f: Seq<Set<usize>>, sym: int) -> Set<usize> {
    match symbols[sym].kind {
        SymbolKind::Terminal => set![symbols[sym].index],
        SymbolKind::MultiTerminal => Set::new(|t: usize| is_child_index(symbols, sym, t)),
        SymbolKind::NonTerminal => f[sym],
    }
}

/// `t` is the index of an alternative of the multi-terminal `sym`.
pub open spec fn is_child_index(symbols: Seq<Symbol>, sym: int, t: usize) -> bool {
    exists|k: int|
        0 <= k < symbols[sym].sub_sym@.len() && symbols[(#[trigger] symbols[sym].sub_sym@[k]) as int].index
            == t
}

/// Slot `k` of rule `r` respects the sets: if all slots before it are nullable,
/// what it can begin with is in the set of the rule's left-hand side.
pub open spec fn first_closed_at(
    symbols: Seq<Symbol>,
    rules: Seq<Rule>,
    l: Seq<bool>,
    f: Seq<Set<usize>>,
    r: int,
    k: int,
) -> bool {
    prefix_nullable(l, rules[r].rhs@, k) ==> slot_first(
        symbols,
        f,
        rules[r].rhs@[k].sym as int,
    ).subset_of(f[rules[r].lhs as int])
}

/// Every slot of every rule respects the sets.
pub open spec fn first_closed(
    symbols: Seq<Symbol>,
    rules: Seq<Rule>,
    l: Seq<bool>,
    f: Seq<Set<usize>>,
) -> bool {
    forall|r: int, k: int|
        0 <= r < rules.len() && 0 <= k < rules[r].rhs@.len() ==> #[trigger] first_closed_at(
            symbols,
            rules,
            l,
            f,
            r,
            k,
        )
}

/// Each set of `f` lies within the set of `g` for the same symbol.
pub open spec fn sets_below(f: Seq<Set<usize>>, g: Seq<Set<usize>>) -> bool {
    forall|s: int| 0 <= s < f.len() ==> (#[trigger] f[s]).subset_of(g[s])
}

/// `f` holds no more than any sets that every slot respects.
pub open spec fn first_least(
    symbols: Seq<Symbol>,
    rules: Seq<Rule>,
    l: Seq<bool>,
    f: Seq<Set<usize>>,
) -> bool {
    forall|g: Seq<Set<usize>>|
        g.len() == f.len() && #[trigger] first_closed(symbols, rules, l, g) ==> sets_below(f, g)
}

/// `f` holds exactly the first sets: every slot respects them, and no sets
/// with that property are smaller.
pub open spec fn is_first(
    symbols: Seq<Symbol>,
    rules: Seq<Rule>,
    l: Seq<bool>,
    f: Seq<Set<usize>>,
) -> bool {
    &&& first_closed(symbols, rules, l, f)
    &&& first_least(symbols, rules, l, f)
}

/// Flagging the left-hand side of a rule whose slots are all flagged keeps the
/// flags supported and least.
proof fn lemma_flag_lhs(l: Seq<bool>, rules: Seq<Rule>, r: int)
    requires
        0 <= r < rules.len(),
        rules[r].lhs < l.len(),
        forall|q: int, k: int|
            0 <= q < rules.len() && 0 <= k < rules[q].rhs@.len() ==> (#[trigger] rules[q].rhs@[k]).sym
                < l.len(),
        rule_nullable(l, rules[r]),
        lambda_supported(l, rules),
        lambda_least(l, rules),
    ensures
        lambda_supported(l.update(rules[r].lhs as int, true), rules),
        lambda_least(l.update(rules[r].lhs as int, true), rules),
{
    let lhs = rules[r].lhs as int;
    let after = l.update(lhs, true);
    assert forall|s: int| 0 <= s < after.len() && after[s] implies #[trigger] has_nullable_rule(
        after,
        rules,
        s,
    ) by {
        let w = if s == lhs {
            r
        } else {
            assert(has_nullable_rule(l, rules, s));
            choose|w: int|
                0 <= w < rules.len() && (#[trigger] rules[w]).lhs == s && rule_nullable(l, rules[w])
        };
        assert forall|k: int| 0 <= k < rules[w].rhs@.len() implies after[(
        #[trigger] rules[w].rhs@[k]).sym as int] by {
            assert(l[rules[w].rhs@[k].sym as int]);
        }
        assert(rules[w].lhs == s && rule_nullable(after, rules[w]));
    }
    assert forall|m: Seq<bool>|
        m.len() == after.len() && #[trigger] lambda_closed(m, rules) implies flags_below(
        after,
        m,
    ) by {
        assert(flags_below(l, m));
        assert forall|k: int| 0 <= k < rules[r].rhs@.len() implies m[(
        #[trigger] rules[r].rhs@[k]).sym as int] by {
            assert(l[rules[r].rhs@[k].sym as int]);
        }
        assert(lambda_closed_at(m, rules, r));
    }
}

impl Lemon {
    /// Whether every slot of rule `r` holds a symbol flagged nullable.
    fn rule_is_nullable(&self, r: usize) -> (b: bool)
        requires
            self.wf(),
            r < self.rules@.len(),
        ensures
            b == rule_nullable(lambdas(self.symbols@), self.rules@[r as int]),
    {
        proof {
            lemma_rule_ok(self.symbols@, self.rules@, r as int);
        }
        let n = self.rules[r].rhs.len();
        let mut k: usize = 0;
        while k < n
            invariant
                k <= n,
                r < self.rules@.len(),
                n == self.rules@[r as int].rhs@.len(),
                rule_ok(self.symbols@, self.rules@, r as int),
                prefix_nullable(lambdas(self.symbols@), self.rules@[r as int].rhs@, k as int),
            decreases n - k,
        {
            let sym = self.rules[r].rhs[k].sym;
            assert(self.rules@[r as int].rhs@[k as int].sym < self.symbols@.len());
            if !self.symbols[sym].lambda {
                assert(!lambdas(self.symbols@)[self.rules@[r as int].rhs@[k as int].sym as int]);
                return false;
            }
            k += 1;
        }
        true
    }

    /// Flags the nullable nonterminals.
    pub fn find_lambdas(&mut self)
        requires
            old(self).wf(),
            unanalyzed(old(self).symbols@),
        ensures
            final(self).wf(),
            *final(self) == (Lemon { symbols: final(self).symbols, ..*old(self) }),
            final(self).symbols@.len() == old(self).symbols@.len(),
            forall|s: int|
                0 <= s < old(self).symbols@.len() ==> #[trigger] final(self).symbols@[s] == (Symbol {
                    lambda: final(self).symbols@[s].lambda,
                    ..old(self).symbols@[s]
                }),
            is_nullable(lambdas(final(self).symbols@), final(self).rules@),
    {
        let ghost orig = self.symbols@;
        let n = self.rules.len();
        proof {
            lemma_rhs_in_range(self.symbols@, self.rules@);
            assert(lambda_supported(lambdas(self.symbols@), self.rules@));
            assert(lambda_least(lambdas(self.symbols@), self.rules@));
            lemma_count_true_bound(lambdas(self.symbols@));
        }
        let mut progress = true;
        while progress
            invariant
                self.wf(),
                *self == (Lemon { symbols: self.symbols, ..*old(self) }),
                n == self.rules@.len(),
                orig == old(self).symbols@,
                self.symbols@.len() == orig.len(),
                forall|s: int|
                    0 <= s < orig.len() ==> #[trigger] self.symbols@[s] == (Symbol {
                        lambda: self.symbols@[s].lambda,
                        ..orig[s]
                    }),
                forall|q: int, k: int|
                    0 <= q < self.rules@.len() && 0 <= k < self.rules@[q].rhs@.len() ==> (
                    #[trigger] self.rules@[q].rhs@[k]).sym < orig.len(),
                lambda_supported(lambdas(self.symbols@), self.rules@),
                lambda_least(lambdas(self.symbols@), self.rules@),
                !progress ==> lambda_closed(lambdas(self.symbols@), self.rules@),
                count_true(lambdas(self.symbols@)) <= orig.len(),
            decreases
                    orig.len() - count_true(lambdas(self.symbols@)),
                    if progress {
                        1int
                    } else {
                        0int
                    },
        {
            progress = false;
            let ghost start_count = count_true(lambdas(self.symbols@));
            let mut r: usize = 0;
            while r < n
                invariant
                    r <= n,
                    self.wf(),
                    *self == (Lemon { symbols: self.symbols, ..*old(self) }),
                    n == self.rules@.len(),
                    orig == old(self).symbols@,
                    self.symbols@.len() == orig.len(),
                    forall|s: int|
                        0 <= s < orig.len() ==> #[trigger] self.symbols@[s] == (Symbol {
                            lambda: self.symbols@[s].lambda,
                            ..orig[s]
                        }),
                    forall|q: int, k: int|
                        0 <= q < self.rules@.len() && 0 <= k < self.rules@[q].rhs@.len() ==> (
                        #[trigger] self.rules@[q].rhs@[k]).sym < orig.len(),
                    lambda_supported(lambdas(self.symbols@), self.rules@),
                    lambda_least(lambdas(self.symbols@), self.rules@),
                    !progress ==> forall|q: int|
                        0 <= q < r ==> #[trigger] lambda_closed_at(
                            lambdas(self.symbols@),
                            self.rules@,
                            q,
                        ),
                    count_true(lambdas(self.symbols@)) <= orig.len(),
                    start_count <= count_true(lambdas(self.symbols@)),
                    progress ==> start_count < count_true(lambdas(self.symbols@)),
                decreases n - r,
            {
                proof {
                    lemma_rule_ok(self.symbols@, self.rules@, r as int);
                }
                let lhs = self.rules[r].lhs;
                if !self.symbols[lhs].lambda {
                    if self.rule_is_nullable(r) {
                        let ghost prev = self.symbols@;
                        self.symbols[lhs].lambda = true;
                        progress = true;
                        proof {
                            assert(lambdas(self.symbols@) =~= lambdas(prev).update(
                                lhs as int,
                                true,
                            ));
                            lemma_flag_lhs(lambdas(prev), self.rules@, r as int);
                            lemma_count_true_set(lambdas(prev), lhs as int);
                            lemma_count_true_bound(lambdas(self.symbols@));
                            assert forall|s: int| 0 <= s < prev.len() implies same_but_analysis(
                                prev[s],
                                #[trigger] self.symbols@[s],
                            ) by {}
                            assert forall|s: int|
                                0 <= s < prev.len() && (
                                #[trigger] self.symbols@[s]).lambda implies self.symbols@[s].kind is NonTerminal by {
                                lemma_symbol_ok(prev, self.rules@, s);
                            }
                            assert forall|s: int, t: usize|
                                0 <= s < prev.len() && #[trigger] self.symbols@[s].first_set@.contains(
                                    t,
                                ) implies t < prev.len() by {
                                lemma_symbol_ok(prev, self.rules@, s);
                            }
                            lemma_analysis_keeps_wf(prev, self.symbols@, self.rules@);
                        }
                    }
                }
                r += 1;
            }
        }
    }
}

/// Symbol `b` is symbol `a` but for its first set.
pub open spec fn same_but_first(a: Symbol, b: Symbol) -> bool {
    b == (Symbol { first_set: b.first_set, ..a })
}

/// The first sets hold indices of symbols only.
pub open spec fn firsts_bounded(symbols: Seq<Symbol>) -> bool {
    forall|s: int| 0 <= s < symbols.len() ==> below((#[trigger] symbols[s]).first_set@, symbols.len())
}

/// Consistent tables have first sets of symbol indices.
pub proof fn lemma_firsts_bounded(symbols: Seq<Symbol>, rules: Seq<Rule>)
    requires
        tables_wf(symbols, rules),
    ensures
        firsts_bounded(symbols),
{
    assert forall|s: int| 0 <= s < symbols.len() implies below(
        (#[trigger] symbols[s]).first_set@,
        symbols.len(),
    ) by {
        lemma_symbol_ok(symbols, rules, s);
    }
}

/// Changing first sets, within the indices of symbols, keeps the tables
/// consistent.
proof fn lemma_first_change_keeps_wf(before: Seq<Symbol>, after: Seq<Symbol>, rules: Seq<Rule>)
    requires
        tables_wf(before, rules),
        after.len() == before.len(),
        forall|s: int| 0 <= s < before.len() ==> same_but_first(before[s], #[trigger] after[s]),
        firsts_bounded(after),
    ensures
        tables_wf(after, rules),
{
    assert forall|s: int| 0 <= s < before.len() implies same_but_analysis(
        before[s],
        #[trigger] after[s],
    ) by {
        assert(same_but_first(before[s], after[s]));
    }
    assert forall|s: int|
        0 <= s < before.len() && (#[trigger] after[s]).lambda implies after[s].kind is NonTerminal by {
        lemma_symbol_ok(before, rules, s);
        assert(same_but_first(before[s], after[s]));
    }
    assert forall|s: int, t: usize|
        0 <= s < before.len() && #[trigger] after[s].first_set@.contains(t) implies t
        < before.len() by {
        assert(below(after[s].first_set@, after.len()));
    }
    lemma_analysis_keeps_wf(before, after, rules);
}

/// What a slot can begin with only grows when the sets grow.
proof fn lemma_slot_first_monotone(
    symbols: Seq<Symbol>,
    f: Seq<Set<usize>>,
    g: Seq<Set<usize>>,
    sym: int,
)
    requires
        0 <= sym < f.len(),
        sets_below(f, g),
    ensures
        slot_first(symbols, f, sym).subset_of(slot_first(symbols, g, sym)),
{
    assert(f[sym].subset_of(g[sym]));
}

/// Adding to the set of a rule's left-hand side what a slot can begin with,
/// where all slots before it are nullable, keeps the sets least.
proof fn lemma_add_slot_least(
    symbols: Seq<Symbol>,
    rules: Seq<Rule>,
    l: Seq<bool>,
    f: Seq<Set<usize>>,
    r: int,
    k: int,
)
    requires
        0 <= r < rules.len(),
        0 <= k < rules[r].rhs@.len(),
        rules[r].lhs < f.len(),
        rules[r].rhs@[k].sym < f.len(),
        prefix_nullable(l, rules[r].rhs@, k),
        first_least(symbols, rules, l, f),
    ensures
        first_least(
            symbols,
            rules,
            l,
            f.update(
                rules[r].lhs as int,
                f[rules[r].lhs as int].union(slot_first(symbols, f, rules[r].rhs@[k].sym as int)),
            ),
        ),
{
    let lhs = rules[r].lhs as int;
    let sym = rules[r].rhs@[k].sym as int;
    let after = f.update(lhs, f[lhs].union(slot_first(symbols, f, sym)));
    assert forall|g: Seq<Set<usize>>|
        g.len() == after.len() && #[trigger] first_closed(symbols, rules, l, g) implies sets_below(
        after,
        g,
    ) by {
        assert(sets_below(f, g));
        lemma_slot_first_monotone(symbols, f, g, sym);
        assert(first_closed_at(symbols, rules, l, g, r, k));
        assert forall|s: int| 0 <= s < after.len() implies (#[trigger] after[s]).subset_of(g[s]) by {
            assert(f[s].subset_of(g[s]));
        }
    }
}

impl Lemon {
    /// Adds to the first set of `lhs` what a slot holding `sym` can begin
    /// with, and says whether the set grew.
    fn add_slot_first(&mut self, lhs: usize, sym: usize) -> (grew: bool)
        requires
            old(self).wf(),
            old(self).is_numbered(),
            lhs < old(self).symbols@.len(),
            sym < old(self).symbols@.len(),
            lhs != sym,
        ensures
            final(self).wf(),
            final(self).is_numbered(),
            *final(self) == (Lemon { symbols: final(self).symbols, ..*old(self) }),
            final(self).symbols@.len() == old(self).symbols@.len(),
            forall|s: int|
                0 <= s < old(self).symbols@.len() ==> same_but_first(
                    old(self).symbols@[s],
                    #[trigger] final(self).symbols@[s],
                ),
            firsts(final(self).symbols@) == firsts(old(self).symbols@).update(
                lhs as int,
                old(self).symbols@[lhs as int].first_set@.union(
                    slot_first(old(self).symbols@, firsts(old(self).symbols@), sym as int),
                ),
            ),
            grew == (firsts(final(self).symbols@) != firsts(old(self).symbols@)),
    {
        let ghost orig = self.symbols@;
        let ghost add = slot_first(orig, firsts(orig), sym as int);
        proof {
            lemma_firsts_bounded(orig, self.rules@);
            lemma_symbol_ok(orig, self.rules@, sym as int);
            lemma_bounded_finite(orig[lhs as int].first_set@, orig.len());
            lemma_bounded_finite(orig[sym as int].first_set@, orig.len());
        }
        let mut grew = false;
        match self.symbols[sym].kind {
            SymbolKind::Terminal => {
                let t = self.symbols[sym].index;
                grew = insert_into(&mut self.symbols[lhs].first_set, t);
                proof {
                    assert(self.symbols@[lhs as int].first_set@ =~= orig[lhs as int].first_set@.union(
                        add,
                    ));
                }
            },
            SymbolKind::MultiTerminal => {
                let n = self.symbols[sym].sub_sym.len();
                let mut c: usize = 0;
                while c < n
                    invariant
                        c <= n,
                        lhs < orig.len(),
                        sym < orig.len(),
                        lhs != sym,
                        orig == old(self).symbols@,
                        self.symbols@.len() == orig.len(),
                        n == orig[sym as int].sub_sym@.len(),
                        orig[sym as int].kind is MultiTerminal,
                        symbol_ok(orig, self.rules@, sym as int),
                        numbered(orig, self.by_index@, self.nterminal, self.nsymbol),
                        *self == (Lemon { symbols: self.symbols, ..*old(self) }),
                        forall|s: int|
                            0 <= s < orig.len() ==> same_but_first(orig[s], #[trigger] self.symbols@[s]),
                        forall|s: int|
                            0 <= s < orig.len() && s != lhs ==> #[trigger] self.symbols@[s] == orig[s],
                        forall|t: usize|
                            self.symbols@[lhs as int].first_set@.contains(t) <==> (orig[lhs as int].first_set@.contains(
                                t,
                            ) || exists|k: int|
                                0 <= k < c && orig[(#[trigger] orig[sym as int].sub_sym@[k]) as int].index
                                    == t),
                        grew == (self.symbols@[lhs as int].first_set@ != orig[lhs as int].first_set@),
                    decreases n - c,
                {
                    let child = self.symbols[sym].sub_sym[c];
                    assert(orig[sym as int].sub_sym@[c as int] < orig.len());
                    let t = self.symbols[child].index;
                    let ghost prev = self.symbols@[lhs as int].first_set@;
                    let g = insert_into(&mut self.symbols[lhs].first_set, t);
                    grew = grew || g;
                    proof {
                        let cur = self.symbols@[lhs as int].first_set@;
                        assert forall|u: usize| cur.contains(u) <==> (orig[lhs as int].first_set@.contains(
                            u,
                        ) || exists|k: int|
                            0 <= k < c + 1 && orig[(#[trigger] orig[sym as int].sub_sym@[k]) as int].index
                                == u) by {
                            if cur.contains(u) {
                                if u == t {
                                    assert(orig[orig[sym as int].sub_sym@[c as int] as int].index == u);
                                }
                            }
                            if exists|k: int|
                                0 <= k < c + 1 && orig[(#[trigger] orig[sym as int].sub_sym@[k]) as int].index
                                    == u {
                                let k = choose|k: int|
                                    0 <= k < c + 1 && orig[(
                                    #[trigger] orig[sym as int].sub_sym@[k]) as int].index == u;
                                if k < c {
                                    assert(exists|k2: int|
                                        0 <= k2 < c && orig[(
                                        #[trigger] orig[sym as int].sub_sym@[k2]) as int].index == u);
                                    assert(prev.contains(u));
                                }
                            }
                        }
                        if !grew {
                            assert(cur =~= orig[lhs as int].first_set@);
                        } else {
                            if cur == orig[lhs as int].first_set@ {
                                assert(prev.subset_of(cur));
                                assert(orig[lhs as int].first_set@.subset_of(prev));
                                assert(prev =~= cur);
                            }
                        }
                    }
                    c += 1;
                }
                proof {
                    let cur = self.symbols@[lhs as int].first_set@;
                    let both = orig[lhs as int].first_set@.union(add);
                    assert(c == n);
                    assert forall|u: usize| cur.contains(u) <==> both.contains(u) by {
                        assert(add.contains(u) == is_child_index(orig, sym as int, u));
                        assert(both.contains(u) == (orig[lhs as int].first_set@.contains(u)
                            || add.contains(u)));
                        assert(cur.contains(u) <==> (orig[lhs as int].first_set@.contains(u)
                            || exists|k: int|
                            0 <= k < c && orig[(#[trigger] orig[sym as int].sub_sym@[k]) as int].index
                                == u));
                        if is_child_index(orig, sym as int, u) {
                            let k = choose|k: int|
                                0 <= k < orig[sym as int].sub_sym@.len() && orig[(
                                #[trigger] orig[sym as int].sub_sym@[k]) as int].index == u;
                            assert(exists|k2: int|
                                0 <= k2 < c && orig[(
                                #[trigger] orig[sym as int].sub_sym@[k2]) as int].index == u);
                        }
                    }
                    assert(cur =~= both);
                }
            },
            SymbolKind::NonTerminal => {
                let tmp = self.symbols[sym].first_set.clone();
                grew = union_into(&mut self.symbols[lhs].first_set, tmp);
            },
        }
        proof {
            assert(firsts(self.symbols@) =~= firsts(orig).update(
                lhs as int,
                orig[lhs as int].first_set@.union(add),
            ));
            assert(firsts_bounded(self.symbols@)) by {
                assert forall|s: int| 0 <= s < self.symbols@.len() implies below(
                    (#[trigger] self.symbols@[s]).first_set@,
                    self.symbols@.len(),
                ) by {
                    assert(below(orig[s].first_set@, orig.len()));
                    if s == lhs {
                        assert forall|u: usize| add.contains(u) implies u < orig.len() by {
                            if orig[sym as int].kind is MultiTerminal {
                                let k = choose|k: int|
                                    0 <= k < orig[sym as int].sub_sym@.len() && orig[(
                                    #[trigger] orig[sym as int].sub_sym@[k]) as int].index == u;
                                assert(orig[sym as int].sub_sym@[k] < orig.len());
                            } else if orig[sym as int].kind is NonTerminal {
                                assert(below(orig[sym as int].first_set@, orig.len()));
                            }
                        }
                    }
                }
            }
            lemma_first_change_keeps_wf(orig, self.symbols@, self.rules@);
            assert forall|x: int| 0 <= x < orig.len() implies (#[trigger] self.symbols@[x]).kind
                == orig[x].kind && self.symbols@[x].index == orig[x].index by {
                assert(same_but_first(orig[x], self.symbols@[x]));
            }
            lemma_numbered_kept(orig, self.symbols@, self.by_index@, self.nterminal, self.nsymbol);
            if grew {
                assert(firsts(self.symbols@)[lhs as int] != firsts(orig)[lhs as int]);
            } else {
                assert(firsts(self.symbols@) =~= firsts(orig));
            }
        }
        grew
    }
}

/// What a slot can begin with does not depend on the first sets stored with
/// the symbols, only on the sets given.
proof fn lemma_slot_first_shape(a: Seq<Symbol>, b: Seq<Symbol>, f: Seq<Set<usize>>, sym: int)
    requires
        a.len() == b.len(),
        0 <= sym < a.len(),
        forall|s: int| 0 <= s < a.len() ==> same_but_first(a[s], #[trigger] b[s]),
        forall|k: int|
            0 <= k < a[sym].sub_sym@.len() ==> (#[trigger] a[sym].sub_sym@[k]) < a.len(),
    ensures
        slot_first(a, f, sym) == slot_first(b, f, sym),
{
    assert(same_but_first(a[sym], b[sym]));
    if a[sym].kind is MultiTerminal {
        assert forall|t: usize| is_child_index(a, sym, t) <==> is_child_index(b, sym, t) by {
            if is_child_index(a, sym, t) {
                let k = choose|k: int|
                    0 <= k < a[sym].sub_sym@.len() && a[(#[trigger] a[sym].sub_sym@[k]) as int].index
                        == t;
                assert(same_but_first(a[a[sym].sub_sym@[k] as int], b[a[sym].sub_sym@[k] as int]));
                assert(b[(b[sym].sub_sym@[k]) as int].index == t);
            }
            if is_child_index(b, sym, t) {
                let k = choose|k: int|
                    0 <= k < b[sym].sub_sym@.len() && b[(#[trigger] b[sym].sub_sym@[k]) as int].index
                        == t;
                assert(same_but_first(a[a[sym].sub_sym@[k] as int], b[a[sym].sub_sym@[k] as int]));
                assert(a[(a[sym].sub_sym@[k]) as int].index == t);
            }
        }
        assert(slot_first(a, f, sym) =~= slot_first(b, f, sym));
    }
}

impl Lemon {
    /// Adds to the first set of the left-hand side of rule `r` what the rule's
    /// slots can begin with, up to and including the first slot that is not
    /// nullable, and says whether the set grew.
    fn first_of_rule(&mut self, r: usize, Ghost(shape): Ghost<Seq<Symbol>>) -> (grew: bool)
        requires
            old(self).wf(),
            old(self).is_numbered(),
            r < old(self).rules@.len(),
            shape.len() == old(self).symbols@.len(),
            forall|s: int|
                0 <= s < shape.len() ==> same_but_first(shape[s], #[trigger] old(self).symbols@[s]),
            first_least(
                shape,
                old(self).rules@,
                lambdas(shape),
                firsts(old(self).symbols@),
            ),
        ensures
            final(self).wf(),
            final(self).is_numbered(),
            *final(self) == (Lemon { symbols: final(self).symbols, ..*old(self) }),
            final(self).symbols@.len() == old(self).symbols@.len(),
            forall|s: int|
                0 <= s < shape.len() ==> same_but_first(shape[s], #[trigger] final(self).symbols@[s]),
            first_least(shape, final(self).rules@, lambdas(shape), firsts(final(self).symbols@)),
            sets_below(firsts(old(self).symbols@), firsts(final(self).symbols@)),
            grew == (firsts(final(self).symbols@) != firsts(old(self).symbols@)),
            !grew ==> forall|k: int|
                0 <= k < final(self).rules@[r as int].rhs@.len() ==> #[trigger] first_closed_at(
                    shape,
                    final(self).rules@,
                    lambdas(shape),
                    firsts(final(self).symbols@),
                    r as int,
                    k,
                ),
    {
        proof {
            lemma_rule_ok(self.symbols@, self.rules@, r as int);
        }
        let ghost l = lambdas(shape);
        let ghost rules = self.rules@;
        let ghost f0 = firsts(self.symbols@);
        let lhs = self.rules[r].lhs;
        let n = self.rules[r].rhs.len();
        let mut grew = false;
        let mut stop = false;
        let mut k: usize = 0;
        while k < n && !stop
            invariant
                k <= n,
                self.wf(),
                self.is_numbered(),
                *self == (Lemon { symbols: self.symbols, ..*old(self) }),
                rules == self.rules@,
                r < rules.len(),
                n == rules[r as int].rhs@.len(),
                lhs == rules[r as int].lhs,
                lhs < shape.len(),
                forall|x: int| 0 <= x < n ==> (#[trigger] rules[r as int].rhs@[x]).sym < shape.len(),
                l == lambdas(shape),
                f0 == firsts(old(self).symbols@),
                f0.len() == shape.len(),
                shape.len() == self.symbols@.len(),
                forall|s: int|
                    0 <= s < shape.len() ==> same_but_first(shape[s], #[trigger] self.symbols@[s]),
                first_least(shape, rules, l, firsts(self.symbols@)),
                sets_below(f0, firsts(self.symbols@)),
                grew == (firsts(self.symbols@) != f0),
                !stop ==> prefix_nullable(l, rules[r as int].rhs@, k as int),
                stop ==> k > 0 && !l[rules[r as int].rhs@[k - 1].sym as int],
                !grew ==> forall|x: int|
                    0 <= x < k ==> #[trigger] first_closed_at(
                        shape,
                        rules,
                        l,
                        firsts(self.symbols@),
                        r as int,
                        x,
                    ),
            decreases n - k,
        {
            let sym = self.rules[r].rhs[k].sym;
            assert(rules[r as int].rhs@[k as int].sym < shape.len());
            let ghost before = self.symbols@;
            let ghost f = firsts(before);
            proof {
                assert(same_but_first(shape[sym as int], before[sym as int]));
                assert(same_but_first(shape[lhs as int], before[lhs as int]));
                lemma_symbol_ok(before, rules, sym as int);
                lemma_rule_ok(before, rules, r as int);
            }
            if sym == lhs {
                if !self.symbols[lhs].lambda {
                    stop = true;
                }
                proof {
                    assert(slot_first(shape, f, sym as int) == f[lhs as int]);
                }
            } else {
                let g = self.add_slot_first(lhs, sym);
                grew = grew || g;
                if !self.symbols[sym].lambda {
                    stop = true;
                }
                proof {
                    lemma_slot_first_shape(shape, before, f, sym as int);
                    lemma_add_slot_least(shape, rules, l, f, r as int, k as int);
                    let fa = firsts(self.symbols@);
                    assert forall|s: int| 0 <= s < shape.len() implies same_but_first(
                        shape[s],
                        #[trigger] self.symbols@[s],
                    ) by {
                        assert(same_but_first(shape[s], before[s]));
                        assert(same_but_first(before[s], self.symbols@[s]));
                    }
                    assert(f0.len() == shape.len() && f.len() == shape.len() && fa.len()
                        == shape.len());
                    assert(sets_below(f0, fa)) by {
                        assert forall|s: int| 0 <= s < f0.len() implies (#[trigger] f0[s]).subset_of(
                            fa[s],
                        ) by {
                            assert(f0[s].subset_of(f[s]));
                            assert(f[s].subset_of(fa[s]));
                        }
                    }
                    if !grew {
                        assert(fa == f);
                        assert(slot_first(shape, f, sym as int).subset_of(f[lhs as int])) by {
                            assert(fa[lhs as int] == f[lhs as int].union(
                                slot_first(shape, f, sym as int),
                            ));
                        }
                    } else {
                        if fa == f0 {
                            assert(f =~= f0) by {
                                assert forall|s: int| 0 <= s < f.len() implies f[s] =~= f0[s] by {
                                    assert(f0[s].subset_of(f[s]));
                                    assert(f[s].subset_of(fa[s]));
                                }
                            }
                        }
                    }
                }
            }
            proof {
                assert(same_but_first(shape[sym as int], self.symbols@[sym as int]));
                assert(l[sym as int] == self.symbols@[sym as int].lambda);
                if !stop {
                    assert forall|x: int| 0 <= x < k + 1 implies l[(
                    #[trigger] rules[r as int].rhs@[x]).sym as int] by {}
                }
            }
            k += 1;
        }
        proof {
            if !grew {
                assert forall|x: int| 0 <= x < n implies #[trigger] first_closed_at(
                    shape,
                    rules,
                    l,
                    firsts(self.symbols@),
                    r as int,
                    x,
                ) by {
                    if x >= k {
                        assert(stop);
                        if prefix_nullable(l, rules[r as int].rhs@, x) {
                            assert(l[rules[r as int].rhs@[k - 1].sym as int]);
                        }
                    }
                }
            }
        }
        grew
    }

    /// Computes the first sets of the nonterminals.
    pub fn find_firsts(&mut self)
        requires
            old(self).wf(),
            old(self).is_numbered(),
            forall|s: int|
                0 <= s < old(self).symbols@.len() ==> (#[trigger] old(self).symbols@[s]).first_set@
                    == Set::<usize>::empty(),
        ensures
            final(self).wf(),
            final(self).is_numbered(),
            *final(self) == (Lemon { symbols: final(self).symbols, ..*old(self) }),
            final(self).symbols@.len() == old(self).symbols@.len(),
            forall|s: int|
                0 <= s < old(self).symbols@.len() ==> same_but_first(
                    old(self).symbols@[s],
                    #[trigger] final(self).symbols@[s],
                ),
            is_first(
                old(self).symbols@,
                final(self).rules@,
                lambdas(old(self).symbols@),
                firsts(final(self).symbols@),
            ),
    {
        let ghost shape = self.symbols@;
        let ghost l = lambdas(shape);
        let n = self.rules.len();
        let ghost cap = shape.len() * shape.len();
        proof {
            assert(first_least(shape, self.rules@, l, firsts(shape))) by {
                assert forall|g: Seq<Set<usize>>|
                    g.len() == firsts(shape).len() && #[trigger] first_closed(
                        shape,
                        self.rules@,
                        l,
                        g,
                    ) implies sets_below(firsts(shape), g) by {}
            }
            lemma_firsts_bounded(shape, self.rules@);
            lemma_firsts_total(shape);
        }
        let mut progress = true;
        while progress
            invariant
                self.wf(),
                self.is_numbered(),
                *self == (Lemon { symbols: self.symbols, ..*old(self) }),
                n == self.rules@.len(),
                shape == old(self).symbols@,
                l == lambdas(shape),
                cap == shape.len() * shape.len(),
                shape.len() == self.symbols@.len(),
                forall|s: int|
                    0 <= s < shape.len() ==> same_but_first(shape[s], #[trigger] self.symbols@[s]),
                first_least(shape, self.rules@, l, firsts(self.symbols@)),
                !progress ==> first_closed(shape, self.rules@, l, firsts(self.symbols@)),
                total_len(firsts(self.symbols@)) <= cap,
            decreases cap - total_len(firsts(self.symbols@)), if progress {
                    1int
                } else {
                    0int
                },
        {
            progress = false;
            let ghost start_total = total_len(firsts(self.symbols@));
            let mut r: usize = 0;
            while r < n
                invariant
                    r <= n,
                    self.wf(),
                    self.is_numbered(),
                    *self == (Lemon { symbols: self.symbols, ..*old(self) }),
                    n == self.rules@.len(),
                    shape == old(self).symbols@,
                    l == lambdas(shape),
                    cap == shape.len() * shape.len(),
                    shape.len() == self.symbols@.len(),
                    forall|s: int|
                        0 <= s < shape.len() ==> same_but_first(shape[s], #[trigger] self.symbols@[s]),
                    first_least(shape, self.rules@, l, firsts(self.symbols@)),
                    !progress ==> forall|q: int, k: int|
                        0 <= q < r && 0 <= k < self.rules@[q].rhs@.len() ==> #[trigger] first_closed_at(
                            shape,
                            self.rules@,
                            l,
                            firsts(self.symbols@),
                            q,
                            k,
                        ),
                    total_len(firsts(self.symbols@)) <= cap,
                    start_total <= total_len(firsts(self.symbols@)),
                    progress ==> start_total < total_len(firsts(self.symbols@)),
                decreases n - r,
            {
                let ghost before = firsts(self.symbols@);
                let g = self.first_of_rule(r, Ghost(shape));
                progress = progress || g;
                proof {
                    let after = firsts(self.symbols@);
                    lemma_firsts_bounded(self.symbols@, self.rules@);
                    lemma_firsts_total(self.symbols@);
                    assert forall|i: int| 0 <= i < after.len() implies (#[trigger] after[i]).finite() by {
                        lemma_bounded_finite(self.symbols@[i].first_set@, self.symbols@.len());
                    }
                    lemma_total_len_mono(before, after);
                }
                r += 1;
            }
        }
    }

    /// Finds the nonterminals that can derive the empty string, and then what
    /// each nonterminal can begin with.
    pub fn find_first_sets(&mut self)
        requires
            old(self).wf(),
            old(self).is_numbered(),
            unanalyzed(old(self).symbols@),
        ensures
            final(self).wf(),
            final(self).is_numbered(),
            *final(self) == (Lemon { symbols: final(self).symbols, ..*old(self) }),
            final(self).symbols@.len() == old(self).symbols@.len(),
            forall|s: int|
                0 <= s < old(self).symbols@.len() ==> same_but_analysis(
                    old(self).symbols@[s],
                    #[trigger] final(self).symbols@[s],
                ),
            is_nullable(lambdas(final(self).symbols@), final(self).rules@),
            is_first(
                final(self).symbols@,
                final(self).rules@,
                lambdas(final(self).symbols@),
                firsts(final(self).symbols@),
            ),
    {
        self.find_lambdas();
        let ghost mid = self.symbols@;
        proof {
            assert forall|s: int| 0 <= s < mid.len() implies same_but_analysis(
                old(self).symbols@[s],
                #[trigger] mid[s],
            ) by {}
            assert forall|s: int| 0 <= s < mid.len() implies (#[trigger] mid[s]).kind == old(self).symbols@[s].kind && mid[s].index == old(self).symbols@[s].index by {
                assert(same_but_analysis(old(self).symbols@[s], mid[s]));
            }
            lemma_numbered_kept(
                old(self).symbols@,
                mid,
                self.by_index@,
                self.nterminal,
                self.nsymbol,
            );
        }
        self.find_firsts();
        proof {
            let fin = self.symbols@;
            assert forall|s: int| 0 <= s < mid.len() implies same_but_analysis(
                old(self).symbols@[s],
                #[trigger] fin[s],
            ) by {
                assert(same_but_first(mid[s], fin[s]));
            }
            assert(lambdas(fin) =~= lambdas(mid)) by {
                assert forall|s: int| 0 <= s < mid.len() implies lambdas(fin)[s] == lambdas(mid)[s] by {
                    assert(same_but_first(mid[s], fin[s]));
                }
            }
            lemma_rhs_in_range(mid, self.rules@);
            lemma_is_first_shape(mid, fin, self.rules@, lambdas(mid), firsts(fin));
        }
    }
}

/// First sets of symbol indices have a total of at most the square of the
/// number of symbols.
proof fn lemma_firsts_total(symbols: Seq<Symbol>)
    requires
        firsts_bounded(symbols),
    ensures
        total_len(firsts(symbols)) <= symbols.len() * symbols.len(),
{
    let f = firsts(symbols);
    assert forall|i: int| 0 <= i < f.len() implies below(#[trigger] f[i], symbols.len()) by {
        assert(below(symbols[i].first_set@, symbols.len()));
    }
    lemma_total_len_bound(f, symbols.len());
}

/// Being the first sets does not depend on the first sets stored with the
/// symbols.
proof fn lemma_is_first_shape(
    a: Seq<Symbol>,
    b: Seq<Symbol>,
    rules: Seq<Rule>,
    l: Seq<bool>,
    f: Seq<Set<usize>>,
)
    requires
        a.len() == b.len(),
        f.len() == a.len(),
        forall|s: int| 0 <= s < a.len() ==> same_but_first(a[s], #[trigger] b[s]),
        tables_wf(a, rules),
        is_first(a, rules, l, f),
    ensures
        is_first(b, rules, l, f),
{
    lemma_rhs_in_range(a, rules);
    assert forall|g: Seq<Set<usize>>, sym: int| 0 <= sym < a.len() implies #[trigger] slot_first(
        a,
        g,
        sym,
    ) == slot_first(b, g, sym) by {
        lemma_symbol_ok(a, rules, sym);
        lemma_slot_first_shape(a, b, g, sym);
    }
    assert forall|g: Seq<Set<usize>>, r: int, k: int|
        0 <= r < rules.len() && 0 <= k < rules[r].rhs@.len() implies (#[trigger] first_closed_at(
        a,
        rules,
        l,
        g,
        r,
        k,
    ) == first_closed_at(b, rules, l, g, r, k)) by {
        let sym = rules[r].rhs@[k].sym as int;
        assert(slot_first(a, g, sym) == slot_first(b, g, sym));
    }
    assert forall|g: Seq<Set<usize>>| #[trigger]
        first_closed(a, rules, l, g) == first_closed(b, rules, l, g) by {
        if first_closed(a, rules, l, g) {
            assert forall|r: int, k: int|
                0 <= r < rules.len() && 0 <= k < rules[r].rhs@.len() implies #[trigger] first_closed_at(
                b,
                rules,
                l,
                g,
                r,
                k,
            ) by {
                assert(first_closed_at(a, rules, l, g, r, k));
            }
        }
        if first_closed(b, rules, l, g) {
            assert forall|r: int, k: int|
                0 <= r < rules.len() && 0 <= k < rules[r].rhs@.len() implies #[trigger] first_closed_at(
                a,
                rules,
                l,
                g,
                r,
                k,
            ) by {
                assert(first_closed_at(b, rules, l, g, r, k));
            }
        }
    }
    assert forall|g: Seq<Set<usize>>|
        g.len() == f.len() && #[trigger] first_closed(b, rules, l, g) implies sets_below(f, g) by {
        assert(first_closed(a, rules, l, g) == first_closed(b, rules, l, g));
    }
}

/// The numbering depends on the kinds and indices of the symbols only.
pub proof fn lemma_numbered_kept(
    before: Seq<Symbol>,
    after: Seq<Symbol>,
    by_index: Seq<usize>,
    nterminal: usize,
    nsymbol: usize,
)
    requires
        numbered(before, by_index, nterminal, nsymbol),
        after.len() == before.len(),
        forall|s: int|
            0 <= s < before.len() ==> (#[trigger] after[s]).kind == before[s].kind && after[s].index
                == before[s].index,
    ensures
        numbered(after, by_index, nterminal, nsymbol),
{
    assert(crate::prepare::kind_keys(after) =~= crate::prepare::kind_keys(before));
    assert forall|i: int| 0 <= i < by_index.len() implies after[#[trigger] by_index[i] as int].index
        == i by {
        assert(after[by_index[i] as int].index == before[by_index[i] as int].index);
    }
    assert forall|s: int| 0 <= s < after.len() implies ((#[trigger] after[s]).kind is Terminal
        <==> after[s].index < nterminal) by {
        assert(before[s].kind is Terminal <==> before[s].index < nterminal);
    }
    assert forall|s: int| 0 <= s < after.len() implies ((#[trigger] after[s]).kind is MultiTerminal
        <==> after[s].index > nsymbol) by {
        assert(before[s].kind is MultiTerminal <==> before[s].index > nsymbol);
    }
    assert forall|s: int| 0 <= s < after.len() implies (#[trigger] after[s]).index < after.len() by {
        assert(before[s].index < before.len());
    }
}

/// Every slot of every rule holds a symbol of the table.
pub proof fn lemma_rhs_in_range(symbols: Seq<Symbol>, rules: Seq<Rule>)
    requires
        tables_wf(symbols, rules),
    ensures
        forall|q: int, k: int|
            0 <= q < rules.len() && 0 <= k < rules[q].rhs@.len() ==> (#[trigger] rules[q].rhs@[k]).sym
                < symbols.len(),
        forall|q: int| 0 <= q < rules.len() ==> (#[trigger] rules[q]).lhs < symbols.len(),
{
    assert forall|q: int, k: int|
        0 <= q < rules.len() && 0 <= k < rules[q].rhs@.len() implies (#[trigger] rules[q].rhs@[k]).sym
        < symbols.len() by {
        lemma_rule_ok(symbols, rules, q);
    }
    assert forall|q: int| 0 <= q < rules.len() implies (#[trigger] rules[q]).lhs < symbols.len() by {
        lemma_rule_ok(symbols, rules, q);
    }
}

/// Being the nullable flags depends on the sides of the rules only.
pub proof fn lemma_nullable_same_sides(l: Seq<bool>, a: Seq<Rule>, b: Seq<Rule>)
    requires
        a.len() == b.len(),
        forall|r: int| 0 <= r < a.len() ==> (#[trigger] b[r]).lhs == a[r].lhs && b[r].rhs == a[r].rhs,
        is_nullable(l, a),
    ensures
        is_nullable(l, b),
{
    assert forall|m: Seq<bool>| #[trigger] lambda_closed(m, a) == lambda_closed(m, b) by {
        if lambda_closed(m, a) {
            assert forall|r: int| 0 <= r < b.len() implies #[trigger] lambda_closed_at(m, b, r) by {
                assert(lambda_closed_at(m, a, r));
            }
        }
        if lambda_closed(m, b) {
            assert forall|r: int| 0 <= r < a.len() implies #[trigger] lambda_closed_at(m, a, r) by {
                assert(lambda_closed_at(m, b, r));
            }
        }
    }
    assert(lambda_closed(l, a) == lambda_closed(l, b));
    assert forall|s: int| 0 <= s < l.len() && l[s] implies #[trigger] has_nullable_rule(l, b, s) by {
        assert(has_nullable_rule(l, a, s));
        let w = choose|w: int|
            0 <= w < a.len() && (#[trigger] a[w]).lhs == s && rule_nullable(l, a[w]);
        assert(b[w].lhs == s && rule_nullable(l, b[w]));
    }
    assert forall|m: Seq<bool>|
        m.len() == l.len() && #[trigger] lambda_closed(m, b) implies flags_below(l, m) by {
        assert(lambda_closed(m, a) == lambda_closed(m, b));
    }
}

/// Symbols `b` have the shape of symbols `a`: the same kinds, indices and
/// alternatives.
pub open spec fn same_shape(a: Seq<Symbol>, b: Seq<Symbol>) -> bool {
    &&& a.len() == b.len()
    &&& forall|s: int|
        0 <= s < a.len() ==> (#[trigger] b[s]).kind == a[s].kind && b[s].index == a[s].index
            && b[s].sub_sym == a[s].sub_sym
}

/// Being the first sets depends on the shape of the symbols and the sides of
/// the rules only.
pub proof fn lemma_first_same_shape(
    sa: Seq<Symbol>,
    sb: Seq<Symbol>,
    ra: Seq<Rule>,
    rb: Seq<Rule>,
    l: Seq<bool>,
    f: Seq<Set<usize>>,
)
    requires
        same_shape(sa, sb),
        ra.len() == rb.len(),
        forall|r: int|
            0 <= r < ra.len() ==> (#[trigger] rb[r]).lhs == ra[r].lhs && rb[r].rhs == ra[r].rhs,
        forall|q: int, k: int|
            0 <= q < ra.len() && 0 <= k < ra[q].rhs@.len() ==> (#[trigger] ra[q].rhs@[k]).sym
                < sa.len(),
        forall|s: int, k: int|
            0 <= s < sa.len() && 0 <= k < sa[s].sub_sym@.len() ==> (#[trigger] sa[s].sub_sym@[k])
                < sa.len(),
        is_first(sa, ra, l, f),
    ensures
        is_first(sb, rb, l, f),
{
    assert forall|g: Seq<Set<usize>>, sym: int| 0 <= sym < sa.len() implies #[trigger] slot_first(
        sa,
        g,
        sym,
    ) == slot_first(sb, g, sym) by {
        assert(sb[sym].kind == sa[sym].kind);
        if sa[sym].kind is MultiTerminal {
            assert forall|t: usize| is_child_index(sa, sym, t) <==> is_child_index(sb, sym, t) by {
                if is_child_index(sa, sym, t) {
                    let k = choose|k: int|
                        0 <= k < sa[sym].sub_sym@.len() && sa[(#[trigger] sa[sym].sub_sym@[k]) as int].index
                            == t;
                    assert(sb[(sb[sym].sub_sym@[k]) as int].index == t);
                }
                if is_child_index(sb, sym, t) {
                    let k = choose|k: int|
                        0 <= k < sb[sym].sub_sym@.len() && sb[(#[trigger] sb[sym].sub_sym@[k]) as int].index
                            == t;
                    assert(sa[sym].sub_sym@[k] < sa.len());
                    assert(sa[(sa[sym].sub_sym@[k]) as int].index == t);
                }
            }
            assert(slot_first(sa, g, sym) =~= slot_first(sb, g, sym));
        }
    }
    assert forall|g: Seq<Set<usize>>, r: int, k: int|
        0 <= r < ra.len() && 0 <= k < ra[r].rhs@.len() implies (#[trigger] first_closed_at(
        sa,
        ra,
        l,
        g,
        r,
        k,
    ) == first_closed_at(sb, rb, l, g, r, k)) by {
        let sym = ra[r].rhs@[k].sym as int;
        assert(slot_first(sa, g, sym) == slot_first(sb, g, sym));
    }
    assert forall|g: Seq<Set<usize>>| #[trigger]
        first_closed(sa, ra, l, g) == first_closed(sb, rb, l, g) by {
        if first_closed(sa, ra, l, g) {
            assert forall|r: int, k: int|
                0 <= r < rb.len() && 0 <= k < rb[r].rhs@.len() implies #[trigger] first_closed_at(
                sb,
                rb,
                l,
                g,
                r,
                k,
            ) by {
                assert(first_closed_at(sa, ra, l, g, r, k));
            }
        }
        if first_closed(sb, rb, l, g) {
            assert forall|r: int, k: int|
                0 <= r < ra.len() && 0 <= k < ra[r].rhs@.len() implies #[trigger] first_closed_at(
                sa,
                ra,
                l,
                g,
                r,
                k,
            ) by {
                assert(first_closed_at(sb, rb, l, g, r, k));
            }
        }
    }
    assert forall|g: Seq<Set<usize>>|
        g.len() == f.len() && #[trigger] first_closed(sb, rb, l, g) implies sets_below(f, g) by {
        assert(first_closed(sa, ra, l, g) == first_closed(sb, rb, l, g));
    }
}

} // verus!
