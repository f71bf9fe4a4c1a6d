//! The actions of the states: reduces from follow sets, the accepting action,
//! the order of actions, and the resolution of conflicts.

use crate::automaton::{
    action_ok, lemma_config_ok, lemma_rules_marked, lemma_state_ok, lemma_states_changed, state_ok,
};
use crate::config::{Action, Config, EAction, State};
use crate::error::{Error, Fault};
use crate::grammar::{lemma_marked_keeps_wf, lemma_rule_ok, rule_marked, Lemon};
use crate::order::{is_sorted_order, sorted_order, Key3};
use crate::precedence::Precedence;
use crate::resolve::{resolution, resolve};
use crate::symbol::{Rule, Symbol};
use vstd::prelude::*;

verus! {

/// The precedence of the symbol named, if one is named and has one.
pub open spec fn precedence_of(symbols: Seq<Symbol>, p: Option<usize>) -> Option<Precedence> {
    match p {
        Some(s) => symbols[s as int].assoc,
        None => None,
    }
}

/// The precedence that an action brings to a conflict: a shift that of its
/// lookahead, a reduce that of its rule.
pub open spec fn action_precedence(symbols: Seq<Symbol>, rules: Seq<Rule>, a: Action) -> Option<
    Precedence,
> {
    match a.x {
        EAction::Shift(_) => symbols[a.sp as int].assoc,
        EAction::Reduce(r) => precedence_of(symbols, rules[r as int].prec_sym),
        _ => None,
    }
}

/// Where a kind of action stands among actions on the same lookahead: shifts
/// first, then the accepting action, then reduces, then all others.
pub open spec fn action_rank(x: EAction) -> usize {
    match x {
        EAction::Shift(_) => 0,
        EAction::Accept => 1,
        EAction::Reduce(_) => 2,
        _ => 3,
    }
}

/// The numbers of the states.
pub open spec fn state_nums(states: Seq<State>) -> Seq<usize> {
    Seq::new(states.len(), |s: int| states[s].state_num)
}

/// What orders two actions of the same kind: for shifts the number of the
/// state shifted to, for reduces the rule.
pub open spec fn action_sub(nums: Seq<usize>, x: EAction) -> usize {
    match x {
        EAction::Shift(t) => nums[t as int],
        EAction::Reduce(r) => r,
        _ => 0,
    }
}

/// The key by which actions are ordered: the index of the lookahead, then
/// the kind of action, then the state or rule.
pub open spec fn action_key(symbols: Seq<Symbol>, nums: Seq<usize>, a: Action) -> Key3 {
    Key3 { k0: symbols[a.sp as int].index, k1: action_rank(a.x), k2: action_sub(nums, a.x) }
}

/// The keys of a list of actions.
pub open spec fn action_keys(symbols: Seq<Symbol>, nums: Seq<usize>, ap: Seq<Action>) -> Seq<Key3> {
    Seq::new(ap.len(), |i: int| action_key(symbols, nums, ap[i]))
}

/// `after` holds the actions of `before` in the order that `order` gives.
pub open spec fn rearranged(before: Seq<Action>, order: Seq<usize>, after: Seq<Action>) -> bool {
    &&& after.len() == before.len()
    &&& order.len() == before.len()
    &&& forall|i: int| 0 <= i < after.len() ==> #[trigger] after[i] == before[order[i] as int]
}

/// `after` holds the actions of `before` ordered by key, actions of equal
/// key in the order they had.
pub open spec fn sorted_actions(
    symbols: Seq<Symbol>,
    nums: Seq<usize>,
    before: Seq<Action>,
    after: Seq<Action>,
) -> bool {
    exists|order: Seq<usize>| #[trigger]
        is_sorted_order(action_keys(symbols, nums, before), order) && rearranged(
            before,
            order,
            after,
        )
}

/// State `b` is state `a` but for its actions.
pub open spec fn same_but_actions(a: State, b: State) -> bool {
    b == (State { ap: b.ap, ..a })
}

/// Some state has an action that reduces by rule `r`.
pub open spec fn reduced_somewhere(states: Seq<State>, r: usize) -> bool {
    exists|s: int, k: int|
        0 <= s < states.len() && 0 <= k < states[s].ap@.len() && (#[trigger] states[s].ap@[k]).x
            == EAction::Reduce(r)
}

impl Lemon {
    /// The precedence of the symbol named, if one is named and has one.
    pub fn get_precedence(&self, p: Option<usize>) -> (r: Option<Precedence>)
        requires
            p matches Some(s) ==> s < self.symbols@.len(),
        ensures
            r == precedence_of(self.symbols@, p),
    {
        match p {
            Some(s) => self.symbols[s].assoc,
            None => None,
        }
    }

    /// The precedence that an action brings to a conflict.
    fn precedence_for(&self, a: &Action) -> (r: Option<Precedence>)
        requires
            self.wf(),
            action_ok(*a, self.symbols@.len(), self.states@.len(), self.rules@.len()),
        ensures
            r == action_precedence(self.symbols@, self.rules@, *a),
    {
        match a.x {
            EAction::Shift(_) => self.symbols[a.sp].assoc,
            EAction::Reduce(r) => {
                proof {
                    lemma_rule_ok(self.symbols@, self.rules@, r as int);
                }
                self.get_precedence(self.rules[r].prec_sym)
            },
            _ => None,
        }
    }

    /// Resolves two actions on the same lookahead, the first of which comes
    /// first in the order of actions, and says whether they are in conflict.
    pub fn resolve_conflict(&self, apx: &mut Action, apy: &mut Action) -> (err: bool)
        requires
            self.wf(),
            action_ok(*old(apx), self.symbols@.len(), self.states@.len(), self.rules@.len()),
            action_ok(*old(apy), self.symbols@.len(), self.states@.len(), self.rules@.len()),
        ensures
            final(apx).sp == old(apx).sp,
            final(apy).sp == old(apy).sp,
            (final(apx).x, final(apy).x, err) == resolution(
                action_precedence(self.symbols@, self.rules@, *old(apx)),
                action_precedence(self.symbols@, self.rules@, *old(apy)),
                old(apx).x,
                old(apy).x,
            ),
            action_ok(*final(apx), self.symbols@.len(), self.states@.len(), self.rules@.len()),
            action_ok(*final(apy), self.symbols@.len(), self.states@.len(), self.rules@.len()),
    {
        let px = self.precedence_for(apx);
        let py = self.precedence_for(apy);
        let (ax, ay, err) = resolve(px, py, apx.x, apy.x);
        apx.x = ax;
        apy.x = ay;
        err
    }

    /// The key by which an action is ordered.
    fn key_of(&self, a: &Action) -> (k: Key3)
        requires
            action_ok(*a, self.symbols@.len(), self.states@.len(), self.rules@.len()),
        ensures
            k == action_key(self.symbols@, state_nums(self.states@), *a),
    {
        let k0 = self.symbols[a.sp].index;
        match a.x {
            EAction::Shift(t) => Key3 { k0, k1: 0, k2: self.states[t].state_num },
            EAction::Accept => Key3 { k0, k1: 1, k2: 0 },
            EAction::Reduce(r) => Key3 { k0, k1: 2, k2: r },
            _ => Key3 { k0, k1: 3, k2: 0 },
        }
    }

    /// Replaces the actions of state `s`.
    pub fn set_actions(&mut self, s: usize, ap: Vec<Action>)
        requires
            old(self).built_wf(),
            s < old(self).states@.len(),
            forall|k: int|
                0 <= k < ap@.len() ==> action_ok(
                    #[trigger] ap@[k],
                    old(self).symbols@.len(),
                    old(self).states@.len(),
                    old(self).rules@.len(),
                ),
        ensures
            final(self).built_wf(),
            *final(self) == (Lemon { states: final(self).states, ..*old(self) }),
            final(self).states@.len() == old(self).states@.len(),
            forall|x: int|
                0 <= x < old(self).states@.len() && x != s ==> #[trigger] final(self).states@[x]
                    == old(self).states@[x],
            same_but_actions(old(self).states@[s as int], final(self).states@[s as int]),
            final(self).states@[s as int].ap@ == ap@,
    {
        let ghost before = self.states@;
        self.states[s].ap = ap;
        proof {
            let after = self.states@;
            let nsyms = self.symbols@.len();
            assert forall|x: int| 0 <= x < after.len() implies #[trigger] state_ok(
                after,
                self.configs@.len(),
                nsyms,
                self.rules@.len(),
                x,
            ) by {
                lemma_state_ok(self.configs@, before, self.rules@, nsyms, x);
            }
            lemma_states_changed(self.configs@, before, after, self.rules@, nsyms);
        }
    }

    /// A copy of the actions of state `s`.
    pub fn actions_of(&self, s: usize) -> (ap: Vec<Action>)
        requires
            s < self.states@.len(),
        ensures
            ap@ == self.states@[s as int].ap@,
    {
        let n = self.states[s].ap.len();
        let mut ap: Vec<Action> = Vec::new();
        let mut k: usize = 0;
        while k < n
            invariant
                k <= n,
                s < self.states@.len(),
                n == self.states@[s as int].ap@.len(),
                ap@ == self.states@[s as int].ap@.take(k as int),
            decreases n - k,
        {
            ap.push(self.states[s].ap[k]);
            assert(self.states@[s as int].ap@.take(k + 1) == self.states@[s as int].ap@.take(
                k as int,
            ).push(self.states@[s as int].ap@[k as int]));
            k += 1;
        }
        assert(self.states@[s as int].ap@.take(n as int) == self.states@[s as int].ap@);
        ap
    }

    /// Orders the actions of state `s` by lookahead, kind, and state or rule;
    /// actions that agree in all of these keep their order.
    pub fn sort_actions(&mut self, s: usize)
        requires
            old(self).built_wf(),
            s < old(self).states@.len(),
        ensures
            final(self).built_wf(),
            *final(self) == (Lemon { states: final(self).states, ..*old(self) }),
            final(self).states@.len() == old(self).states@.len(),
            forall|x: int|
                0 <= x < old(self).states@.len() && x != s ==> #[trigger] final(self).states@[x]
                    == old(self).states@[x],
            same_but_actions(old(self).states@[s as int], final(self).states@[s as int]),
            sorted_actions(
                old(self).symbols@,
                state_nums(old(self).states@),
                old(self).states@[s as int].ap@,
                final(self).states@[s as int].ap@,
            ),
            state_nums(final(self).states@) == state_nums(old(self).states@),
    {
        proof {
            lemma_state_ok(
                self.configs@,
                self.states@,
                self.rules@,
                self.symbols@.len(),
                s as int,
            );
        }
        let ghost before = self.states@[s as int].ap@;
        let n = self.states[s].ap.len();
        let mut keys: Vec<Key3> = Vec::new();
        let mut k: usize = 0;
        while k < n
            invariant
                k <= n,
                s < self.states@.len(),
                before == self.states@[s as int].ap@,
                n == before.len(),
                state_ok(
                    self.states@,
                    self.configs@.len(),
                    self.symbols@.len(),
                    self.rules@.len(),
                    s as int,
                ),
                keys@.len() == k,
                forall|x: int|
                    0 <= x < k ==> #[trigger] keys@[x] == action_key(
                        self.symbols@,
                        state_nums(self.states@),
                        before[x],
                    ),
            decreases n - k,
        {
            let a = self.states[s].ap[k];
            assert(action_ok(
                before[k as int],
                self.symbols@.len(),
                self.states@.len(),
                self.rules@.len(),
            ));
            keys.push(self.key_of(&a));
            k += 1;
        }
        assert(keys@ =~= action_keys(self.symbols@, state_nums(self.states@), before));
        let ghost nums = state_nums(self.states@);
        let order = sorted_order(&keys);
        let mut sorted: Vec<Action> = Vec::new();
        let mut i: usize = 0;
        while i < n
            invariant
                i <= n,
                s < self.states@.len(),
                before == self.states@[s as int].ap@,
                n == before.len(),
                n == keys@.len(),
                is_sorted_order(keys@, order@),
                state_ok(
                    self.states@,
                    self.configs@.len(),
                    self.symbols@.len(),
                    self.rules@.len(),
                    s as int,
                ),
                sorted@.len() == i,
                forall|x: int| 0 <= x < i ==> #[trigger] sorted@[x] == before[order@[x] as int],
            decreases n - i,
        {
            sorted.push(self.states[s].ap[order[i]]);
            i += 1;
        }
        proof {
            assert forall|x: int| 0 <= x < sorted@.len() implies action_ok(
                #[trigger] sorted@[x],
                self.symbols@.len(),
                self.states@.len(),
                self.rules@.len(),
            ) by {
                assert(action_ok(
                    before[order@[x] as int],
                    self.symbols@.len(),
                    self.states@.len(),
                    self.rules@.len(),
                ));
            }
            assert(rearranged(before, order@, sorted@));
        }
        let ghost states_before = self.states@;
        self.set_actions(s, sorted);
        proof {
            assert(state_nums(self.states@) =~= nums) by {
                assert forall|x: int| 0 <= x < nums.len() implies state_nums(self.states@)[x]
                    == nums[x] by {
                    assert(same_but_actions(states_before[x], self.states@[x]) || self.states@[x]
                        == states_before[x]);
                }
            }
        }
    }
}

/// The actions are in the order of the indices of their lookaheads.
pub open spec fn lookahead_sorted(symbols: Seq<Symbol>, ap: Seq<Action>) -> bool {
    forall|a: int, b: int|
        0 <= a <= b < ap.len() ==> symbols[(#[trigger] ap[a]).sp as int].index <= symbols[(
        #[trigger] ap[b]).sp as int].index
}

/// Actions ordered by key are in the order of their lookaheads.
pub proof fn lemma_sorted_lookaheads(
    symbols: Seq<Symbol>,
    nums: Seq<usize>,
    before: Seq<Action>,
    after: Seq<Action>,
)
    requires
        sorted_actions(symbols, nums, before, after),
    ensures
        lookahead_sorted(symbols, after),
{
    let keys = action_keys(symbols, nums, before);
    let order = choose|order: Seq<usize>| #[trigger]
        is_sorted_order(keys, order) && rearranged(before, order, after);
    assert forall|a: int, b: int| 0 <= a <= b < after.len() implies symbols[(
    #[trigger] after[a]).sp as int].index <= symbols[(#[trigger] after[b]).sp as int].index by {
        if a < b {
            assert(crate::order::comes_before(keys, order[a] as int, order[b] as int));
            assert(keys[order[a] as int] == action_key(symbols, nums, before[order[a] as int]));
            assert(keys[order[b] as int] == action_key(symbols, nums, before[order[b] as int]));
        }
    }
}

/// The action marks an unresolved conflict.
pub open spec fn is_conflict(x: EAction) -> bool {
    x is SSConflict || x is SRConflict || x is RRConflict
}

/// The list has the action that reduces by `rule` on lookahead `sp`.
pub open spec fn has_reduce(ap: Seq<Action>, sp: usize, rule: usize) -> bool {
    exists|k: int| 0 <= k < ap.len() && #[trigger] ap[k] == (Action { sp, x: EAction::Reduce(rule) })
}

/// Configuration `c` has its mark at the end of its rule and the terminal of
/// index `j` in its follow set.
pub open spec fn reduces_on(configs: Seq<Config>, rules: Seq<Rule>, c: int, j: usize) -> bool {
    configs[c].dot == rules[configs[c].rule as int].rhs@.len() && configs[c].fws@.contains(j)
}

/// The `k`-th of the actions reduces by the rule of one of the configurations
/// listed, whose mark is at the end, on a terminal of its follow set.
pub open spec fn reduce_justified(
    configs: Seq<Config>,
    rules: Seq<Rule>,
    by_index: Seq<usize>,
    nterminal: usize,
    cfp: Seq<usize>,
    a: Action,
) -> bool {
    exists|i: int, j: int|
        0 <= i < cfp.len() && 0 <= j < nterminal && #[trigger] reduces_on(
            configs,
            rules,
            cfp[i] as int,
            j as usize,
        ) && a == (Action {
            sp: #[trigger] by_index[j],
            x: EAction::Reduce(configs[cfp[i] as int].rule),
        })
}

/// One of the actions is marked as in conflict.
pub open spec fn some_conflict(ap: Seq<Action>) -> bool {
    exists|k: int| 0 <= k < ap.len() && is_conflict((#[trigger] ap[k]).x)
}

/// The symbol that state `s` accepts on: the start symbol, in the first
/// state.
pub open spec fn accepts_in(start: Option<usize>, s: int) -> Option<usize> {
    if s == 0 {
        start
    } else {
        None
    }
}

/// `gathered` is `before` followed by the reduces that the configurations
/// listed ask for, each of them and nothing else, and then, where `accept`
/// names a symbol, by the accepting action on it.
pub open spec fn reduces_gathered(
    configs: Seq<Config>,
    rules: Seq<Rule>,
    by_index: Seq<usize>,
    nterminal: usize,
    cfp: Seq<usize>,
    before: Seq<Action>,
    gathered: Seq<Action>,
    accept: Option<usize>,
) -> bool {
    let last: int = if accept is Some {
        gathered.len() - 1
    } else {
        gathered.len() as int
    };
    &&& before.is_prefix_of(gathered)
    &&& before.len() <= last
    &&& forall|k: int|
        before.len() <= k < last ==> reduce_justified(
            configs,
            rules,
            by_index,
            nterminal,
            cfp,
            #[trigger] gathered[k],
        )
    &&& accept matches Some(sp) ==> gathered[last] == (Action { sp, x: EAction::Accept })
    &&& forall|i: int, j: int|
        0 <= i < cfp.len() && 0 <= j < nterminal && #[trigger] reduces_on(
            configs,
            rules,
            cfp[i] as int,
            j as usize,
        ) ==> has_reduce(gathered, by_index[j], configs[cfp[i] as int].rule)
}

/// `after` is `before` put in order, with the conflicts resolved.
pub open spec fn settled_from(
    symbols: Seq<Symbol>,
    nums: Seq<usize>,
    rules: Seq<Rule>,
    before: Seq<Action>,
    after: Seq<Action>,
) -> bool {
    exists|sorted: Seq<Action>| #[trigger]
        sorted_actions(symbols, nums, before, sorted) && after == resolved(symbols, rules, sorted)
}

/// The actions of state `s` in `states` are what the grammar `was` asks
/// for: the actions that the state had, with the reduces that its
/// configurations ask for and, in the first state, the accepting action;
/// put in order; with the conflicts resolved.
pub open spec fn actions_found(was: Lemon, states: Seq<State>, s: int) -> bool {
    exists|gathered: Seq<Action>|
        #[trigger] reduces_gathered(
            was.configs@,
            was.rules@,
            was.by_index@,
            was.nterminal,
            was.states@[s].cfp@,
            was.states@[s].ap@,
            gathered,
            accepts_in(was.start, s),
        ) && settled_from(
            was.symbols@,
            state_nums(was.states@),
            was.rules@,
            gathered,
            states[s].ap@,
        )
}

/// An action in conflict among actions put in order was in conflict before.
pub proof fn lemma_sorted_conflict(
    symbols: Seq<Symbol>,
    nums: Seq<usize>,
    before: Seq<Action>,
    after: Seq<Action>,
    k: int,
)
    requires
        sorted_actions(symbols, nums, before, after),
        0 <= k < after.len(),
        is_conflict(after[k].x),
    ensures
        some_conflict(before),
{
    let order = choose|order: Seq<usize>| #[trigger]
        is_sorted_order(action_keys(symbols, nums, before), order) && rearranged(before, order, after);
    assert(after[k] == before[order[k] as int]);
    assert(action_keys(symbols, nums, before).len() == before.len());
    assert(is_conflict(before[order[k] as int].x));
}

/// An action in conflict among the actions gathered was there before.
pub proof fn lemma_gathered_conflict(
    configs: Seq<Config>,
    rules: Seq<Rule>,
    by_index: Seq<usize>,
    nterminal: usize,
    cfp: Seq<usize>,
    before: Seq<Action>,
    gathered: Seq<Action>,
    accept: Option<usize>,
)
    requires
        reduces_gathered(configs, rules, by_index, nterminal, cfp, before, gathered, accept),
        some_conflict(gathered),
    ensures
        some_conflict(before),
{
    let k = choose|k: int| 0 <= k < gathered.len() && is_conflict((#[trigger] gathered[k]).x);
    if k < before.len() {
        assert(before[k] == gathered[k]);
    } else if accept is Some && k == gathered.len() - 1 {
    } else {
        assert(reduce_justified(configs, rules, by_index, nterminal, cfp, gathered[k]));
    }
}

impl Lemon {
    /// Adds to state `s`, for every configuration of it whose mark is at the
    /// end of its rule, a reduce by that rule on every terminal of the
    /// configuration's follow set.
    pub fn add_reduces(&mut self, s: usize)
        requires
            old(self).built_wf(),
            old(self).is_numbered(),
            s < old(self).states@.len(),
        ensures
            final(self).built_wf(),
            *final(self) == (Lemon { states: final(self).states, ..*old(self) }),
            final(self).states@.len() == old(self).states@.len(),
            forall|x: int|
                0 <= x < old(self).states@.len() && x != s ==> #[trigger] final(self).states@[x]
                    == old(self).states@[x],
            same_but_actions(old(self).states@[s as int], final(self).states@[s as int]),
            old(self).states@[s as int].ap@.is_prefix_of(final(self).states@[s as int].ap@),
            forall|k: int|
                old(self).states@[s as int].ap@.len() <= k < final(self).states@[s as int].ap@.len()
                    ==> reduce_justified(
                    final(self).configs@,
                    final(self).rules@,
                    final(self).by_index@,
                    final(self).nterminal,
                    final(self).states@[s as int].cfp@,
                    #[trigger] final(self).states@[s as int].ap@[k],
                ),
            forall|i: int, j: int|
                0 <= i < final(self).states@[s as int].cfp@.len() && 0 <= j < final(self).nterminal
                    && #[trigger] reduces_on(
                    final(self).configs@,
                    final(self).rules@,
                    final(self).states@[s as int].cfp@[i] as int,
                    j as usize,
                ) ==> has_reduce(
                    final(self).states@[s as int].ap@,
                    final(self).by_index@[j],
                    final(self).configs@[final(self).states@[s as int].cfp@[i] as int].rule,
                ),
    {
        proof {
            lemma_state_ok(
                self.configs@,
                self.states@,
                self.rules@,
                self.symbols@.len(),
                s as int,
            );
        }
        let ghost cfp = self.states@[s as int].cfp@;
        let ghost configs = self.configs@;
        let ghost rules = self.rules@;
        let ghost by_index = self.by_index@;
        let nterminal = self.nterminal;
        let n = self.states[s].cfp.len();
        let mut aps: Vec<Action> = Vec::new();
        let mut i: usize = 0;
        while i < n
            invariant
                i <= n,
                self.built_wf(),
                self.is_numbered(),
                *self == *old(self),
                s < self.states@.len(),
                cfp == self.states@[s as int].cfp@,
                configs == self.configs@,
                rules == self.rules@,
                by_index == self.by_index@,
                nterminal == self.nterminal,
                n == cfp.len(),
                forall|x: int| 0 <= x < n ==> (#[trigger] cfp[x]) < configs.len(),
                forall|k: int|
                    0 <= k < aps@.len() ==> action_ok(
                        #[trigger] aps@[k],
                        self.symbols@.len(),
                        self.states@.len(),
                        self.rules@.len(),
                    ),
                forall|k: int|
                    0 <= k < aps@.len() ==> reduce_justified(
                        configs,
                        rules,
                        by_index,
                        nterminal,
                        cfp,
                        #[trigger] aps@[k],
                    ),
                forall|x: int, j: int|
                    0 <= x < i && 0 <= j < nterminal && #[trigger] reduces_on(
                        configs,
                        rules,
                        cfp[x] as int,
                        j as usize,
                    ) ==> has_reduce(aps@, by_index[j], configs[cfp[x] as int].rule),
            decreases n - i,
        {
            let c = self.states[s].cfp[i];
            assert(cfp[i as int] < configs.len());
            proof {
                lemma_config_ok(
                    self.configs@,
                    self.states@,
                    self.rules@,
                    self.symbols@.len(),
                    c as int,
                );
            }
            let rule = self.configs[c].rule;
            if self.configs[c].dot == self.rules[rule].rhs.len() {
                let mut j: usize = 0;
                while j < nterminal
                    invariant
                        j <= nterminal,
                        i < n,
                        self.built_wf(),
                        self.is_numbered(),
                        *self == *old(self),
                        s < self.states@.len(),
                        cfp == self.states@[s as int].cfp@,
                        configs == self.configs@,
                        rules == self.rules@,
                        by_index == self.by_index@,
                        nterminal == self.nterminal,
                        n == cfp.len(),
                        c == cfp[i as int],
                        c < configs.len(),
                        rule == configs[c as int].rule,
                        rule < rules.len(),
                        configs[c as int].dot == rules[rule as int].rhs@.len(),
                        forall|k: int|
                            0 <= k < aps@.len() ==> action_ok(
                                #[trigger] aps@[k],
                                self.symbols@.len(),
                                self.states@.len(),
                                self.rules@.len(),
                            ),
                        forall|k: int|
                            0 <= k < aps@.len() ==> reduce_justified(
                                configs,
                                rules,
                                by_index,
                                nterminal,
                                cfp,
                                #[trigger] aps@[k],
                            ),
                        forall|x: int, y: int|
                            0 <= x < i && 0 <= y < nterminal && #[trigger] reduces_on(
                                configs,
                                rules,
                                cfp[x] as int,
                                y as usize,
                            ) ==> has_reduce(aps@, by_index[y], configs[cfp[x] as int].rule),
                        forall|y: int|
                            0 <= y < j && #[trigger] reduces_on(configs, rules, c as int, y as usize)
                                ==> has_reduce(aps@, by_index[y], rule),
                    decreases nterminal - j,
                {
                    if self.configs[c].fws.contains(&j) {
                        let sp = self.by_index[j];
                        let ghost prev = aps@;
                        aps.push(Action { sp, x: EAction::Reduce(rule) });
                        proof {
                            assert(reduces_on(configs, rules, cfp[i as int] as int, j as usize));
                            assert(reduce_justified(
                                configs,
                                rules,
                                by_index,
                                nterminal,
                                cfp,
                                aps@[prev.len() as int],
                            ));
                            assert forall|x: int, y: int|
                                0 <= x < i && 0 <= y < nterminal && #[trigger] reduces_on(
                                    configs,
                                    rules,
                                    cfp[x] as int,
                                    y as usize,
                                ) implies has_reduce(
                                aps@,
                                by_index[y],
                                configs[cfp[x] as int].rule,
                            ) by {
                                lemma_has_reduce_kept(
                                    prev,
                                    aps@,
                                    by_index[y],
                                    configs[cfp[x] as int].rule,
                                );
                            }
                            assert forall|y: int|
                                0 <= y < j + 1 && #[trigger] reduces_on(
                                    configs,
                                    rules,
                                    c as int,
                                    y as usize,
                                ) implies has_reduce(aps@, by_index[y], rule) by {
                                if y < j {
                                    lemma_has_reduce_kept(prev, aps@, by_index[y], rule);
                                } else {
                                    assert(aps@[prev.len() as int] == (Action {
                                        sp: by_index[y],
                                        x: EAction::Reduce(rule),
                                    }));
                                }
                            }
                        }
                    }
                    j += 1;
                }
            }
            i += 1;
        }
        let ghost before = self.states@[s as int].ap@;
        let ghost added = aps@;
        let mut ap = self.actions_of(s);
        ap.append(&mut aps);
        proof {
            assert(ap@ == before + added);
            lemma_state_ok(
                self.configs@,
                self.states@,
                self.rules@,
                self.symbols@.len(),
                s as int,
            );
            assert forall|i: int, j: int|
                0 <= i < cfp.len() && 0 <= j < nterminal && #[trigger] reduces_on(
                    configs,
                    rules,
                    cfp[i] as int,
                    j as usize,
                ) implies has_reduce(ap@, by_index[j], configs[cfp[i] as int].rule) by {
                assert(has_reduce(added, by_index[j], configs[cfp[i] as int].rule));
                let w = choose|k: int|
                    0 <= k < added.len() && #[trigger] added[k] == (Action {
                        sp: by_index[j],
                        x: EAction::Reduce(configs[cfp[i] as int].rule),
                    });
                assert(ap@[before.len() + w] == added[w]);
            }
            assert forall|k: int| before.len() <= k < ap@.len() implies reduce_justified(
                configs,
                rules,
                by_index,
                nterminal,
                cfp,
                #[trigger] ap@[k],
            ) by {
                assert(ap@[k] == added[k - before.len()]);
            }
        }
        self.set_actions(s, ap);
    }
}

/// The actions with those at `i` and `j` resolved against each other.
pub open spec fn pair_resolved(
    symbols: Seq<Symbol>,
    rules: Seq<Rule>,
    ap: Seq<Action>,
    i: int,
    j: int,
) -> Seq<Action> {
    let r = resolution(
        action_precedence(symbols, rules, ap[i]),
        action_precedence(symbols, rules, ap[j]),
        ap[i].x,
        ap[j].x,
    );
    ap.update(i, Action { sp: ap[i].sp, x: r.0 }).update(j, Action { sp: ap[j].sp, x: r.1 })
}

/// The actions at `i` and `j` are in a conflict that precedence does not
/// settle.
pub open spec fn pair_conflict(
    symbols: Seq<Symbol>,
    rules: Seq<Rule>,
    ap: Seq<Action>,
    i: int,
    j: int,
) -> bool {
    resolution(
        action_precedence(symbols, rules, ap[i]),
        action_precedence(symbols, rules, ap[j]),
        ap[i].x,
        ap[j].x,
    ).2
}

/// What becomes of the actions when, from the pair (`i`, `j`) on, every
/// action is held against the later actions that follow it on the same
/// lookahead, pair by pair; and how many of the pairs are in conflict.
pub open spec fn resolved_from(
    symbols: Seq<Symbol>,
    rules: Seq<Rule>,
    ap: Seq<Action>,
    i: int,
    j: int,
) -> (Seq<Action>, nat)
    decreases ap.len() - i, ap.len() - j,
{
    if i < 0 || j <= i || i >= ap.len() {
        (ap, 0)
    } else if j >= ap.len() || ap[i].sp != ap[j].sp {
        resolved_from(symbols, rules, ap, i + 1, i + 2)
    } else {
        let rest = resolved_from(symbols, rules, pair_resolved(symbols, rules, ap, i, j), i, j + 1);
        (
            rest.0,
            rest.1 + if pair_conflict(symbols, rules, ap, i, j) {
                1nat
            } else {
                0nat
            },
        )
    }
}

/// The actions of a state with their conflicts resolved.
pub open spec fn resolved(symbols: Seq<Symbol>, rules: Seq<Rule>, ap: Seq<Action>) -> Seq<Action> {
    resolved_from(symbols, rules, ap, 0, 1).0
}

/// How many conflicts among the actions of a state precedence does not
/// settle.
pub open spec fn unresolved(symbols: Seq<Symbol>, rules: Seq<Rule>, ap: Seq<Action>) -> nat {
    resolved_from(symbols, rules, ap, 0, 1).1
}

/// What resolving conflicts can make of an action: it stays as it is, or a
/// shift or a reduce is marked as resolved or as in conflict, or becomes an
/// error.
pub open spec fn settles(was: EAction, is: EAction) -> bool {
    is == was || match was {
        EAction::Shift(t) => is == EAction::SHResolved(t) || is == EAction::SSConflict(t)
            || is is Error,
        EAction::Reduce(r) => is == EAction::RDResolved(r) || is == EAction::SRConflict(r) || is
            == EAction::RRConflict(r) || is is Error,
        _ => false,
    }
}

/// Resolving a pair changes only shifts and reduces, and those as resolving
/// can.
pub proof fn lemma_resolution_settles(
    px: Option<Precedence>,
    py: Option<Precedence>,
    x: EAction,
    y: EAction,
)
    ensures
        settles(x, resolution(px, py, x, y).0),
        settles(y, resolution(px, py, x, y).1),
        !(x is Shift || x is Reduce) ==> resolution(px, py, x, y).0 == x,
        !(y is Shift || y is Reduce) ==> resolution(px, py, x, y).1 == y,
{
}

/// Resolving the conflicts among actions keeps their number and their
/// lookaheads, and changes each action only as resolving can.
pub proof fn lemma_resolved_settles(
    symbols: Seq<Symbol>,
    rules: Seq<Rule>,
    ap: Seq<Action>,
    i: int,
    j: int,
)
    ensures
        resolved_from(symbols, rules, ap, i, j).0.len() == ap.len(),
        forall|k: int|
            0 <= k < ap.len() ==> (#[trigger] resolved_from(symbols, rules, ap, i, j).0[k]).sp
                == ap[k].sp && settles(ap[k].x, resolved_from(symbols, rules, ap, i, j).0[k].x),
    decreases ap.len() - i, ap.len() - j,
{
    if i < 0 || j <= i || i >= ap.len() {
    } else if j >= ap.len() || ap[i].sp != ap[j].sp {
        lemma_resolved_settles(symbols, rules, ap, i + 1, i + 2);
    } else {
        let ap2 = pair_resolved(symbols, rules, ap, i, j);
        lemma_resolved_settles(symbols, rules, ap2, i, j + 1);
        lemma_resolution_settles(
            action_precedence(symbols, rules, ap[i]),
            action_precedence(symbols, rules, ap[j]),
            ap[i].x,
            ap[j].x,
        );
        let r = resolved_from(symbols, rules, ap, i, j).0;
        assert(r == resolved_from(symbols, rules, ap2, i, j + 1).0);
        assert forall|k: int| 0 <= k < ap.len() implies (#[trigger] r[k]).sp == ap[k].sp && settles(
            ap[k].x,
            r[k].x,
        ) by {
            assert(ap2[k].sp == ap[k].sp);
            assert(settles(ap[k].x, ap2[k].x));
            assert(settles(ap2[k].x, r[k].x));
        }
    }
}

/// How many of the first `upto` actions are marked as in conflict.
pub open spec fn count_marked(ap: Seq<Action>, upto: int) -> nat
    decreases upto,
{
    if upto <= 0 {
        0
    } else {
        count_marked(ap, upto - 1) + if is_conflict(ap[upto - 1].x) {
            1nat
        } else {
            0nat
        }
    }
}

/// How many actions of the first `upto` states are marked as in conflict.
pub open spec fn total_marked(states: Seq<State>, upto: int) -> nat
    decreases upto,
{
    if upto <= 0 {
        0
    } else {
        total_marked(states, upto - 1) + count_marked(
            states[upto - 1].ap@,
            states[upto - 1].ap@.len() as int,
        )
    }
}

/// A count that has reached the largest number stays there.
pub open spec fn capped(n: int) -> int {
    if n > usize::MAX {
        usize::MAX as int
    } else {
        n
    }
}

/// Where no action is marked, the count is zero.
pub proof fn lemma_none_marked(ap: Seq<Action>, upto: int)
    requires
        upto <= ap.len(),
        !some_conflict(ap),
    ensures
        count_marked(ap, upto) == 0,
    decreases upto,
{
    if upto > 0 {
        lemma_none_marked(ap, upto - 1);
        assert(!is_conflict(ap[upto - 1].x));
    }
}

/// Changing one action changes the count by what the action adds to it.
pub proof fn lemma_count_update(ap: Seq<Action>, k: int, a: Action, upto: int)
    requires
        0 <= k < ap.len(),
        upto <= ap.len(),
    ensures
        count_marked(ap.update(k, a), upto) + (if k < upto && is_conflict(ap[k].x) {
            1nat
        } else {
            0nat
        }) == count_marked(ap, upto) + (if k < upto && is_conflict(a.x) {
            1nat
        } else {
            0nat
        }),
    decreases upto,
{
    if upto > 0 {
        lemma_count_update(ap, k, a, upto - 1);
    }
}

/// The counts of states that are the same are the same.
pub proof fn lemma_total_same(a: Seq<State>, b: Seq<State>, upto: int)
    requires
        upto <= a.len(),
        upto <= b.len(),
        forall|x: int| 0 <= x < upto ==> (#[trigger] b[x]).ap@ == a[x].ap@,
    ensures
        total_marked(a, upto) == total_marked(b, upto),
    decreases upto,
{
    if upto > 0 {
        lemma_total_same(a, b, upto - 1);
    }
}

/// Resolving the conflicts among actions marks one action for every
/// conflict that precedence does not settle.
pub proof fn lemma_resolved_counts(
    symbols: Seq<Symbol>,
    rules: Seq<Rule>,
    ap: Seq<Action>,
    i: int,
    j: int,
)
    ensures
        count_marked(resolved_from(symbols, rules, ap, i, j).0, ap.len() as int) == count_marked(
            ap,
            ap.len() as int,
        ) + resolved_from(symbols, rules, ap, i, j).1,
    decreases ap.len() - i, ap.len() - j,
{
    if i < 0 || j <= i || i >= ap.len() {
    } else if j >= ap.len() || ap[i].sp != ap[j].sp {
        lemma_resolved_counts(symbols, rules, ap, i + 1, i + 2);
    } else {
        let px = action_precedence(symbols, rules, ap[i]);
        let py = action_precedence(symbols, rules, ap[j]);
        let r = resolution(px, py, ap[i].x, ap[j].x);
        let a1 = Action { sp: ap[i].sp, x: r.0 };
        let a2 = Action { sp: ap[j].sp, x: r.1 };
        let mid = ap.update(i, a1);
        let ap2 = mid.update(j, a2);
        assert(ap2 == pair_resolved(symbols, rules, ap, i, j));
        lemma_resolved_counts(symbols, rules, ap2, i, j + 1);
        lemma_resolution_marks(px, py, ap[i].x, ap[j].x);
        lemma_count_update(ap, i, a1, ap.len() as int);
        lemma_count_update(mid, j, a2, ap.len() as int);
        assert(mid[j] == ap[j]);
        assert(r.2 ==> !is_conflict(ap[j].x));
    }
}

/// The action is a shift or a reduce.
pub open spec fn is_live(x: EAction) -> bool {
    x is Shift || x is Reduce
}

/// No two actions on the same lookahead are both a shift or a reduce.
pub open spec fn live_unique(ap: Seq<Action>) -> bool {
    forall|a: int, b: int|
        0 <= a < b < ap.len() && (#[trigger] ap[a]).sp == (#[trigger] ap[b]).sp ==> !(is_live(ap[a].x)
            && is_live(ap[b].x))
}

/// The actions on one lookahead stand together, and among them no reduce
/// stands before a shift.
pub open spec fn runs_ordered(ap: Seq<Action>) -> bool {
    &&& forall|a: int, c: int, b: int|
        0 <= a <= c <= b < ap.len() && (#[trigger] ap[a]).sp == (#[trigger] ap[b]).sp ==> (
        #[trigger] ap[c]).sp == ap[a].sp
    &&& forall|a: int, b: int|
        0 <= a < b < ap.len() && (#[trigger] ap[a]).sp == (#[trigger] ap[b]).sp ==> !(ap[a].x is Reduce
            && ap[b].x is Shift)
}

/// The pair (`a`, `b`) comes at or after the pair (`i`, `j`) in the order in
/// which pairs are resolved.
pub open spec fn pair_from(i: int, j: int, a: int, b: int) -> bool {
    a > i || (a == i && b >= j)
}

/// After the conflicts are resolved from the pair (`i`, `j`) on, no two
/// actions on the same lookahead, of the pairs from there on, are both a
/// shift or a reduce.
pub proof fn lemma_resolved_unique(
    symbols: Seq<Symbol>,
    rules: Seq<Rule>,
    ap: Seq<Action>,
    i: int,
    j: int,
)
    requires
        runs_ordered(ap),
        0 <= i < j,
    ensures
        forall|a: int, b: int|
            0 <= a < b < ap.len() && pair_from(i, j, a, b) && (#[trigger] resolved_from(
                symbols,
                rules,
                ap,
                i,
                j,
            ).0[a]).sp == (#[trigger] resolved_from(symbols, rules, ap, i, j).0[b]).sp ==> !(is_live(
                resolved_from(symbols, rules, ap, i, j).0[a].x,
            ) && is_live(resolved_from(symbols, rules, ap, i, j).0[b].x)),
    decreases ap.len() - i, ap.len() - j,
{
    let r = resolved_from(symbols, rules, ap, i, j).0;
    lemma_resolved_settles(symbols, rules, ap, i, j);
    if i >= ap.len() {
    } else if j >= ap.len() || ap[i].sp != ap[j].sp {
        lemma_resolved_unique(symbols, rules, ap, i + 1, i + 2);
        assert forall|a: int, b: int|
            0 <= a < b < ap.len() && pair_from(i, j, a, b) && (#[trigger] r[a]).sp == (#[trigger] r[b]).sp
            implies !(is_live(r[a].x) && is_live(r[b].x)) by {
            assert(r[a].sp == ap[a].sp && r[b].sp == ap[b].sp);
            if a == i {
                // the run of the lookahead ended before `j`
                assert(j < ap.len());
                assert(ap[j].sp == ap[a].sp);
            } else {
                assert(pair_from(i + 1, i + 2, a, b));
            }
        }
    } else {
        let ap2 = pair_resolved(symbols, rules, ap, i, j);
        let px = action_precedence(symbols, rules, ap[i]);
        let py = action_precedence(symbols, rules, ap[j]);
        lemma_resolution_marks(px, py, ap[i].x, ap[j].x);
        assert(runs_ordered(ap2)) by {
            assert forall|a: int| 0 <= a < ap.len() implies (#[trigger] ap2[a]).sp == ap[a].sp && (
            ap2[a].x is Reduce ==> ap[a].x is Reduce) && (ap2[a].x is Shift ==> ap[a].x is Shift) by {}
            assert forall|a: int, c: int, b: int|
                0 <= a <= c <= b < ap2.len() && (#[trigger] ap2[a]).sp == (#[trigger] ap2[b]).sp implies (
            #[trigger] ap2[c]).sp == ap2[a].sp by {
                assert(ap[a].sp == ap[b].sp);
                assert(ap[c].sp == ap[a].sp);
            }
            assert forall|a: int, b: int|
                0 <= a < b < ap2.len() && (#[trigger] ap2[a]).sp == (#[trigger] ap2[b]).sp implies !(
            ap2[a].x is Reduce && ap2[b].x is Shift) by {
                assert(ap[a].sp == ap[b].sp);
            }
        }
        lemma_resolved_unique(symbols, rules, ap2, i, j + 1);
        lemma_resolved_settles(symbols, rules, ap2, i, j + 1);
        assert(r == resolved_from(symbols, rules, ap2, i, j + 1).0);
        assert forall|a: int, b: int|
            0 <= a < b < ap.len() && pair_from(i, j, a, b) && (#[trigger] r[a]).sp == (#[trigger] r[b]).sp
            implies !(is_live(r[a].x) && is_live(r[b].x)) by {
            if a == i && b == j {
                // the pair itself: one of the two is no longer live
                assert(settles(ap2[i].x, r[i].x) && settles(ap2[j].x, r[j].x));
                assert(!(ap[i].x is Reduce && ap[j].x is Shift));
                assert(!(is_live(ap2[i].x) && is_live(ap2[j].x)));
            } else {
                assert(pair_from(i, j + 1, a, b));
                assert(ap2[a].sp == ap[a].sp);
            }
        }
    }
}

/// Two symbols of a numbered grammar that have the same index are the same.
pub proof fn lemma_index_injective(
    symbols: Seq<Symbol>,
    by_index: Seq<usize>,
    nterminal: usize,
    nsymbol: usize,
    s1: int,
    s2: int,
)
    requires
        crate::prepare::numbered(symbols, by_index, nterminal, nsymbol),
        0 <= s1 < symbols.len(),
        0 <= s2 < symbols.len(),
        symbols[s1].index == symbols[s2].index,
    ensures
        s1 == s2,
{
    let keys = crate::prepare::kind_keys(symbols);
    assert(keys.len() == symbols.len());
    assert(crate::order::occurs(by_index, s1));
    assert(crate::order::occurs(by_index, s2));
    let here = choose|p: int| 0 <= p < by_index.len() && #[trigger] by_index[p] == s1;
    let there = choose|p: int| 0 <= p < by_index.len() && #[trigger] by_index[p] == s2;
    assert(symbols[by_index[here] as int].index == here);
    assert(symbols[by_index[there] as int].index == there);
}

/// Actions put in order, on lookaheads that differ where their indices do,
/// stand together by lookahead, the shifts before the reduces.
pub proof fn lemma_sorted_runs(
    symbols: Seq<Symbol>,
    nums: Seq<usize>,
    before: Seq<Action>,
    after: Seq<Action>,
)
    requires
        sorted_actions(symbols, nums, before, after),
        forall|a: int, b: int|
            0 <= a < before.len() && 0 <= b < before.len() && symbols[(#[trigger] before[a]).sp as int].index
                == symbols[(#[trigger] before[b]).sp as int].index ==> before[a].sp == before[b].sp,
    ensures
        runs_ordered(after),
{
    let keys = action_keys(symbols, nums, before);
    let order = choose|order: Seq<usize>| #[trigger]
        is_sorted_order(keys, order) && rearranged(before, order, after);
    assert(keys.len() == before.len());
    lemma_sorted_lookaheads(symbols, nums, before, after);
    assert forall|a: int, c: int, b: int|
        0 <= a <= c <= b < after.len() && (#[trigger] after[a]).sp == (#[trigger] after[b]).sp implies (
    #[trigger] after[c]).sp == after[a].sp by {
        assert(after[a] == before[order[a] as int] && after[c] == before[order[c] as int]);
        assert(symbols[after[a].sp as int].index <= symbols[after[c].sp as int].index);
        assert(symbols[after[c].sp as int].index <= symbols[after[b].sp as int].index);
    }
    assert forall|a: int, b: int|
        0 <= a < b < after.len() && (#[trigger] after[a]).sp == (#[trigger] after[b]).sp implies !(
    after[a].x is Reduce && after[b].x is Shift) by {
        assert(crate::order::comes_before(keys, order[a] as int, order[b] as int));
        assert(keys[order[a] as int] == action_key(symbols, nums, before[order[a] as int]));
        assert(keys[order[b] as int] == action_key(symbols, nums, before[order[b] as int]));
        assert(after[a] == before[order[a] as int] && after[b] == before[order[b] as int]);
    }
}

/// Resolving two actions never removes the mark of a conflict, marks the
/// second as in conflict whenever it reports one, and makes no action a
/// reduce, a shift or the accepting action that was none.
pub proof fn lemma_resolution_marks(
    px: Option<Precedence>,
    py: Option<Precedence>,
    x: EAction,
    y: EAction,
)
    ensures
        is_conflict(x) ==> resolution(px, py, x, y).0 == x,
        is_conflict(y) ==> resolution(px, py, x, y).1 == y,
        resolution(px, py, x, y).2 ==> is_conflict(resolution(px, py, x, y).1),
        is_conflict(resolution(px, py, x, y).0) ==> is_conflict(x),
        is_conflict(resolution(px, py, x, y).1) ==> is_conflict(y) || resolution(px, py, x, y).2,
        resolution(px, py, x, y).0 is Reduce ==> resolution(px, py, x, y).0 == x,
        resolution(px, py, x, y).1 is Reduce ==> resolution(px, py, x, y).1 == y,
        resolution(px, py, x, y).0 is Shift ==> resolution(px, py, x, y).0 == x,
        resolution(px, py, x, y).1 is Shift ==> resolution(px, py, x, y).1 == y,
        resolution(px, py, x, y).0 is Accept ==> resolution(px, py, x, y).0 == x,
        resolution(px, py, x, y).1 is Accept ==> resolution(px, py, x, y).1 == y,
{
}

impl Lemon {
    /// Resolves the conflicts among the actions of state `s`, which are in
    /// order: every action is held against each later action on the same
    /// lookahead. Returns the number of conflicts that precedence did not
    /// settle.
    pub fn resolve_state(&mut self, s: usize) -> (count: usize)
        requires
            old(self).built_wf(),
            s < old(self).states@.len(),
        ensures
            final(self).built_wf(),
            *final(self) == (Lemon { states: final(self).states, ..*old(self) }),
            final(self).states@.len() == old(self).states@.len(),
            forall|x: int|
                0 <= x < old(self).states@.len() && x != s ==> #[trigger] final(self).states@[x]
                    == old(self).states@[x],
            same_but_actions(old(self).states@[s as int], final(self).states@[s as int]),
            final(self).states@[s as int].ap@.len() == old(self).states@[s as int].ap@.len(),
            forall|k: int|
                0 <= k < old(self).states@[s as int].ap@.len() ==> {
                    let was = old(self).states@[s as int].ap@[k];
                    let is = #[trigger] final(self).states@[s as int].ap@[k];
                    &&& is.sp == was.sp
                    &&& is_conflict(was.x) ==> is == was
                    &&& is_conflict(is.x) ==> is_conflict(was.x) || count > 0
                    &&& is.x is Reduce ==> is == was
                    &&& is.x is Shift ==> is == was
                    &&& is.x is Accept ==> is == was
                },
            count > 0 ==> exists|k: int|
                0 <= k < final(self).states@[s as int].ap@.len() && is_conflict(
                    (#[trigger] final(self).states@[s as int].ap@[k]).x,
                ),
            final(self).states@[s as int].ap@ == resolved(
                old(self).symbols@,
                old(self).rules@,
                old(self).states@[s as int].ap@,
            ),
            count == if unresolved(old(self).symbols@, old(self).rules@, old(self).states@[s as int].ap@)
                > usize::MAX {
                usize::MAX as nat
            } else {
                unresolved(old(self).symbols@, old(self).rules@, old(self).states@[s as int].ap@)
            },
    {
        proof {
            lemma_state_ok(
                self.configs@,
                self.states@,
                self.rules@,
                self.symbols@.len(),
                s as int,
            );
        }
        let ghost before = self.states@[s as int].ap@;
        let mut ap = self.actions_of(s);
        let n = ap.len();
        let mut count: usize = 0;
        let ghost syms = self.symbols@;
        let ghost rules = self.rules@;
        let ghost mut met: nat = 0;
        let mut i: usize = 0;
        while i < n
            invariant
                i <= n,
                self.built_wf(),
                *self == *old(self),
                syms == self.symbols@,
                rules == self.rules@,
                n == before.len(),
                ap@.len() == n,
                count == if met > usize::MAX {
                    usize::MAX as nat
                } else {
                    met
                },
                resolved_from(syms, rules, before, 0, 1).0 == resolved_from(
                    syms,
                    rules,
                    ap@,
                    i as int,
                    i + 1,
                ).0,
                resolved_from(syms, rules, before, 0, 1).1 == met + resolved_from(
                    syms,
                    rules,
                    ap@,
                    i as int,
                    i + 1,
                ).1,
                forall|k: int|
                    0 <= k < n ==> action_ok(
                        #[trigger] ap@[k],
                        self.symbols@.len(),
                        self.states@.len(),
                        self.rules@.len(),
                    ),
                forall|k: int|
                    0 <= k < n ==> {
                        let was = before[k];
                        let is = #[trigger] ap@[k];
                        &&& is.sp == was.sp
                        &&& is_conflict(was.x) ==> is == was
                        &&& is_conflict(is.x) ==> is_conflict(was.x) || count > 0
                        &&& is.x is Reduce ==> is == was
                        &&& is.x is Shift ==> is == was
                        &&& is.x is Accept ==> is == was
                    },
                count > 0 ==> exists|k: int| 0 <= k < n && is_conflict((#[trigger] ap@[k]).x),
            decreases n - i,
        {
            let mut j: usize = i + 1;
            let mut same = true;
            while j < n && same
                invariant
                    i < j <= n || (j == i + 1 && j <= n),
                    i < n,
                    self.built_wf(),
                    *self == *old(self),
                    syms == self.symbols@,
                    rules == self.rules@,
                    n == before.len(),
                    ap@.len() == n,
                    count == if met > usize::MAX {
                        usize::MAX as nat
                    } else {
                        met
                    },
                    resolved_from(syms, rules, before, 0, 1).0 == if same {
                        resolved_from(syms, rules, ap@, i as int, j as int).0
                    } else {
                        resolved_from(syms, rules, ap@, i + 1, i + 2).0
                    },
                    resolved_from(syms, rules, before, 0, 1).1 == met + if same {
                        resolved_from(syms, rules, ap@, i as int, j as int).1
                    } else {
                        resolved_from(syms, rules, ap@, i + 1, i + 2).1
                    },
                    forall|k: int|
                        0 <= k < n ==> action_ok(
                            #[trigger] ap@[k],
                            self.symbols@.len(),
                            self.states@.len(),
                            self.rules@.len(),
                        ),
                    forall|k: int|
                        0 <= k < n ==> {
                            let was = before[k];
                            let is = #[trigger] ap@[k];
                            &&& is.sp == was.sp
                            &&& is_conflict(was.x) ==> is == was
                            &&& is_conflict(is.x) ==> is_conflict(was.x) || count > 0
                            &&& is.x is Reduce ==> is == was
                            &&& is.x is Shift ==> is == was
                            &&& is.x is Accept ==> is == was
                        },
                    count > 0 ==> exists|k: int| 0 <= k < n && is_conflict((#[trigger] ap@[k]).x),
                decreases n - j, if same { 1int } else { 0int },
            {
                if ap[i].sp == ap[j].sp {
                    let mut a = ap[i];
                    let mut b = ap[j];
                    let ghost prev = ap@;
                    let ghost had = count > 0;
                    let err = self.resolve_conflict(&mut a, &mut b);
                    ap[i] = a;
                    ap[j] = b;
                    if err && count < usize::MAX {
                        count += 1;
                    }
                    proof {
                        assert(ap@ =~= pair_resolved(syms, rules, prev, i as int, j as int));
                        assert(err == pair_conflict(syms, rules, prev, i as int, j as int));
                        if err {
                            met = met + 1;
                        }
                        lemma_resolution_marks(
                            action_precedence(self.symbols@, self.rules@, prev[i as int]),
                            action_precedence(self.symbols@, self.rules@, prev[j as int]),
                            prev[i as int].x,
                            prev[j as int].x,
                        );
                        if had {
                            let w = choose|k: int| 0 <= k < n && is_conflict((#[trigger] prev[k]).x);
                            assert(is_conflict(ap@[w].x));
                        }
                        if err {
                            assert(is_conflict(ap@[j as int].x));
                        }
                    }
                    j += 1;
                } else {
                    same = false;
                }
            }
            i += 1;
        }
        self.set_actions(s, ap);
        count
    }

    /// Marks every rule that some state reduces by.
    pub fn mark_reducible(&mut self)
        requires
            old(self).built_wf(),
        ensures
            final(self).built_wf(),
            *final(self) == (Lemon { rules: final(self).rules, ..*old(self) }),
            final(self).rules@.len() == old(self).rules@.len(),
            forall|r: int|
                0 <= r < old(self).rules@.len() ==> #[trigger] final(self).rules@[r] == (Rule {
                    can_reduce: old(self).rules@[r].can_reduce || reduced_somewhere(
                        old(self).states@,
                        r as usize,
                    ),
                    ..old(self).rules@[r]
                }),
    {
        let ghost orig = self.rules@;
        let ghost states = self.states@;
        let ns = self.states.len();
        let nr = self.rules.len();
        let mut s: usize = 0;
        while s < ns
            invariant
                s <= ns,
                ns == states.len(),
                nr == orig.len(),
                states == old(self).states@,
                orig == old(self).rules@,
                self.built_wf(),
                *self == (Lemon { rules: self.rules, ..*old(self) }),
                self.rules@.len() == orig.len(),
                forall|r: int|
                    0 <= r < orig.len() ==> #[trigger] self.rules@[r] == (Rule {
                        can_reduce: orig[r].can_reduce || reduced_before(
                            states,
                            r,
                            s as int,
                            0,
                        ),
                        ..orig[r]
                    }),
            decreases ns - s,
        {
            proof {
                lemma_state_ok(
                    self.configs@,
                    self.states@,
                    self.rules@,
                    self.symbols@.len(),
                    s as int,
                );
            }
            let na = self.states[s].ap.len();
            let mut k: usize = 0;
            while k < na
                invariant
                    k <= na,
                    s < ns,
                    ns == states.len(),
                    states == old(self).states@,
                    na == states[s as int].ap@.len(),
                    orig == old(self).rules@,
                    nr == orig.len(),
                    state_ok(
                        states,
                        self.configs@.len(),
                        self.symbols@.len(),
                        orig.len(),
                        s as int,
                    ),
                    self.built_wf(),
                    *self == (Lemon { rules: self.rules, ..*old(self) }),
                    self.rules@.len() == orig.len(),
                    forall|r: int|
                        0 <= r < orig.len() ==> #[trigger] self.rules@[r] == (Rule {
                            can_reduce: orig[r].can_reduce || reduced_before(
                                states,
                                r,
                                s as int,
                                k as int,
                            ),
                            ..orig[r]
                        }),
                decreases na - k,
            {
                let a = self.states[s].ap[k];
                assert(action_ok(
                    states[s as int].ap@[k as int],
                    self.symbols@.len(),
                    states.len(),
                    orig.len(),
                ));
                let ghost prev = self.rules@;
                match a.x {
                    EAction::Reduce(r) => {
                        self.rules[r].can_reduce = true;
                        proof {
                            assert forall|x: int| 0 <= x < prev.len() implies rule_marked(
                                prev[x],
                                #[trigger] self.rules@[x],
                            ) by {}
                            assert forall|x: int| 0 <= x < prev.len() implies ((
                            #[trigger] self.rules@[x]).prec_sym matches Some(q) ==> q
                                < self.symbols@.len()) by {
                                lemma_rule_ok(self.symbols@, prev, x);
                            }
                            lemma_marked_keeps_wf(self.symbols@, prev, self.rules@);
                            assert forall|x: int| 0 <= x < prev.len() implies (
                            #[trigger] self.rules@[x]).rhs == prev[x].rhs by {}
                            lemma_rules_marked(
                                self.configs@,
                                self.states@,
                                prev,
                                self.rules@,
                                self.symbols@.len(),
                            );
                        }
                    },
                    _ => {},
                }
                proof {
                    assert forall|r: int| 0 <= r < orig.len() implies #[trigger] self.rules@[r] == (Rule {
                        can_reduce: orig[r].can_reduce || reduced_before(
                            states,
                            r,
                            s as int,
                            k + 1,
                        ),
                        ..orig[r]
                    }) by {
                        lemma_reduced_step(states, r, s as int, k as int);
                        assert(a == states[s as int].ap@[k as int]);
                        if a.x == EAction::Reduce(r as usize) {
                            assert(self.rules@[r].can_reduce);
                        } else {
                            assert(self.rules@[r] == prev[r]);
                        }
                    }
                }
                k += 1;
            }
            proof {
                assert forall|r: int| 0 <= r < orig.len() implies #[trigger] reduced_before(
                    states,
                    r,
                    s as int,
                    na as int,
                ) == reduced_before(states, r, s + 1, 0) by {
                    lemma_reduced_next(states, r, s as int);
                }
            }
            s += 1;
        }
        proof {
            assert forall|r: int| 0 <= r < orig.len() implies #[trigger] reduced_before(
                states,
                r,
                ns as int,
                0,
            ) == reduced_somewhere(states, r as usize) by {
                lemma_reduced_all(states, r);
            }
        }
    }

    /// Gives every state its reduce actions, and the first state the
    /// accepting action on the start symbol.
    pub fn gather_reduces(&mut self)
        requires
            old(self).built_wf(),
            old(self).is_numbered(),
            old(self).start is Some,
            old(self).states@.len() >= 1,
        ensures
            final(self).built_wf(),
            final(self).is_numbered(),
            *final(self) == (Lemon { states: final(self).states, ..*old(self) }),
            final(self).states@.len() == old(self).states@.len(),
            forall|s: int|
                0 <= s < old(self).states@.len() ==> same_but_actions(
                    old(self).states@[s],
                    #[trigger] final(self).states@[s],
                ) && reduces_gathered(
                    old(self).configs@,
                    old(self).rules@,
                    old(self).by_index@,
                    old(self).nterminal,
                    old(self).states@[s].cfp@,
                    old(self).states@[s].ap@,
                    final(self).states@[s].ap@,
                    accepts_in(old(self).start, s),
                ),
    {
        let ns = self.states.len();
        let ghost orig = self.states@;
        let mut s: usize = 0;
        while s < ns
            invariant
                s <= ns,
                ns == orig.len(),
                ns >= 1,
                orig == old(self).states@,
                self.built_wf(),
                self.is_numbered(),
                *self == (Lemon { states: self.states, ..*old(self) }),
                self.states@.len() == ns,
                forall|x: int|
                    0 <= x < ns ==> same_but_actions(orig[x], #[trigger] self.states@[x]),
                forall|x: int| s <= x < ns ==> #[trigger] self.states@[x] == orig[x],
                forall|x: int|
                    0 <= x < s ==> reduces_gathered(
                        self.configs@,
                        self.rules@,
                        self.by_index@,
                        self.nterminal,
                        orig[x].cfp@,
                        orig[x].ap@,
                        (#[trigger] self.states@[x]).ap@,
                        None,
                    ),
            decreases ns - s,
        {
            let ghost prev = self.states@;
            self.add_reduces(s);
            proof {
                assert forall|x: int| 0 <= x < ns implies same_but_actions(
                    orig[x],
                    #[trigger] self.states@[x],
                ) by {
                    assert(same_but_actions(orig[x], prev[x]));
                }
                assert forall|x: int| 0 <= x < s + 1 implies reduces_gathered(
                    self.configs@,
                    self.rules@,
                    self.by_index@,
                    self.nterminal,
                    orig[x].cfp@,
                    orig[x].ap@,
                    (#[trigger] self.states@[x]).ap@,
                    None,
                ) by {
                    if x < s {
                        assert(self.states@[x] == prev[x]);
                    } else {
                        assert(prev[x] == orig[x]);
                    }
                }
            }
            s += 1;
        }
        let sp = match self.start {
            Some(sp) => sp,
            None => 0,
        };
        let ghost prev = self.states@;
        let mut first = self.actions_of(0);
        first.push(Action { sp, x: EAction::Accept });
        proof {
            lemma_state_ok(self.configs@, self.states@, self.rules@, self.symbols@.len(), 0);
        }
        self.set_actions(0, first);
        proof {
            assert forall|x: int| 0 <= x < ns implies same_but_actions(
                orig[x],
                #[trigger] self.states@[x],
            ) && reduces_gathered(
                self.configs@,
                self.rules@,
                self.by_index@,
                self.nterminal,
                orig[x].cfp@,
                orig[x].ap@,
                self.states@[x].ap@,
                accepts_in(self.start, x),
            ) by {
                assert(same_but_actions(orig[x], prev[x]));
                if x == 0 {
                    let was = prev[0].ap@;
                    let now = self.states@[0].ap@;
                    assert(now == was.push(Action { sp, x: EAction::Accept }));
                    assert forall|k: int| orig[0].ap@.len() <= k < now.len() - 1 implies reduce_justified(
                        self.configs@,
                        self.rules@,
                        self.by_index@,
                        self.nterminal,
                        orig[0].cfp@,
                        #[trigger] now[k],
                    ) by {
                        assert(now[k] == was[k]);
                    }
                    assert forall|i: int, j: int|
                        0 <= i < orig[0].cfp@.len() && 0 <= j < self.nterminal && #[trigger] reduces_on(
                            self.configs@,
                            self.rules@,
                            orig[0].cfp@[i] as int,
                            j as usize,
                        ) implies has_reduce(
                        now,
                        self.by_index@[j],
                        self.configs@[orig[0].cfp@[i] as int].rule,
                    ) by {
                        lemma_has_reduce_kept(
                            was,
                            now,
                            self.by_index@[j],
                            self.configs@[orig[0].cfp@[i] as int].rule,
                        );
                    }
                } else {
                    assert(self.states@[x] == prev[x]);
                }
            }
        }
    }

    /// Puts the actions of every state in order and resolves the conflicts
    /// among them by precedence, counting those that precedence does not
    /// settle.
    pub fn settle_actions(&mut self)
        requires
            old(self).built_wf(),
            old(self).is_numbered(),
        ensures
            forall|s: int|
                0 <= s < final(self).states@.len() ==> live_unique((#[trigger] final(self).states@[s]).ap@),
            final(self).built_wf(),
            *final(self) == (Lemon {
                states: final(self).states,
                nconflict: final(self).nconflict,
                ..*old(self)
            }),
            final(self).states@.len() == old(self).states@.len(),
            state_nums(final(self).states@) == state_nums(old(self).states@),
            forall|s: int|
                0 <= s < old(self).states@.len() ==> same_but_actions(
                    old(self).states@[s],
                    #[trigger] final(self).states@[s],
                ) && settled_from(
                    old(self).symbols@,
                    state_nums(old(self).states@),
                    old(self).rules@,
                    old(self).states@[s].ap@,
                    final(self).states@[s].ap@,
                ) && lookahead_sorted(final(self).symbols@, final(self).states@[s].ap@),
            final(self).nconflict >= old(self).nconflict,
            (forall|s: int|
                0 <= s < old(self).states@.len() ==> !some_conflict(
                    (#[trigger] old(self).states@[s]).ap@,
                )) ==> final(self).nconflict == capped(
                old(self).nconflict + total_marked(
                    final(self).states@,
                    final(self).states@.len() as int,
                ),
            ),
            final(self).nconflict > old(self).nconflict ==> exists|s: int|
                0 <= s < final(self).states@.len() && some_conflict(
                    (#[trigger] final(self).states@[s]).ap@,
                ),
            old(self).nconflict < usize::MAX && final(self).nconflict == old(self).nconflict
                ==> forall|s: int|
                0 <= s < final(self).states@.len() && some_conflict(
                    (#[trigger] final(self).states@[s]).ap@,
                ) ==> some_conflict(old(self).states@[s].ap@),
    {
        let ns = self.states.len();
        let ghost orig = self.states@;
        let ghost nums = state_nums(orig);
        let mut s: usize = 0;
        while s < ns
            invariant
                s <= ns,
                ns == orig.len(),
                orig == old(self).states@,
                nums == state_nums(orig),
                self.built_wf(),
                *self == (Lemon { states: self.states, nconflict: self.nconflict, ..*old(self) }),
                self.states@.len() == ns,
                state_nums(self.states@) == nums,
                forall|x: int|
                    0 <= x < ns ==> same_but_actions(orig[x], #[trigger] self.states@[x]),
                forall|x: int| s <= x < ns ==> #[trigger] self.states@[x] == orig[x],
                self.nconflict >= old(self).nconflict,
                self.is_numbered(),
                forall|x: int| 0 <= x < s ==> live_unique((#[trigger] self.states@[x]).ap@),
                (forall|x: int| 0 <= x < ns ==> !some_conflict((#[trigger] orig[x]).ap@))
                    ==> self.nconflict == capped(
                    old(self).nconflict + total_marked(self.states@, s as int),
                ),
                forall|x: int|
                    0 <= x < s ==> settled_from(
                        self.symbols@,
                        nums,
                        self.rules@,
                        orig[x].ap@,
                        (#[trigger] self.states@[x]).ap@,
                    ) && lookahead_sorted(self.symbols@, self.states@[x].ap@),
                self.nconflict > old(self).nconflict ==> exists|x: int|
                    0 <= x < s && some_conflict((#[trigger] self.states@[x]).ap@),
                old(self).nconflict < usize::MAX && self.nconflict == old(self).nconflict
                    ==> forall|x: int|
                    0 <= x < s && some_conflict((#[trigger] self.states@[x]).ap@) ==> some_conflict(
                        orig[x].ap@,
                    ),
            decreases ns - s,
        {
            let ghost prev = self.states@;
            self.sort_actions(s);
            let ghost mid = self.states@;
            proof {
                lemma_sorted_lookaheads(self.symbols@, nums, prev[s as int].ap@, mid[s as int].ap@);
            }
            let count = self.resolve_state(s);
            if count > 0 {
                if self.nconflict > usize::MAX - count {
                    self.nconflict = usize::MAX;
                } else {
                    self.nconflict = self.nconflict + count;
                }
            }
            proof {
                let fin = self.states@;
                assert(lookahead_sorted(self.symbols@, fin[s as int].ap@)) by {
                    assert forall|a: int, b: int| 0 <= a <= b < fin[s as int].ap@.len() implies self.symbols@[(
                    #[trigger] fin[s as int].ap@[a]).sp as int].index <= self.symbols@[(
                    #[trigger] fin[s as int].ap@[b]).sp as int].index by {
                        assert(fin[s as int].ap@[a].sp == mid[s as int].ap@[a].sp);
                        assert(fin[s as int].ap@[b].sp == mid[s as int].ap@[b].sp);
                    }
                }
                assert(prev[s as int] == orig[s as int]);
                assert(live_unique(fin[s as int].ap@)) by {
                    let was = orig[s as int].ap@;
                    let m = mid[s as int].ap@;
                    assert forall|a: int, b: int|
                        0 <= a < was.len() && 0 <= b < was.len() && self.symbols@[(
                        #[trigger] was[a]).sp as int].index == self.symbols@[(#[trigger] was[b]).sp as int].index
                        implies was[a].sp == was[b].sp by {
                        lemma_state_ok(
                            self.configs@,
                            prev,
                            self.rules@,
                            self.symbols@.len(),
                            s as int,
                        );
                        assert(action_ok(
                            was[a],
                            self.symbols@.len(),
                            prev.len(),
                            self.rules@.len(),
                        ));
                        assert(action_ok(
                            was[b],
                            self.symbols@.len(),
                            prev.len(),
                            self.rules@.len(),
                        ));
                        lemma_index_injective(
                            self.symbols@,
                            self.by_index@,
                            self.nterminal,
                            self.nsymbol,
                            was[a].sp as int,
                            was[b].sp as int,
                        );
                    }
                    lemma_sorted_runs(self.symbols@, nums, was, m);
                    lemma_resolved_unique(self.symbols@, self.rules@, m, 0, 1);
                    assert forall|a: int, b: int|
                        0 <= a < b < fin[s as int].ap@.len() && (#[trigger] fin[s as int].ap@[a]).sp == (
                        #[trigger] fin[s as int].ap@[b]).sp implies !(is_live(fin[s as int].ap@[a].x)
                        && is_live(fin[s as int].ap@[b].x)) by {
                        assert(pair_from(0, 1, a, b));
                    }
                }
                assert forall|x: int| 0 <= x < s implies live_unique((#[trigger] fin[x]).ap@) by {
                    assert(fin[x] == mid[x] && mid[x] == prev[x]);
                }
                assert(settled_from(
                    self.symbols@,
                    nums,
                    self.rules@,
                    orig[s as int].ap@,
                    fin[s as int].ap@,
                ));
                assert forall|x: int| 0 <= x < ns implies same_but_actions(
                    orig[x],
                    #[trigger] fin[x],
                ) by {
                    assert(same_but_actions(orig[x], prev[x]));
                    assert(same_but_actions(prev[x], mid[x]) || mid[x] == prev[x]);
                }
                assert forall|x: int| 0 <= x < s implies settled_from(
                    self.symbols@,
                    nums,
                    self.rules@,
                    orig[x].ap@,
                    (#[trigger] fin[x]).ap@,
                ) && lookahead_sorted(self.symbols@, fin[x].ap@) by {
                    assert(fin[x] == mid[x]);
                    assert(mid[x] == prev[x]);
                }
                assert(state_nums(fin) =~= nums) by {
                    assert forall|x: int| 0 <= x < ns implies state_nums(fin)[x] == nums[x] by {
                        assert(same_but_actions(orig[x], fin[x]));
                    }
                }
                if forall|x: int| 0 <= x < ns ==> !some_conflict((#[trigger] orig[x]).ap@) {
                    assert(!some_conflict(orig[s as int].ap@));
                    if some_conflict(mid[s as int].ap@) {
                        let k = choose|k: int|
                            0 <= k < mid[s as int].ap@.len() && is_conflict(
                                (#[trigger] mid[s as int].ap@[k]).x,
                            );
                        lemma_sorted_conflict(
                            self.symbols@,
                            nums,
                            orig[s as int].ap@,
                            mid[s as int].ap@,
                            k,
                        );
                    }
                    let m = mid[s as int].ap@;
                    lemma_none_marked(m, m.len() as int);
                    lemma_resolved_counts(self.symbols@, self.rules@, m, 0, 1);
                    lemma_resolved_settles(self.symbols@, self.rules@, m, 0, 1);
                    lemma_total_same(prev, fin, s as int);
                    assert(total_marked(fin, s + 1) == total_marked(fin, s as int) + count_marked(
                        fin[s as int].ap@,
                        fin[s as int].ap@.len() as int,
                    ));
                }
                if self.nconflict > old(self).nconflict {
                    if count > 0 {
                        assert(some_conflict(fin[s as int].ap@));
                    } else {
                        let w = choose|x: int| 0 <= x < s && some_conflict((#[trigger] prev[x]).ap@);
                        assert(fin[w] == mid[w] && mid[w] == prev[w]);
                        assert(some_conflict(fin[w].ap@));
                    }
                }
                if old(self).nconflict < usize::MAX && self.nconflict == old(self).nconflict {
                    assert(count == 0);
                    assert forall|x: int|
                        0 <= x < s + 1 && some_conflict((#[trigger] fin[x]).ap@) implies some_conflict(
                        orig[x].ap@,
                    ) by {
                        if x < s {
                            assert(fin[x] == mid[x] && mid[x] == prev[x]);
                        } else {
                            let k = choose|k: int|
                                0 <= k < fin[x].ap@.len() && is_conflict((#[trigger] fin[x].ap@[k]).x);
                            assert(is_conflict(mid[x].ap@[k].x));
                            lemma_sorted_conflict(
                                self.symbols@,
                                nums,
                                orig[x].ap@,
                                mid[x].ap@,
                                k,
                            );
                        }
                    }
                }
            }
            s += 1;
        }
    }

    /// Gives every state its reduce actions, and the first state the
    /// accepting action on the start symbol; orders the actions and resolves
    /// conflicts by precedence; and checks that every rule is reduced
    /// somewhere.
    pub fn find_actions(&mut self) -> (r: Result<(), Error>)
        requires
            old(self).built_wf(),
            old(self).is_numbered(),
            old(self).start is Some,
            old(self).states@.len() >= 1,
        ensures
            final(self).built_wf(),
            final(self).is_numbered(),
            *final(self) == (Lemon {
                states: final(self).states,
                rules: final(self).rules,
                nconflict: final(self).nconflict,
                ..*old(self)
            }),
            final(self).states@.len() == old(self).states@.len(),
            forall|s: int|
                0 <= s < old(self).states@.len() ==> same_but_actions(
                    old(self).states@[s],
                    #[trigger] final(self).states@[s],
                ),
            forall|s: int|
                0 <= s < old(self).states@.len() ==> #[trigger] actions_found(
                    *old(self),
                    final(self).states@,
                    s,
                ),
            final(self).rules@.len() == old(self).rules@.len(),
            forall|q: int|
                0 <= q < old(self).rules@.len() ==> #[trigger] final(self).rules@[q] == (Rule {
                    can_reduce: old(self).rules@[q].can_reduce || reduced_somewhere(
                        final(self).states@,
                        q as usize,
                    ),
                    ..old(self).rules@[q]
                }),
            r is Ok <==> forall|q: int|
                0 <= q < final(self).rules@.len() ==> (#[trigger] final(self).rules@[q]).can_reduce,
            r matches Err(e) ==> e.fault == Fault::RuleNeverReduced && exists|q: int|
                0 <= q < final(self).rules@.len() && !(#[trigger] final(self).rules@[q]).can_reduce
                    && e.span == final(self).rules@[q].span && forall|x: int|
                    0 <= x < q ==> (#[trigger] final(self).rules@[x]).can_reduce,
            final(self).nconflict >= old(self).nconflict,
            (forall|s: int|
                0 <= s < old(self).states@.len() ==> !some_conflict(
                    (#[trigger] old(self).states@[s]).ap@,
                )) ==> final(self).nconflict == capped(
                old(self).nconflict + total_marked(
                    final(self).states@,
                    final(self).states@.len() as int,
                ),
            ),
            final(self).nconflict > old(self).nconflict ==> exists|s: int|
                0 <= s < final(self).states@.len() && some_conflict(
                    (#[trigger] final(self).states@[s]).ap@,
                ),
            old(self).nconflict < usize::MAX && final(self).nconflict == old(self).nconflict
                ==> forall|s: int|
                0 <= s < final(self).states@.len() && some_conflict(
                    (#[trigger] final(self).states@[s]).ap@,
                ) ==> some_conflict(old(self).states@[s].ap@),
            forall|s: int|
                0 <= s < final(self).states@.len() ==> lookahead_sorted(
                    final(self).symbols@,
                    (#[trigger] final(self).states@[s]).ap@,
                ),
            state_nums(final(self).states@) == state_nums(old(self).states@),
            forall|s: int|
                0 <= s < final(self).states@.len() ==> live_unique((#[trigger] final(self).states@[s]).ap@),
    {
        let ghost orig = self.states@;
        self.gather_reduces();
        let ghost gath = self.states@;
        proof {
            assert(state_nums(gath) =~= state_nums(orig)) by {
                assert forall|x: int| 0 <= x < orig.len() implies state_nums(gath)[x] == state_nums(
                    orig,
                )[x] by {
                    assert(same_but_actions(orig[x], gath[x]));
                }
            }
        }
        self.settle_actions();
        proof {
            let fin = self.states@;
            assert forall|s: int| 0 <= s < orig.len() implies same_but_actions(
                orig[s],
                #[trigger] fin[s],
            ) by {
                assert(same_but_actions(orig[s], gath[s]));
                assert(same_but_actions(gath[s], fin[s]));
            }
            assert forall|s: int| 0 <= s < orig.len() implies #[trigger] actions_found(
                *old(self),
                fin,
                s,
            ) by {
                assert(same_but_actions(gath[s], fin[s]));
                assert(settled_from(
                    self.symbols@,
                    state_nums(gath),
                    self.rules@,
                    gath[s].ap@,
                    fin[s].ap@,
                ));
                let sorted = choose|sorted: Seq<Action>|
                    #[trigger] sorted_actions(self.symbols@, state_nums(gath), gath[s].ap@, sorted)
                        && fin[s].ap@ == resolved(self.symbols@, self.rules@, sorted);
                assert(sorted_actions(
                    old(self).symbols@,
                    state_nums(old(self).states@),
                    gath[s].ap@,
                    sorted,
                ));
            }
            if forall|s: int| 0 <= s < orig.len() ==> !some_conflict((#[trigger] orig[s]).ap@) {
                assert forall|s: int| 0 <= s < gath.len() implies !some_conflict(
                    (#[trigger] gath[s]).ap@,
                ) by {
                    if some_conflict(gath[s].ap@) {
                        assert(same_but_actions(orig[s], gath[s]));
                        lemma_gathered_conflict(
                            self.configs@,
                            self.rules@,
                            self.by_index@,
                            self.nterminal,
                            orig[s].cfp@,
                            orig[s].ap@,
                            gath[s].ap@,
                            accepts_in(self.start, s),
                        );
                    }
                }
            }
            if old(self).nconflict < usize::MAX && self.nconflict == old(self).nconflict {
                assert forall|s: int|
                    0 <= s < fin.len() && some_conflict((#[trigger] fin[s]).ap@) implies some_conflict(
                    orig[s].ap@,
                ) by {
                    assert(same_but_actions(orig[s], gath[s]));
                    assert(some_conflict(gath[s].ap@));
                    lemma_gathered_conflict(
                        self.configs@,
                        self.rules@,
                        self.by_index@,
                        self.nterminal,
                        orig[s].cfp@,
                        orig[s].ap@,
                        gath[s].ap@,
                        accepts_in(self.start, s),
                    );
                }
            }
        }
        self.mark_reducible();
        match self.first_unreduced() {
            Some(q) => Err(Error::new(Fault::RuleNeverReduced, self.rules[q].span)),
            None => Ok(()),
        }
    }

    /// The first rule that no state reduces by.
    pub fn first_unreduced(&self) -> (r: Option<usize>)
        ensures
            match r {
                Some(q) => q < self.rules@.len() && !self.rules@[q as int].can_reduce && forall|x: int|
                    0 <= x < q ==> (#[trigger] self.rules@[x]).can_reduce,
                None => forall|x: int|
                    0 <= x < self.rules@.len() ==> (#[trigger] self.rules@[x]).can_reduce,
            },
    {
        let nr = self.rules.len();
        let mut q: usize = 0;
        while q < nr
            invariant
                q <= nr,
                nr == self.rules@.len(),
                forall|x: int| 0 <= x < q ==> (#[trigger] self.rules@[x]).can_reduce,
            decreases nr - q,
        {
            if !self.rules[q].can_reduce {
                return Some(q);
            }
            q += 1;
        }
        None
    }
}

/// Some action before the `k`-th of state `s`, or of an earlier state, reduces
/// by rule `r`.
pub open spec fn reduced_before(states: Seq<State>, r: int, s: int, k: int) -> bool {
    exists|t: int, j: int|
        0 <= t < states.len() && 0 <= j < states[t].ap@.len() && (t < s || (t == s && j < k)) && (
        #[trigger] states[t].ap@[j]).x == EAction::Reduce(r as usize)
}

/// One more action looked at.
proof fn lemma_reduced_step(states: Seq<State>, r: int, s: int, k: int)
    requires
        0 <= s < states.len(),
        0 <= k < states[s].ap@.len(),
    ensures
        reduced_before(states, r, s, k + 1) == (reduced_before(states, r, s, k)
            || states[s].ap@[k].x == EAction::Reduce(r as usize)),
{
    if reduced_before(states, r, s, k + 1) {
        let (t, j) = choose|t: int, j: int|
            0 <= t < states.len() && 0 <= j < states[t].ap@.len() && (t < s || (t == s && j < k + 1))
                && (#[trigger] states[t].ap@[j]).x == EAction::Reduce(r as usize);
        if !(t == s && j == k) {
            assert(states[t].ap@[j].x == EAction::Reduce(r as usize));
        }
    }
    if reduced_before(states, r, s, k) {
        let (t, j) = choose|t: int, j: int|
            0 <= t < states.len() && 0 <= j < states[t].ap@.len() && (t < s || (t == s && j < k))
                && (#[trigger] states[t].ap@[j]).x == EAction::Reduce(r as usize);
        assert(states[t].ap@[j].x == EAction::Reduce(r as usize));
    }
    if states[s].ap@[k].x == EAction::Reduce(r as usize) {
        assert(states[s].ap@[k].x == EAction::Reduce(r as usize));
    }
}

/// All actions of a state looked at.
proof fn lemma_reduced_next(states: Seq<State>, r: int, s: int)
    requires
        0 <= s < states.len(),
    ensures
        reduced_before(states, r, s, states[s].ap@.len() as int) == reduced_before(
            states,
            r,
            s + 1,
            0,
        ),
{
    if reduced_before(states, r, s, states[s].ap@.len() as int) {
        let (t, j) = choose|t: int, j: int|
            0 <= t < states.len() && 0 <= j < states[t].ap@.len() && (t < s || (t == s && j
                < states[s].ap@.len())) && (#[trigger] states[t].ap@[j]).x == EAction::Reduce(r as usize);
        assert(states[t].ap@[j].x == EAction::Reduce(r as usize));
    }
    if reduced_before(states, r, s + 1, 0) {
        let (t, j) = choose|t: int, j: int|
            0 <= t < states.len() && 0 <= j < states[t].ap@.len() && (t < s + 1 || (t == s + 1 && j
                < 0)) && (#[trigger] states[t].ap@[j]).x == EAction::Reduce(r as usize);
        assert(states[t].ap@[j].x == EAction::Reduce(r as usize));
    }
}

/// All actions of all states looked at.
proof fn lemma_reduced_all(states: Seq<State>, r: int)
    requires
        0 <= r <= usize::MAX,
    ensures
        reduced_before(states, r, states.len() as int, 0) == reduced_somewhere(states, r as usize),
{
    if reduced_before(states, r, states.len() as int, 0) {
        let (t, j) = choose|t: int, j: int|
            0 <= t < states.len() && 0 <= j < states[t].ap@.len() && (t < states.len() || (t
                == states.len() && j < 0)) && (#[trigger] states[t].ap@[j]).x == EAction::Reduce(r as usize);
        assert(states[t].ap@[j].x == EAction::Reduce(r as usize));
    }
    if reduced_somewhere(states, r as usize) {
        let (t, j) = choose|t: int, j: int|
            0 <= t < states.len() && 0 <= j < states[t].ap@.len() && (#[trigger] states[t].ap@[j]).x
                == EAction::Reduce(r as usize);
        assert(states[t].ap@[j].x == EAction::Reduce(r as usize));
    }
}

/// A reduce that a list has is still there when the list grows.
proof fn lemma_has_reduce_kept(before: Seq<Action>, after: Seq<Action>, sp: usize, rule: usize)
    requires
        has_reduce(before, sp, rule),
        before.is_prefix_of(after),
    ensures
        has_reduce(after, sp, rule),
{
    let w = choose|k: int|
        0 <= k < before.len() && #[trigger] before[k] == (Action { sp, x: EAction::Reduce(rule) });
    assert(after[w] == before[w]);
}

} // verus!
