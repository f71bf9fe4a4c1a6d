//! Action codes, and the final numbering of the states.
//!
//! The tables give every action a number: a shift the number of the state
//! shifted to, a reduce the number of states plus its rule, an error the
//! number of states plus the number of rules, and the accepting action one
//! more. The states are numbered anew so that those with the most actions
//! come first; the first state keeps its number.

use crate::actions::state_nums;
use crate::automaton::{action_ok, lemma_state_ok, lemma_states_changed, state_ok};
use crate::config::{Action, EAction, State};
use crate::grammar::Lemon;
use crate::order::{is_sorted_order, sorted_order, Key3};
use crate::symbol::Symbol;
use vstd::prelude::*;

verus! {

/// The code of an action in tables for `nstates` states and `nrules` rules,
/// where `nums` gives the numbers of the states; actions that the tables do
/// not hold have none.
pub open spec fn action_code(nums: Seq<usize>, nstates: int, nrules: int, x: EAction) -> Option<int> {
    match x {
        EAction::Shift(t) => Some(nums[t as int] as int),
        EAction::Reduce(r) => Some(r + nstates),
        EAction::Error => Some(nstates + nrules),
        EAction::Accept => Some(nstates + nrules + 1),
        _ => None,
    }
}

/// The action goes into the tables.
pub open spec fn is_coded(x: EAction) -> bool {
    x is Shift || x is Reduce || x is Error || x is Accept
}

/// How many of the first `upto` actions go into the tables and have a
/// lookahead with an index from `lo` up to, but not including, `hi`.
pub open spec fn count_coded(
    symbols: Seq<Symbol>,
    ap: Seq<Action>,
    lo: usize,
    hi: usize,
    upto: int,
) -> nat
    decreases upto,
{
    if upto <= 0 {
        0
    } else {
        count_coded(symbols, ap, lo, hi, upto - 1) + if is_coded(ap[upto - 1].x) && lo
            <= symbols[ap[upto - 1].sp as int].index < hi {
            1nat
        } else {
            0nat
        }
    }
}

/// The code of the last of the first `upto` actions that goes into the
/// tables with a lookahead of index `nsymbol` or more; the code of an error
/// where there is none.
pub open spec fn default_code(
    symbols: Seq<Symbol>,
    nums: Seq<usize>,
    nstates: int,
    nrules: int,
    nsymbol: usize,
    ap: Seq<Action>,
    upto: int,
) -> int
    decreases upto,
{
    if upto <= 0 {
        nstates + nrules
    } else if is_coded(ap[upto - 1].x) && symbols[ap[upto - 1].sp as int].index >= nsymbol {
        action_code(nums, nstates, nrules, ap[upto - 1].x)->0
    } else {
        default_code(symbols, nums, nstates, nrules, nsymbol, ap, upto - 1)
    }
}

/// The key by which the states are ordered anew: most actions on
/// nonterminals first, then most actions on terminals, then the highest
/// number.
pub open spec fn resort_key(st: State) -> Key3 {
    Key3 {
        k0: (usize::MAX - st.n_nt_act) as usize,
        k1: (usize::MAX - st.n_tkn_act) as usize,
        k2: (usize::MAX - st.state_num) as usize,
    }
}

/// The keys of all states but the first.
pub open spec fn resort_keys(states: Seq<State>) -> Seq<Key3> {
    Seq::new((states.len() - 1) as nat, |i: int| resort_key(states[i + 1]))
}

/// `order` lists the states by their new numbers: the first state first, the
/// others by their keys.
pub open spec fn is_resorted(keys: Seq<Key3>, order: Seq<usize>) -> bool {
    &&& order.len() == keys.len() + 1
    &&& order[0] == 0
    &&& exists|inner: Seq<usize>| #[trigger]
        is_sorted_order(keys, inner) && forall|i: int|
            1 <= i < order.len() ==> #[trigger] order[i] == inner[i - 1] + 1
}

/// State `b` is state `a` but for its counts, its default and its number.
pub open spec fn same_but_counts(a: State, b: State) -> bool {
    b == (State {
        n_tkn_act: b.n_tkn_act,
        n_nt_act: b.n_nt_act,
        i_dflt: b.i_dflt,
        state_num: b.state_num,
        ..a
    })
}

impl Lemon {
    /// The code that the tables hold for an action, if they hold one.
    pub fn compute_action(&self, ap: &Action) -> (r: Option<usize>)
        requires
            action_ok(*ap, self.symbols@.len(), self.states@.len(), self.rules@.len()),
            self.states@.len() + self.rules@.len() + 1 <= usize::MAX,
        ensures
            match r {
                Some(c) => Some(c as int) == action_code(
                    state_nums(self.states@),
                    self.states@.len() as int,
                    self.rules@.len() as int,
                    ap.x,
                ),
                None => action_code(
                    state_nums(self.states@),
                    self.states@.len() as int,
                    self.rules@.len() as int,
                    ap.x,
                ) is None,
            },
    {
        match ap.x {
            EAction::Shift(t) => Some(self.states[t].state_num),
            EAction::Reduce(r) => Some(r + self.states.len()),
            EAction::Error => Some(self.states.len() + self.rules.len()),
            EAction::Accept => Some(self.states.len() + self.rules.len() + 1),
            _ => None,
        }
    }

    /// Counts the actions of state `s` that go into the tables, by kind of
    /// lookahead, and finds the state's default.
    fn count_actions(&mut self, s: usize)
        requires
            old(self).built_wf(),
            s < old(self).states@.len(),
            old(self).states@.len() + old(self).rules@.len() + 1 <= usize::MAX,
            old(self).nterminal <= old(self).nsymbol,
        ensures
            final(self).built_wf(),
            *final(self) == (Lemon { states: final(self).states, ..*old(self) }),
            final(self).states@.len() == old(self).states@.len(),
            forall|x: int|
                0 <= x < old(self).states@.len() && x != s ==> #[trigger] final(self).states@[x]
                    == old(self).states@[x],
            final(self).states@[s as int] == (State {
                n_tkn_act: final(self).states@[s as int].n_tkn_act,
                n_nt_act: final(self).states@[s as int].n_nt_act,
                i_dflt: final(self).states@[s as int].i_dflt,
                ..old(self).states@[s as int]
            }),
            final(self).states@[s as int].n_tkn_act == count_coded(
                old(self).symbols@,
                old(self).states@[s as int].ap@,
                0,
                old(self).nterminal,
                old(self).states@[s as int].ap@.len() as int,
            ),
            final(self).states@[s as int].n_nt_act == count_coded(
                old(self).symbols@,
                old(self).states@[s as int].ap@,
                old(self).nterminal,
                old(self).nsymbol,
                old(self).states@[s as int].ap@.len() as int,
            ),
            final(self).states@[s as int].i_dflt == default_code(
                old(self).symbols@,
                state_nums(old(self).states@),
                old(self).states@.len() as int,
                old(self).rules@.len() as int,
                old(self).nsymbol,
                old(self).states@[s as int].ap@,
                old(self).states@[s as int].ap@.len() as int,
            ),
    {
        proof {
            lemma_state_ok(
                self.configs@,
                self.states@,
                self.rules@,
                self.symbols@.len(),
                s as int,
            );
        }
        let ghost ap = self.states@[s as int].ap@;
        let ghost nums = state_nums(self.states@);
        let n = self.states[s].ap.len();
        let mut n_tkn_act: usize = 0;
        let mut n_nt_act: usize = 0;
        let mut i_dflt: usize = self.states.len() + self.rules.len();
        let mut k: usize = 0;
        while k < n
            invariant
                k <= n,
                *self == *old(self),
                s < self.states@.len(),
                ap == self.states@[s as int].ap@,
                nums == state_nums(self.states@),
                n == ap.len(),
                self.states@.len() + self.rules@.len() + 1 <= usize::MAX,
                self.nterminal <= self.nsymbol,
                state_ok(
                    self.states@,
                    self.configs@.len(),
                    self.symbols@.len(),
                    self.rules@.len(),
                    s as int,
                ),
                n_tkn_act == count_coded(self.symbols@, ap, 0, self.nterminal, k as int),
                n_nt_act == count_coded(self.symbols@, ap, self.nterminal, self.nsymbol, k as int),
                n_tkn_act <= k,
                n_nt_act <= k,
                i_dflt == default_code(
                    self.symbols@,
                    nums,
                    self.states@.len() as int,
                    self.rules@.len() as int,
                    self.nsymbol,
                    ap,
                    k as int,
                ),
            decreases n - k,
        {
            let a = self.states[s].ap[k];
            assert(action_ok(ap[k as int], self.symbols@.len(), self.states@.len(), self.rules@.len()));
            match self.compute_action(&a) {
                Some(x) => {
                    let index = self.symbols[a.sp].index;
                    if index < self.nterminal {
                        n_tkn_act += 1;
                    } else if index < self.nsymbol {
                        n_nt_act += 1;
                    } else {
                        i_dflt = x;
                    }
                },
                None => {},
            }
            k += 1;
        }
        let ghost before = self.states@;
        self.states[s].n_tkn_act = n_tkn_act;
        self.states[s].n_nt_act = n_nt_act;
        self.states[s].i_dflt = i_dflt;
        proof {
            self.lemma_counts_changed(before);
        }
    }

    /// States that differ only in counts, defaults and numbers are as
    /// consistent as they were.
    proof fn lemma_counts_changed(&self, before: Seq<State>)
        requires
            self.wf(),
            crate::automaton::automaton_wf(
                self.configs@,
                before,
                self.rules@,
                self.symbols@.len(),
            ),
            self.states@.len() == before.len(),
            forall|x: int| 0 <= x < before.len() ==> same_but_counts(before[x], #[trigger] self.states@[x]),
        ensures
            self.built_wf(),
    {
        let after = self.states@;
        let nsyms = self.symbols@.len();
        assert forall|x: int| 0 <= x < after.len() implies #[trigger] state_ok(
            after,
            self.configs@.len(),
            nsyms,
            self.rules@.len(),
            x,
        ) by {
            lemma_state_ok(self.configs@, before, self.rules@, nsyms, x);
            assert(same_but_counts(before[x], after[x]));
        }
        lemma_states_changed(self.configs@, before, after, self.rules@, nsyms);
    }

    /// Numbers the states anew: the first state stays first, and the others
    /// follow with the most actions on nonterminals first, among those the
    /// most actions on terminals first, and among those the highest number
    /// first.
    pub fn resort_states(&mut self)
        requires
            old(self).built_wf(),
            old(self).states@.len() >= 1,
            old(self).states@.len() + old(self).rules@.len() + 1 <= usize::MAX,
            old(self).nterminal <= old(self).nsymbol,
        ensures
            final(self).built_wf(),
            *final(self) == (Lemon {
                states: final(self).states,
                state_order: final(self).state_order,
                ..*old(self)
            }),
            final(self).states@.len() == old(self).states@.len(),
            forall|s: int|
                0 <= s < old(self).states@.len() ==> {
                    let was = old(self).states@[s];
                    let is = #[trigger] final(self).states@[s];
                    &&& same_but_counts(was, is)
                    &&& is.n_tkn_act == count_coded(
                        old(self).symbols@,
                        was.ap@,
                        0,
                        old(self).nterminal,
                        was.ap@.len() as int,
                    )
                    &&& is.n_nt_act == count_coded(
                        old(self).symbols@,
                        was.ap@,
                        old(self).nterminal,
                        old(self).nsymbol,
                        was.ap@.len() as int,
                    )
                    &&& is.i_dflt == default_code(
                        old(self).symbols@,
                        state_nums(old(self).states@),
                        old(self).states@.len() as int,
                        old(self).rules@.len() as int,
                        old(self).nsymbol,
                        was.ap@,
                        was.ap@.len() as int,
                    )
                },
            final(self).state_order@.len() == final(self).states@.len(),
            forall|i: int|
                0 <= i < final(self).state_order@.len() ==> (#[trigger] final(self).state_order@[i])
                    < final(self).states@.len() && final(self).states@[final(self).state_order@[i] as int].state_num == i,
            exists|counted: Seq<State>|
                #![trigger resort_keys(counted)]
                counted.len() == old(self).states@.len() && (forall|s: int|
                    0 <= s < counted.len() ==> (#[trigger] counted[s]) == (State {
                        state_num: old(self).states@[s].state_num,
                        ..final(self).states@[s]
                    })) && is_resorted(resort_keys(counted), final(self).state_order@),
    {
        let ghost orig = self.states@;
        let ghost nums = state_nums(orig);
        let ns = self.states.len();
        let mut s: usize = 0;
        while s < ns
            invariant
                s <= ns,
                ns == orig.len(),
                orig == old(self).states@,
                nums == state_nums(orig),
                self.built_wf(),
                *self == (Lemon { states: self.states, ..*old(self) }),
                self.states@.len() == ns,
                ns + self.rules@.len() + 1 <= usize::MAX,
                self.nterminal <= self.nsymbol,
                state_nums(self.states@) == nums,
                forall|x: int| s <= x < ns ==> #[trigger] self.states@[x] == orig[x],
                forall|x: int|
                    0 <= x < s ==> {
                        let was = orig[x];
                        let is = #[trigger] self.states@[x];
                        &&& is == (State {
                            n_tkn_act: is.n_tkn_act,
                            n_nt_act: is.n_nt_act,
                            i_dflt: is.i_dflt,
                            ..was
                        })
                        &&& is.n_tkn_act == count_coded(
                            self.symbols@,
                            was.ap@,
                            0,
                            self.nterminal,
                            was.ap@.len() as int,
                        )
                        &&& is.n_nt_act == count_coded(
                            self.symbols@,
                            was.ap@,
                            self.nterminal,
                            self.nsymbol,
                            was.ap@.len() as int,
                        )
                        &&& is.i_dflt == default_code(
                            self.symbols@,
                            nums,
                            ns as int,
                            self.rules@.len() as int,
                            self.nsymbol,
                            was.ap@,
                            was.ap@.len() as int,
                        )
                    },
            decreases ns - s,
        {
            let ghost prev = self.states@;
            self.count_actions(s);
            proof {
                assert(state_nums(self.states@) =~= nums) by {
                    assert forall|x: int| 0 <= x < ns implies state_nums(self.states@)[x] == nums[x] by {
                        if x != s {
                            assert(self.states@[x] == prev[x]);
                        }
                        assert(state_nums(prev)[x] == nums[x]);
                    }
                }
            }
            s += 1;
        }
        let ghost counted = self.states@;
        let mut keys: Vec<Key3> = Vec::new();
        let mut i: usize = 1;
        while i < ns
            invariant
                1 <= i <= ns,
                ns == self.states@.len(),
                counted == self.states@,
                keys@.len() == i - 1,
                forall|x: int| 0 <= x < i - 1 ==> #[trigger] keys@[x] == resort_key(counted[x + 1]),
            decreases ns - i,
        {
            let st = &self.states[i];
            keys.push(
                Key3 {
                    k0: usize::MAX - st.n_nt_act,
                    k1: usize::MAX - st.n_tkn_act,
                    k2: usize::MAX - st.state_num,
                },
            );
            i += 1;
        }
        assert(keys@ =~= resort_keys(counted));
        let inner = sorted_order(&keys);
        let mut order: Vec<usize> = Vec::new();
        order.push(0);
        let mut i: usize = 0;
        while i < ns - 1
            invariant
                i <= ns - 1,
                ns >= 1,
                keys@.len() == ns - 1,
                is_sorted_order(keys@, inner@),
                order@.len() == i + 1,
                order@[0] == 0,
                forall|x: int| 1 <= x < i + 1 ==> #[trigger] order@[x] == inner@[x - 1] + 1,
            decreases ns - 1 - i,
        {
            order.push(inner[i] + 1);
            i += 1;
        }
        proof {
            assert(is_resorted(keys@, order@));
        }
        let mut i: usize = 0;
        while i < ns
            invariant
                i <= ns,
                ns == counted.len(),
                self.built_wf(),
                *self == (Lemon { states: self.states, ..*old(self) }),
                self.states@.len() == ns,
                keys@.len() == ns - 1,
                is_sorted_order(keys@, inner@),
                order@.len() == ns,
                order@[0] == 0,
                forall|x: int| 1 <= x < ns ==> #[trigger] order@[x] == inner@[x - 1] + 1,
                forall|x: int|
                    0 <= x < ns ==> (#[trigger] self.states@[x]) == (State {
                        state_num: self.states@[x].state_num,
                        ..counted[x]
                    }),
                forall|x: int|
                    0 <= x < i ==> self.states@[(#[trigger] order@[x]) as int].state_num == x,
            decreases ns - i,
        {
            let id = order[i];
            proof {
                if i > 0 {
                    assert(order@[i as int] == inner@[i - 1] + 1);
                }
            }
            let ghost before = self.states@;
            self.states[id].state_num = i;
            proof {
                assert forall|x: int| 0 <= x < before.len() implies same_but_counts(
                    before[x],
                    #[trigger] self.states@[x],
                ) by {}
                self.lemma_counts_changed(before);
                assert forall|x: int| 0 <= x < i + 1 implies self.states@[(
                #[trigger] order@[x]) as int].state_num == x by {
                    if x < i {
                        // the orders lists no state twice
                        if order@[x] == order@[i as int] {
                            if x > 0 {
                                assert(order@[x] == inner@[x - 1] + 1);
                                crate::order::lemma_sorted_order_distinct(
                                    keys@,
                                    inner@,
                                    x - 1,
                                    i - 1,
                                );
                            } else {
                                assert(order@[0] == 0);
                            }
                        }
                        assert(before[order@[x] as int].state_num == x);
                    }
                }
            }
            i += 1;
        }
        proof {
            assert forall|j: int| 0 <= j < order@.len() implies (#[trigger] order@[j]) < ns by {
                if j > 0 {
                    assert(order@[j] == inner@[j - 1] + 1);
                }
            }
        }
        self.state_order = order;
        proof {
            let fin = self.states@;
            assert forall|s: int| 0 <= s < counted.len() implies (#[trigger] counted[s]) == (State {
                state_num: orig[s].state_num,
                ..fin[s]
            }) by {
                assert(fin[s] == (State { state_num: fin[s].state_num, ..counted[s] }));
                assert(state_nums(counted)[s] == nums[s]);
                assert(nums[s] == orig[s].state_num);
            }
            assert(resort_keys(counted) == keys@);
        }
    }
}

} // verus!
