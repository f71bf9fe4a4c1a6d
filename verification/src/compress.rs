//! Default reductions.
//!
//! In each state the reduce that occurs most often is made the state's
//! default: one of its actions moves to the sentinel lookahead, the others
//! are dropped.

use crate::actions::{
    lemma_sorted_lookaheads, lookahead_sorted, same_but_actions, sorted_actions, state_nums,
};
use crate::automaton::{action_ok, lemma_state_ok};
use crate::config::{Action, EAction};
use crate::grammar::{lemma_names_unique, Lemon};
use crate::loader::default_name;
use crate::symbol::{Rule, Symbol};
use vstd::prelude::*;

verus! {

/// How many of the actions from position `from` on reduce by rule `r`.
pub open spec fn count_reduce(ap: Seq<Action>, r: usize, from: int) -> nat
    decreases ap.len() - from,
{
    if from < 0 || from >= ap.len() {
        0
    } else {
        count_reduce(ap, r, from + 1) + if ap[from].x == EAction::Reduce(r) {
            1nat
        } else {
            0nat
        }
    }
}

/// Some action shifts on the wildcard.
pub open spec fn shifts_wildcard(ap: Seq<Action>, wildcard: Option<usize>) -> bool {
    wildcard matches Some(w) && exists|k: int|
        0 <= k < ap.len() && (#[trigger] ap[k]).x is Shift && ap[k].sp == w
}

/// The `k`-th action is the first that reduces by rule `r`.
pub open spec fn first_reduce(ap: Seq<Action>, r: usize, k: int) -> bool {
    &&& 0 <= k < ap.len()
    &&& ap[k].x == EAction::Reduce(r)
    &&& forall|j: int| 0 <= j < k ==> (#[trigger] ap[j]).x != EAction::Reduce(r)
}

/// Rule `r` can be a default in the list: it is not a rule of the start
/// symbol and some action reduces by it.
pub open spec fn eligible(ap: Seq<Action>, rules: Seq<Rule>, r: usize) -> bool {
    r < rules.len() && !rules[r as int].lhs_start && count_reduce(ap, r, 0) >= 1
}

/// Rule `r`, first reduced by at action `f`, is the default of the list: no
/// rule that can be a default is reduced by more often, and none that is
/// reduced by as often is met earlier.
pub open spec fn is_best(ap: Seq<Action>, rules: Seq<Rule>, r: usize, f: int) -> bool {
    &&& eligible(ap, rules, r)
    &&& first_reduce(ap, r, f)
    &&& forall|q: usize, g: int|
        eligible(ap, rules, q) && #[trigger] first_reduce(ap, q, g) ==> count_reduce(ap, q, 0)
            < count_reduce(ap, r, 0) || (count_reduce(ap, q, 0) == count_reduce(ap, r, 0) && f
            <= g)
}

/// `after` is `before` with the reduces by rule `r` folded into a default:
/// the first of them, at `f`, is on the sentinel lookahead `dflt`, and the
/// others are marked as not used.
pub open spec fn folded(before: Seq<Action>, after: Seq<Action>, r: usize, f: int, dflt: usize) -> bool {
    &&& after.len() == before.len()
    &&& forall|k: int|
        0 <= k < before.len() ==> #[trigger] after[k] == if k == f {
            Action { sp: dflt, x: EAction::Reduce(r) }
        } else if before[k].x == EAction::Reduce(r) {
            Action { sp: before[k].sp, x: EAction::NotUsed }
        } else {
            before[k]
        }
}

/// What compression makes of the actions of a state: nothing, where no rule
/// can be a default or the state shifts on the wildcard; else the default is
/// folded and the actions are put in order again.
pub open spec fn compressed(
    symbols: Seq<Symbol>,
    nums: Seq<usize>,
    rules: Seq<Rule>,
    wildcard: Option<usize>,
    dflt: usize,
    before: Seq<Action>,
    after: Seq<Action>,
) -> bool {
    if shifts_wildcard(before, wildcard) || forall|q: usize| !eligible(before, rules, q) {
        after == before
    } else {
        exists|r: usize, f: int, mid: Seq<Action>|
            #![trigger folded(before, mid, r, f, dflt)]
            is_best(before, rules, r, f) && folded(before, mid, r, f, dflt) && sorted_actions(
                symbols,
                nums,
                mid,
                after,
            )
    }
}

/// Counting from a position counts the action there and then the rest.
pub proof fn lemma_count_unfold(ap: Seq<Action>, r: usize, from: int)
    requires
        0 <= from < ap.len(),
    ensures
        count_reduce(ap, r, from) == count_reduce(ap, r, from + 1) + if ap[from].x
            == EAction::Reduce(r) {
            1nat
        } else {
            0nat
        },
{
}

/// Actions before the first reduce by a rule add nothing to its count.
pub proof fn lemma_count_skip(ap: Seq<Action>, r: usize, upto: int)
    requires
        0 <= upto <= ap.len(),
        forall|j: int| 0 <= j < upto ==> (#[trigger] ap[j]).x != EAction::Reduce(r),
    ensures
        count_reduce(ap, r, 0) == count_reduce(ap, r, upto),
    decreases upto,
{
    if upto > 0 {
        lemma_count_skip(ap, r, upto - 1);
        lemma_count_unfold(ap, r, upto - 1);
    }
}

/// Counting from further on counts no more.
pub proof fn lemma_count_suffix(ap: Seq<Action>, r: usize, from: int)
    requires
        0 <= from <= ap.len(),
    ensures
        count_reduce(ap, r, from) <= count_reduce(ap, r, 0),
    decreases from,
{
    if from > 0 {
        lemma_count_suffix(ap, r, from - 1);
        lemma_count_unfold(ap, r, from - 1);
    }
}

/// A rule with a positive count has a first action that reduces by it.
pub proof fn lemma_count_first(ap: Seq<Action>, r: usize, from: int) -> (k: int)
    requires
        0 <= from <= ap.len(),
        count_reduce(ap, r, from) >= 1,
    ensures
        from <= k < ap.len(),
        ap[k].x == EAction::Reduce(r),
        forall|j: int| from <= j < k ==> (#[trigger] ap[j]).x != EAction::Reduce(r),
    decreases ap.len() - from,
{
    if ap[from].x == EAction::Reduce(r) {
        from
    } else {
        lemma_count_first(ap, r, from + 1)
    }
}

/// The state of the search for the default after the first `i` actions:
/// `best` is the best rule among those first met before `i`, with its first
/// action `f` and its count `n`.
pub open spec fn best_so_far(
    ap: Seq<Action>,
    rules: Seq<Rule>,
    i: int,
    best: Option<usize>,
    f: int,
    n: nat,
) -> bool {
    &&& best is None <==> n == 0
    &&& best matches Some(r) ==> r < rules.len() && !rules[r as int].lhs_start && first_reduce(
        ap,
        r,
        f,
    ) && f < i && n == count_reduce(ap, r, 0) && n >= 1
    &&& forall|q: usize, g: int|
        q < rules.len() && !rules[q as int].lhs_start && #[trigger] first_reduce(ap, q, g) && g < i
            ==> count_reduce(ap, q, 0) < n || (count_reduce(ap, q, 0) == n && f <= g)
}

/// The first action that reduces by a rule is the only first one.
pub proof fn lemma_first_unique(ap: Seq<Action>, r: usize, a: int, b: int)
    requires
        first_reduce(ap, r, a),
        first_reduce(ap, r, b),
    ensures
        a == b,
{
    if a < b {
        assert(ap[a].x != EAction::Reduce(r));
    }
    if b < a {
        assert(ap[b].x != EAction::Reduce(r));
    }
}

/// An action that is not a reduce by a rule that can be a default leaves the
/// search as it is.
proof fn lemma_best_pass(
    ap: Seq<Action>,
    rules: Seq<Rule>,
    i: int,
    best: Option<usize>,
    f: int,
    n: nat,
)
    requires
        0 <= i < ap.len(),
        best_so_far(ap, rules, i, best, f, n),
        match ap[i].x {
            EAction::Reduce(r) => r >= rules.len() || rules[r as int].lhs_start || best == Some(r),
            _ => true,
        },
    ensures
        best_so_far(ap, rules, i + 1, best, f, n),
{
    assert forall|q: usize, g: int|
        q < rules.len() && !rules[q as int].lhs_start && #[trigger] first_reduce(ap, q, g) && g < i
            + 1 implies count_reduce(ap, q, 0) < n || (count_reduce(ap, q, 0) == n && f <= g) by {
        if g == i {
            assert(ap[i].x == EAction::Reduce(q));
            assert(best == Some(q));
            lemma_first_unique(ap, q, f, g);
        }
    }
}

/// A reduce by a rule that can be a default, held against the best so far
/// with its count from here on, gives the best so far of one action more.
proof fn lemma_best_step(
    ap: Seq<Action>,
    rules: Seq<Rule>,
    i: int,
    best: Option<usize>,
    f: int,
    n: nat,
    r: usize,
)
    requires
        0 <= i < ap.len(),
        best_so_far(ap, rules, i, best, f, n),
        ap[i].x == EAction::Reduce(r),
        r < rules.len(),
        !rules[r as int].lhs_start,
        best != Some(r),
    ensures
        count_reduce(ap, r, i) > n ==> best_so_far(
            ap,
            rules,
            i + 1,
            Some(r),
            i,
            count_reduce(ap, r, i),
        ),
        count_reduce(ap, r, i) <= n ==> best_so_far(ap, rules, i + 1, best, f, n),
{
    let here = count_reduce(ap, r, i);
    lemma_count_suffix(ap, r, i);
    lemma_count_unfold(ap, r, i);
    // is this the first reduce by the rule?
    if exists|g: int| 0 <= g < i && (#[trigger] ap[g]).x == EAction::Reduce(r) {
        let g0 = choose|g: int| 0 <= g < i && (#[trigger] ap[g]).x == EAction::Reduce(r);
        lemma_count_skip(ap, r, 0);
        let g = lemma_count_first(ap, r, 0);
        assert(g <= g0) by {
            if g0 < g {
                assert(ap[g0].x != EAction::Reduce(r));
            }
        }
        assert(first_reduce(ap, r, g));
        assert(count_reduce(ap, r, 0) <= n);
        assert(here <= n);
        assert forall|q: usize, h: int|
            q < rules.len() && !rules[q as int].lhs_start && #[trigger] first_reduce(ap, q, h) && h
                < i + 1 implies count_reduce(ap, q, 0) < n || (count_reduce(ap, q, 0) == n && f
            <= h) by {
            if h == i {
                assert(ap[i].x == EAction::Reduce(q));
                assert(ap[g0].x != EAction::Reduce(q));
            }
        }
    } else {
        assert(first_reduce(ap, r, i));
        lemma_count_skip(ap, r, i);
        assert(count_reduce(ap, r, 0) == here);
        if here > n {
            assert forall|q: usize, h: int|
                q < rules.len() && !rules[q as int].lhs_start && #[trigger] first_reduce(ap, q, h)
                    && h < i + 1 implies count_reduce(ap, q, 0) < here || (count_reduce(ap, q, 0)
                == here && i <= h) by {
                if h == i {
                    assert(ap[i].x == EAction::Reduce(q));
                }
            }
        } else {
            assert forall|q: usize, h: int|
                q < rules.len() && !rules[q as int].lhs_start && #[trigger] first_reduce(ap, q, h)
                    && h < i + 1 implies count_reduce(ap, q, 0) < n || (count_reduce(ap, q, 0) == n
                && f <= h) by {
                if h == i {
                    assert(ap[i].x == EAction::Reduce(q));
                }
            }
        }
    }
}

/// At the end of the search the best so far is the best, or no rule can be a
/// default.
proof fn lemma_best_end(ap: Seq<Action>, rules: Seq<Rule>, best: Option<usize>, f: int, n: nat)
    requires
        best_so_far(ap, rules, ap.len() as int, best, f, n),
    ensures
        best is None ==> forall|q: usize| !eligible(ap, rules, q),
        best matches Some(r) ==> is_best(ap, rules, r, f),
{
    assert forall|q: usize| eligible(ap, rules, q) implies best is Some by {
        let g = lemma_count_first(ap, q, 0);
        assert(first_reduce(ap, q, g));
    }
}

impl Lemon {
    /// Finds the rule to make the default of the actions `ap` and the first
    /// action that reduces by it, unless the actions shift on the wildcard.
    fn find_default(&self, ap: &Vec<Action>) -> (r: Option<(usize, usize)>)
        requires
            self.wf(),
            forall|k: int|
                0 <= k < ap@.len() ==> action_ok(
                    #[trigger] ap@[k],
                    self.symbols@.len(),
                    self.states@.len(),
                    self.rules@.len(),
                ),
        ensures
            r is None <==> (shifts_wildcard(ap@, self.wildcard) || forall|q: usize|
                !eligible(ap@, self.rules@, q)),
            r matches Some((rule, f)) ==> is_best(ap@, self.rules@, rule, f as int),
    {
        let n = ap.len();
        let mut nbest: usize = 0;
        let mut rbest: Option<usize> = None;
        let mut fbest: usize = 0;
        let mut uses_wildcard = false;
        let mut i: usize = 0;
        while i < n
            invariant
                i <= n,
                n == ap@.len(),
                self.wf(),
                forall|k: int|
                    0 <= k < ap@.len() ==> action_ok(
                        #[trigger] ap@[k],
                        self.symbols@.len(),
                        self.states@.len(),
                        self.rules@.len(),
                    ),
                best_so_far(ap@, self.rules@, i as int, rbest, fbest as int, nbest as nat),
                uses_wildcard == shifts_wildcard(ap@.take(i as int), self.wildcard),
            decreases n - i,
        {
            let a = ap[i];
            proof {
                let before = ap@.take(i as int);
                let after = ap@.take(i + 1);
                assert(after[i as int] == ap@[i as int]);
                if shifts_wildcard(before, self.wildcard) {
                    let k = choose|k: int|
                        0 <= k < before.len() && (#[trigger] before[k]).x is Shift && before[k].sp
                            == self.wildcard->0;
                    assert(after[k].x is Shift && after[k].sp == self.wildcard->0);
                }
                if shifts_wildcard(after, self.wildcard) {
                    let k = choose|k: int|
                        0 <= k < after.len() && (#[trigger] after[k]).x is Shift && after[k].sp
                            == self.wildcard->0;
                    if k < i {
                        assert(before[k].x is Shift && before[k].sp == self.wildcard->0);
                    }
                }
                assert(action_ok(
                    ap@[i as int],
                    self.symbols@.len(),
                    self.states@.len(),
                    self.rules@.len(),
                ));
            }
            match a.x {
                EAction::Shift(_) => {
                    match self.wildcard {
                        Some(w) => {
                            if a.sp == w {
                                uses_wildcard = true;
                            }
                        },
                        None => {},
                    }
                    proof {
                        lemma_best_pass(
                            ap@,
                            self.rules@,
                            i as int,
                            rbest,
                            fbest as int,
                            nbest as nat,
                        );
                    }
                },
                EAction::Reduce(rp) => {
                    let is_best_already = match rbest {
                        Some(b) => b == rp,
                        None => false,
                    };
                    if self.rules[rp].lhs_start || is_best_already {
                        proof {
                            lemma_best_pass(
                                ap@,
                                self.rules@,
                                i as int,
                                rbest,
                                fbest as int,
                                nbest as nat,
                            );
                        }
                    } else {
                        let mut cnt: usize = 1;
                        let mut k: usize = i + 1;
                        proof {
                            lemma_count_unfold(ap@, rp, i as int);
                        }
                        while k < n
                            invariant
                                i < k <= n,
                                n == ap@.len(),
                                cnt + count_reduce(ap@, rp, k as int) == count_reduce(
                                    ap@,
                                    rp,
                                    i as int,
                                ),
                                cnt <= k - i,
                            decreases n - k,
                        {
                            proof {
                                lemma_count_unfold(ap@, rp, k as int);
                            }
                            match ap[k].x {
                                EAction::Reduce(rp2) => {
                                    if rp2 == rp {
                                        cnt += 1;
                                    }
                                },
                                _ => {},
                            }
                            k += 1;
                        }
                        proof {
                            lemma_best_step(
                                ap@,
                                self.rules@,
                                i as int,
                                rbest,
                                fbest as int,
                                nbest as nat,
                                rp,
                            );
                        }
                        if cnt > nbest {
                            nbest = cnt;
                            rbest = Some(rp);
                            fbest = i;
                        }
                    }
                },
                _ => {
                    proof {
                        lemma_best_pass(
                            ap@,
                            self.rules@,
                            i as int,
                            rbest,
                            fbest as int,
                            nbest as nat,
                        );
                    }
                },
            }
            i += 1;
        }
        proof {
            assert(ap@.take(n as int) == ap@);
            lemma_best_end(ap@, self.rules@, rbest, fbest as int, nbest as nat);
        }
        if uses_wildcard {
            return None;
        }
        match rbest {
            Some(r) => Some((r, fbest)),
            None => None,
        }
    }

    /// Folds the most frequent reduce of state `s` into a default on the
    /// lookahead `dflt`, unless the state shifts on the wildcard.
    pub fn compress_state(&mut self, s: usize, dflt: usize)
        requires
            old(self).built_wf(),
            s < old(self).states@.len(),
            dflt < old(self).symbols@.len(),
        ensures
            final(self).built_wf(),
            *final(self) == (Lemon { states: final(self).states, ..*old(self) }),
            final(self).states@.len() == old(self).states@.len(),
            forall|x: int|
                0 <= x < old(self).states@.len() && x != s ==> #[trigger] final(self).states@[x]
                    == old(self).states@[x],
            same_but_actions(old(self).states@[s as int], final(self).states@[s as int]),
            compressed(
                old(self).symbols@,
                state_nums(old(self).states@),
                old(self).rules@,
                old(self).wildcard,
                dflt,
                old(self).states@[s as int].ap@,
                final(self).states@[s as int].ap@,
            ),
            state_nums(final(self).states@) == state_nums(old(self).states@),
    {
        proof {
            lemma_state_ok(
                self.configs@,
                self.states@,
                self.rules@,
                self.symbols@.len(),
                s as int,
            );
        }
        let ghost before = self.states@[s as int].ap@;
        let mut ap = self.actions_of(s);
        match self.find_default(&ap) {
            None => {},
            Some((rule, f)) => {
                let n = ap.len();
                ap[f].sp = dflt;
                let mut k: usize = f + 1;
                while k < n
                    invariant
                        f < k <= n,
                        n == before.len(),
                        ap@.len() == n,
                        first_reduce(before, rule, f as int),
                        forall|x: int|
                            0 <= x < n ==> #[trigger] ap@[x] == if x == f {
                                Action { sp: dflt, x: EAction::Reduce(rule) }
                            } else if x < k && before[x].x == EAction::Reduce(rule) {
                                Action { sp: before[x].sp, x: EAction::NotUsed }
                            } else {
                                before[x]
                            },
                    decreases n - k,
                {
                    let unuse = match ap[k].x {
                        EAction::Reduce(rp) => rp == rule,
                        _ => false,
                    };
                    if unuse {
                        ap[k].x = EAction::NotUsed;
                    }
                    k += 1;
                }
                let ghost mid = ap@;
                proof {
                    assert(folded(before, mid, rule, f as int, dflt)) by {
                        assert forall|x: int| 0 <= x < before.len() implies #[trigger] mid[x] == if x
                            == f {
                            Action { sp: dflt, x: EAction::Reduce(rule) }
                        } else if before[x].x == EAction::Reduce(rule) {
                            Action { sp: before[x].sp, x: EAction::NotUsed }
                        } else {
                            before[x]
                        } by {
                            if x < f {
                                assert(before[x].x != EAction::Reduce(rule));
                            }
                        }
                    }
                    assert forall|x: int| 0 <= x < mid.len() implies action_ok(
                        #[trigger] mid[x],
                        self.symbols@.len(),
                        self.states@.len(),
                        self.rules@.len(),
                    ) by {
                        assert(action_ok(
                            before[x],
                            self.symbols@.len(),
                            self.states@.len(),
                            self.rules@.len(),
                        ));
                    }
                }
                let ghost states_before = self.states@;
                self.set_actions(s, ap);
                let ghost states_mid = self.states@;
                proof {
                    assert(state_nums(states_mid) =~= state_nums(states_before)) by {
                        assert forall|x: int| 0 <= x < states_before.len() implies state_nums(
                            states_mid,
                        )[x] == state_nums(states_before)[x] by {
                            assert(same_but_actions(states_before[x], states_mid[x])
                                || states_mid[x] == states_before[x]);
                        }
                    }
                }
                self.sort_actions(s);
                proof {
                    assert(same_but_actions(states_before[s as int], states_mid[s as int]));
                }
            },
        }
    }
}

impl Lemon {
    /// Folds, in every state, the most frequent reduce into a default on the
    /// sentinel lookahead. A state that shifts on the wildcard keeps all its
    /// actions, so that the default cannot hide the wildcard.
    pub fn compress_tables(&mut self)
        requires
            old(self).built_wf(),
            old(self).loaded(),
            forall|s: int|
                0 <= s < old(self).states@.len() ==> lookahead_sorted(
                    old(self).symbols@,
                    (#[trigger] old(self).states@[s]).ap@,
                ),
        ensures
            final(self).built_wf(),
            *final(self) == (Lemon { states: final(self).states, ..*old(self) }),
            final(self).states@.len() == old(self).states@.len(),
            state_nums(final(self).states@) == state_nums(old(self).states@),
            forall|s: int|
                0 <= s < old(self).states@.len() ==> same_but_actions(
                    old(self).states@[s],
                    #[trigger] final(self).states@[s],
                ) && compressed(
                    old(self).symbols@,
                    state_nums(old(self).states@),
                    old(self).rules@,
                    old(self).wildcard,
                    (old(self).symbols@.len() - 1) as usize,
                    old(self).states@[s].ap@,
                    final(self).states@[s].ap@,
                ),
            forall|s: int|
                0 <= s < final(self).states@.len() ==> lookahead_sorted(
                    final(self).symbols@,
                    (#[trigger] final(self).states@[s]).ap@,
                ),
    {
        let name = "{default}".to_owned();
        let dflt = match self.symbol_find(&name) {
            Some(d) => d,
            None => {
                proof {
                    assert(self.symbols@[self.symbols@.len() - 1].name@ == default_name());
                }
                return ;
            },
        };
        proof {
            reveal_strlit("{default}");
            lemma_names_unique(
                self.symbols@,
                self.rules@,
                dflt as int,
                self.symbols@.len() - 1,
            );
        }
        let ghost orig = self.states@;
        let ghost nums = state_nums(orig);
        let ns = self.states.len();
        let mut s: usize = 0;
        while s < ns
            invariant
                s <= ns,
                ns == orig.len(),
                orig == old(self).states@,
                nums == state_nums(orig),
                dflt == old(self).symbols@.len() - 1,
                self.built_wf(),
                *self == (Lemon { states: self.states, ..*old(self) }),
                self.states@.len() == ns,
                state_nums(self.states@) == nums,
                forall|x: int| s <= x < ns ==> #[trigger] self.states@[x] == orig[x],
                forall|x: int|
                    0 <= x < s ==> same_but_actions(orig[x], #[trigger] self.states@[x]) && compressed(
                        self.symbols@,
                        nums,
                        self.rules@,
                        self.wildcard,
                        dflt,
                        orig[x].ap@,
                        self.states@[x].ap@,
                    ),
                forall|x: int|
                    0 <= x < ns ==> lookahead_sorted(self.symbols@, (#[trigger] self.states@[x]).ap@),
            decreases ns - s,
        {
            let ghost prev = self.states@;
            self.compress_state(s, dflt);
            proof {
                let fin = self.states@;
                assert forall|x: int| 0 <= x < ns implies lookahead_sorted(
                    self.symbols@,
                    (#[trigger] fin[x]).ap@,
                ) by {
                    if x == s {
                        if fin[x].ap@ != prev[x].ap@ {
                            let (r0, f0, mid) = choose|r: usize, f: int, mid: Seq<Action>|
                                #![trigger folded(prev[x].ap@, mid, r, f, dflt)]
                                is_best(prev[x].ap@, self.rules@, r, f) && folded(
                                    prev[x].ap@,
                                    mid,
                                    r,
                                    f,
                                    dflt,
                                ) && sorted_actions(self.symbols@, nums, mid, fin[x].ap@);
                            lemma_sorted_lookaheads(self.symbols@, nums, mid, fin[x].ap@);
                        }
                    } else {
                        assert(fin[x] == prev[x]);
                    }
                }
            }
            s += 1;
        }
    }
}

/// Folding a default brings no conflict into the actions.
pub proof fn lemma_compressed_conflict(
    symbols: Seq<Symbol>,
    nums: Seq<usize>,
    rules: Seq<Rule>,
    wildcard: Option<usize>,
    dflt: usize,
    before: Seq<Action>,
    after: Seq<Action>,
)
    requires
        compressed(symbols, nums, rules, wildcard, dflt, before, after),
        crate::actions::some_conflict(after),
    ensures
        crate::actions::some_conflict(before),
{
    if shifts_wildcard(before, wildcard) || forall|q: usize| !eligible(before, rules, q) {
    } else {
        let (r, f, mid) = choose|r: usize, f: int, mid: Seq<Action>|
            #![trigger folded(before, mid, r, f, dflt)]
            is_best(before, rules, r, f) && folded(before, mid, r, f, dflt) && sorted_actions(
                symbols,
                nums,
                mid,
                after,
            );
        let k = choose|k: int|
            0 <= k < after.len() && crate::actions::is_conflict((#[trigger] after[k]).x);
        crate::actions::lemma_sorted_conflict(symbols, nums, mid, after, k);
        let m = choose|m: int| 0 <= m < mid.len() && crate::actions::is_conflict((#[trigger] mid[m]).x);
        assert(crate::actions::is_conflict(before[m].x));
    }
}

} // verus!
