//! The report on the states that have conflicts.

use crate::actions::is_conflict;
use crate::automaton::lemma_state_ok;
use crate::config::{Action, Config, EAction, State};
use crate::grammar::Lemon;
use vstd::prelude::*;

verus! {

/// A configuration as the report shows it.
#[derive(Clone, Copy, Debug, PartialEq, Eq, Structural)]
pub struct ReportItem {
    pub rule: usize,
    pub dot: usize,
}

/// What the report says of one state: its number, its configurations, its
/// actions but those that were folded into the default, and how many of the
/// actions are in conflict.
#[derive(Debug)]
pub struct StateReport {
    pub state: usize,
    pub state_num: usize,
    pub items: Vec<ReportItem>,
    pub lines: Vec<Action>,
    pub num_conflicts: usize,
}

/// How many of the first `upto` actions are in conflict.
pub open spec fn count_conflicts(ap: Seq<Action>, upto: int) -> nat
    decreases upto,
{
    if upto <= 0 {
        0
    } else {
        count_conflicts(ap, upto - 1) + if is_conflict(ap[upto - 1].x) {
            1nat
        } else {
            0nat
        }
    }
}

/// The first `upto` actions but those marked as not used.
pub open spec fn used_actions(ap: Seq<Action>, upto: int) -> Seq<Action>
    decreases upto,
{
    if upto <= 0 {
        Seq::empty()
    } else if ap[upto - 1].x is NotUsed {
        used_actions(ap, upto - 1)
    } else {
        used_actions(ap, upto - 1).push(ap[upto - 1])
    }
}

/// The report describes state `s`.
pub open spec fn reports_state(states: Seq<State>, configs: Seq<Config>, s: int, rep: StateReport) -> bool {
    &&& rep.state == s
    &&& rep.state_num == states[s].state_num
    &&& rep.items@.len() == states[s].cfp@.len()
    &&& forall|k: int|
        0 <= k < rep.items@.len() ==> #[trigger] rep.items@[k] == (ReportItem {
            rule: configs[states[s].cfp@[k] as int].rule,
            dot: configs[states[s].cfp@[k] as int].dot,
        })
    &&& rep.lines@ == used_actions(states[s].ap@, states[s].ap@.len() as int)
    &&& rep.num_conflicts == count_conflicts(states[s].ap@, states[s].ap@.len() as int)
}

/// The reports describe, in order, the states before `upto` that have an
/// action in conflict.
pub open spec fn reports_conflicts(
    states: Seq<State>,
    configs: Seq<Config>,
    reports: Seq<StateReport>,
    upto: int,
) -> bool {
    &&& forall|k: int|
        0 <= k < reports.len() ==> 0 <= (#[trigger] reports[k]).state < upto && reports_state(
            states,
            configs,
            reports[k].state as int,
            reports[k],
        ) && reports[k].num_conflicts > 0
    &&& forall|j: int, k: int|
        0 <= j < k < reports.len() ==> (#[trigger] reports[j]).state < (#[trigger] reports[k]).state
    &&& forall|s: int|
        0 <= s < upto && count_conflicts(states[s].ap@, states[s].ap@.len() as int) > 0
            ==> exists|k: int| 0 <= k < reports.len() && (#[trigger] reports[k]).state == s
}

impl Lemon {
    /// What the report says of state `s`.
    pub fn report_state(&self, s: usize) -> (rep: StateReport)
        requires
            self.built_wf(),
            s < self.states@.len(),
        ensures
            reports_state(self.states@, self.configs@, s as int, rep),
    {
        proof {
            lemma_state_ok(
                self.configs@,
                self.states@,
                self.rules@,
                self.symbols@.len(),
                s as int,
            );
        }
        let st = &self.states[s];
        let mut items: Vec<ReportItem> = Vec::new();
        let n = st.cfp.len();
        let mut k: usize = 0;
        while k < n
            invariant
                k <= n,
                s < self.states@.len(),
                *st == self.states@[s as int],
                n == st.cfp@.len(),
                forall|x: int| 0 <= x < n ==> (#[trigger] st.cfp@[x]) < self.configs@.len(),
                items@.len() == k,
                forall|x: int|
                    0 <= x < k ==> #[trigger] items@[x] == (ReportItem {
                        rule: self.configs@[st.cfp@[x] as int].rule,
                        dot: self.configs@[st.cfp@[x] as int].dot,
                    }),
            decreases n - k,
        {
            let c = st.cfp[k];
            items.push(ReportItem { rule: self.configs[c].rule, dot: self.configs[c].dot });
            k += 1;
        }
        let mut lines: Vec<Action> = Vec::new();
        let mut num_conflicts: usize = 0;
        let na = st.ap.len();
        let mut k: usize = 0;
        while k < na
            invariant
                k <= na,
                *st == self.states@[s as int],
                na == st.ap@.len(),
                lines@ == used_actions(st.ap@, k as int),
                num_conflicts == count_conflicts(st.ap@, k as int),
                num_conflicts <= k,
            decreases na - k,
        {
            let a = st.ap[k];
            match a.x {
                EAction::NotUsed => {},
                EAction::SSConflict(_) | EAction::SRConflict(_) | EAction::RRConflict(_) => {
                    lines.push(a);
                    num_conflicts += 1;
                },
                _ => {
                    lines.push(a);
                },
            }
            k += 1;
        }
        StateReport { state: s, state_num: st.state_num, items, lines, num_conflicts }
    }

    /// Describes every state that has an action in conflict: its
    /// configurations, its actions, and the number of its conflicts. The
    /// states follow each other in the order of their finding.
    pub fn report_output(&self) -> (reports: Vec<StateReport>)
        requires
            self.built_wf(),
        ensures
            reports_conflicts(
                self.states@,
                self.configs@,
                reports@,
                self.states@.len() as int,
            ),
    {
        let n = self.states.len();
        let mut reports: Vec<StateReport> = Vec::new();
        let mut s: usize = 0;
        while s < n
            invariant
                s <= n,
                n == self.states@.len(),
                self.built_wf(),
                reports_conflicts(self.states@, self.configs@, reports@, s as int),
            decreases n - s,
        {
            let rep = self.report_state(s);
            let ghost before = reports@;
            if rep.num_conflicts > 0 {
                reports.push(rep);
            }
            proof {
                let after = reports@;
                assert forall|t: int|
                    0 <= t < s + 1 && count_conflicts(
                        self.states@[t].ap@,
                        self.states@[t].ap@.len() as int,
                    ) > 0 implies exists|k: int|
                    0 <= k < after.len() && (#[trigger] after[k]).state == t by {
                    if t < s {
                        let k = choose|k: int| 0 <= k < before.len() && (#[trigger] before[k]).state == t;
                        assert(after[k].state == t);
                    } else {
                        assert(after[after.len() - 1].state == t);
                    }
                }
            }
            s += 1;
        }
        reports
    }
}

} // verus!
