//! What it means for the automaton's tables to be consistent, and the single
//! steps by which the passes change them.

use crate::config::{Action, Config, EAction, State};
use crate::grammar::Lemon;
use crate::sets::below;
use crate::symbol::Rule;
use vstd::prelude::*;

verus! {

/// Configuration `c` is for a rule that exists, with its mark inside the
/// rule; what it links to exists; its follow set holds indices of symbols.
pub open spec fn config_ok(configs: Seq<Config>, rules: Seq<Rule>, nsyms: nat, c: int) -> bool {
    let cfg = configs[c];
    &&& cfg.rule < rules.len()
    &&& cfg.dot <= rules[cfg.rule as int].rhs@.len()
    &&& below(cfg.fws@, nsyms)
    &&& forall|k: int| 0 <= k < cfg.fplp@.len() ==> (#[trigger] cfg.fplp@[k]) < configs.len()
    &&& forall|k: int| 0 <= k < cfg.bplp@.len() ==> (#[trigger] cfg.bplp@[k]) < configs.len()
}

/// The action is on a symbol that exists and leads to a state, or reduces by
/// a rule, that exists.
pub open spec fn action_ok(a: Action, nsyms: nat, nstates: nat, nrules: nat) -> bool {
    &&& a.sp < nsyms
    &&& match a.x {
        EAction::Shift(t) | EAction::SSConflict(t) | EAction::SHResolved(t) => t < nstates,
        EAction::Reduce(r) | EAction::SRConflict(r) | EAction::RRConflict(r) | EAction::RDResolved(
            r,
        ) => r < nrules,
        _ => true,
    }
}

/// State `s` refers only to configurations, symbols, states and rules that
/// exist.
pub open spec fn state_ok(
    states: Seq<State>,
    nconfigs: nat,
    nsyms: nat,
    nrules: nat,
    s: int,
) -> bool {
    let st = states[s];
    &&& forall|k: int| 0 <= k < st.cfp@.len() ==> (#[trigger] st.cfp@[k]) < nconfigs
    &&& forall|k: int| 0 <= k < st.bp@.len() ==> (#[trigger] st.bp@[k]) < nconfigs
    &&& forall|k: int|
        0 <= k < st.ap@.len() ==> action_ok(#[trigger] st.ap@[k], nsyms, states.len(), nrules)
}

/// The automaton's tables refer only to what exists.
#[verifier::opaque]
pub open spec fn automaton_wf(
    configs: Seq<Config>,
    states: Seq<State>,
    rules: Seq<Rule>,
    nsyms: nat,
) -> bool {
    &&& forall|c: int| 0 <= c < configs.len() ==> #[trigger] config_ok(configs, rules, nsyms, c)
    &&& forall|s: int|
        0 <= s < states.len() ==> #[trigger] state_ok(
            states,
            configs.len(),
            nsyms,
            rules.len(),
            s,
        )
}

/// What consistency says of one configuration.
pub proof fn lemma_config_ok(
    configs: Seq<Config>,
    states: Seq<State>,
    rules: Seq<Rule>,
    nsyms: nat,
    c: int,
)
    requires
        automaton_wf(configs, states, rules, nsyms),
        0 <= c < configs.len(),
    ensures
        config_ok(configs, rules, nsyms, c),
{
    reveal(automaton_wf);
}

/// What consistency says of one state.
pub proof fn lemma_state_ok(
    configs: Seq<Config>,
    states: Seq<State>,
    rules: Seq<Rule>,
    nsyms: nat,
    s: int,
)
    requires
        automaton_wf(configs, states, rules, nsyms),
        0 <= s < states.len(),
    ensures
        state_ok(states, configs.len(), nsyms, rules.len(), s),
{
    reveal(automaton_wf);
}

/// Tables without configurations and states are consistent.
pub proof fn lemma_empty_automaton(
    configs: Seq<Config>,
    states: Seq<State>,
    rules: Seq<Rule>,
    nsyms: nat,
)
    requires
        configs.len() == 0,
        states.len() == 0,
    ensures
        automaton_wf(configs, states, rules, nsyms),
{
    reveal(automaton_wf);
}

/// Changing configurations consistently keeps the automaton consistent.
pub proof fn lemma_configs_changed(
    before: Seq<Config>,
    after: Seq<Config>,
    states: Seq<State>,
    rules: Seq<Rule>,
    nsyms: nat,
)
    requires
        automaton_wf(before, states, rules, nsyms),
        before.len() <= after.len(),
        forall|c: int| 0 <= c < after.len() ==> #[trigger] config_ok(after, rules, nsyms, c),
    ensures
        automaton_wf(after, states, rules, nsyms),
{
    reveal(automaton_wf);
    assert forall|s: int| 0 <= s < states.len() implies #[trigger] state_ok(
        states,
        after.len(),
        nsyms,
        rules.len(),
        s,
    ) by {
        assert(state_ok(states, before.len(), nsyms, rules.len(), s));
    }
}

/// Changing states consistently keeps the automaton consistent.
pub proof fn lemma_states_changed(
    configs: Seq<Config>,
    before: Seq<State>,
    after: Seq<State>,
    rules: Seq<Rule>,
    nsyms: nat,
)
    requires
        automaton_wf(configs, before, rules, nsyms),
        forall|s: int|
            0 <= s < after.len() ==> #[trigger] state_ok(
                after,
                configs.len(),
                nsyms,
                rules.len(),
                s,
            ),
    ensures
        automaton_wf(configs, after, rules, nsyms),
{
    reveal(automaton_wf);
}

/// Setting flags of rules keeps the automaton consistent.
pub proof fn lemma_rules_marked(
    configs: Seq<Config>,
    states: Seq<State>,
    before: Seq<Rule>,
    after: Seq<Rule>,
    nsyms: nat,
)
    requires
        automaton_wf(configs, states, before, nsyms),
        after.len() == before.len(),
        forall|r: int| 0 <= r < before.len() ==> (#[trigger] after[r]).rhs == before[r].rhs,
    ensures
        automaton_wf(configs, states, after, nsyms),
{
    reveal(automaton_wf);
    assert forall|c: int| 0 <= c < configs.len() implies #[trigger] config_ok(
        configs,
        after,
        nsyms,
        c,
    ) by {
        assert(config_ok(configs, before, nsyms, c));
        assert(after[configs[c].rule as int].rhs == before[configs[c].rule as int].rhs);
    }
}

impl Lemon {
    /// The grammar's tables and the automaton's are consistent.
    pub open spec fn built_wf(&self) -> bool {
        &&& self.wf()
        &&& automaton_wf(self.configs@, self.states@, self.rules@, self.symbols@.len())
    }
}

} // verus!
