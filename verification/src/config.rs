//! Configurations, actions and states of the automaton.
//!
//! Configurations live in one table shared by all states and are referred to
//! by their position in it; states are referred to by the number they got when
//! they were found.

use std::collections::BTreeSet;
use vstd::prelude::*;

verus! {

/// Whether a configuration still has to be looked at in the current pass.
#[derive(Clone, Copy, Debug, PartialEq, Eq, Structural)]
pub enum CfgStatus {
    Complete,
    Incomplete,
}

/// A rule with a mark that says how much of it has been seen, and the
/// terminals that may follow the rule in this place.
#[derive(Debug)]
pub struct Config {
    pub rule: usize,
    /// How many symbols of the right-hand side lie before the mark.
    pub dot: usize,
    /// Indices of the terminals that may follow.
    pub fws: BTreeSet<usize>,
    /// The configurations that inherit this one's follow set.
    pub fplp: Vec<usize>,
    /// The configurations whose follow set this one inherits.
    pub bplp: Vec<usize>,
    pub status: CfgStatus,
}

/// What to do on a lookahead.
#[derive(Clone, Copy, Debug, PartialEq, Eq, Structural)]
pub enum EAction {
    Shift(usize),
    Accept,
    Reduce(usize),
    Error,
    /// A shift that lost against an earlier shift on the same lookahead.
    SSConflict(usize),
    /// A reduce that clashes with a shift and could not be resolved.
    SRConflict(usize),
    /// A reduce that clashes with another reduce and could not be resolved.
    RRConflict(usize),
    /// A shift dropped in favour of a reduce of higher precedence.
    SHResolved(usize),
    /// A reduce dropped in favour of an action of higher precedence.
    RDResolved(usize),
    /// A reduce folded into the state's default.
    NotUsed,
}

/// An action of a state: the lookahead symbol and what to do on it.
#[derive(Clone, Copy, Debug, PartialEq, Eq, Structural)]
pub struct Action {
    pub sp: usize,
    pub x: EAction,
}

/// A state of the automaton.
#[derive(Debug)]
pub struct State {
    /// All configurations of the state, ordered by rule and mark.
    pub cfp: Vec<usize>,
    /// The configurations that the state was found by, ordered likewise.
    pub bp: Vec<usize>,
    pub state_num: usize,
    pub ap: Vec<Action>,
    /// How many actions on terminals go into the tables.
    pub n_tkn_act: usize,
    /// How many actions on nonterminals go into the tables.
    pub n_nt_act: usize,
    /// Offset of the row of terminal actions, if the state has one.
    pub i_tkn_ofst: Option<i32>,
    /// Offset of the row of nonterminal actions, if the state has one.
    pub i_nt_ofst: Option<i32>,
    /// Code of the action taken where no row entry matches.
    pub i_dflt: usize,
}

} // verus!
