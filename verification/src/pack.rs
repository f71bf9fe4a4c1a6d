//! Packing the actions of all states into one table.
//!
//! Every state has a row of actions on terminals and a row of actions on
//! nonterminals. The rows with the most actions are stored first. What a
//! state finds in the table at the offset of one of its rows is exactly that
//! row.

use crate::actions::{lookahead_sorted, state_nums};
use crate::acttab::{
    can_place, can_reuse, claims, law_stored_row_is_read_back, law_stored_row_keeps_others,
    law_storing_has_one_outcome, lookup, row_action, row_has, row_sorted, row_written, unclaimed,
    ActTab, ActionSet, LookaheadAction, MAX_TABLE_INDEX,
};
use crate::automaton::{action_ok, lemma_state_ok, lemma_states_changed, state_ok};
use crate::config::{Action, State};
use crate::error::{Error, Fault};
use crate::grammar::Lemon;
use crate::order::{is_sorted_order, law_one_sorted_order, occurs, sorted_order, Key3};
use crate::resort::{action_code, is_coded};
use crate::symbol::Symbol;
use vstd::prelude::*;

verus! {

/// An action on a lookahead of the given index belongs to the row of
/// actions on terminals, or to that of actions on nonterminals.
pub open spec fn in_row(index: usize, nterminal: usize, nsymbol: usize, is_tkn: bool) -> bool {
    if is_tkn {
        index < nterminal
    } else {
        index >= nterminal && index != nsymbol
    }
}

/// The cells that the first `upto` of the actions contribute to a row: one
/// for each action that has a code and belongs to the row, in order.
pub open spec fn row_cells(
    symbols: Seq<Symbol>,
    nums: Seq<usize>,
    nrules: int,
    nterminal: usize,
    nsymbol: usize,
    ap: Seq<Action>,
    is_tkn: bool,
    upto: int,
) -> Seq<LookaheadAction>
    decreases upto,
{
    if upto <= 0 {
        Seq::empty()
    } else {
        let before = row_cells(symbols, nums, nrules, nterminal, nsymbol, ap, is_tkn, upto - 1);
        let a = ap[upto - 1];
        let index = symbols[a.sp as int].index;
        if is_coded(a.x) && in_row(index, nterminal, nsymbol, is_tkn) {
            before.push(
                LookaheadAction {
                    lookahead: index,
                    action: action_code(nums, nums.len() as int, nrules, a.x)->0 as usize,
                },
            )
        } else {
            before
        }
    }
}

/// How long a table of `rows` rows can get, where every row makes it longer
/// by `width` at most.
pub open spec fn room(rows: nat, width: nat) -> nat
    decreases rows,
{
    if rows == 0 {
        0
    } else {
        room((rows - 1) as nat, width) + width
    }
}

/// More rows need no less room.
pub proof fn lemma_room_mono(a: nat, b: nat, width: nat)
    requires
        a <= b,
    ensures
        room(a, width) <= room(b, width),
    decreases b,
{
    if a < b {
        lemma_room_mono(a, (b - 1) as nat, width);
    }
}

/// The tables cannot hold the rows of the grammar for sure: two rows for
/// every state, each as wide as there are symbols, may need more slots than
/// an offset can address.
pub open spec fn may_overflow(lem: Lemon) -> bool {
    room((2 * lem.states@.len()) as nat, lem.symbols@.len()) + lem.symbols@.len() > MAX_TABLE_INDEX
}

/// The offset of the row of state `s` for terminals (`is_tkn`) or for
/// nonterminals.
pub open spec fn row_offset(states: Seq<State>, s: int, is_tkn: bool) -> Option<i32> {
    if is_tkn {
        states[s].i_tkn_ofst
    } else {
        states[s].i_nt_ofst
    }
}

/// Slot `k` of the table is a cell of the row of state `s`: the row has an
/// offset, and the slot looks to a reader at that offset like a cell of its
/// row.
pub open spec fn owns(
    tab: Seq<Option<LookaheadAction>>,
    states: Seq<State>,
    s: int,
    is_tkn: bool,
    k: int,
) -> bool {
    &&& 0 <= s < states.len()
    &&& row_offset(states, s, is_tkn) matches Some(o) && claims(tab, o as int, k)
}

/// Slot `k` of the table is a cell of the row of some state.
pub open spec fn cell_owned(tab: Seq<Option<LookaheadAction>>, states: Seq<State>, k: int) -> bool {
    exists|s: int, is_tkn: bool| #[trigger] owns(tab, states, s, is_tkn, k)
}

/// Every occupied slot of the table is a cell of the row of some state.
pub open spec fn all_owned(tab: Seq<Option<LookaheadAction>>, states: Seq<State>) -> bool {
    forall|k: int| 0 <= k < tab.len() && tab[k] is Some ==> #[trigger] cell_owned(tab, states, k)
}

/// The states are listed by their numbers.
pub open spec fn ranked(lem: Lemon) -> bool {
    &&& lem.state_order@.len() == lem.states@.len()
    &&& forall|i: int|
        0 <= i < lem.state_order@.len() ==> (#[trigger] lem.state_order@[i]) < lem.states@.len()
            && lem.states@[lem.state_order@[i] as int].state_num == i
}

/// The state that row `e` belongs to, where the rows of the state of rank
/// `i` are the rows `2 * i` and `2 * i + 1`.
pub open spec fn entry_state(lem: Lemon, e: int) -> usize {
    lem.state_order@[e / 2]
}

/// Whether row `e` is a row for terminals: the even ones are.
pub open spec fn entry_kind(e: int) -> bool {
    e % 2 == 0
}

/// The key by which row `e` is ordered for storing: the number of its
/// actions.
pub open spec fn pack_key(lem: Lemon, e: int) -> Key3 {
    let st = lem.states@[entry_state(lem, e) as int];
    Key3 {
        k0: if entry_kind(e) {
            st.n_tkn_act
        } else {
            st.n_nt_act
        },
        k1: 0,
        k2: 0,
    }
}

/// The keys of all rows.
pub open spec fn pack_keys(lem: Lemon) -> Seq<Key3> {
    Seq::new((2 * lem.states@.len()) as nat, |e: int| pack_key(lem, e))
}

/// Every row that has an offset is read back from the table at it.
pub open spec fn rows_readable(tab: Seq<Option<LookaheadAction>>, lem: Lemon) -> bool {
    forall|s: int|
        0 <= s < lem.states@.len() ==> reads_back(
            tab,
            (#[trigger] lem.states@[s]).i_tkn_ofst,
            lem.row_of(s, true),
        ) && reads_back(tab, lem.states@[s].i_nt_ofst, lem.row_of(s, false))
}

/// The row of state `s` made table `before` into table `after`: an empty
/// row has no offset and left the table as it was; another has an offset
/// and was stored at it.
pub open spec fn row_stored(
    lem: Lemon,
    s: int,
    is_tkn: bool,
    before: Seq<Option<LookaheadAction>>,
    after: Seq<Option<LookaheadAction>>,
) -> bool {
    let row = lem.row_of(s, is_tkn);
    if row.len() == 0 {
        after == before && row_offset(lem.states@, s, is_tkn) is None
    } else {
        row_offset(lem.states@, s, is_tkn) matches Some(o) && crate::acttab::stored(
            before,
            row,
            after,
            o as int,
        )
    }
}

/// The `p`-th step of storing took the row that `order` lists `p`-th from
/// its end.
pub open spec fn pack_step(
    lem: Lemon,
    order: Seq<usize>,
    tabs: Seq<Seq<Option<LookaheadAction>>>,
    p: int,
) -> bool {
    let e = order[order.len() - 1 - p] as int;
    row_stored(lem, entry_state(lem, e) as int, entry_kind(e), tabs[p], tabs[p + 1])
}

/// The rows of the state of rank `i` are the rows `2 * i` and `2 * i + 1`.
pub proof fn lemma_entry_of_rank(lem: Lemon, i: int)
    requires
        0 <= i,
    ensures
        entry_state(lem, 2 * i) == lem.state_order@[i],
        entry_state(lem, 2 * i + 1) == lem.state_order@[i],
        entry_kind(2 * i),
        !entry_kind(2 * i + 1),
{
}

/// Every row belongs to a state.
pub proof fn lemma_entry_in_range(lem: Lemon, e: int)
    requires
        ranked(lem),
        0 <= e < 2 * lem.states@.len(),
    ensures
        entry_state(lem, e) < lem.states@.len(),
{
    assert(0 <= e / 2 < lem.state_order@.len());
}

/// Two rows are not the same row of the same state.
pub proof fn lemma_entries_differ(lem: Lemon, a: int, b: int)
    requires
        ranked(lem),
        0 <= a < 2 * lem.states@.len(),
        0 <= b < 2 * lem.states@.len(),
        a != b,
    ensures
        !(entry_state(lem, a) == entry_state(lem, b) && entry_kind(a) == entry_kind(b)),
{
    assert(0 <= a / 2 < lem.state_order@.len());
    assert(0 <= b / 2 < lem.state_order@.len());
    if a / 2 != b / 2 {
        assert(lem.states@[lem.state_order@[a / 2] as int].state_num == a / 2);
        assert(lem.states@[lem.state_order@[b / 2] as int].state_num == b / 2);
    }
}

/// The table was made by storing the rows of grammar `lem` one by one, those
/// with the most actions first and, of two with as many, the later first:
/// `order` lists the rows by rising number of actions, and `tabs` shows the
/// table before the first and after every step.
pub open spec fn packed_in_order(
    lem: Lemon,
    order: Seq<usize>,
    tabs: Seq<Seq<Option<LookaheadAction>>>,
    tab: Seq<Option<LookaheadAction>>,
) -> bool {
    &&& is_sorted_order(pack_keys(lem), order)
    &&& tabs.len() == order.len() + 1
    &&& tabs[0].len() == 0
    &&& tabs[order.len() as int] == tab
    &&& forall|p: int| 0 <= p < order.len() ==> #[trigger] pack_step(lem, order, tabs, p)
}

/// The table was made by storing the rows of grammar `lem` one by one, those
/// with the most actions first.
pub open spec fn was_packed(lem: Lemon, tab: Seq<Option<LookaheadAction>>) -> bool {
    exists|order: Seq<usize>, tabs: Seq<Seq<Option<LookaheadAction>>>| #[trigger]
        packed_in_order(lem, order, tabs, tab)
}

/// The rows of state `s` have offsets exactly if they are not empty.
pub open spec fn offsets_given(lem: Lemon, s: int) -> bool {
    &&& lem.states@[s].i_tkn_ofst is Some <==> lem.row_of(s, true).len() > 0
    &&& lem.states@[s].i_nt_ofst is Some <==> lem.row_of(s, false).len() > 0
}

/// State `b` is state `a` but for the offsets of its rows.
pub open spec fn same_but_offsets(a: State, b: State) -> bool {
    b == (State { i_tkn_ofst: b.i_tkn_ofst, i_nt_ofst: b.i_nt_ofst, ..a })
}

/// A row stored at offset `ofst` is read back from the table exactly: every
/// lookahead finds the row's action for it, or nothing where the row has
/// none. A row without offset is not in the table.
pub open spec fn reads_back(
    tab: Seq<Option<LookaheadAction>>,
    ofst: Option<i32>,
    row: Seq<LookaheadAction>,
) -> bool {
    match ofst {
        Some(o) => row.len() > 0 && o > i32::MIN && forall|lh: int|
            #[trigger] lookup(tab, o as int, lh) == row_action(row, lh),
        None => true,
    }
}

/// One of the first `upto` actions is on the lookahead of index `lh`.
pub open spec fn from_action(symbols: Seq<Symbol>, ap: Seq<Action>, upto: int, lh: usize) -> bool {
    exists|k: int| 0 <= k < upto && symbols[(#[trigger] ap[k]).sp as int].index == lh
}

/// Every cell of the row comes from one of the actions.
pub open spec fn cells_from_actions(
    symbols: Seq<Symbol>,
    ap: Seq<Action>,
    upto: int,
    row: Seq<LookaheadAction>,
) -> bool {
    forall|e: int| 0 <= e < row.len() ==> from_action(symbols, ap, upto, (#[trigger] row[e]).lookahead)
}

/// No cell of a row is for the lookahead that fills the free slots.
pub proof fn lemma_row_no_filler(
    symbols: Seq<Symbol>,
    nums: Seq<usize>,
    nrules: int,
    nterminal: usize,
    nsymbol: usize,
    ap: Seq<Action>,
    is_tkn: bool,
    upto: int,
)
    requires
        nterminal <= nsymbol,
    ensures
        forall|e: int|
            0 <= e < row_cells(symbols, nums, nrules, nterminal, nsymbol, ap, is_tkn, upto).len() ==> (
            #[trigger] row_cells(symbols, nums, nrules, nterminal, nsymbol, ap, is_tkn, upto)[e]).lookahead
                != nsymbol,
    decreases upto,
{
    if upto > 0 {
        lemma_row_no_filler(symbols, nums, nrules, nterminal, nsymbol, ap, is_tkn, upto - 1);
        let before = row_cells(symbols, nums, nrules, nterminal, nsymbol, ap, is_tkn, upto - 1);
        let now = row_cells(symbols, nums, nrules, nterminal, nsymbol, ap, is_tkn, upto);
        let index = symbols[ap[upto - 1].sp as int].index;
        assert forall|e: int| 0 <= e < now.len() implies (#[trigger] now[e]).lookahead != nsymbol by {
            if e < before.len() {
                assert(now[e] == before[e]);
            } else {
                assert(in_row(index, nterminal, nsymbol, is_tkn));
                assert(now[e].lookahead == index);
            }
        }
    }
}

/// The cells of a row are in the order of their lookaheads if the actions
/// are.
pub proof fn lemma_row_sorted(
    symbols: Seq<Symbol>,
    nums: Seq<usize>,
    nrules: int,
    nterminal: usize,
    nsymbol: usize,
    ap: Seq<Action>,
    is_tkn: bool,
    upto: int,
)
    requires
        0 <= upto <= ap.len(),
        lookahead_sorted(symbols, ap),
    ensures
        row_sorted(row_cells(symbols, nums, nrules, nterminal, nsymbol, ap, is_tkn, upto)),
        cells_from_actions(
            symbols,
            ap,
            upto,
            row_cells(symbols, nums, nrules, nterminal, nsymbol, ap, is_tkn, upto),
        ),
    decreases upto,
{
    if upto > 0 {
        lemma_row_sorted(symbols, nums, nrules, nterminal, nsymbol, ap, is_tkn, upto - 1);
        let before = row_cells(symbols, nums, nrules, nterminal, nsymbol, ap, is_tkn, upto - 1);
        let row = row_cells(symbols, nums, nrules, nterminal, nsymbol, ap, is_tkn, upto);
        assert forall|e: int| 0 <= e < row.len() implies from_action(
            symbols,
            ap,
            upto,
            (#[trigger] row[e]).lookahead,
        ) by {
            if e < before.len() {
                assert(from_action(symbols, ap, upto - 1, before[e].lookahead));
                let k = choose|k: int|
                    0 <= k < upto - 1 && symbols[(#[trigger] ap[k]).sp as int].index
                        == before[e].lookahead;
                assert(symbols[ap[k].sp as int].index == row[e].lookahead);
            } else {
                assert(symbols[ap[upto - 1].sp as int].index == row[e].lookahead);
            }
        }
        assert forall|x: int, y: int| 0 <= x <= y < row.len() implies row[x].lookahead
            <= row[y].lookahead by {
            if y < before.len() {
                assert(before[x].lookahead <= before[y].lookahead);
            } else if x < before.len() {
                assert(from_action(symbols, ap, upto - 1, before[x].lookahead));
                let k = choose|k: int|
                    0 <= k < upto - 1 && symbols[(#[trigger] ap[k]).sp as int].index
                        == before[x].lookahead;
                assert(symbols[ap[k].sp as int].index <= symbols[ap[upto - 1].sp as int].index);
            }
        }
    }
}

/// A row that is read back at an offset has a slot in the table that claims
/// the offset.
pub proof fn lemma_read_row_claims(tab: Seq<Option<LookaheadAction>>, o: int, row: Seq<LookaheadAction>)
    requires
        row.len() > 0,
        forall|lh: int| #[trigger] lookup(tab, o, lh) == row_action(row, lh),
    ensures
        !unclaimed(tab, o),
{
    let lh = row[0].lookahead as int;
    assert(row_has(row, lh));
    assert(lookup(tab, o, lh) == row_action(row, lh));
    assert(claims(tab, o, lh + o));
}

/// Storing a row keeps every row that was read back readable.
pub proof fn lemma_store_keeps(
    before: Seq<Option<LookaheadAction>>,
    after: Seq<Option<LookaheadAction>>,
    row: Seq<LookaheadAction>,
    res: int,
    ofst: Option<i32>,
    other: Seq<LookaheadAction>,
)
    requires
        row.len() > 0,
        row_sorted(row),
        (exists|i: int| can_reuse(before, row, i)) ==> can_reuse(before, row, res + row[0].lookahead)
            && after == before,
        !(exists|i: int| can_reuse(before, row, i)) ==> can_place(
            before,
            row,
            res + row[0].lookahead,
        ),
        row_written(before, after, row, res),
        reads_back(before, ofst, other),
    ensures
        reads_back(after, ofst, other),
{
    match ofst {
        Some(o) => {
            if exists|i: int| can_reuse(before, row, i) {
            } else {
                lemma_read_row_claims(before, o as int, other);
                assert(o as int != res);
                law_stored_row_keeps_others(before, after, row, res + row[0].lookahead, o as int);
                assert forall|lh: int| #[trigger] lookup(after, o as int, lh) == row_action(
                    other,
                    lh,
                ) by {
                    assert(lookup(before, o as int, lh) == row_action(other, lh));
                }
            }
        },
        None => {},
    }
}

/// A row that was stored is read back at the offset it got.
pub proof fn lemma_store_reads(
    before: Seq<Option<LookaheadAction>>,
    after: Seq<Option<LookaheadAction>>,
    row: Seq<LookaheadAction>,
    res: i32,
)
    requires
        row.len() > 0,
        row_sorted(row),
        (exists|i: int| can_reuse(before, row, i)) ==> can_reuse(before, row, res + row[0].lookahead),
        !(exists|i: int| can_reuse(before, row, i)) ==> can_place(
            before,
            row,
            res + row[0].lookahead,
        ),
        row_written(before, after, row, res as int),
        row[0].lookahead <= MAX_TABLE_INDEX,
    ensures
        reads_back(after, Some(res), row),
{
    law_stored_row_is_read_back(before, after, row, res + row[0].lookahead);
}

impl Lemon {
    /// The cells of the row of state `s` for terminals (`is_tkn`) or for
    /// nonterminals.
    pub open spec fn row_of(&self, s: int, is_tkn: bool) -> Seq<LookaheadAction> {
        row_cells(
            self.symbols@,
            state_nums(self.states@),
            self.rules@.len() as int,
            self.nterminal,
            self.nsymbol,
            self.states@[s].ap@,
            is_tkn,
            self.states@[s].ap@.len() as int,
        )
    }

    /// Builds the row of state `s` for terminals (`is_tkn`) or for
    /// nonterminals: a cell for each action that has a code and a lookahead of
    /// that kind, in the order of the actions.
    pub fn build_row(&self, s: usize, is_tkn: bool) -> (row: ActionSet)
        requires
            self.built_wf(),
            s < self.states@.len(),
            self.states@.len() + self.rules@.len() + 1 <= usize::MAX,
        ensures
            row@ == self.row_of(s as int, is_tkn),
    {
        proof {
            lemma_state_ok(
                self.configs@,
                self.states@,
                self.rules@,
                self.symbols@.len(),
                s as int,
            );
        }
        let ghost ap = self.states@[s as int].ap@;
        let ghost nums = state_nums(self.states@);
        let n = self.states[s].ap.len();
        let mut row = ActionSet::new();
        let mut k: usize = 0;
        while k < n
            invariant
                k <= n,
                s < self.states@.len(),
                ap == self.states@[s as int].ap@,
                nums == state_nums(self.states@),
                n == ap.len(),
                self.states@.len() + self.rules@.len() + 1 <= usize::MAX,
                state_ok(
                    self.states@,
                    self.configs@.len(),
                    self.symbols@.len(),
                    self.rules@.len(),
                    s as int,
                ),
                row@ == row_cells(
                    self.symbols@,
                    nums,
                    self.rules@.len() as int,
                    self.nterminal,
                    self.nsymbol,
                    ap,
                    is_tkn,
                    k as int,
                ),
            decreases n - k,
        {
            let a = self.states[s].ap[k];
            assert(action_ok(ap[k as int], self.symbols@.len(), self.states@.len(), self.rules@.len()));
            let index = self.symbols[a.sp].index;
            let belongs = if is_tkn {
                index < self.nterminal
            } else {
                index >= self.nterminal && index != self.nsymbol
            };
            if belongs {
                match self.compute_action(&a) {
                    Some(action) => {
                        row.add_action(index, action);
                    },
                    None => {},
                }
            }
            k += 1;
        }
        row
    }

    /// Records the offset of a row of state `s`.
    fn set_offset(&mut self, s: usize, is_tkn: bool, ofst: Option<i32>)
        requires
            old(self).built_wf(),
            s < old(self).states@.len(),
        ensures
            final(self).built_wf(),
            *final(self) == (Lemon { states: final(self).states, ..*old(self) }),
            final(self).states@.len() == old(self).states@.len(),
            forall|x: int|
                0 <= x < old(self).states@.len() && x != s ==> #[trigger] final(self).states@[x]
                    == old(self).states@[x],
            is_tkn ==> final(self).states@[s as int] == (State {
                i_tkn_ofst: ofst,
                ..old(self).states@[s as int]
            }),
            !is_tkn ==> final(self).states@[s as int] == (State {
                i_nt_ofst: ofst,
                ..old(self).states@[s as int]
            }),
    {
        let ghost before = self.states@;
        if is_tkn {
            self.states[s].i_tkn_ofst = ofst;
        } else {
            self.states[s].i_nt_ofst = ofst;
        }
        proof {
            let after = self.states@;
            let nsyms = self.symbols@.len();
            assert forall|x: int| 0 <= x < after.len() implies #[trigger] state_ok(
                after,
                self.configs@.len(),
                nsyms,
                self.rules@.len(),
                x,
            ) by {
                lemma_state_ok(self.configs@, before, self.rules@, nsyms, x);
            }
            lemma_states_changed(self.configs@, before, after, self.rules@, nsyms);
        }
    }

    /// The rows of a state do not depend on the offsets recorded for them.
    proof fn lemma_rows_same(&self, orig: Seq<State>, s: int, is_tkn: bool)
        requires
            orig.len() == self.states@.len(),
            0 <= s < orig.len(),
            forall|x: int| 0 <= x < orig.len() ==> same_but_offsets(orig[x], #[trigger] self.states@[x]),
        ensures
            self.row_of(s, is_tkn) == row_cells(
                self.symbols@,
                state_nums(orig),
                self.rules@.len() as int,
                self.nterminal,
                self.nsymbol,
                orig[s].ap@,
                is_tkn,
                orig[s].ap@.len() as int,
            ),
    {
        assert(state_nums(self.states@) =~= state_nums(orig)) by {
            assert forall|x: int| 0 <= x < orig.len() implies state_nums(self.states@)[x] == state_nums(
                orig,
            )[x] by {
                assert(same_but_offsets(orig[x], self.states@[x]));
            }
        }
        assert(same_but_offsets(orig[s], self.states@[s]));
    }

    /// Stores the row of state `id` for terminals (`is_tkn`) or for
    /// nonterminals in the table and gives the state its offset. An empty
    /// row is not stored and gets no offset.
    ///
    /// Fails where the table would grow past what its indices can address.
    fn store_row(&mut self, tab: &mut ActTab, id: usize, is_tkn: bool) -> (r: Result<(), Error>)
        requires
            old(self).built_wf(),
            old(self).is_numbered(),
            id < old(self).states@.len(),
            old(self).states@.len() + old(self).rules@.len() + 1 <= usize::MAX,
            row_offset(old(self).states@, id as int, is_tkn) is None,
            forall|s: int|
                0 <= s < old(self).states@.len() ==> lookahead_sorted(
                    old(self).symbols@,
                    (#[trigger] old(self).states@[s]).ap@,
                ),
            rows_readable(old(tab)@, *old(self)),
            all_owned(old(tab)@, old(self).states@),
        ensures
            final(self).built_wf(),
            *final(self) == (Lemon { states: final(self).states, ..*old(self) }),
            final(self).states@.len() == old(self).states@.len(),
            forall|x: int|
                0 <= x < old(self).states@.len() ==> same_but_offsets(
                    old(self).states@[x],
                    #[trigger] final(self).states@[x],
                ),
            forall|x: int, t: bool|
                0 <= x < old(self).states@.len() && !(x == id && t == is_tkn) ==> #[trigger] row_offset(
                    final(self).states@,
                    x,
                    t,
                ) == row_offset(old(self).states@, x, t),
            r is Ok ==> rows_readable(final(tab)@, *final(self)) && all_owned(
                final(tab)@,
                final(self).states@,
            ),
            r is Ok ==> row_stored(*final(self), id as int, is_tkn, old(tab)@, final(tab)@),
            r is Ok ==> final(tab)@.len() <= old(tab)@.len() + old(self).symbols@.len(),
            r matches Err(e) ==> e == (Error {
                fault: Fault::TablesTooLarge,
                span: crate::decl::CALL_SITE,
            }) && old(tab)@.len() + old(self).symbols@.len() > MAX_TABLE_INDEX,
    {
        let ghost orig = self.states@;
        let ghost was = *self;
        let ns = self.states.len();
        let row = self.build_row(id, is_tkn);
        let len = row.a_lookahead.len();
        if len == 0 {
            return Ok(());
        }
        let max_lookahead = row.a_lookahead[len - 1].lookahead;
        proof {
            lemma_row_sorted(
                self.symbols@,
                state_nums(orig),
                self.rules@.len() as int,
                self.nterminal,
                self.nsymbol,
                orig[id as int].ap@,
                is_tkn,
                orig[id as int].ap@.len() as int,
            );
            // the last lookahead is the index of a symbol
            let ap = orig[id as int].ap@;
            assert(from_action(self.symbols@, ap, ap.len() as int, row@[len - 1].lookahead));
            let k = choose|k: int|
                0 <= k < ap.len() && self.symbols@[(#[trigger] ap[k]).sp as int].index == row@[len
                    - 1].lookahead;
            lemma_state_ok(
                self.configs@,
                self.states@,
                self.rules@,
                self.symbols@.len(),
                id as int,
            );
            assert(ap[k].sp < self.symbols@.len());
            assert(max_lookahead < self.symbols@.len());
        }
        if tab.a_action.len() > MAX_TABLE_INDEX || max_lookahead > MAX_TABLE_INDEX
            - tab.a_action.len() {
            return Err(Error::new(Fault::TablesTooLarge, crate::decl::CALL_SITE));
        }
        let ghost before = tab@;
        let ofs = tab.insert_action_set(&row);
        proof {
            crate::acttab::lemma_insert_bound(before, tab@, row@, ofs as int);
        }
        self.set_offset(id, is_tkn, Some(ofs));
        proof {
            let after = tab@;
            assert forall|x: int| 0 <= x < ns implies #[trigger] self.row_of(x, true) == was.row_of(
                x,
                true,
            ) && self.row_of(x, false) == was.row_of(x, false) by {
                self.lemma_rows_same(orig, x, true);
                self.lemma_rows_same(orig, x, false);
            }
            assert forall|x: int| 0 <= x < ns implies reads_back(
                after,
                (#[trigger] self.states@[x]).i_tkn_ofst,
                self.row_of(x, true),
            ) && reads_back(after, self.states@[x].i_nt_ofst, self.row_of(x, false)) by {
                assert(self.row_of(x, true) == was.row_of(x, true));
                assert(reads_back(before, orig[x].i_tkn_ofst, was.row_of(x, true)));
                assert(reads_back(before, orig[x].i_nt_ofst, was.row_of(x, false)));
                lemma_store_keeps(before, after, row@, ofs as int, orig[x].i_tkn_ofst, was.row_of(x, true));
                lemma_store_keeps(before, after, row@, ofs as int, orig[x].i_nt_ofst, was.row_of(x, false));
                if x == id {
                    assert(row@[0].lookahead <= row@[len - 1].lookahead);
                    lemma_store_reads(before, after, row@, ofs);
                }
            }
            assert forall|k: int| 0 <= k < after.len() && after[k] is Some implies #[trigger] cell_owned(
                after,
                self.states@,
                k,
            ) by {
                if row_has(row@, k - ofs) {
                    let c = choose|c: int| 0 <= c < row@.len() && #[trigger] row@[c].lookahead == k - ofs;
                    crate::acttab::lemma_last_cell_exists(row@, c);
                    let l = choose|l: int|
                        crate::acttab::last_for_lookahead(row@, l) && row@[l].lookahead
                            == row@[c].lookahead;
                    assert(after[row@[l].lookahead + ofs] == Some(row@[l]));
                    assert(owns(after, self.states@, id as int, is_tkn, k));
                } else {
                    assert(after[k] == if k < before.len() {
                        before[k]
                    } else {
                        None
                    });
                    assert(cell_owned(before, orig, k));
                    let (x, t) = choose|x: int, t: bool| #[trigger] owns(before, orig, x, t, k);
                    assert(!(x == id && t == is_tkn));
                    assert(row_offset(self.states@, x, t) == row_offset(orig, x, t));
                    assert(owns(after, self.states@, x, t, k));
                }
            }
            assert(self.row_of(id as int, is_tkn) == row@) by {
                assert(self.row_of(id as int, true) == was.row_of(id as int, true));
            }
        }
        Ok(())
    }

    /// Stores the rows of all states in one table, the rows with the most
    /// actions first, and records with every state the offsets of its rows.
    /// A row without actions gets no offset.
    ///
    /// Fails where the table would grow past what its indices can address.
    pub fn pack_actions(&mut self) -> (r: Result<ActTab, Error>)
        requires
            old(self).built_wf(),
            old(self).is_numbered(),
            old(self).states@.len() + old(self).rules@.len() + 1 <= usize::MAX,
            ranked(*old(self)),
            forall|s: int|
                0 <= s < old(self).states@.len() ==> lookahead_sorted(
                    old(self).symbols@,
                    (#[trigger] old(self).states@[s]).ap@,
                ),
        ensures
            r is Err ==> may_overflow(*old(self)),
            r matches Ok(tab) ==> all_owned(tab@, final(self).states@),
            r matches Ok(tab) ==> was_packed(*final(self), tab@),
            final(self).built_wf(),
            *final(self) == (Lemon { states: final(self).states, ..*old(self) }),
            final(self).states@.len() == old(self).states@.len(),
            forall|s: int|
                0 <= s < old(self).states@.len() ==> same_but_offsets(
                    old(self).states@[s],
                    #[trigger] final(self).states@[s],
                ),
            r matches Ok(tab) ==> rows_readable(tab@, *final(self)),
            r is Ok ==> forall|i: int|
                0 <= i < final(self).state_order@.len() ==> offsets_given(
                    *final(self),
                    (#[trigger] final(self).state_order@[i]) as int,
                ),
            r matches Err(e) ==> e == (Error {
                fault: Fault::TablesTooLarge,
                span: crate::decl::CALL_SITE,
            }),
    {
        let ghost orig = self.states@;
        let ns = self.states.len();
        let mut s: usize = 0;
        while s < ns
            invariant
                s <= ns,
                ns == orig.len(),
                orig == old(self).states@,
                self.built_wf(),
                *self == (Lemon { states: self.states, ..*old(self) }),
                self.states@.len() == ns,
                forall|x: int|
                    0 <= x < ns ==> same_but_offsets(orig[x], #[trigger] self.states@[x]),
                forall|x: int|
                    0 <= x < s ==> (#[trigger] self.states@[x]).i_tkn_ofst is None
                        && self.states@[x].i_nt_ofst is None,
            decreases ns - s,
        {
            let ghost prev = self.states@;
            self.set_offset(s, true, None);
            let ghost mid = self.states@;
            self.set_offset(s, false, None);
            proof {
                assert forall|x: int| 0 <= x < ns implies same_but_offsets(
                    orig[x],
                    #[trigger] self.states@[x],
                ) by {
                    assert(same_but_offsets(orig[x], prev[x]));
                    assert(same_but_offsets(prev[x], mid[x]));
                }
                assert forall|x: int| 0 <= x < s + 1 implies (#[trigger] self.states@[x]).i_tkn_ofst is None
                    && self.states@[x].i_nt_ofst is None by {
                    if x < s {
                        assert(mid[x] == prev[x]);
                    }
                }
            }
            s += 1;
        }
        let ghost cleared = *self;
        // the rows, in the order of the states, with their numbers of actions
        let mut keys: Vec<Key3> = Vec::new();
        let mut ax_state: Vec<usize> = Vec::new();
        let mut ax_tkn: Vec<bool> = Vec::new();
        let mut i: usize = 0;
        while i < ns
            invariant
                i <= ns,
                ns == self.states@.len(),
                *self == cleared,
                ranked(*self),
                keys@.len() == ax_state@.len(),
                keys@.len() == ax_tkn@.len(),
                keys@.len() == 2 * i,
                forall|e: int|
                    0 <= e < keys@.len() ==> #[trigger] ax_state@[e] == entry_state(*self, e) && ax_tkn@[e]
                        == entry_kind(e) && keys@[e] == pack_key(*self, e),
            decreases ns - i,
        {
            let id = self.state_order[i];
            let ghost k0 = keys@;
            let ghost a0 = ax_state@;
            let ghost t0 = ax_tkn@;
            keys.push(Key3 { k0: self.states[id].n_tkn_act, k1: 0, k2: 0 });
            ax_state.push(id);
            ax_tkn.push(true);
            keys.push(Key3 { k0: self.states[id].n_nt_act, k1: 0, k2: 0 });
            ax_state.push(id);
            ax_tkn.push(false);
            proof {
                assert forall|e: int| 0 <= e < keys@.len() implies #[trigger] ax_state@[e] == entry_state(
                    *self,
                    e,
                ) && ax_tkn@[e] == entry_kind(e) && keys@[e] == pack_key(*self, e) by {
                    if e < 2 * i {
                        assert(ax_state@[e] == a0[e] && ax_tkn@[e] == t0[e] && keys@[e] == k0[e]);
                    } else {
                        lemma_entry_of_rank(*self, i as int);
                    }
                }
            }
            i += 1;
        }
        let order = sorted_order(&keys);
        let mut tab = ActTab::new();
        let nrows = order.len();
        let ghost mut tabs: Seq<Seq<Option<LookaheadAction>>> = seq![tab@];
        proof {
            assert(keys@ =~= pack_keys(cleared)) by {
                assert forall|e: int| 0 <= e < keys@.len() implies keys@[e] == pack_keys(cleared)[e] by {
                    assert(ax_state@[e] == entry_state(cleared, e));
                }
            }
            assert(pack_keys(cleared) =~= pack_keys(*old(self))) by {
                assert forall|e: int| 0 <= e < 2 * ns implies pack_key(cleared, e) == pack_key(
                    *old(self),
                    e,
                ) by {
                    lemma_entry_in_range(cleared, e);
                    let x = entry_state(cleared, e) as int;
                    assert(same_but_offsets(orig[x], cleared.states@[x]));
                }
            }
            assert forall|x: int| 0 <= x < ns implies reads_back(
                tab@,
                (#[trigger] self.states@[x]).i_tkn_ofst,
                self.row_of(x, true),
            ) && reads_back(tab@, self.states@[x].i_nt_ofst, self.row_of(x, false)) by {}
        }
        let mut j: usize = nrows;
        while j > 0
            invariant
                j <= nrows,
                nrows == order@.len(),
                nrows == 2 * ns,
                nrows == ax_state@.len(),
                nrows == ax_tkn@.len(),
                is_sorted_order(pack_keys(*old(self)), order@),
                ns == orig.len(),
                orig == old(self).states@,
                self.built_wf(),
                self.is_numbered(),
                ranked(*self),
                *self == (Lemon { states: self.states, ..*old(self) }),
                self.states@.len() == ns,
                ns + self.rules@.len() + 1 <= usize::MAX,
                forall|x: int|
                    0 <= x < ns ==> lookahead_sorted(self.symbols@, (#[trigger] self.states@[x]).ap@),
                forall|x: int|
                    0 <= x < ns ==> same_but_offsets(orig[x], #[trigger] self.states@[x]),
                forall|e: int|
                    0 <= e < nrows ==> #[trigger] ax_state@[e] == entry_state(*self, e) && ax_tkn@[e]
                        == entry_kind(e),
                rows_readable(tab@, *self),
                all_owned(tab@, self.states@),
                tab@.len() <= room((nrows - j) as nat, self.symbols@.len()),
                forall|p: int|
                    0 <= p < j ==> row_offset(
                        self.states@,
                        entry_state(*self, (#[trigger] order@[p]) as int) as int,
                        entry_kind(order@[p] as int),
                    ) is None,
                tabs.len() == nrows - j + 1,
                tabs[0].len() == 0,
                tabs[nrows - j] == tab@,
                forall|p: int| 0 <= p < nrows - j ==> #[trigger] pack_step(*self, order@, tabs, p),
            decreases j,
        {
            j -= 1;
            let e = order[j];
            let id = ax_state[e];
            let is_tkn = ax_tkn[e];
            let ghost packed = *self;
            let ghost had = tabs;
            proof {
                lemma_entry_in_range(*self, e as int);
                lemma_room_mono((nrows - j - 1) as nat, (2 * ns) as nat, self.symbols@.len());
                assert(order@[j as int] == e);
            }
            match self.store_row(&mut tab, id, is_tkn) {
                Err(err) => {
                    return Err(err);
                },
                Ok(()) => {},
            }
            proof {
                tabs = tabs.push(tab@);
                assert forall|x: int| 0 <= x < ns implies lookahead_sorted(
                    self.symbols@,
                    (#[trigger] self.states@[x]).ap@,
                ) && same_but_offsets(orig[x], self.states@[x]) by {
                    assert(same_but_offsets(packed.states@[x], self.states@[x]));
                    assert(same_but_offsets(orig[x], packed.states@[x]));
                }
                assert forall|p: int| 0 <= p < j implies row_offset(
                    self.states@,
                    entry_state(*self, (#[trigger] order@[p]) as int) as int,
                    entry_kind(order@[p] as int),
                ) is None by {
                    let e2 = order@[p] as int;
                    if e2 == e {
                        crate::order::lemma_sorted_order_distinct(
                            pack_keys(*old(self)),
                            order@,
                            p,
                            j as int,
                        );
                    }
                    lemma_entry_in_range(*self, e2);
                    lemma_entries_differ(*self, e2, e as int);
                }
                assert forall|p: int| 0 <= p < nrows - j implies #[trigger] pack_step(
                    *self,
                    order@,
                    tabs,
                    p,
                ) by {
                    let e2 = order@[nrows - 1 - p] as int;
                    lemma_entry_in_range(*self, e2);
                    let x = entry_state(*self, e2) as int;
                    let t = entry_kind(e2);
                    self.lemma_rows_same(packed.states@, x, t);
                    if p < nrows - j - 1 {
                        assert(pack_step(packed, order@, had, p));
                        assert(tabs[p] == had[p] && tabs[p + 1] == had[p + 1]);
                        if e2 == e {
                            crate::order::lemma_sorted_order_distinct(
                                pack_keys(*old(self)),
                                order@,
                                nrows - 1 - p,
                                j as int,
                            );
                        }
                        lemma_entries_differ(*self, e2, e as int);
                    } else {
                        assert(tabs[p] == had[p]);
                        assert(tabs[p + 1] == tab@);
                    }
                }
            }
        }
        proof {
            assert(pack_keys(*self) =~= pack_keys(*old(self))) by {
                assert forall|e: int| 0 <= e < 2 * ns implies pack_key(*self, e) == pack_key(
                    *old(self),
                    e,
                ) by {
                    lemma_entry_in_range(*self, e);
                    let x = entry_state(*self, e) as int;
                    assert(same_but_offsets(orig[x], self.states@[x]));
                }
            }
            assert(packed_in_order(*self, order@, tabs, tab@));
            assert forall|i: int| 0 <= i < self.state_order@.len() implies offsets_given(
                *self,
                (#[trigger] self.state_order@[i]) as int,
            ) by {
                lemma_entry_of_rank(*self, i);
                assert(crate::order::occurs(order@, 2 * i));
                let p = choose|p: int| 0 <= p < order@.len() && #[trigger] order@[p] == 2 * i;
                assert(pack_step(*self, order@, tabs, nrows - 1 - p));
                assert(crate::order::occurs(order@, 2 * i + 1));
                let q = choose|q: int| 0 <= q < order@.len() && #[trigger] order@[q] == 2 * i + 1;
                assert(pack_step(*self, order@, tabs, nrows - 1 - q));
            }
        }
        Ok(tab)
    }
}

/// Grammar `b` is grammar `a` but for the offsets of the rows of its states.
pub open spec fn alike_but_offsets(a: Lemon, b: Lemon) -> bool {
    &&& (Lemon { states: a.states, ..b }) == a
    &&& b.states@.len() == a.states@.len()
    &&& forall|s: int|
        0 <= s < a.states@.len() ==> same_but_offsets(a.states@[s], #[trigger] b.states@[s])
}

/// The row that was stored at step `q` has the same offset in both grammars.
pub open spec fn step_agrees(a: Lemon, b: Lemon, order: Seq<usize>, q: int) -> bool {
    let e = order[order.len() - 1 - q] as int;
    row_offset(a.states@, entry_state(a, e) as int, entry_kind(e)) == row_offset(
        b.states@,
        entry_state(a, e) as int,
        entry_kind(e),
    )
}

/// Two runs of storing the same rows in the same order agree up to step `p`:
/// in the table and in the offsets of the rows stored so far.
proof fn lemma_steps_agree(
    a: Lemon,
    b: Lemon,
    order: Seq<usize>,
    here: Seq<Seq<Option<LookaheadAction>>>,
    there: Seq<Seq<Option<LookaheadAction>>>,
    p: int,
)
    requires
        ranked(a),
        alike_but_offsets(a, b),
        packed_in_order(a, order, here, here[order.len() as int]),
        packed_in_order(b, order, there, there[order.len() as int]),
        0 <= p <= order.len(),
    ensures
        here[p] == there[p],
        forall|q: int| 0 <= q < p ==> #[trigger] step_agrees(a, b, order, q),
    decreases p,
{
    if p == 0 {
        assert(here[0] =~= there[0]);
    } else {
        lemma_steps_agree(a, b, order, here, there, p - 1);
        let q: int = p - 1;
        let e: int = order[order.len() - 1 - q] as int;
        assert(pack_step(a, order, here, q));
        assert(pack_step(b, order, there, q));
        lemma_entry_in_range(a, e);
        let s: int = entry_state(a, e) as int;
        b.lemma_rows_same(a.states@, s, entry_kind(e));
        let row = a.row_of(s, entry_kind(e));
        assert(b.row_of(s, entry_kind(e)) == row);
        if row.len() > 0 {
            let x: i32 = row_offset(a.states@, s, entry_kind(e))->0;
            let y: i32 = row_offset(b.states@, s, entry_kind(e))->0;
            law_storing_has_one_outcome(
                here[q],
                row,
                (here[p], x as int),
                (there[p], y as int),
            );
        }
        assert(step_agrees(a, b, order, q));
    }
}

/// Packing has one outcome: two tables that were both packed from the rows
/// of the same states are the same table, and every state has the same
/// offsets for both.
pub proof fn law_packing_has_one_outcome(
    a: Lemon,
    b: Lemon,
    one: Seq<Option<LookaheadAction>>,
    other: Seq<Option<LookaheadAction>>,
)
    requires
        ranked(a),
        alike_but_offsets(a, b),
        was_packed(a, one),
        was_packed(b, other),
    ensures
        one == other,
        forall|i: int|
            0 <= i < a.state_order@.len() ==> a.states@[(#[trigger] a.state_order@[i]) as int]
                == b.states@[a.state_order@[i] as int],
{
    let (order, here) = choose|order: Seq<usize>, tabs: Seq<Seq<Option<LookaheadAction>>>| #[trigger]
        packed_in_order(a, order, tabs, one);
    let (again, there) = choose|order: Seq<usize>, tabs: Seq<Seq<Option<LookaheadAction>>>| #[trigger]
        packed_in_order(b, order, tabs, other);
    assert(pack_keys(a) =~= pack_keys(b)) by {
        assert forall|e: int| 0 <= e < 2 * a.states@.len() implies pack_key(a, e) == pack_key(b, e) by {
            lemma_entry_in_range(a, e);
            assert(same_but_offsets(
                a.states@[entry_state(a, e) as int],
                b.states@[entry_state(a, e) as int],
            ));
        }
    }
    law_one_sorted_order(pack_keys(a), order, again);
    let n: int = order.len() as int;
    lemma_steps_agree(a, b, order, here, there, n);
    assert forall|i: int| 0 <= i < a.state_order@.len() implies a.states@[(
    #[trigger] a.state_order@[i]) as int] == b.states@[a.state_order@[i] as int] by {
        let s: int = a.state_order@[i] as int;
        lemma_entry_of_rank(a, i);
        assert(occurs(order, 2 * i));
        assert(occurs(order, 2 * i + 1));
        let j: int = choose|j: int| 0 <= j < order.len() && #[trigger] order[j] == 2 * i;
        let k: int = choose|k: int| 0 <= k < order.len() && #[trigger] order[k] == 2 * i + 1;
        assert(step_agrees(a, b, order, n - 1 - j));
        assert(step_agrees(a, b, order, n - 1 - k));
        assert(same_but_offsets(a.states@[s], b.states@[s]));
    }
}

} // verus!
