//! How the actions of a state are backed by its configurations.
//!
//! An action is backed when a configuration of the state asks for it: a
//! shift by a configuration whose mark can move over the lookahead, a reduce
//! by one whose mark is at the end and whose follow set holds the lookahead.
//! The actions are complete when every configuration has what it asks for,
//! unless precedence took it away.

use crate::actions::{
    accepts_in, action_keys, actions_found, has_reduce, lemma_resolved_settles, rearranged,
    reduce_justified, reduces_gathered, reduces_on, resolved, settled_from, settles, sorted_actions,
    state_nums,
};
use crate::compress::{compressed, folded, is_best};
use crate::config::{Action, Config, EAction, State};
use crate::formed::same_rhs;
use crate::grammar::Lemon;
use crate::order::{is_sorted_order, occurs};
use crate::shifts::{
    can_shift, goto_to, has_shift, justifies, next_symbol, shift_justified, shift_of, shifted,
    shifts_for, shifts_on,
};
use crate::symbol::{Rule, Symbol};
use vstd::prelude::*;

verus! {

/// The sentinel lookahead that default reductions are on: the last symbol.
pub open spec fn default_symbol(lem: Lemon) -> usize {
    (lem.symbols@.len() - 1) as usize
}

/// One of the configurations listed is for rule `r` and has its mark at the
/// end.
pub open spec fn ends_rule(configs: Seq<Config>, rules: Seq<Rule>, cfp: Seq<usize>, r: usize) -> bool {
    exists|i: int|
        0 <= i < cfp.len() && configs[(#[trigger] cfp[i]) as int].rule == r && configs[cfp[i] as int].dot
            == rules[r as int].rhs@.len()
}

/// Action `a` of state `s` is backed: a shift by a configuration of the
/// state that asks for it; a reduce by a configuration with its mark at the
/// end and the lookahead in its follow set, or, on the sentinel lookahead,
/// by one with its mark at the end; the accepting action by being in the
/// first state, on the start symbol. Other actions need no backing.
pub open spec fn action_backed(lem: Lemon, s: int, a: Action) -> bool {
    let cfp = lem.states@[s].cfp@;
    match a.x {
        EAction::Shift(_) => shift_justified(
            lem.states@,
            lem.configs@,
            lem.rules@,
            lem.symbols@,
            cfp,
            a,
        ),
        EAction::Reduce(r) => reduce_justified(
            lem.configs@,
            lem.rules@,
            lem.by_index@,
            lem.nterminal,
            cfp,
            a,
        ) || (a.sp == default_symbol(lem) && ends_rule(lem.configs@, lem.rules@, cfp, r)),
        EAction::Accept => s == 0 && lem.start == Some(a.sp),
        _ => true,
    }
}

/// Every action of the list is backed as an action of state `s`.
pub open spec fn list_sound(lem: Lemon, s: int, ap: Seq<Action>) -> bool {
    forall|k: int| 0 <= k < ap.len() ==> action_backed(lem, s, #[trigger] ap[k])
}

/// Every action of state `s` is backed.
pub open spec fn actions_sound(lem: Lemon, s: int) -> bool {
    list_sound(lem, s, lem.states@[s].ap@)
}

/// What is left of a shift that goes to a state holding configuration `c`
/// advanced: the shift itself, perhaps marked as resolved or as in
/// conflict, or an error.
pub open spec fn shift_kept(states: Seq<State>, configs: Seq<Config>, x: EAction, c: int) -> bool {
    match x {
        EAction::Shift(t) | EAction::SHResolved(t) | EAction::SSConflict(t) => t < states.len()
            && goto_to(states, configs, c, t as int),
        EAction::Error => true,
        _ => false,
    }
}

/// What is left of a reduce by rule `r`: the reduce itself, perhaps marked
/// as resolved or as in conflict, or an error.
pub open spec fn reduce_kept(x: EAction, r: usize) -> bool {
    x == EAction::Reduce(r) || x == EAction::RDResolved(r) || x == EAction::SRConflict(r) || x
        == EAction::RRConflict(r) || x is Error
}

/// The actions hold, on lookahead `sym`, what is left of a shift to a state
/// that holds configuration `c` advanced.
pub open spec fn covers_shift(
    states: Seq<State>,
    configs: Seq<Config>,
    ap: Seq<Action>,
    c: int,
    sym: usize,
) -> bool {
    exists|k: int|
        0 <= k < ap.len() && (#[trigger] ap[k]).sp == sym && shift_kept(states, configs, ap[k].x, c)
}

/// The actions hold, on lookahead `sp`, what is left of a reduce by rule
/// `r`, or they reduce by `r` by default.
pub open spec fn covers_reduce(ap: Seq<Action>, sp: usize, r: usize, dflt: usize) -> bool {
    ||| exists|k: int| 0 <= k < ap.len() && (#[trigger] ap[k]).sp == sp && reduce_kept(ap[k].x, r)
    ||| has_reduce(ap, dflt, r)
}

/// The actions hold the accepting action on `sp`.
pub open spec fn has_accept(ap: Seq<Action>, sp: usize) -> bool {
    exists|k: int| 0 <= k < ap.len() && #[trigger] ap[k] == (Action { sp, x: EAction::Accept })
}

/// The list has what the configurations of state `s` ask for: for every
/// configuration whose mark can move, on every symbol that passes the slot
/// after the mark, what is left of the shift; for every configuration whose
/// mark is at the end, on every terminal of its follow set, what is left of
/// the reduce, or the reduce by default; and, in the first state, the
/// accepting action on the start symbol.
pub open spec fn list_complete(lem: Lemon, s: int, ap: Seq<Action>) -> bool {
    let cfp = lem.states@[s].cfp@;
    &&& forall|k: int, sym: usize|
        0 <= k < cfp.len() && can_shift(lem.configs@, lem.rules@, cfp[k] as int) && shifts_on(
            lem.symbols@,
            next_symbol(lem.configs@, lem.rules@, cfp[k] as int),
            sym,
        ) ==> #[trigger] covers_shift(lem.states@, lem.configs@, ap, cfp[k] as int, sym)
    &&& forall|i: int, j: int|
        0 <= i < cfp.len() && 0 <= j < lem.nterminal && #[trigger] reduces_on(
            lem.configs@,
            lem.rules@,
            cfp[i] as int,
            j as usize,
        ) ==> covers_reduce(ap, lem.by_index@[j], lem.configs@[cfp[i] as int].rule, default_symbol(lem))
    &&& s == 0 ==> lem.start is Some && has_accept(ap, lem.start->0)
}

/// State `s` has what its configurations ask for.
pub open spec fn actions_complete(lem: Lemon, s: int) -> bool {
    list_complete(lem, s, lem.states@[s].ap@)
}

/// Grammar `b` has the automaton of grammar `a`: the same configurations,
/// the same configurations in each state, the same numbering of the symbols,
/// and rules and symbols that differ only in what the automaton does not
/// rest on.
pub open spec fn same_automaton(a: Lemon, b: Lemon) -> bool {
    &&& b.configs@ == a.configs@
    &&& b.by_index@ == a.by_index@
    &&& b.nterminal == a.nterminal
    &&& b.start == a.start
    &&& same_rhs(a.rules@, b.rules@)
    &&& a.symbols@.len() == b.symbols@.len()
    &&& forall|y: int|
        0 <= y < a.symbols@.len() ==> (#[trigger] b.symbols@[y]).kind == a.symbols@[y].kind
            && b.symbols@[y].sub_sym == a.symbols@[y].sub_sym
    &&& a.states@.len() == b.states@.len()
    &&& forall|t: int|
        0 <= t < a.states@.len() ==> (#[trigger] b.states@[t]).cfp == a.states@[t].cfp
            && b.states@[t].bp == a.states@[t].bp
}

/// The states, configurations, rules and slots that the grammar refers to
/// exist.
pub open spec fn refs_exist(lem: Lemon) -> bool {
    &&& forall|t: int, k: int|
        0 <= t < lem.states@.len() && 0 <= k < lem.states@[t].cfp@.len() ==> (
        #[trigger] lem.states@[t].cfp@[k]) < lem.configs@.len()
    &&& forall|c: int|
        0 <= c < lem.configs@.len() ==> (#[trigger] lem.configs@[c]).rule < lem.rules@.len()
    &&& forall|q: int, k: int|
        0 <= q < lem.rules@.len() && 0 <= k < lem.rules@[q].rhs@.len() ==> (
        #[trigger] lem.rules@[q].rhs@[k]).sym < lem.symbols@.len()
}

/// A shift that a configuration asks for in one grammar, it asks for in a
/// grammar with the same automaton.
pub proof fn lemma_justified_same(a: Lemon, b: Lemon, s: int, act: Action)
    requires
        same_automaton(a, b),
        refs_exist(a),
        0 <= s < a.states@.len(),
        shift_justified(a.states@, a.configs@, a.rules@, a.symbols@, a.states@[s].cfp@, act),
    ensures
        shift_justified(b.states@, b.configs@, b.rules@, b.symbols@, b.states@[s].cfp@, act),
{
    let cfp = a.states@[s].cfp@;
    let k = choose|k: int|
        0 <= k < cfp.len() && justifies(
            a.states@,
            a.configs@,
            a.rules@,
            a.symbols@,
            (#[trigger] cfp[k]) as int,
            act,
        );
    let c = cfp[k] as int;
    lemma_goto_same(a, b, c, act);
    lemma_slot_same(a, b, c, act.sp);
    assert(justifies(b.states@, b.configs@, b.rules@, b.symbols@, b.states@[s].cfp@[k] as int, act));
}

/// Where a shift goes in one grammar, it goes in a grammar with the same
/// automaton.
pub proof fn lemma_goto_same(a: Lemon, b: Lemon, c: int, act: Action)
    requires
        same_automaton(a, b),
        shift_of(a.states@, a.configs@, act, c, act.sp),
    ensures
        shift_of(b.states@, b.configs@, act, c, act.sp),
{
    match act.x {
        EAction::Shift(t) => {
            let j = choose|j: int|
                0 <= j < a.states@[t as int].bp@.len() && crate::shifts::advances(
                    a.configs@,
                    c,
                    (#[trigger] a.states@[t as int].bp@[j]) as int,
                );
            assert(b.states@[t as int].bp == a.states@[t as int].bp);
            assert(crate::shifts::advances(b.configs@, c, b.states@[t as int].bp@[j] as int));
        },
        _ => {},
    }
}

/// Whether the mark of a configuration can move, and over which symbols, is
/// the same in a grammar with the same automaton.
pub proof fn lemma_slot_same(a: Lemon, b: Lemon, c: int, sym: usize)
    requires
        same_automaton(a, b),
        refs_exist(a),
        0 <= c < a.configs@.len(),
    ensures
        can_shift(a.configs@, a.rules@, c) == can_shift(b.configs@, b.rules@, c),
        can_shift(a.configs@, a.rules@, c) ==> next_symbol(a.configs@, a.rules@, c) == next_symbol(
            b.configs@,
            b.rules@,
            c,
        ) && shifts_on(a.symbols@, next_symbol(a.configs@, a.rules@, c), sym) == shifts_on(
            b.symbols@,
            next_symbol(b.configs@, b.rules@, c),
            sym,
        ),
        reduces_on(a.configs@, a.rules@, c, sym) == reduces_on(b.configs@, b.rules@, c, sym),
{
    let q = a.configs@[c].rule as int;
    assert(q < a.rules@.len());
    assert(b.rules@[q].rhs == a.rules@[q].rhs);
    if can_shift(a.configs@, a.rules@, c) {
        let sp = next_symbol(a.configs@, a.rules@, c) as int;
        assert(sp < a.symbols@.len());
        assert(b.symbols@[sp].kind == a.symbols@[sp].kind);
    }
}

/// Where the actions of a state were all shifts asked for, and complete, the
/// actions found for the state are backed and complete.
pub proof fn lemma_found_backed(was: Lemon, now: Lemon, s: int)
    requires
        0 <= s < was.states@.len(),
        same_automaton(was, now),
        refs_exist(was),
        was.start is Some,
        shifted(was.states@, was.configs@, was.rules@, was.symbols@, s),
        actions_found(was, now.states@, s),
    ensures
        actions_sound(now, s),
        actions_complete(now, s),
{
    let cfp = was.states@[s].cfp@;
    let before = was.states@[s].ap@;
    let nb = before.len() as int;
    let accept = accepts_in(was.start, s);
    let gathered = choose|gathered: Seq<Action>|
        #[trigger] reduces_gathered(
            was.configs@,
            was.rules@,
            was.by_index@,
            was.nterminal,
            cfp,
            before,
            gathered,
            accept,
        ) && settled_from(
            was.symbols@,
            state_nums(was.states@),
            was.rules@,
            gathered,
            now.states@[s].ap@,
        );
    let sorted = choose|sorted: Seq<Action>| #[trigger]
        sorted_actions(was.symbols@, state_nums(was.states@), gathered, sorted) && now.states@[s].ap@
            == resolved(was.symbols@, was.rules@, sorted);
    let keys = action_keys(was.symbols@, state_nums(was.states@), gathered);
    let order = choose|order: Seq<usize>| #[trigger]
        is_sorted_order(keys, order) && rearranged(gathered, order, sorted);
    let r = now.states@[s].ap@;
    lemma_resolved_settles(was.symbols@, was.rules@, sorted, 0, 1);
    assert(keys.len() == gathered.len());
    assert(now.states@[s].cfp == was.states@[s].cfp);
    let last: int = if accept is Some {
        gathered.len() - 1
    } else {
        gathered.len() as int
    };
    // what the gathered actions are, by where they stand
    assert forall|o: int| 0 <= o < nb implies (#[trigger] gathered[o]).x is Shift && shift_justified(
        was.states@,
        was.configs@,
        was.rules@,
        was.symbols@,
        cfp,
        gathered[o],
    ) by {
        assert(gathered[o] == before[o]);
        assert(shift_justified(was.states@, was.configs@, was.rules@, was.symbols@, cfp, before[o]));
    }
    assert forall|o: int| nb <= o < last implies (#[trigger] gathered[o]).x is Reduce by {
        assert(reduce_justified(
            was.configs@,
            was.rules@,
            was.by_index@,
            was.nterminal,
            cfp,
            gathered[o],
        ));
    }
    assert forall|k: int| 0 <= k < r.len() implies action_backed(now, s, #[trigger] r[k]) by {
        let o = order[k] as int;
        let g = gathered[o];
        assert(sorted[k] == g);
        assert(r[k].sp == sorted[k].sp && settles(sorted[k].x, r[k].x));
        match r[k].x {
            EAction::Shift(_) => {
                assert(r[k] == g);
                if o < nb {
                    lemma_justified_same(was, now, s, g);
                } else if o < last {
                    assert(gathered[o].x is Reduce);
                }
            },
            EAction::Reduce(_) => {
                assert(r[k] == g);
                if o < nb {
                    assert(gathered[o].x is Shift);
                } else if o < last {
                    assert(reduce_justified(
                        was.configs@,
                        was.rules@,
                        was.by_index@,
                        was.nterminal,
                        cfp,
                        g,
                    ));
                    let (i, j) = choose|i: int, j: int|
                        0 <= i < cfp.len() && 0 <= j < was.nterminal && #[trigger] reduces_on(
                            was.configs@,
                            was.rules@,
                            cfp[i] as int,
                            j as usize,
                        ) && g == (Action {
                            sp: #[trigger] was.by_index@[j],
                            x: EAction::Reduce(was.configs@[cfp[i] as int].rule),
                        });
                    lemma_slot_same(was, now, cfp[i] as int, j as usize);
                    assert(reduces_on(now.configs@, now.rules@, cfp[i] as int, j as usize));
                    assert(reduce_justified(
                        now.configs@,
                        now.rules@,
                        now.by_index@,
                        now.nterminal,
                        cfp,
                        g,
                    ));
                }
            },
            EAction::Accept => {
                assert(r[k] == g);
                if o < nb {
                    assert(gathered[o].x is Shift);
                } else if o < last {
                    assert(gathered[o].x is Reduce);
                }
            },
            _ => {},
        }
    }
    assert forall|k: int, sym: usize|
        0 <= k < cfp.len() && can_shift(now.configs@, now.rules@, cfp[k] as int) && shifts_on(
            now.symbols@,
            next_symbol(now.configs@, now.rules@, cfp[k] as int),
            sym,
        ) implies #[trigger] covers_shift(now.states@, now.configs@, r, cfp[k] as int, sym) by {
        let c = cfp[k] as int;
        lemma_slot_same(was, now, c, sym);
        assert(shifts_for(was.states@, was.configs@, was.rules@, was.symbols@, before, c));
        assert(has_shift(was.states@, was.configs@, before, c, sym));
        let a0 = choose|a: int|
            0 <= a < before.len() && shift_of(was.states@, was.configs@, #[trigger] before[a], c, sym);
        assert(gathered[a0] == before[a0]);
        assert(occurs(order, a0));
        let p = choose|p: int| 0 <= p < order.len() && #[trigger] order[p] == a0;
        assert(sorted[p] == gathered[a0]);
        assert(r[p].sp == sorted[p].sp && settles(sorted[p].x, r[p].x));
        lemma_goto_same(was, now, c, before[a0]);
        assert(shift_kept(now.states@, now.configs@, r[p].x, c));
    }
    assert forall|i: int, j: int|
        0 <= i < cfp.len() && 0 <= j < now.nterminal && #[trigger] reduces_on(
            now.configs@,
            now.rules@,
            cfp[i] as int,
            j as usize,
        ) implies covers_reduce(
        r,
        now.by_index@[j],
        now.configs@[cfp[i] as int].rule,
        default_symbol(now),
    ) by {
        lemma_slot_same(was, now, cfp[i] as int, j as usize);
        assert(reduces_on(was.configs@, was.rules@, cfp[i] as int, j as usize));
        let rule = was.configs@[cfp[i] as int].rule;
        assert(has_reduce(gathered, was.by_index@[j], rule));
        let a0 = choose|a: int|
            0 <= a < gathered.len() && #[trigger] gathered[a] == (Action {
                sp: was.by_index@[j],
                x: EAction::Reduce(rule),
            });
        assert(occurs(order, a0));
        let p = choose|p: int| 0 <= p < order.len() && #[trigger] order[p] == a0;
        assert(sorted[p] == gathered[a0]);
        assert(r[p].sp == sorted[p].sp && settles(sorted[p].x, r[p].x));
        assert(reduce_kept(r[p].x, rule));
    }
    if s == 0 {
        let sp = was.start->0;
        assert(gathered[last] == (Action { sp, x: EAction::Accept }));
        assert(occurs(order, last));
        let p = choose|p: int| 0 <= p < order.len() && #[trigger] order[p] == last;
        assert(sorted[p] == gathered[last]);
        assert(r[p].sp == sorted[p].sp && settles(sorted[p].x, r[p].x));
        assert(r[p] == (Action { sp, x: EAction::Accept }));
    }
}

/// The successor that a state holds in one grammar, it holds in a grammar
/// with the same automaton.
pub proof fn lemma_goto_to_same(a: Lemon, b: Lemon, c: int, t: int)
    requires
        same_automaton(a, b),
        0 <= t < a.states@.len(),
        goto_to(a.states@, a.configs@, c, t),
    ensures
        goto_to(b.states@, b.configs@, c, t),
{
    let j = choose|j: int|
        0 <= j < a.states@[t].bp@.len() && crate::shifts::advances(
            a.configs@,
            c,
            (#[trigger] a.states@[t].bp@[j]) as int,
        );
    assert(b.states@[t].bp == a.states@[t].bp);
    assert(crate::shifts::advances(b.configs@, c, b.states@[t].bp@[j] as int));
}

/// Actions that are backed and complete in one grammar are so in a grammar
/// with the same automaton.
pub proof fn lemma_backed_same(a: Lemon, b: Lemon, s: int, ap: Seq<Action>)
    requires
        0 <= s < a.states@.len(),
        same_automaton(a, b),
        refs_exist(a),
        list_sound(a, s, ap),
        list_complete(a, s, ap),
    ensures
        list_sound(b, s, ap),
        list_complete(b, s, ap),
{
    let cfp = a.states@[s].cfp@;
    assert(b.states@[s].cfp == a.states@[s].cfp);
    assert forall|k: int| 0 <= k < ap.len() implies action_backed(b, s, #[trigger] ap[k]) by {
        let act = ap[k];
        assert(action_backed(a, s, act));
        match act.x {
            EAction::Shift(_) => {
                lemma_justified_same(a, b, s, act);
            },
            EAction::Reduce(r) => {
                if reduce_justified(a.configs@, a.rules@, a.by_index@, a.nterminal, cfp, act) {
                    let (i, j) = choose|i: int, j: int|
                        0 <= i < cfp.len() && 0 <= j < a.nterminal && #[trigger] reduces_on(
                            a.configs@,
                            a.rules@,
                            cfp[i] as int,
                            j as usize,
                        ) && act == (Action {
                            sp: #[trigger] a.by_index@[j],
                            x: EAction::Reduce(a.configs@[cfp[i] as int].rule),
                        });
                    lemma_slot_same(a, b, cfp[i] as int, j as usize);
                    assert(reduces_on(b.configs@, b.rules@, cfp[i] as int, j as usize));
                } else {
                    let i = choose|i: int|
                        0 <= i < cfp.len() && a.configs@[(#[trigger] cfp[i]) as int].rule == r
                            && a.configs@[cfp[i] as int].dot == a.rules@[r as int].rhs@.len();
                    assert(a.configs@[cfp[i] as int].rule < a.rules@.len());
                    assert(b.rules@[r as int].rhs == a.rules@[r as int].rhs);
                    assert(ends_rule(b.configs@, b.rules@, cfp, r));
                }
            },
            _ => {},
        }
    }
    assert forall|k: int, sym: usize|
        0 <= k < cfp.len() && can_shift(b.configs@, b.rules@, cfp[k] as int) && shifts_on(
            b.symbols@,
            next_symbol(b.configs@, b.rules@, cfp[k] as int),
            sym,
        ) implies #[trigger] covers_shift(b.states@, b.configs@, ap, cfp[k] as int, sym) by {
        let c = cfp[k] as int;
        lemma_slot_same(a, b, c, sym);
        assert(covers_shift(a.states@, a.configs@, ap, c, sym));
        let w = choose|w: int|
            0 <= w < ap.len() && (#[trigger] ap[w]).sp == sym && shift_kept(
                a.states@,
                a.configs@,
                ap[w].x,
                c,
            );
        match ap[w].x {
            EAction::Shift(t) | EAction::SHResolved(t) | EAction::SSConflict(t) => {
                lemma_goto_to_same(a, b, c, t as int);
            },
            _ => {},
        }
        assert(shift_kept(b.states@, b.configs@, ap[w].x, c));
    }
    assert forall|i: int, j: int|
        0 <= i < cfp.len() && 0 <= j < b.nterminal && #[trigger] reduces_on(
            b.configs@,
            b.rules@,
            cfp[i] as int,
            j as usize,
        ) implies covers_reduce(
        ap,
        b.by_index@[j],
        b.configs@[cfp[i] as int].rule,
        default_symbol(b),
    ) by {
        lemma_slot_same(a, b, cfp[i] as int, j as usize);
        assert(reduces_on(a.configs@, a.rules@, cfp[i] as int, j as usize));
    }
}

/// Actions put in order are backed and complete as they were.
pub proof fn lemma_sorted_backed(
    lem: Lemon,
    s: int,
    symbols: Seq<Symbol>,
    nums: Seq<usize>,
    before: Seq<Action>,
    after: Seq<Action>,
)
    requires
        sorted_actions(symbols, nums, before, after),
        list_sound(lem, s, before),
        list_complete(lem, s, before),
    ensures
        list_sound(lem, s, after),
        list_complete(lem, s, after),
{
    let keys = action_keys(symbols, nums, before);
    let order = choose|order: Seq<usize>| #[trigger]
        is_sorted_order(keys, order) && rearranged(before, order, after);
    assert(keys.len() == before.len());
    let cfp = lem.states@[s].cfp@;
    let dflt = default_symbol(lem);
    assert forall|k: int| 0 <= k < after.len() implies action_backed(lem, s, #[trigger] after[k]) by {
        assert(after[k] == before[order[k] as int]);
    }
    assert forall|k: int, sym: usize|
        0 <= k < cfp.len() && can_shift(lem.configs@, lem.rules@, cfp[k] as int) && shifts_on(
            lem.symbols@,
            next_symbol(lem.configs@, lem.rules@, cfp[k] as int),
            sym,
        ) implies #[trigger] covers_shift(lem.states@, lem.configs@, after, cfp[k] as int, sym) by {
        let c = cfp[k] as int;
        assert(covers_shift(lem.states@, lem.configs@, before, c, sym));
        let w = choose|w: int|
            0 <= w < before.len() && (#[trigger] before[w]).sp == sym && shift_kept(
                lem.states@,
                lem.configs@,
                before[w].x,
                c,
            );
        assert(occurs(order, w));
        let p = choose|p: int| 0 <= p < order.len() && #[trigger] order[p] == w;
        assert(after[p] == before[w]);
    }
    assert forall|i: int, j: int|
        0 <= i < cfp.len() && 0 <= j < lem.nterminal && #[trigger] reduces_on(
            lem.configs@,
            lem.rules@,
            cfp[i] as int,
            j as usize,
        ) implies covers_reduce(after, lem.by_index@[j], lem.configs@[cfp[i] as int].rule, dflt) by {
        let sp = lem.by_index@[j];
        let r = lem.configs@[cfp[i] as int].rule;
        assert(covers_reduce(before, sp, r, dflt));
        if exists|k: int| 0 <= k < before.len() && (#[trigger] before[k]).sp == sp && reduce_kept(before[k].x, r) {
            let w = choose|k: int|
                0 <= k < before.len() && (#[trigger] before[k]).sp == sp && reduce_kept(before[k].x, r);
            assert(occurs(order, w));
            let p = choose|p: int| 0 <= p < order.len() && #[trigger] order[p] == w;
            assert(after[p] == before[w]);
        } else {
            let w = choose|k: int|
                0 <= k < before.len() && #[trigger] before[k] == (Action {
                    sp: dflt,
                    x: EAction::Reduce(r),
                });
            assert(occurs(order, w));
            let p = choose|p: int| 0 <= p < order.len() && #[trigger] order[p] == w;
            assert(after[p] == before[w]);
        }
    }
    if s == 0 {
        let sp = lem.start->0;
        let w = choose|k: int|
            0 <= k < before.len() && #[trigger] before[k] == (Action { sp, x: EAction::Accept });
        assert(occurs(order, w));
        let p = choose|p: int| 0 <= p < order.len() && #[trigger] order[p] == w;
        assert(after[p] == before[w]);
    }
}

/// Actions with a default folded are backed and complete as they were.
pub proof fn lemma_folded_backed(
    lem: Lemon,
    s: int,
    before: Seq<Action>,
    after: Seq<Action>,
    r: usize,
    f: int,
)
    requires
        folded(before, after, r, f, default_symbol(lem)),
        0 <= f < before.len(),
        before[f].x == EAction::Reduce(r),
        list_sound(lem, s, before),
        list_complete(lem, s, before),
    ensures
        list_sound(lem, s, after),
        list_complete(lem, s, after),
{
    let cfp = lem.states@[s].cfp@;
    let dflt = default_symbol(lem);
    assert(action_backed(lem, s, before[f]));
    assert(ends_rule(lem.configs@, lem.rules@, cfp, r)) by {
        if reduce_justified(lem.configs@, lem.rules@, lem.by_index@, lem.nterminal, cfp, before[f]) {
            let (i, j) = choose|i: int, j: int|
                0 <= i < cfp.len() && 0 <= j < lem.nterminal && #[trigger] reduces_on(
                    lem.configs@,
                    lem.rules@,
                    cfp[i] as int,
                    j as usize,
                ) && before[f] == (Action {
                    sp: #[trigger] lem.by_index@[j],
                    x: EAction::Reduce(lem.configs@[cfp[i] as int].rule),
                });
            assert(lem.configs@[cfp[i] as int].rule == r);
        }
    }
    assert forall|k: int| 0 <= k < after.len() implies action_backed(lem, s, #[trigger] after[k]) by {
        assert(action_backed(lem, s, before[k]));
    }
    assert forall|k: int, sym: usize|
        0 <= k < cfp.len() && can_shift(lem.configs@, lem.rules@, cfp[k] as int) && shifts_on(
            lem.symbols@,
            next_symbol(lem.configs@, lem.rules@, cfp[k] as int),
            sym,
        ) implies #[trigger] covers_shift(lem.states@, lem.configs@, after, cfp[k] as int, sym) by {
        let c = cfp[k] as int;
        assert(covers_shift(lem.states@, lem.configs@, before, c, sym));
        let w = choose|w: int|
            0 <= w < before.len() && (#[trigger] before[w]).sp == sym && shift_kept(
                lem.states@,
                lem.configs@,
                before[w].x,
                c,
            );
        assert(after[w] == before[w]);
    }
    assert forall|i: int, j: int|
        0 <= i < cfp.len() && 0 <= j < lem.nterminal && #[trigger] reduces_on(
            lem.configs@,
            lem.rules@,
            cfp[i] as int,
            j as usize,
        ) implies covers_reduce(after, lem.by_index@[j], lem.configs@[cfp[i] as int].rule, dflt) by {
        let sp = lem.by_index@[j];
        let q = lem.configs@[cfp[i] as int].rule;
        assert(covers_reduce(before, sp, q, dflt));
        if q == r {
            assert(after[f] == (Action { sp: dflt, x: EAction::Reduce(r) }));
        } else if exists|k: int| 0 <= k < before.len() && (#[trigger] before[k]).sp == sp && reduce_kept(before[k].x, q) {
            let w = choose|k: int|
                0 <= k < before.len() && (#[trigger] before[k]).sp == sp && reduce_kept(before[k].x, q);
            assert(after[w] == before[w]);
        } else {
            let w = choose|k: int|
                0 <= k < before.len() && #[trigger] before[k] == (Action {
                    sp: dflt,
                    x: EAction::Reduce(q),
                });
            assert(after[w] == before[w]);
        }
    }
    if s == 0 {
        let sp = lem.start->0;
        let w = choose|k: int|
            0 <= k < before.len() && #[trigger] before[k] == (Action { sp, x: EAction::Accept });
        assert(after[w] == before[w]);
    }
}

/// Actions with the default folded and put in order again are backed and
/// complete as they were.
pub proof fn lemma_compressed_backed(
    lem: Lemon,
    s: int,
    nums: Seq<usize>,
    before: Seq<Action>,
    after: Seq<Action>,
)
    requires
        compressed(lem.symbols@, nums, lem.rules@, lem.wildcard, default_symbol(lem), before, after),
        list_sound(lem, s, before),
        list_complete(lem, s, before),
    ensures
        list_sound(lem, s, after),
        list_complete(lem, s, after),
{
    let dflt = default_symbol(lem);
    if crate::compress::shifts_wildcard(before, lem.wildcard) || forall|q: usize|
        !crate::compress::eligible(before, lem.rules@, q) {
    } else {
        let (r, f, mid) = choose|r: usize, f: int, mid: Seq<Action>|
            #![trigger folded(before, mid, r, f, dflt)]
            is_best(before, lem.rules@, r, f) && folded(before, mid, r, f, dflt) && sorted_actions(
                lem.symbols@,
                nums,
                mid,
                after,
            );
        lemma_folded_backed(lem, s, before, mid, r, f);
        lemma_sorted_backed(lem, s, lem.symbols@, nums, mid, after);
    }
}

} // verus!
