//! The shifts of a state.
//!
//! The configurations of a state whose mark stands before the same symbol
//! go together to one state: the one whose basis holds them with the mark
//! moved on. The state gets a shift to it on that symbol.

use crate::automaton::{action_ok, lemma_config_ok, lemma_state_ok, lemma_states_changed, state_ok};
use crate::closure::{add_to_list, lacks_rules};
use crate::config::{Action, CfgStatus, Config, EAction, State};
use crate::error::{Error, Fault};
use crate::formed::automaton_formed;
use crate::grammar::{lemma_rule_ok, lemma_symbol_ok, symbol_ok, Lemon};
use crate::sets::below;
use crate::states::{
    basis_distinct, basis_ok, basis_taken, configs_kept, hands_over, lacks_after, lemma_kept_same,
    lemma_kept_then, new_lacking, taken_by,
};
use crate::symbol::{Rule, Symbol, SymbolKind};
use vstd::prelude::*;

verus! {

/// Configuration `d` is configuration `c` with the mark one slot further,
/// and has a link back to `c`.
pub open spec fn advances(configs: Seq<Config>, c: int, d: int) -> bool {
    &&& configs[d].rule == configs[c].rule
    &&& configs[d].dot == configs[c].dot + 1
    &&& configs[d].bplp@.contains(c as usize)
}

/// Some state has in its basis configuration `c` advanced, with a link back
/// to `c`.
pub open spec fn goto_link(states: Seq<State>, configs: Seq<Config>, c: int) -> bool {
    exists|t: int, j: int|
        0 <= t < states.len() && 0 <= j < states[t].bp@.len() && advances(
            configs,
            c,
            (#[trigger] states[t].bp@[j]) as int,
        )
}

/// The mark of configuration `c` stands before a slot of its rule.
pub open spec fn can_shift(configs: Seq<Config>, rules: Seq<Rule>, c: int) -> bool {
    configs[c].dot < rules[configs[c].rule as int].rhs@.len()
}

/// Every configuration of state `s` whose mark can move has its successor in
/// the basis of some state, linked back to it.
pub open spec fn linked(states: Seq<State>, configs: Seq<Config>, rules: Seq<Rule>, s: int) -> bool {
    forall|k: int|
        0 <= k < states[s].cfp@.len() && can_shift(
            configs,
            rules,
            (#[trigger] states[s].cfp@[k]) as int,
        ) ==> goto_link(states, configs, states[s].cfp@[k] as int)
}

/// The list holds configuration `c` advanced, with a link back to `c`.
pub open spec fn pending(basis: Seq<Config>, configs: Seq<Config>, c: int) -> bool {
    exists|i: int|
        0 <= i < basis.len() && (#[trigger] basis[i]).rule == configs[c].rule && basis[i].dot
            == configs[c].dot + 1 && basis[i].bplp@.contains(c as usize)
}

/// From (`sa`, `ca`) to (`sb`, `cb`) the states kept their configurations and
/// the configurations their rules and marks, and links back were only added.
pub open spec fn links_kept(
    sa: Seq<State>,
    sb: Seq<State>,
    ca: Seq<Config>,
    cb: Seq<Config>,
) -> bool {
    &&& sa.len() <= sb.len()
    &&& forall|t: int|
        0 <= t < sa.len() ==> (#[trigger] sb[t]).bp == sa[t].bp && sb[t].cfp == sa[t].cfp
    &&& ca.len() <= cb.len()
    &&& forall|d: int|
        0 <= d < ca.len() ==> (#[trigger] cb[d]).rule == ca[d].rule && cb[d].dot == ca[d].dot
            && ca[d].bplp@.is_prefix_of(cb[d].bplp@)
}

/// A successor that is there stays there.
pub proof fn lemma_goto_link_kept(
    sa: Seq<State>,
    sb: Seq<State>,
    ca: Seq<Config>,
    cb: Seq<Config>,
    c: int,
)
    requires
        links_kept(sa, sb, ca, cb),
        0 <= c < ca.len(),
        forall|t: int, j: int|
            0 <= t < sa.len() && 0 <= j < sa[t].bp@.len() ==> (#[trigger] sa[t].bp@[j]) < ca.len(),
        goto_link(sa, ca, c),
    ensures
        goto_link(sb, cb, c),
{
    let (t, j) = choose|t: int, j: int|
        0 <= t < sa.len() && 0 <= j < sa[t].bp@.len() && advances(
            ca,
            c,
            (#[trigger] sa[t].bp@[j]) as int,
        );
    let d = sa[t].bp@[j] as int;
    assert(sb[t].bp == sa[t].bp);
    assert(cb[d].rule == ca[d].rule);
    assert(cb[c].rule == ca[c].rule);
    let w = choose|w: int| 0 <= w < ca[d].bplp@.len() && ca[d].bplp@[w] == c as usize;
    assert(ca[d].bplp@.is_prefix_of(cb[d].bplp@));
    assert(cb[d].bplp@[w] == c as usize);
    assert(advances(cb, c, sb[t].bp@[j] as int));
}

/// A state whose configurations have their successors keeps them.
pub proof fn lemma_linked_kept(
    sa: Seq<State>,
    sb: Seq<State>,
    ca: Seq<Config>,
    cb: Seq<Config>,
    rules: Seq<Rule>,
    s: int,
)
    requires
        links_kept(sa, sb, ca, cb),
        0 <= s < sa.len(),
        forall|t: int, j: int|
            0 <= t < sa.len() && 0 <= j < sa[t].bp@.len() ==> (#[trigger] sa[t].bp@[j]) < ca.len(),
        forall|k: int| 0 <= k < sa[s].cfp@.len() ==> (#[trigger] sa[s].cfp@[k]) < ca.len(),
        linked(sa, ca, rules, s),
    ensures
        linked(sb, cb, rules, s),
{
    assert(sb[s].cfp == sa[s].cfp);
    assert forall|k: int|
        0 <= k < sb[s].cfp@.len() && can_shift(cb, rules, (#[trigger] sb[s].cfp@[k]) as int) implies goto_link(
        sb,
        cb,
        sb[s].cfp@[k] as int,
    ) by {
        let c = sa[s].cfp@[k] as int;
        assert(cb[c].rule == ca[c].rule && cb[c].dot == ca[c].dot);
        assert(can_shift(ca, rules, c));
        lemma_goto_link_kept(sa, sb, ca, cb, c);
    }
}

/// The symbol after the mark of configuration `c`.
pub open spec fn next_symbol(configs: Seq<Config>, rules: Seq<Rule>, c: int) -> usize {
    rules[configs[c].rule as int].rhs@[configs[c].dot as int].sym
}

/// State `t` has in its basis configuration `c` advanced, with a link back
/// to `c`.
pub open spec fn goto_to(states: Seq<State>, configs: Seq<Config>, c: int, t: int) -> bool {
    exists|j: int|
        0 <= j < states[t].bp@.len() && advances(configs, c, (#[trigger] states[t].bp@[j]) as int)
}

/// A slot that holds `sp` is passed by shifting `sym`: `sym` is `sp` itself
/// or, if `sp` is a multi-terminal, one of its alternatives.
pub open spec fn shifts_on(symbols: Seq<Symbol>, sp: usize, sym: usize) -> bool {
    if symbols[sp as int].kind is MultiTerminal {
        symbols[sp as int].sub_sym@.contains(sym)
    } else {
        sym == sp
    }
}

/// Action `a` shifts `sym` and goes to a state that holds configuration `c`
/// advanced.
pub open spec fn shift_of(states: Seq<State>, configs: Seq<Config>, a: Action, c: int, sym: usize) -> bool {
    a.sp == sym && match a.x {
        EAction::Shift(t) => t < states.len() && goto_to(states, configs, c, t as int),
        _ => false,
    }
}

/// One of the actions shifts `sym` and goes to a state that holds
/// configuration `c` advanced.
pub open spec fn has_shift(
    states: Seq<State>,
    configs: Seq<Config>,
    ap: Seq<Action>,
    c: int,
    sym: usize,
) -> bool {
    exists|a: int| 0 <= a < ap.len() && shift_of(states, configs, #[trigger] ap[a], c, sym)
}

/// If the mark of configuration `c` can move, the actions hold a shift for
/// every symbol that passes the slot after the mark.
pub open spec fn shifts_for(
    states: Seq<State>,
    configs: Seq<Config>,
    rules: Seq<Rule>,
    symbols: Seq<Symbol>,
    ap: Seq<Action>,
    c: int,
) -> bool {
    can_shift(configs, rules, c) ==> forall|sym: usize|
        shifts_on(symbols, next_symbol(configs, rules, c), sym) ==> #[trigger] has_shift(
            states,
            configs,
            ap,
            c,
            sym,
        )
}

/// Action `a` is a shift that configuration `c` asks for.
pub open spec fn justifies(
    states: Seq<State>,
    configs: Seq<Config>,
    rules: Seq<Rule>,
    symbols: Seq<Symbol>,
    c: int,
    a: Action,
) -> bool {
    &&& can_shift(configs, rules, c)
    &&& shifts_on(symbols, next_symbol(configs, rules, c), a.sp)
    &&& shift_of(states, configs, a, c, a.sp)
}

/// Action `a` is a shift that one of the configurations listed asks for.
pub open spec fn shift_justified(
    states: Seq<State>,
    configs: Seq<Config>,
    rules: Seq<Rule>,
    symbols: Seq<Symbol>,
    cfp: Seq<usize>,
    a: Action,
) -> bool {
    exists|k: int|
        0 <= k < cfp.len() && justifies(states, configs, rules, symbols, (#[trigger] cfp[k]) as int, a)
}

/// The actions hold every shift that the configurations listed ask for.
pub open spec fn shifts_complete(
    states: Seq<State>,
    configs: Seq<Config>,
    rules: Seq<Rule>,
    symbols: Seq<Symbol>,
    cfp: Seq<usize>,
    ap: Seq<Action>,
) -> bool {
    forall|k: int|
        0 <= k < cfp.len() ==> shifts_for(states, configs, rules, symbols, ap, (#[trigger] cfp[k]) as int)
}

/// The actions from position `from` on are shifts that the configurations
/// listed ask for.
pub open spec fn shifts_sound(
    states: Seq<State>,
    configs: Seq<Config>,
    rules: Seq<Rule>,
    symbols: Seq<Symbol>,
    cfp: Seq<usize>,
    ap: Seq<Action>,
    from: int,
) -> bool {
    forall|a: int|
        from <= a < ap.len() ==> shift_justified(states, configs, rules, symbols, cfp, #[trigger] ap[a])
}

/// The actions of state `s` are the shifts that its configurations ask for:
/// all of them, and nothing else.
pub open spec fn shifted(
    states: Seq<State>,
    configs: Seq<Config>,
    rules: Seq<Rule>,
    symbols: Seq<Symbol>,
    s: int,
) -> bool {
    &&& shifts_complete(states, configs, rules, symbols, states[s].cfp@, states[s].ap@)
    &&& shifts_sound(states, configs, rules, symbols, states[s].cfp@, states[s].ap@, 0)
}

/// A successor in the basis of a state stays there.
pub proof fn lemma_goto_to_kept(
    sa: Seq<State>,
    sb: Seq<State>,
    ca: Seq<Config>,
    cb: Seq<Config>,
    c: int,
    t: int,
)
    requires
        links_kept(sa, sb, ca, cb),
        0 <= c < ca.len(),
        0 <= t < sa.len(),
        forall|j: int| 0 <= j < sa[t].bp@.len() ==> (#[trigger] sa[t].bp@[j]) < ca.len(),
        goto_to(sa, ca, c, t),
    ensures
        goto_to(sb, cb, c, t),
{
    let j = choose|j: int|
        0 <= j < sa[t].bp@.len() && advances(ca, c, (#[trigger] sa[t].bp@[j]) as int);
    let d = sa[t].bp@[j] as int;
    assert(sb[t].bp == sa[t].bp);
    assert(cb[d].rule == ca[d].rule);
    assert(cb[c].rule == ca[c].rule);
    let w = choose|w: int| 0 <= w < ca[d].bplp@.len() && ca[d].bplp@[w] == c as usize;
    assert(ca[d].bplp@.is_prefix_of(cb[d].bplp@));
    assert(cb[d].bplp@[w] == c as usize);
    assert(advances(cb, c, sb[t].bp@[j] as int));
}

/// The shifts that a configuration has, it keeps when actions are added.
pub proof fn lemma_shifts_for_kept(
    sa: Seq<State>,
    sb: Seq<State>,
    ca: Seq<Config>,
    cb: Seq<Config>,
    rules: Seq<Rule>,
    symbols: Seq<Symbol>,
    ap: Seq<Action>,
    ap2: Seq<Action>,
    c: int,
)
    requires
        links_kept(sa, sb, ca, cb),
        0 <= c < ca.len(),
        forall|t: int, j: int|
            0 <= t < sa.len() && 0 <= j < sa[t].bp@.len() ==> (#[trigger] sa[t].bp@[j]) < ca.len(),
        ap.is_prefix_of(ap2),
        shifts_for(sa, ca, rules, symbols, ap, c),
    ensures
        shifts_for(sb, cb, rules, symbols, ap2, c),
{
    assert(cb[c].rule == ca[c].rule && cb[c].dot == ca[c].dot);
    if can_shift(cb, rules, c) {
        assert forall|sym: usize|
            shifts_on(symbols, next_symbol(cb, rules, c), sym) implies #[trigger] has_shift(
            sb,
            cb,
            ap2,
            c,
            sym,
        ) by {
            assert(has_shift(sa, ca, ap, c, sym));
            let a = choose|a: int| 0 <= a < ap.len() && shift_of(sa, ca, #[trigger] ap[a], c, sym);
            assert(ap2[a] == ap[a]);
            match ap[a].x {
                EAction::Shift(t) => {
                    lemma_goto_to_kept(sa, sb, ca, cb, c, t as int);
                },
                _ => {},
            }
            assert(shift_of(sb, cb, ap2[a], c, sym));
        }
    }
}

/// A shift that was asked for stays asked for.
pub proof fn lemma_justified_kept(
    sa: Seq<State>,
    sb: Seq<State>,
    ca: Seq<Config>,
    cb: Seq<Config>,
    rules: Seq<Rule>,
    symbols: Seq<Symbol>,
    cfp: Seq<usize>,
    a: Action,
)
    requires
        links_kept(sa, sb, ca, cb),
        forall|k: int| 0 <= k < cfp.len() ==> (#[trigger] cfp[k]) < ca.len(),
        forall|t: int, j: int|
            0 <= t < sa.len() && 0 <= j < sa[t].bp@.len() ==> (#[trigger] sa[t].bp@[j]) < ca.len(),
        shift_justified(sa, ca, rules, symbols, cfp, a),
    ensures
        shift_justified(sb, cb, rules, symbols, cfp, a),
{
    let k = choose|k: int|
        0 <= k < cfp.len() && justifies(sa, ca, rules, symbols, (#[trigger] cfp[k]) as int, a);
    let c = cfp[k] as int;
    assert(cb[c].rule == ca[c].rule && cb[c].dot == ca[c].dot);
    match a.x {
        EAction::Shift(t) => {
            lemma_goto_to_kept(sa, sb, ca, cb, c, t as int);
        },
        _ => {},
    }
    assert(justifies(sb, cb, rules, symbols, cfp[k] as int, a));
}

/// A state whose actions are the shifts asked for keeps that, while its
/// actions stay as they are.
pub proof fn lemma_shifted_kept(
    sa: Seq<State>,
    sb: Seq<State>,
    ca: Seq<Config>,
    cb: Seq<Config>,
    rules: Seq<Rule>,
    symbols: Seq<Symbol>,
    s: int,
)
    requires
        links_kept(sa, sb, ca, cb),
        0 <= s < sa.len(),
        sb[s].ap@ == sa[s].ap@,
        forall|t: int, j: int|
            0 <= t < sa.len() && 0 <= j < sa[t].bp@.len() ==> (#[trigger] sa[t].bp@[j]) < ca.len(),
        forall|k: int| 0 <= k < sa[s].cfp@.len() ==> (#[trigger] sa[s].cfp@[k]) < ca.len(),
        shifted(sa, ca, rules, symbols, s),
    ensures
        shifted(sb, cb, rules, symbols, s),
{
    assert(sb[s].cfp == sa[s].cfp);
    let cfp = sa[s].cfp@;
    let ap = sa[s].ap@;
    assert forall|k: int| 0 <= k < cfp.len() implies shifts_for(
        sb,
        cb,
        rules,
        symbols,
        ap,
        (#[trigger] cfp[k]) as int,
    ) by {
        lemma_shifts_for_kept(sa, sb, ca, cb, rules, symbols, ap, ap, cfp[k] as int);
    }
    assert forall|a: int| 0 <= a < ap.len() implies shift_justified(
        sb,
        cb,
        rules,
        symbols,
        cfp,
        #[trigger] ap[a],
    ) by {
        lemma_justified_kept(sa, sb, ca, cb, rules, symbols, cfp, ap[a]);
    }
}

/// From `before` to `after`, shifts to state `t` were added for the symbols
/// that pass a slot holding `sp`: one for each, and nothing else.
pub open spec fn adds_shifts(
    symbols: Seq<Symbol>,
    sp: usize,
    t: usize,
    before: Seq<Action>,
    after: Seq<Action>,
) -> bool {
    &&& before.is_prefix_of(after)
    &&& forall|a: int|
        before.len() <= a < after.len() ==> (#[trigger] after[a]).x == EAction::Shift(t) && shifts_on(
            symbols,
            sp,
            after[a].sp,
        )
    &&& forall|sym: usize|
        shifts_on(symbols, sp, sym) ==> #[trigger] shift_added(before, after, sym)
}

/// One of the actions added from `before` to `after` is for `sym`.
pub open spec fn shift_added(before: Seq<Action>, after: Seq<Action>, sym: usize) -> bool {
    exists|a: int| before.len() <= a < after.len() && (#[trigger] after[a]).sp == sym
}

/// A configuration whose successor is pending in a list that grows has it
/// pending still.
pub proof fn lemma_pending_kept(
    list: Seq<Config>,
    grown: Seq<Config>,
    now: Seq<Config>,
    mid: Seq<Config>,
    after: Seq<Config>,
    newidx: int,
    c: int,
)
    requires
        pending(list, mid, c),
        after[c].rule == mid[c].rule,
        after[c].dot == mid[c].dot,
        list.len() <= grown.len(),
        grown.len() == now.len(),
        forall|i: int| 0 <= i < list.len() ==> #[trigger] grown[i] == list[i],
        forall|i: int| 0 <= i < grown.len() && i != newidx ==> #[trigger] now[i] == grown[i],
        0 <= newidx < grown.len(),
        now[newidx].rule == grown[newidx].rule,
        now[newidx].dot == grown[newidx].dot,
        grown[newidx].bplp@.is_prefix_of(now[newidx].bplp@),
    ensures
        pending(now, after, c),
{
    let i0 = choose|i: int|
        0 <= i < list.len() && (#[trigger] list[i]).rule == mid[c].rule && list[i].dot == mid[c].dot + 1
            && list[i].bplp@.contains(c as usize);
    assert(grown[i0] == list[i0]);
    if i0 == newidx {
        lemma_contains_kept(list[i0].bplp@, now[i0].bplp@, c as usize);
    } else {
        assert(now[i0] == grown[i0]);
    }
    assert(now[i0].rule == after[c].rule && now[i0].dot == after[c].dot + 1 && now[i0].bplp@.contains(
        c as usize,
    ));
}

/// After the shifts for one symbol were added, every configuration that is
/// done has its shifts, and every action is a shift that was asked for.
pub proof fn lemma_shifts_added(
    states: Seq<State>,
    configs: Seq<Config>,
    rules: Seq<Rule>,
    symbols: Seq<Symbol>,
    own: Seq<usize>,
    aps0: Seq<Action>,
    aps: Seq<Action>,
    sp: usize,
    newst: usize,
    cid_k: int,
)
    requires
        newst < states.len(),
        0 <= cid_k < own.len(),
        adds_shifts(symbols, sp, newst, aps0, aps),
        forall|x: int|
            0 <= x < own.len() && configs[(#[trigger] own[x]) as int].status is Complete ==> shifts_for(
                states,
                configs,
                rules,
                symbols,
                aps0,
                own[x] as int,
            ) || (can_shift(configs, rules, own[x] as int) && next_symbol(configs, rules, own[x] as int)
                == sp && goto_to(states, configs, own[x] as int, newst as int)),
        can_shift(configs, rules, own[cid_k] as int),
        next_symbol(configs, rules, own[cid_k] as int) == sp,
        goto_to(states, configs, own[cid_k] as int, newst as int),
        shifts_sound(states, configs, rules, symbols, own, aps0, 0),
    ensures
        forall|x: int|
            0 <= x < own.len() && configs[(#[trigger] own[x]) as int].status is Complete ==> shifts_for(
                states,
                configs,
                rules,
                symbols,
                aps,
                own[x] as int,
            ),
        shifts_sound(states, configs, rules, symbols, own, aps, 0),
{
    assert forall|x: int|
        0 <= x < own.len() && configs[(#[trigger] own[x]) as int].status is Complete implies shifts_for(
        states,
        configs,
        rules,
        symbols,
        aps,
        own[x] as int,
    ) by {
        let c = own[x] as int;
        if can_shift(configs, rules, c) {
            assert forall|sym: usize|
                shifts_on(symbols, next_symbol(configs, rules, c), sym) implies #[trigger] has_shift(
                states,
                configs,
                aps,
                c,
                sym,
            ) by {
                if shifts_for(states, configs, rules, symbols, aps0, c) {
                    assert(has_shift(states, configs, aps0, c, sym));
                    let a = choose|a: int|
                        0 <= a < aps0.len() && shift_of(states, configs, #[trigger] aps0[a], c, sym);
                    assert(aps[a] == aps0[a]);
                } else {
                    assert(shift_added(aps0, aps, sym));
                    let a = choose|a: int| aps0.len() <= a < aps.len() && (#[trigger] aps[a]).sp == sym;
                    assert(shift_of(states, configs, aps[a], c, sym));
                }
            }
        }
    }
    assert forall|a: int| 0 <= a < aps.len() implies shift_justified(
        states,
        configs,
        rules,
        symbols,
        own,
        #[trigger] aps[a],
    ) by {
        if a < aps0.len() {
            assert(aps[a] == aps0[a]);
        } else {
            assert(justifies(states, configs, rules, symbols, own[cid_k] as int, aps[a]));
        }
    }
}

/// When the shifts gathered for state `st` are added to its actions, the
/// state has every shift that its configurations ask for, what was added is
/// such a shift, and the other states keep theirs.
pub proof fn lemma_actions_pushed(
    sa: Seq<State>,
    sb: Seq<State>,
    configs: Seq<Config>,
    rules: Seq<Rule>,
    symbols: Seq<Symbol>,
    st: int,
    aps: Seq<Action>,
)
    requires
        0 <= st < sa.len(),
        sa.len() == sb.len(),
        forall|t: int| 0 <= t < sa.len() && t != st ==> #[trigger] sb[t] == sa[t],
        sb[st].cfp == sa[st].cfp,
        sb[st].bp == sa[st].bp,
        sb[st].ap@ == sa[st].ap@ + aps,
        forall|t: int, j: int|
            0 <= t < sa.len() && 0 <= j < sa[t].bp@.len() ==> (#[trigger] sa[t].bp@[j]) < configs.len(),
        forall|t: int, j: int|
            0 <= t < sa.len() && 0 <= j < sa[t].cfp@.len() ==> (#[trigger] sa[t].cfp@[j]) < configs.len(),
        shifts_complete(sa, configs, rules, symbols, sa[st].cfp@, aps),
        shifts_sound(sa, configs, rules, symbols, sa[st].cfp@, aps, 0),
    ensures
        shifts_complete(sb, configs, rules, symbols, sb[st].cfp@, sb[st].ap@),
        shifts_sound(sb, configs, rules, symbols, sb[st].cfp@, sb[st].ap@, sa[st].ap@.len() as int),
        forall|x: int|
            0 <= x < sa.len() && x != st && shifted(sa, configs, rules, symbols, x) ==> #[trigger] shifted(
                sb,
                configs,
                rules,
                symbols,
                x,
            ),
{
    let cfp = sa[st].cfp@;
    let full = sb[st].ap@;
    let off = sa[st].ap@.len() as int;
    assert(links_kept(sa, sb, configs, configs)) by {
        assert forall|d: int| 0 <= d < configs.len() implies configs[d].bplp@.is_prefix_of(
            (#[trigger] configs[d]).bplp@,
        ) by {}
    }
    assert forall|k: int| 0 <= k < cfp.len() implies shifts_for(
        sb,
        configs,
        rules,
        symbols,
        full,
        (#[trigger] cfp[k]) as int,
    ) by {
        let c = cfp[k] as int;
        assert(shifts_for(sa, configs, rules, symbols, aps, c));
        if can_shift(configs, rules, c) {
            assert forall|sym: usize|
                shifts_on(symbols, next_symbol(configs, rules, c), sym) implies #[trigger] has_shift(
                sb,
                configs,
                full,
                c,
                sym,
            ) by {
                assert(has_shift(sa, configs, aps, c, sym));
                let a = choose|a: int| 0 <= a < aps.len() && shift_of(sa, configs, #[trigger] aps[a], c, sym);
                assert(full[off + a] == aps[a]);
                match aps[a].x {
                    EAction::Shift(t) => {
                        lemma_goto_to_kept(sa, sb, configs, configs, c, t as int);
                    },
                    _ => {},
                }
                assert(shift_of(sb, configs, full[off + a], c, sym));
            }
        }
    }
    assert forall|a: int| off <= a < full.len() implies shift_justified(
        sb,
        configs,
        rules,
        symbols,
        cfp,
        #[trigger] full[a],
    ) by {
        assert(full[a] == aps[a - off]);
        lemma_justified_kept(sa, sb, configs, configs, rules, symbols, cfp, aps[a - off]);
    }
    assert forall|x: int|
        0 <= x < sa.len() && x != st && shifted(sa, configs, rules, symbols, x) implies #[trigger] shifted(
        sb,
        configs,
        rules,
        symbols,
        x,
    ) by {
        lemma_shifted_kept(sa, sb, configs, configs, rules, symbols, x);
    }
}

/// From `before` to `after` only the status of configurations changed, and
/// only to done, for configurations among `own` whose mark stands before
/// `sp`; each of these has its successor in `basis`, with a link back.
pub open spec fn group_marked(
    before: Seq<Config>,
    after: Seq<Config>,
    rules: Seq<Rule>,
    own: Seq<usize>,
    sp: usize,
    basis: Seq<Config>,
) -> bool {
    &&& after.len() == before.len()
    &&& forall|x: int|
        0 <= x < before.len() ==> #[trigger] after[x] == (Config {
            status: after[x].status,
            ..before[x]
        })
    &&& forall|x: int|
        0 <= x < before.len() && (#[trigger] after[x]).status != before[x].status ==> {
            &&& own.contains(x as usize)
            &&& after[x].status is Complete
            &&& can_shift(after, rules, x)
            &&& next_symbol(after, rules, x) == sp
            &&& pending(basis, after, x)
        }
}

/// What held of the configurations of a state and of the shifts gathered so
/// far still holds when a group of them was marked as done, where the
/// successors of the group count as pending.
pub proof fn lemma_group_kept(
    first: Seq<Config>,
    before: Seq<Config>,
    after: Seq<Config>,
    states: Seq<State>,
    rules: Seq<Rule>,
    symbols: Seq<Symbol>,
    own: Seq<usize>,
    sp: usize,
    basis: Seq<Config>,
    aps: Seq<Action>,
    from: int,
    icfp: int,
)
    requires
        group_marked(before, after, rules, own, sp, basis),
        configs_kept(first, before, own),
        0 <= from <= states.len(),
        0 <= icfp < own.len(),
        after[own[icfp] as int].status is Complete,
        forall|x: int| 0 <= x < own.len() ==> (#[trigger] own[x]) < before.len(),
        forall|t: int, j: int|
            0 <= t < states.len() && 0 <= j < states[t].bp@.len() ==> (#[trigger] states[t].bp@[j])
                < before.len(),
        forall|t: int, j: int|
            0 <= t < states.len() && 0 <= j < states[t].cfp@.len() ==> (#[trigger] states[t].cfp@[j])
                < before.len(),
        forall|x: int| from <= x < states.len() ==> #[trigger] linked(states, before, rules, x),
        forall|x: int| from <= x < states.len() ==> #[trigger] shifted(states, before, rules, symbols, x),
        forall|x: int|
            0 <= x < own.len() && before[(#[trigger] own[x]) as int].status is Complete && can_shift(
                before,
                rules,
                own[x] as int,
            ) ==> goto_link(states, before, own[x] as int),
        forall|x: int|
            0 <= x < own.len() && before[(#[trigger] own[x]) as int].status is Complete ==> shifts_for(
                states,
                before,
                rules,
                symbols,
                aps,
                own[x] as int,
            ),
        forall|x: int|
            0 <= x < icfp && can_shift(before, rules, (#[trigger] own[x]) as int)
                ==> before[own[x] as int].status is Complete,
        shifts_sound(states, before, rules, symbols, own, aps, 0),
    ensures
        links_kept(states, states, before, after),
        configs_kept(first, after, own),
        forall|x: int| from <= x < states.len() ==> #[trigger] linked(states, after, rules, x),
        forall|x: int| from <= x < states.len() ==> #[trigger] shifted(states, after, rules, symbols, x),
        forall|x: int|
            0 <= x < own.len() && after[(#[trigger] own[x]) as int].status is Complete && can_shift(
                after,
                rules,
                own[x] as int,
            ) ==> goto_link(states, after, own[x] as int) || pending(basis, after, own[x] as int),
        forall|x: int|
            0 <= x < own.len() && after[(#[trigger] own[x]) as int].status is Complete ==> shifts_for(
                states,
                after,
                rules,
                symbols,
                aps,
                own[x] as int,
            ) || (pending(basis, after, own[x] as int) && can_shift(after, rules, own[x] as int)
                && next_symbol(after, rules, own[x] as int) == sp),
        forall|x: int|
            0 <= x < icfp + 1 && can_shift(after, rules, (#[trigger] own[x]) as int)
                ==> after[own[x] as int].status is Complete,
        shifts_sound(states, after, rules, symbols, own, aps, 0),
{
    assert(links_kept(states, states, before, after)) by {
        assert forall|d: int| 0 <= d < before.len() implies (#[trigger] after[d]).rule == before[d].rule
            && after[d].dot == before[d].dot && before[d].bplp@.is_prefix_of(after[d].bplp@) by {
            assert(after[d] == (Config { status: after[d].status, ..before[d] }));
        }
    }
    assert(configs_kept(first, after, own)) by {
        assert forall|c: int| 0 <= c < first.len() implies (#[trigger] after[c]) == (Config {
            bplp: after[c].bplp,
            status: after[c].status,
            ..first[c]
        }) && first[c].bplp@.is_prefix_of(after[c].bplp@) && (after[c].status != first[c].status
            ==> own.contains(c as usize)) by {
            assert(after[c] == (Config { status: after[c].status, ..before[c] }));
            assert(before[c] == (Config {
                bplp: before[c].bplp,
                status: before[c].status,
                ..first[c]
            }));
        }
    }
    assert forall|x: int| from <= x < states.len() implies #[trigger] linked(states, after, rules, x) by {
        lemma_linked_kept(states, states, before, after, rules, x);
    }
    assert forall|x: int| from <= x < states.len() implies #[trigger] shifted(
        states,
        after,
        rules,
        symbols,
        x,
    ) by {
        lemma_shifted_kept(states, states, before, after, rules, symbols, x);
    }
    assert forall|x: int|
        0 <= x < own.len() && after[(#[trigger] own[x]) as int].status is Complete && can_shift(
            after,
            rules,
            own[x] as int,
        ) implies goto_link(states, after, own[x] as int) || pending(basis, after, own[x] as int) by {
        let c = own[x] as int;
        assert(after[c] == (Config { status: after[c].status, ..before[c] }));
        if after[c].status == before[c].status {
            lemma_goto_link_kept(states, states, before, after, c);
        }
    }
    assert forall|x: int|
        0 <= x < own.len() && after[(#[trigger] own[x]) as int].status is Complete implies shifts_for(
        states,
        after,
        rules,
        symbols,
        aps,
        own[x] as int,
    ) || (pending(basis, after, own[x] as int) && can_shift(after, rules, own[x] as int) && next_symbol(
        after,
        rules,
        own[x] as int,
    ) == sp) by {
        let c = own[x] as int;
        assert(after[c] == (Config { status: after[c].status, ..before[c] }));
        if after[c].status == before[c].status {
            lemma_shifts_for_kept(states, states, before, after, rules, symbols, aps, aps, c);
        }
    }
    assert forall|x: int|
        0 <= x < icfp + 1 && can_shift(after, rules, (#[trigger] own[x]) as int)
        implies after[own[x] as int].status is Complete by {
        let c = own[x] as int;
        assert(after[c] == (Config { status: after[c].status, ..before[c] }));
    }
    assert forall|a: int| 0 <= a < aps.len() implies shift_justified(
        states,
        after,
        rules,
        symbols,
        own,
        #[trigger] aps[a],
    ) by {
        lemma_justified_kept(states, states, before, after, rules, symbols, own, aps[a]);
    }
}

/// State `t` holds both configurations advanced, each with a link back.
pub open spec fn both_go(states: Seq<State>, configs: Seq<Config>, c1: int, c2: int, t: int) -> bool {
    goto_to(states, configs, c1, t) && goto_to(states, configs, c2, t)
}

/// Some state holds both configurations advanced.
pub open spec fn same_target(states: Seq<State>, configs: Seq<Config>, c1: int, c2: int) -> bool {
    exists|t: int| 0 <= t < states.len() && #[trigger] both_go(states, configs, c1, c2, t)
}

/// The configurations of the list that are done and have the same symbol
/// after their mark go to the same state.
pub open spec fn done_together(
    states: Seq<State>,
    configs: Seq<Config>,
    rules: Seq<Rule>,
    own: Seq<usize>,
) -> bool {
    forall|x: int, y: int|
        0 <= x < own.len() && 0 <= y < own.len() && configs[(#[trigger] own[x]) as int].status is Complete
            && configs[(#[trigger] own[y]) as int].status is Complete && can_shift(
            configs,
            rules,
            own[x] as int,
        ) && can_shift(configs, rules, own[y] as int) && next_symbol(configs, rules, own[x] as int)
            == next_symbol(configs, rules, own[y] as int) ==> same_target(
            states,
            configs,
            own[x] as int,
            own[y] as int,
        )
}

/// No configuration of the list that is not done has the symbol after its
/// mark that one that is done has.
pub open spec fn done_apart(configs: Seq<Config>, rules: Seq<Rule>, own: Seq<usize>) -> bool {
    forall|x: int, y: int|
        0 <= x < own.len() && 0 <= y < own.len() && configs[(#[trigger] own[x]) as int].status is Complete
            && configs[(#[trigger] own[y]) as int].status is Incomplete && can_shift(
            configs,
            rules,
            own[x] as int,
        ) && can_shift(configs, rules, own[y] as int) ==> next_symbol(configs, rules, own[x] as int)
            != next_symbol(configs, rules, own[y] as int)
}

/// All configurations of state `s` that have the same symbol after their
/// mark go to the same state.
pub open spec fn one_target(states: Seq<State>, configs: Seq<Config>, rules: Seq<Rule>, s: int) -> bool {
    forall|x: int, y: int|
        0 <= x < states[s].cfp@.len() && 0 <= y < states[s].cfp@.len() && can_shift(
            configs,
            rules,
            (#[trigger] states[s].cfp@[x]) as int,
        ) && can_shift(configs, rules, (#[trigger] states[s].cfp@[y]) as int) && next_symbol(
            configs,
            rules,
            states[s].cfp@[x] as int,
        ) == next_symbol(configs, rules, states[s].cfp@[y] as int) ==> same_target(
            states,
            configs,
            states[s].cfp@[x] as int,
            states[s].cfp@[y] as int,
        )
}

/// Two configurations that go to the same state keep doing so.
pub proof fn lemma_same_target_kept(
    sa: Seq<State>,
    sb: Seq<State>,
    ca: Seq<Config>,
    cb: Seq<Config>,
    c1: int,
    c2: int,
)
    requires
        links_kept(sa, sb, ca, cb),
        0 <= c1 < ca.len(),
        0 <= c2 < ca.len(),
        forall|t: int, j: int|
            0 <= t < sa.len() && 0 <= j < sa[t].bp@.len() ==> (#[trigger] sa[t].bp@[j]) < ca.len(),
        same_target(sa, ca, c1, c2),
    ensures
        same_target(sb, cb, c1, c2),
{
    let t = choose|t: int| 0 <= t < sa.len() && #[trigger] both_go(sa, ca, c1, c2, t);
    lemma_goto_to_kept(sa, sb, ca, cb, c1, t);
    lemma_goto_to_kept(sa, sb, ca, cb, c2, t);
    assert(both_go(sb, cb, c1, c2, t));
}

/// State `s` has a basis, and every configuration of it has its mark past
/// the start of its rule: the state is entered over a symbol.
#[verifier::opaque]
pub open spec fn advanced_state(states: Seq<State>, configs: Seq<Config>, s: int) -> bool {
    &&& states[s].bp@.len() > 0
    &&& forall|j: int|
        0 <= j < states[s].bp@.len() ==> configs[(#[trigger] states[s].bp@[j]) as int].dot > 0
}

/// A state that is entered over a symbol stays one.
pub proof fn lemma_advanced_kept(
    sa: Seq<State>,
    sb: Seq<State>,
    ca: Seq<Config>,
    cb: Seq<Config>,
    s: int,
)
    requires
        sa.len() <= sb.len(),
        0 <= s < sa.len(),
        sb[s].bp == sa[s].bp,
        ca.len() <= cb.len(),
        forall|d: int| 0 <= d < ca.len() ==> (#[trigger] cb[d]).dot == ca[d].dot,
        forall|j: int| 0 <= j < sa[s].bp@.len() ==> (#[trigger] sa[s].bp@[j]) < ca.len(),
        advanced_state(sa, ca, s),
    ensures
        advanced_state(sb, cb, s),
{
    reveal(advanced_state);
    assert forall|j: int| 0 <= j < sb[s].bp@.len() implies cb[(#[trigger] sb[s].bp@[j]) as int].dot
        > 0 by {
        let d: int = sa[s].bp@[j] as int;
        assert(cb[d].dot == ca[d].dot);
    }
}

/// A state whose basis is a group of configurations advanced over a symbol
/// is entered over a symbol.
pub proof fn lemma_group_advanced(
    states: Seq<State>,
    configs: Seq<Config>,
    t: int,
    handed: Seq<Config>,
    from: Seq<Config>,
    rules: Seq<Rule>,
    own: Seq<usize>,
    sp: usize,
)
    requires
        crate::formed::holds_basis(states, configs, t, handed),
        list_from_group(from, rules, own, sp, handed),
        handed.len() > 0,
    ensures
        advanced_state(states, configs, t),
{
    reveal(advanced_state);
    let bp = states[t].bp@;
    assert forall|j: int| 0 <= j < bp.len() implies configs[(#[trigger] bp[j]) as int].dot > 0 by {
        let d: int = bp[j] as int;
        assert(crate::formed::given_has(handed, configs[d].rule, configs[d].dot));
        let i: int = choose|i: int|
            0 <= i < handed.len() && (#[trigger] handed[i]).rule == configs[d].rule && handed[i].dot
                == configs[d].dot;
        assert(from_group(from, rules, own, sp, handed[i].rule, handed[i].dot));
        let y: int = choose|y: int| #[trigger]
            advanced_at(from, rules, own, y, sp, handed[i].rule, handed[i].dot);
    }
}

/// A state whose configurations go together by symbol keeps that.
pub proof fn lemma_one_target_kept(
    sa: Seq<State>,
    sb: Seq<State>,
    ca: Seq<Config>,
    cb: Seq<Config>,
    rules: Seq<Rule>,
    s: int,
)
    requires
        links_kept(sa, sb, ca, cb),
        0 <= s < sa.len(),
        forall|t: int, j: int|
            0 <= t < sa.len() && 0 <= j < sa[t].bp@.len() ==> (#[trigger] sa[t].bp@[j]) < ca.len(),
        forall|k: int| 0 <= k < sa[s].cfp@.len() ==> (#[trigger] sa[s].cfp@[k]) < ca.len(),
        one_target(sa, ca, rules, s),
    ensures
        one_target(sb, cb, rules, s),
{
    assert(sb[s].cfp == sa[s].cfp);
    let cfp = sa[s].cfp@;
    assert forall|x: int, y: int|
        0 <= x < cfp.len() && 0 <= y < cfp.len() && can_shift(cb, rules, (#[trigger] cfp[x]) as int)
            && can_shift(cb, rules, (#[trigger] cfp[y]) as int) && next_symbol(cb, rules, cfp[x] as int)
            == next_symbol(cb, rules, cfp[y] as int) implies same_target(
        sb,
        cb,
        cfp[x] as int,
        cfp[y] as int,
    ) by {
        let c1 = cfp[x] as int;
        let c2 = cfp[y] as int;
        assert(cb[c1].rule == ca[c1].rule && cb[c1].dot == ca[c1].dot);
        assert(cb[c2].rule == ca[c2].rule && cb[c2].dot == ca[c2].dot);
        lemma_same_target_kept(sa, sb, ca, cb, c1, c2);
    }
}

/// When a group of configurations was marked as done and went to state
/// `newst`, the configurations that are done still go together by symbol,
/// and those that are not done have other symbols after their marks.
pub proof fn lemma_group_together(
    sa: Seq<State>,
    sb: Seq<State>,
    g0: Seq<Config>,
    mid: Seq<Config>,
    after: Seq<Config>,
    rules: Seq<Rule>,
    own: Seq<usize>,
    sp: usize,
    basis: Seq<Config>,
    newst: int,
    icfp: int,
)
    requires
        0 <= icfp < own.len(),
        0 <= newst < sb.len(),
        forall|x: int| 0 <= x < own.len() ==> (#[trigger] own[x]) < g0.len(),
        forall|t: int, j: int|
            0 <= t < sa.len() && 0 <= j < sa[t].bp@.len() ==> (#[trigger] sa[t].bp@[j]) < g0.len(),
        group_marked(g0, mid, rules, own, sp, basis),
        links_kept(sa, sb, mid, after),
        forall|c: int| 0 <= c < mid.len() ==> (#[trigger] after[c]).status == mid[c].status,
        done_together(sa, g0, rules, own),
        done_apart(g0, rules, own),
        forall|y: int|
            icfp <= y < own.len() && g0[(#[trigger] own[y]) as int].status is Incomplete && can_shift(
                g0,
                rules,
                own[y] as int,
            ) && next_symbol(g0, rules, own[y] as int) == sp ==> mid[own[y] as int].status is Complete,
        forall|x: int|
            0 <= x < icfp && can_shift(g0, rules, (#[trigger] own[x]) as int)
                ==> g0[own[x] as int].status is Complete,
        g0[own[icfp] as int].status is Incomplete,
        can_shift(g0, rules, own[icfp] as int),
        next_symbol(g0, rules, own[icfp] as int) == sp,
        forall|x: int|
            0 <= x < own.len() && mid[(#[trigger] own[x]) as int].status != g0[own[x] as int].status
                ==> goto_to(sb, after, own[x] as int, newst),
    ensures
        done_together(sb, after, rules, own),
        done_apart(after, rules, own),
{
    assert(links_kept(sa, sb, g0, after)) by {
        assert forall|d: int| 0 <= d < g0.len() implies (#[trigger] after[d]).rule == g0[d].rule
            && after[d].dot == g0[d].dot && g0[d].bplp@.is_prefix_of(after[d].bplp@) by {
            assert(mid[d] == (Config { status: mid[d].status, ..g0[d] }));
            assert(after[d].rule == mid[d].rule);
        }
    }
    assert forall|x: int, y: int|
        0 <= x < own.len() && 0 <= y < own.len() && after[(#[trigger] own[x]) as int].status is Complete
            && after[(#[trigger] own[y]) as int].status is Complete && can_shift(
            after,
            rules,
            own[x] as int,
        ) && can_shift(after, rules, own[y] as int) && next_symbol(after, rules, own[x] as int)
            == next_symbol(after, rules, own[y] as int) implies same_target(
        sb,
        after,
        own[x] as int,
        own[y] as int,
    ) by {
        let c1 = own[x] as int;
        let c2 = own[y] as int;
        assert(after[c1].rule == g0[c1].rule && after[c1].dot == g0[c1].dot);
        assert(after[c2].rule == g0[c2].rule && after[c2].dot == g0[c2].dot);
        assert(after[c1].status == mid[c1].status && after[c2].status == mid[c2].status);
        let new1 = mid[c1].status != g0[c1].status;
        let new2 = mid[c2].status != g0[c2].status;
        if new1 && new2 {
            assert(both_go(sb, after, c1, c2, newst));
        } else if !new1 && !new2 {
            assert(same_target(sa, g0, c1, c2));
            lemma_same_target_kept(sa, sb, g0, after, c1, c2);
        } else if new1 {
            // the other was done before, so its symbol is not that of the group
            assert(next_symbol(mid, rules, c1) == sp);
            assert(g0[own[icfp] as int].status is Incomplete);
            assert(next_symbol(g0, rules, c2) != next_symbol(g0, rules, own[icfp] as int));
        } else {
            assert(next_symbol(mid, rules, c2) == sp);
            assert(next_symbol(g0, rules, c1) != next_symbol(g0, rules, own[icfp] as int));
        }
    }
    assert forall|x: int, y: int|
        0 <= x < own.len() && 0 <= y < own.len() && after[(#[trigger] own[x]) as int].status is Complete
            && after[(#[trigger] own[y]) as int].status is Incomplete && can_shift(
            after,
            rules,
            own[x] as int,
        ) && can_shift(after, rules, own[y] as int) implies next_symbol(after, rules, own[x] as int)
        != next_symbol(after, rules, own[y] as int) by {
        let c1 = own[x] as int;
        let c2 = own[y] as int;
        assert(after[c1].rule == g0[c1].rule && after[c1].dot == g0[c1].dot);
        assert(after[c2].rule == g0[c2].rule && after[c2].dot == g0[c2].dot);
        assert(after[c1].status == mid[c1].status && after[c2].status == mid[c2].status);
        assert(g0[c2].status is Incomplete);
        if mid[c1].status != g0[c1].status {
            assert(next_symbol(mid, rules, c1) == sp);
            if next_symbol(g0, rules, c2) == sp {
                assert(y >= icfp);
            }
        }
    }
}

/// Going together by symbol rests on the configurations of the states and
/// on the right-hand sides of the rules only.
pub proof fn lemma_one_target_same(
    sa: Seq<State>,
    sb: Seq<State>,
    configs: Seq<Config>,
    ra: Seq<Rule>,
    rb: Seq<Rule>,
    s: int,
)
    requires
        0 <= s < sa.len(),
        sa.len() == sb.len(),
        forall|t: int| 0 <= t < sa.len() ==> (#[trigger] sb[t]).bp == sa[t].bp && sb[t].cfp == sa[t].cfp,
        ra.len() == rb.len(),
        forall|q: int| 0 <= q < ra.len() ==> (#[trigger] rb[q]).rhs == ra[q].rhs,
        forall|k: int| 0 <= k < sa[s].cfp@.len() ==> (#[trigger] sa[s].cfp@[k]) < configs.len(),
        forall|c: int| 0 <= c < configs.len() ==> (#[trigger] configs[c]).rule < ra.len(),
        one_target(sa, configs, ra, s),
    ensures
        one_target(sb, configs, rb, s),
{
    let cfp = sa[s].cfp@;
    assert(sb[s].cfp == sa[s].cfp);
    assert forall|x: int, y: int|
        0 <= x < cfp.len() && 0 <= y < cfp.len() && can_shift(configs, rb, (#[trigger] cfp[x]) as int)
            && can_shift(configs, rb, (#[trigger] cfp[y]) as int) && next_symbol(
            configs,
            rb,
            cfp[x] as int,
        ) == next_symbol(configs, rb, cfp[y] as int) implies same_target(
        sb,
        configs,
        cfp[x] as int,
        cfp[y] as int,
    ) by {
        let c1 = cfp[x] as int;
        let c2 = cfp[y] as int;
        assert(rb[configs[c1].rule as int].rhs == ra[configs[c1].rule as int].rhs);
        assert(rb[configs[c2].rule as int].rhs == ra[configs[c2].rule as int].rhs);
        assert(same_target(sa, configs, c1, c2));
        let t = choose|t: int| 0 <= t < sa.len() && #[trigger] both_go(sa, configs, c1, c2, t);
        assert(sb[t].bp == sa[t].bp);
        assert(both_go(sb, configs, c1, c2, t));
    }
}

/// Configuration `y` of the list has its mark before `sp`, and the rule and
/// mark given are its own with the mark moved over it.
pub open spec fn advanced_at(
    configs: Seq<Config>,
    rules: Seq<Rule>,
    own: Seq<usize>,
    y: int,
    sp: usize,
    rule: usize,
    dot: usize,
) -> bool {
    &&& 0 <= y < own.len()
    &&& can_shift(configs, rules, own[y] as int)
    &&& next_symbol(configs, rules, own[y] as int) == sp
    &&& configs[own[y] as int].rule == rule
    &&& configs[own[y] as int].dot + 1 == dot
}

/// The rule and mark given are those of one of the configurations listed,
/// with the mark moved over `sp`.
pub open spec fn from_group(
    configs: Seq<Config>,
    rules: Seq<Rule>,
    own: Seq<usize>,
    sp: usize,
    rule: usize,
    dot: usize,
) -> bool {
    exists|y: int| #[trigger] advanced_at(configs, rules, own, y, sp, rule, dot)
}

/// Every configuration of the list is one of the group: a configuration
/// listed in `own`, with its mark moved over `sp`.
pub open spec fn list_from_group(
    configs: Seq<Config>,
    rules: Seq<Rule>,
    own: Seq<usize>,
    sp: usize,
    basis: Seq<Config>,
) -> bool {
    forall|i: int|
        0 <= i < basis.len() ==> #[trigger] from_group(configs, rules, own, sp, basis[i].rule, basis[i].dot)
}

/// Being one of the group does not depend on what changes of the
/// configurations but their rules and marks.
pub proof fn lemma_from_group_kept(
    ca: Seq<Config>,
    cb: Seq<Config>,
    rules: Seq<Rule>,
    own: Seq<usize>,
    sp: usize,
    rule: usize,
    dot: usize,
)
    requires
        ca.len() <= cb.len(),
        forall|x: int| 0 <= x < own.len() ==> (#[trigger] own[x]) < ca.len(),
        forall|c: int| 0 <= c < ca.len() ==> (#[trigger] cb[c]).rule == ca[c].rule && cb[c].dot == ca[c].dot,
        from_group(ca, rules, own, sp, rule, dot),
    ensures
        from_group(cb, rules, own, sp, rule, dot),
{
    let y = choose|y: int| #[trigger] advanced_at(ca, rules, own, y, sp, rule, dot);
    let e = own[y] as int;
    assert(cb[e].rule == ca[e].rule && cb[e].dot == ca[e].dot);
    assert(advanced_at(cb, rules, own, y, sp, rule, dot));
}

/// The `j`-th configuration of the basis of state `t` is a configuration
/// of state `s` with its mark moved over `sp`.
pub open spec fn item_from(
    states: Seq<State>,
    configs: Seq<Config>,
    rules: Seq<Rule>,
    t: int,
    j: int,
    s: int,
    sp: usize,
) -> bool {
    from_group(
        configs,
        rules,
        states[s].cfp@,
        sp,
        configs[states[t].bp@[j] as int].rule,
        configs[states[t].bp@[j] as int].dot,
    )
}

/// The basis of state `t` holds nothing but configurations of state `s`
/// with their marks moved over `sp`.
pub open spec fn basis_from(
    states: Seq<State>,
    configs: Seq<Config>,
    rules: Seq<Rule>,
    t: int,
    s: int,
    sp: usize,
) -> bool {
    forall|j: int|
        0 <= j < states[t].bp@.len() ==> #[trigger] item_from(states, configs, rules, t, j, s, sp)
}

/// State `t` holds configuration `c` of state `s` advanced, and its basis
/// holds nothing but configurations of `s` advanced over the same symbol.
pub open spec fn goes_grouped(
    states: Seq<State>,
    configs: Seq<Config>,
    rules: Seq<Rule>,
    s: int,
    c: int,
    t: int,
) -> bool {
    &&& 0 <= t < states.len()
    &&& goto_to(states, configs, c, t)
    &&& basis_from(states, configs, rules, t, s, next_symbol(configs, rules, c))
}

/// Configuration `c` of state `s` goes to a state whose basis is made of
/// the configurations of `s` that have the same symbol after their mark.
pub open spec fn grouped(states: Seq<State>, configs: Seq<Config>, rules: Seq<Rule>, s: int, c: int) -> bool {
    exists|t: int| #[trigger] goes_grouped(states, configs, rules, s, c, t)
}

/// If the mark of the `k`-th configuration of state `s` can move, the
/// configuration goes to a state whose basis is made of its group.
pub open spec fn grouped_at(states: Seq<State>, configs: Seq<Config>, rules: Seq<Rule>, s: int, k: int) -> bool {
    can_shift(configs, rules, states[s].cfp@[k] as int) ==> grouped(
        states,
        configs,
        rules,
        s,
        states[s].cfp@[k] as int,
    )
}

/// Every configuration of state `s` whose mark can move goes to a state
/// whose basis is made of its group.
pub open spec fn all_grouped(states: Seq<State>, configs: Seq<Config>, rules: Seq<Rule>, s: int) -> bool {
    forall|k: int| 0 <= k < states[s].cfp@.len() ==> #[trigger] grouped_at(states, configs, rules, s, k)
}

/// If the `k`-th configuration of state `s` is done and its mark can move,
/// it goes to a state whose basis is made of its group.
pub open spec fn done_grouped_at(
    states: Seq<State>,
    configs: Seq<Config>,
    rules: Seq<Rule>,
    s: int,
    k: int,
) -> bool {
    configs[states[s].cfp@[k] as int].status is Complete ==> grouped_at(states, configs, rules, s, k)
}

/// Every configuration of state `s` that is done goes, if its mark can
/// move, to a state whose basis is made of its group.
pub open spec fn done_grouped(states: Seq<State>, configs: Seq<Config>, rules: Seq<Rule>, s: int) -> bool {
    forall|k: int| 0 <= k < states[s].cfp@.len() ==> #[trigger] done_grouped_at(states, configs, rules, s, k)
}

/// A configuration that goes to a state made of its group keeps doing so.
pub proof fn lemma_grouped_kept(
    sa: Seq<State>,
    sb: Seq<State>,
    ca: Seq<Config>,
    cb: Seq<Config>,
    rules: Seq<Rule>,
    s: int,
    c: int,
)
    requires
        links_kept(sa, sb, ca, cb),
        0 <= s < sa.len(),
        0 <= c < ca.len(),
        forall|t: int, j: int|
            0 <= t < sa.len() && 0 <= j < sa[t].bp@.len() ==> (#[trigger] sa[t].bp@[j]) < ca.len(),
        forall|k: int| 0 <= k < sa[s].cfp@.len() ==> (#[trigger] sa[s].cfp@[k]) < ca.len(),
        grouped(sa, ca, rules, s, c),
    ensures
        grouped(sb, cb, rules, s, c),
{
    let t = choose|t: int| #[trigger] goes_grouped(sa, ca, rules, s, c, t);
    lemma_goto_to_kept(sa, sb, ca, cb, c, t);
    assert(sb[t].bp == sa[t].bp && sb[s].cfp == sa[s].cfp);
    assert(cb[c].rule == ca[c].rule && cb[c].dot == ca[c].dot);
    let sp = next_symbol(ca, rules, c);
    assert forall|j: int| 0 <= j < sb[t].bp@.len() implies #[trigger] item_from(
        sb,
        cb,
        rules,
        t,
        j,
        s,
        sp,
    ) by {
        let d = sa[t].bp@[j] as int;
        assert(cb[d].rule == ca[d].rule && cb[d].dot == ca[d].dot);
        assert(item_from(sa, ca, rules, t, j, s, sp));
        lemma_from_group_kept(ca, cb, rules, sa[s].cfp@, sp, ca[d].rule, ca[d].dot);
    }
    assert(goes_grouped(sb, cb, rules, s, c, t));
}

/// A state whose configurations go to states made of their groups keeps
/// that.
pub proof fn lemma_all_grouped_kept(
    sa: Seq<State>,
    sb: Seq<State>,
    ca: Seq<Config>,
    cb: Seq<Config>,
    rules: Seq<Rule>,
    s: int,
)
    requires
        links_kept(sa, sb, ca, cb),
        0 <= s < sa.len(),
        forall|t: int, j: int|
            0 <= t < sa.len() && 0 <= j < sa[t].bp@.len() ==> (#[trigger] sa[t].bp@[j]) < ca.len(),
        forall|k: int| 0 <= k < sa[s].cfp@.len() ==> (#[trigger] sa[s].cfp@[k]) < ca.len(),
        all_grouped(sa, ca, rules, s),
    ensures
        all_grouped(sb, cb, rules, s),
{
    assert(sb[s].cfp == sa[s].cfp);
    assert forall|k: int| 0 <= k < sb[s].cfp@.len() implies #[trigger] grouped_at(sb, cb, rules, s, k) by {
        let c = sa[s].cfp@[k] as int;
        assert(cb[c].rule == ca[c].rule && cb[c].dot == ca[c].dot);
        assert(grouped_at(sa, ca, rules, s, k));
        if can_shift(cb, rules, c) {
            lemma_grouped_kept(sa, sb, ca, cb, rules, s, c);
        }
    }
}

/// When a group of configurations of state `s` was marked as done and
/// state `newst` took the list made of it as its basis, the configurations
/// that are done go to states made of their groups.
pub proof fn lemma_group_grouped(
    sa: Seq<State>,
    sb: Seq<State>,
    g0: Seq<Config>,
    mid: Seq<Config>,
    after: Seq<Config>,
    rules: Seq<Rule>,
    s: int,
    sp: usize,
    handed: Seq<Config>,
    newst: int,
)
    requires
        0 <= s < sa.len(),
        0 <= newst < sb.len(),
        forall|x: int| 0 <= x < sa[s].cfp@.len() ==> (#[trigger] sa[s].cfp@[x]) < g0.len(),
        forall|t: int, j: int|
            0 <= t < sa.len() && 0 <= j < sa[t].bp@.len() ==> (#[trigger] sa[t].bp@[j]) < g0.len(),
        forall|j: int| 0 <= j < sb[newst].bp@.len() ==> (#[trigger] sb[newst].bp@[j]) < after.len(),
        group_marked(g0, mid, rules, sa[s].cfp@, sp, handed),
        links_kept(sa, sb, mid, after),
        forall|c: int| 0 <= c < mid.len() ==> (#[trigger] after[c]).status == mid[c].status,
        done_grouped(sa, g0, rules, s),
        list_from_group(mid, rules, sa[s].cfp@, sp, handed),
        crate::formed::holds_basis(sb, after, newst, handed),
        forall|x: int|
            0 <= x < sa[s].cfp@.len() && mid[(#[trigger] sa[s].cfp@[x]) as int].status
                != g0[sa[s].cfp@[x] as int].status ==> goto_to(sb, after, sa[s].cfp@[x] as int, newst),
    ensures
        done_grouped(sb, after, rules, s),
{
    let own = sa[s].cfp@;
    assert(sb[s].cfp == sa[s].cfp);
    assert(links_kept(sa, sb, g0, after)) by {
        assert forall|d: int| 0 <= d < g0.len() implies (#[trigger] after[d]).rule == g0[d].rule
            && after[d].dot == g0[d].dot && g0[d].bplp@.is_prefix_of(after[d].bplp@) by {
            assert(mid[d] == (Config { status: mid[d].status, ..g0[d] }));
            assert(after[d].rule == mid[d].rule);
        }
    }
    assert forall|k: int| 0 <= k < own.len() implies #[trigger] done_grouped_at(sb, after, rules, s, k) by {
        let c = own[k] as int;
        assert(after[c].rule == g0[c].rule && after[c].dot == g0[c].dot);
        assert(after[c].status == mid[c].status);
        if after[c].status is Complete && can_shift(after, rules, c) {
            if mid[c].status != g0[c].status {
                assert(next_symbol(mid, rules, c) == sp);
                assert forall|j: int| 0 <= j < sb[newst].bp@.len() implies #[trigger] item_from(
                    sb,
                    after,
                    rules,
                    newst,
                    j,
                    s,
                    sp,
                ) by {
                    let d = sb[newst].bp@[j] as int;
                    assert(crate::formed::given_has(handed, after[d].rule, after[d].dot));
                    let i = choose|i: int|
                        0 <= i < handed.len() && (#[trigger] handed[i]).rule == after[d].rule
                            && handed[i].dot == after[d].dot;
                    assert(from_group(mid, rules, own, sp, handed[i].rule, handed[i].dot));
                    lemma_from_group_kept(mid, after, rules, own, sp, handed[i].rule, handed[i].dot);
                }
                assert(goes_grouped(sb, after, rules, s, c, newst));
            } else {
                assert(done_grouped_at(sa, g0, rules, s, k));
                lemma_grouped_kept(sa, sb, g0, after, rules, s, c);
            }
        }
    }
}

/// What a list holds, a list that it begins holds too.
pub proof fn lemma_contains_kept(a: Seq<usize>, b: Seq<usize>, x: usize)
    requires
        a.is_prefix_of(b),
        a.contains(x),
    ensures
        b.contains(x),
{
    let w = choose|w: int| 0 <= w < a.len() && a[w] == x;
    assert(b[w] == x);
}

/// Configurations that were kept kept their links.
pub proof fn lemma_kept_links(
    sa: Seq<State>,
    sb: Seq<State>,
    ca: Seq<Config>,
    cb: Seq<Config>,
    touched: Seq<usize>,
)
    requires
        sa.len() <= sb.len(),
        forall|t: int|
            0 <= t < sa.len() ==> (#[trigger] sb[t]).bp == sa[t].bp && sb[t].cfp == sa[t].cfp,
        configs_kept(ca, cb, touched),
    ensures
        links_kept(sa, sb, ca, cb),
{
    assert forall|d: int| 0 <= d < ca.len() implies (#[trigger] cb[d]).rule == ca[d].rule && cb[d].dot
        == ca[d].dot && ca[d].bplp@.is_prefix_of(cb[d].bplp@) by {
        assert(cb[d] == (Config { bplp: cb[d].bplp, status: cb[d].status, ..ca[d] }));
    }
}

impl Lemon {
    /// Adds actions to state `st`.
    fn push_actions(&mut self, st: usize, aps: Vec<Action>)
        requires
            old(self).built_wf(),
            st < old(self).states@.len(),
            forall|k: int|
                0 <= k < aps@.len() ==> action_ok(
                    #[trigger] aps@[k],
                    old(self).symbols@.len(),
                    old(self).states@.len(),
                    old(self).rules@.len(),
                ),
        ensures
            final(self).built_wf(),
            *final(self) == (Lemon { states: final(self).states, ..*old(self) }),
            final(self).states@.len() == old(self).states@.len(),
            forall|s: int|
                0 <= s < old(self).states@.len() && s != st ==> #[trigger] final(self).states@[s]
                    == old(self).states@[s],
            final(self).states@[st as int] == (State {
                ap: final(self).states@[st as int].ap,
                ..old(self).states@[st as int]
            }),
            final(self).states@[st as int].ap@ == old(self).states@[st as int].ap@ + aps@,
    {
        let ghost before = self.states@;
        let mut aps = aps;
        self.states[st].ap.append(&mut aps);
        proof {
            let after = self.states@;
            let nsyms = self.symbols@.len();
            assert forall|x: int| 0 <= x < after.len() implies #[trigger] state_ok(
                after,
                self.configs@.len(),
                nsyms,
                self.rules@.len(),
                x,
            ) by {
                lemma_state_ok(self.configs@, before, self.rules@, nsyms, x);
            }
            lemma_states_changed(self.configs@, before, after, self.rules@, nsyms);
        }
    }

    /// Gathers the basis of the state that state `st` goes to on `sp`: every
    /// configuration of `st` from position `icfp` on that is not done and
    /// has its mark before `sp` is marked as done, and its successor joins
    /// the basis, with a link back.
    fn gather_group(&mut self, st: usize, icfp: usize, sp: usize) -> (basis: Vec<Config>)
        requires
            old(self).built_wf(),
            old(self).is_numbered(),
            st < old(self).states@.len(),
            icfp < old(self).states@[st as int].cfp@.len(),
            old(self).states@[st as int].cfp@[icfp as int] < old(self).configs@.len(),
            old(self).configs@[old(self).states@[st as int].cfp@[icfp as int] as int].status is Incomplete,
            can_shift(
                old(self).configs@,
                old(self).rules@,
                old(self).states@[st as int].cfp@[icfp as int] as int,
            ),
            next_symbol(
                old(self).configs@,
                old(self).rules@,
                old(self).states@[st as int].cfp@[icfp as int] as int,
            ) == sp,
        ensures
            final(self).built_wf(),
            final(self).is_numbered(),
            *final(self) == (Lemon { configs: final(self).configs, ..*old(self) }),
            group_marked(
                old(self).configs@,
                final(self).configs@,
                final(self).rules@,
                old(self).states@[st as int].cfp@,
                sp,
                basis@,
            ),
            final(self).configs@[old(self).states@[st as int].cfp@[icfp as int] as int].status is Complete,
            basis_ok(
                basis@,
                final(self).rules@,
                final(self).symbols@.len(),
                final(self).configs@.len(),
            ),
            basis_distinct(basis@),
            list_from_group(
                final(self).configs@,
                final(self).rules@,
                old(self).states@[st as int].cfp@,
                sp,
                basis@,
            ),
            forall|y: int|
                icfp <= y < old(self).states@[st as int].cfp@.len() && old(self).configs@[(
                #[trigger] old(self).states@[st as int].cfp@[y]) as int].status is Incomplete
                    && can_shift(
                    old(self).configs@,
                    old(self).rules@,
                    old(self).states@[st as int].cfp@[y] as int,
                ) && next_symbol(
                    old(self).configs@,
                    old(self).rules@,
                    old(self).states@[st as int].cfp@[y] as int,
                ) == sp ==> final(self).configs@[old(self).states@[st as int].cfp@[y] as int].status is Complete,
    {
        let ghost start = *self;
        let ghost own = self.states@[st as int].cfp@;
        let ghost rules = self.rules@;
        let ghost cid = own[icfp as int];
        proof {
            lemma_state_ok(
                self.configs@,
                self.states@,
                self.rules@,
                self.symbols@.len(),
                st as int,
            );
        }
        let n = self.states[st].cfp.len();
        let mut basis: Vec<Config> = Vec::new();
        let mut jb: usize = icfp;
        while jb < n
            invariant
                icfp <= jb <= n,
                icfp < n,
                self.built_wf(),
                self.is_numbered(),
                *self == (Lemon { configs: self.configs, ..start }),
                start == *old(self),
                rules == self.rules@,
                st < self.states@.len(),
                own == self.states@[st as int].cfp@,
                cid == own[icfp as int],
                n == own.len(),
                forall|x: int| 0 <= x < n ==> (#[trigger] own[x]) < start.configs@.len(),
                group_marked(start.configs@, self.configs@, rules, own, sp, basis@),
                start.configs@[cid as int].status is Incomplete,
                can_shift(start.configs@, rules, cid as int),
                next_symbol(start.configs@, rules, cid as int) == sp,
                jb > icfp ==> self.configs@[cid as int].status is Complete,
                basis_ok(basis@, self.rules@, self.symbols@.len(), self.configs@.len()),
                basis_distinct(basis@),
                list_from_group(self.configs@, rules, own, sp, basis@),
                forall|y: int|
                    icfp <= y < jb && start.configs@[(#[trigger] own[y]) as int].status is Incomplete
                        && can_shift(start.configs@, rules, own[y] as int) && next_symbol(
                        start.configs@,
                        rules,
                        own[y] as int,
                    ) == sp ==> self.configs@[own[y] as int].status is Complete,
            decreases n - jb,
        {
            let bid = self.states[st].cfp[jb];
            assert(own[jb as int] < start.configs@.len());
            proof {
                lemma_config_ok(
                    self.configs@,
                    self.states@,
                    self.rules@,
                    self.symbols@.len(),
                    bid as int,
                );
                assert(self.configs@[bid as int] == (Config {
                    status: self.configs@[bid as int].status,
                    ..start.configs@[bid as int]
                }));
            }
            let brule = self.configs[bid].rule;
            let bdot = self.configs[bid].dot;
            if self.configs[bid].status == CfgStatus::Incomplete && bdot < self.rules[brule].rhs.len() {
                if self.rules[brule].rhs[bdot].sym == sp {
                    let ghost list = basis@;
                    let newidx = add_to_list(&mut basis, brule, bdot + 1);
                    let ghost mid = self.configs@;
                    let ghost grown = basis@;
                    self.set_status(bid, CfgStatus::Complete);
                    basis[newidx].bplp.push(bid);
                    proof {
                        let after = self.configs@;
                        assert forall|i: int| 0 <= i < basis@.len() implies #[trigger] from_group(
                            after,
                            rules,
                            own,
                            sp,
                            basis@[i].rule,
                            basis@[i].dot,
                        ) by {
                            assert(basis@[i].rule == grown[i].rule && basis@[i].dot == grown[i].dot);
                            if i < list.len() {
                                assert(grown[i] == list[i]);
                                assert(from_group(mid, rules, own, sp, list[i].rule, list[i].dot));
                                lemma_from_group_kept(
                                    mid,
                                    after,
                                    rules,
                                    own,
                                    sp,
                                    list[i].rule,
                                    list[i].dot,
                                );
                            } else {
                                assert(after[bid as int].rule == brule && after[bid as int].dot == bdot);
                                assert(advanced_at(
                                    after,
                                    rules,
                                    own,
                                    jb as int,
                                    sp,
                                    basis@[i].rule,
                                    basis@[i].dot,
                                ));
                            }
                        }
                        assert(basis_ok(
                            basis@,
                            self.rules@,
                            self.symbols@.len(),
                            self.configs@.len(),
                        )) by {
                            assert forall|j: int| 0 <= j < basis@.len() implies {
                                let cfg = #[trigger] basis@[j];
                                &&& cfg.rule < self.rules@.len()
                                &&& cfg.dot <= self.rules@[cfg.rule as int].rhs@.len()
                                &&& below(cfg.fws@, self.symbols@.len())
                                &&& cfg.fplp@.len() == 0
                                &&& forall|k: int|
                                    0 <= k < cfg.bplp@.len() ==> (#[trigger] cfg.bplp@[k])
                                        < self.configs@.len()
                            } by {
                                if j < list.len() {
                                    let was = list[j];
                                    assert(was.rule < self.rules@.len());
                                }
                            }
                        }
                        assert(basis_distinct(basis@)) by {
                            assert forall|a: int, b: int|
                                0 <= a < b < basis@.len() implies !((#[trigger] basis@[a]).rule == (
                            #[trigger] basis@[b]).rule && basis@[a].dot == basis@[b].dot) by {
                                assert(basis@[a].rule == grown[a].rule && basis@[a].dot == grown[a].dot);
                                assert(basis@[b].rule == grown[b].rule && basis@[b].dot == grown[b].dot);
                                if b < list.len() {
                                    assert(grown[a] == list[a] && grown[b] == list[b]);
                                } else if newidx >= list.len() {
                                    assert(grown[a] == list[a]);
                                }
                            }
                        }
                        assert forall|x: int|
                            0 <= x < start.configs@.len() && (#[trigger] after[x]).status
                                != start.configs@[x].status implies {
                            &&& own.contains(x as usize)
                            &&& after[x].status is Complete
                            &&& can_shift(after, rules, x)
                            &&& next_symbol(after, rules, x) == sp
                            &&& pending(basis@, after, x)
                        } by {
                            if x == bid {
                                assert(own[jb as int] == x as usize);
                                let l = basis@[newidx as int].bplp@;
                                assert(l[l.len() - 1] == bid);
                                assert(basis@[newidx as int].rule == after[x].rule);
                            } else {
                                assert(after[x] == mid[x]);
                                lemma_pending_kept(list, grown, basis@, mid, after, newidx as int, x);
                            }
                        }
                    }
                }
            }
            proof {
                let done = self.configs@;
                assert forall|y: int|
                    icfp <= y < jb + 1 && start.configs@[(#[trigger] own[y]) as int].status is Incomplete
                        && can_shift(start.configs@, rules, own[y] as int) && next_symbol(
                        start.configs@,
                        rules,
                        own[y] as int,
                    ) == sp implies done[own[y] as int].status is Complete by {
                    let c = own[y] as int;
                    assert(done[c] == (Config { status: done[c].status, ..start.configs@[c] }));
                    if done[c].status != start.configs@[c].status {
                        assert(done[c].status is Complete);
                    }
                }
            }
            jb += 1;
        }
        basis
    }

    /// Finds the states that state `st` leads to and gives it a shift action
    /// for each symbol that one of its configurations has after its mark.
    ///
    /// Every configuration of the state whose mark can move then has its
    /// successor in the basis of the state shifted to, with a link back.
    #[verifier::rlimit(100)]
    pub fn build_shifts(&mut self, st: usize) -> (r: Result<(), Error>)
        requires
            old(self).built_wf(),
            old(self).is_numbered(),
            st < old(self).states@.len(),
            automaton_formed(
                old(self).states@,
                old(self).configs@,
                old(self).rules@,
                old(self).symbols@,
            ),
        ensures
            final(self).built_wf(),
            final(self).is_numbered(),
            *final(self) == (Lemon {
                configs: final(self).configs,
                states: final(self).states,
                ..*old(self)
            }),
            old(self).states@.len() <= final(self).states@.len(),
            forall|s: int|
                0 <= s < old(self).states@.len() && s != st ==> #[trigger] final(self).states@[s]
                    == old(self).states@[s],
            final(self).states@[st as int] == (State {
                ap: final(self).states@[st as int].ap,
                ..old(self).states@[st as int]
            }),
            old(self).states@[st as int].ap@.is_prefix_of(final(self).states@[st as int].ap@),
            configs_kept(old(self).configs@, final(self).configs@, old(self).states@[st as int].cfp@),
            r is Ok ==> linked(
                final(self).states@,
                final(self).configs@,
                final(self).rules@,
                st as int,
            ),
            r is Ok ==> forall|x: int|
                old(self).states@.len() <= x < final(self).states@.len() ==> #[trigger] linked(
                    final(self).states@,
                    final(self).configs@,
                    final(self).rules@,
                    x,
                ),
            r is Ok ==> automaton_formed(
                final(self).states@,
                final(self).configs@,
                final(self).rules@,
                final(self).symbols@,
            ),
            r is Ok ==> shifts_complete(
                final(self).states@,
                final(self).configs@,
                final(self).rules@,
                final(self).symbols@,
                final(self).states@[st as int].cfp@,
                final(self).states@[st as int].ap@,
            ),
            r is Ok ==> shifts_sound(
                final(self).states@,
                final(self).configs@,
                final(self).rules@,
                final(self).symbols@,
                final(self).states@[st as int].cfp@,
                final(self).states@[st as int].ap@,
                old(self).states@[st as int].ap@.len() as int,
            ),
            r is Ok ==> forall|x: int|
                old(self).states@.len() <= x < final(self).states@.len() ==> #[trigger] shifted(
                    final(self).states@,
                    final(self).configs@,
                    final(self).rules@,
                    final(self).symbols@,
                    x,
                ),
            r is Err <==> new_lacking(
                old(self).configs@.len() as int,
                final(self).configs@,
                final(self).rules@,
                final(self).symbols@,
                final(self).err_sym,
            ),
            forall|x: int|
                old(self).states@.len() <= x < final(self).states@.len() ==> (
                #[trigger] final(self).states@[x]).state_num == x,
            r is Ok ==> one_target(
                final(self).states@,
                final(self).configs@,
                final(self).rules@,
                st as int,
            ),
            r is Ok ==> all_grouped(
                final(self).states@,
                final(self).configs@,
                final(self).rules@,
                st as int,
            ),
            r is Ok ==> forall|x: int|
                old(self).states@.len() <= x < final(self).states@.len() ==> #[trigger] all_grouped(
                    final(self).states@,
                    final(self).configs@,
                    final(self).rules@,
                    x,
                ),
            r is Ok ==> forall|x: int|
                old(self).states@.len() <= x < final(self).states@.len() ==> #[trigger] one_target(
                    final(self).states@,
                    final(self).configs@,
                    final(self).rules@,
                    x,
                ),
            r is Ok ==> forall|x: int|
                old(self).states@.len() <= x < final(self).states@.len() ==> #[trigger] advanced_state(
                    final(self).states@,
                    final(self).configs@,
                    x,
                ),
            r matches Err(e) ==> e.fault == Fault::NonterminalWithoutRules,
        decreases usize::MAX - old(self).states@.len(), 1int,
    {
        let ghost start = *self;
        let ghost own = self.states@[st as int].cfp@;
        let ghost rules = self.rules@;
        proof {
            lemma_state_ok(
                self.configs@,
                self.states@,
                self.rules@,
                self.symbols@.len(),
                st as int,
            );
            lemma_kept_same(self.configs@, own);
        }
        let n = self.states[st].cfp.len();
        let mut k: usize = 0;
        while k < n
            invariant
                k <= n,
                self.built_wf(),
                self.is_numbered(),
                *self == (Lemon { configs: self.configs, ..start }),
                start == *old(self),
                st < self.states@.len(),
                own == self.states@[st as int].cfp@,
                n == own.len(),
                forall|x: int| 0 <= x < n ==> (#[trigger] own[x]) < start.configs@.len(),
                configs_kept(start.configs@, self.configs@, own),
                self.configs@.len() == start.configs@.len(),
                forall|x: int| 0 <= x < k ==> self.configs@[(#[trigger] own[x]) as int].status is Incomplete,
                automaton_formed(self.states@, self.configs@, self.rules@, self.symbols@),
            decreases n - k,
        {
            let cid = self.states[st].cfp[k];
            let ghost mid = self.configs@;
            let ghost prev = *self;
            self.set_status(cid, CfgStatus::Incomplete);
            proof {
                self.lemma_formed_step(prev);
                self.lemma_status_kept(start.configs@, mid, own, cid as int, k as int);
            }
            k += 1;
        }
        let mut aps: Vec<Action> = Vec::new();
        let mut icfp: usize = 0;
        while icfp < n
            invariant
                icfp <= n,
                self.built_wf(),
                self.is_numbered(),
                *self == (Lemon { configs: self.configs, states: self.states, ..start }),
                start == *old(self),
                rules == self.rules@,
                st < start.states@.len(),
                start.states@.len() <= self.states@.len(),
                forall|s: int|
                    0 <= s < start.states@.len() ==> #[trigger] self.states@[s] == start.states@[s],
                own == start.states@[st as int].cfp@,
                n == own.len(),
                forall|x: int| 0 <= x < n ==> (#[trigger] own[x]) < start.configs@.len(),
                configs_kept(start.configs@, self.configs@, own),
                forall|x: int|
                    0 <= x < aps@.len() ==> action_ok(
                        #[trigger] aps@[x],
                        self.symbols@.len(),
                        self.states@.len(),
                        self.rules@.len(),
                    ),
                forall|x: int|
                    start.states@.len() <= x < self.states@.len() ==> #[trigger] linked(
                        self.states@,
                        self.configs@,
                        rules,
                        x,
                    ),
                forall|x: int|
                    0 <= x < n && self.configs@[(#[trigger] own[x]) as int].status is Complete
                        && can_shift(self.configs@, rules, own[x] as int) ==> goto_link(
                        self.states@,
                        self.configs@,
                        own[x] as int,
                    ),
                forall|x: int|
                    0 <= x < icfp && can_shift(self.configs@, rules, (#[trigger] own[x]) as int)
                        ==> self.configs@[own[x] as int].status is Complete,
                automaton_formed(self.states@, self.configs@, self.rules@, self.symbols@),
                forall|x: int|
                    0 <= x < n && self.configs@[(#[trigger] own[x]) as int].status is Complete
                        ==> shifts_for(
                        self.states@,
                        self.configs@,
                        rules,
                        self.symbols@,
                        aps@,
                        own[x] as int,
                    ),
                shifts_sound(self.states@, self.configs@, rules, self.symbols@, own, aps@, 0),
                forall|x: int|
                    start.states@.len() <= x < self.states@.len() ==> #[trigger] shifted(
                        self.states@,
                        self.configs@,
                        rules,
                        self.symbols@,
                        x,
                    ),
                forall|c: int|
                    start.configs@.len() <= c < self.configs@.len() ==> !#[trigger] lacks_rules(
                        self.configs@,
                        rules,
                        self.symbols@,
                        self.err_sym,
                        c,
                    ),
                forall|x: int|
                    start.states@.len() <= x < self.states@.len() ==> (#[trigger] self.states@[x]).state_num
                        == x,
                done_together(self.states@, self.configs@, rules, own),
                done_apart(self.configs@, rules, own),
                done_grouped(self.states@, self.configs@, rules, st as int),
                forall|x: int|
                    start.states@.len() <= x < self.states@.len() ==> #[trigger] all_grouped(
                        self.states@,
                        self.configs@,
                        rules,
                        x,
                    ),
                forall|x: int|
                    start.states@.len() <= x < self.states@.len() ==> #[trigger] one_target(
                        self.states@,
                        self.configs@,
                        rules,
                        x,
                    ),
                forall|x: int|
                    start.states@.len() <= x < self.states@.len() ==> #[trigger] advanced_state(
                        self.states@,
                        self.configs@,
                        x,
                    ),
            decreases n - icfp,
        {
            let cid = self.states[st].cfp[icfp];
            assert(own[icfp as int] < start.configs@.len());
            proof {
                lemma_config_ok(
                    self.configs@,
                    self.states@,
                    self.rules@,
                    self.symbols@.len(),
                    cid as int,
                );
            }
            let rule = self.configs[cid].rule;
            let dot = self.configs[cid].dot;
            if self.configs[cid].status == CfgStatus::Incomplete && dot < self.rules[rule].rhs.len() {
                proof {
                    lemma_rule_ok(self.symbols@, self.rules@, rule as int);
                }
                let sp = self.rules[rule].rhs[dot].sym;
                assert(self.rules@[rule as int].rhs@[dot as int].sym < self.symbols@.len());
                let ghost prev = *self;
                let basis = self.gather_group(st, icfp, sp);
                proof {
                    self.lemma_formed_step(prev);
                    assert forall|c: int|
                        start.configs@.len() <= c < self.configs@.len() implies !#[trigger] lacks_rules(
                        self.configs@,
                        rules,
                        self.symbols@,
                        self.err_sym,
                        c,
                    ) by {
                        assert(!lacks_rules(prev.configs@, rules, self.symbols@, self.err_sym, c));
                        assert(self.configs@[c] == (Config {
                            status: self.configs@[c].status,
                            ..prev.configs@[c]
                        }));
                    }
                    prev.lemma_listed_exist();
                    assert(links_kept(self.states@, self.states@, prev.configs@, self.configs@)) by {
                        assert forall|d: int| 0 <= d < prev.configs@.len() implies (
                        #[trigger] self.configs@[d]).rule == prev.configs@[d].rule
                            && self.configs@[d].dot == prev.configs@[d].dot
                            && prev.configs@[d].bplp@.is_prefix_of(self.configs@[d].bplp@) by {
                            assert(self.configs@[d] == (Config {
                                status: self.configs@[d].status,
                                ..prev.configs@[d]
                            }));
                        }
                    }
                    assert forall|x: int|
                        start.states@.len() <= x < self.states@.len() implies #[trigger] one_target(
                        self.states@,
                        self.configs@,
                        rules,
                        x,
                    ) by {
                        lemma_one_target_kept(
                            self.states@,
                            self.states@,
                            prev.configs@,
                            self.configs@,
                            rules,
                            x,
                        );
                    }
                    assert forall|x: int|
                        start.states@.len() <= x < self.states@.len() implies #[trigger] advanced_state(
                        self.states@,
                        self.configs@,
                        x,
                    ) by {
                        lemma_advanced_kept(
                            self.states@,
                            self.states@,
                            prev.configs@,
                            self.configs@,
                            x,
                        );
                    }
                    assert(basis@.len() > 0) by {
                        assert(pending(basis@, self.configs@, cid as int));
                    }
                    assert forall|x: int|
                        start.states@.len() <= x < self.states@.len() implies #[trigger] all_grouped(
                        self.states@,
                        self.configs@,
                        rules,
                        x,
                    ) by {
                        lemma_all_grouped_kept(
                            self.states@,
                            self.states@,
                            prev.configs@,
                            self.configs@,
                            rules,
                            x,
                        );
                    }
                    lemma_group_kept(
                        start.configs@,
                        prev.configs@,
                        self.configs@,
                        self.states@,
                        rules,
                        self.symbols@,
                        own,
                        sp,
                        basis@,
                        aps@,
                        start.states@.len() as int,
                        icfp as int,
                    );
                }
                let ghost mid = self.configs@;
                let ghost mid_states = self.states@;
                let ghost handed = basis@;
                let ghost nstates_before = self.states@.len();
                assert(start.states@.len() <= self.states.len() <= usize::MAX);
                proof {
                    self.lemma_listed_exist();
                }
                let newst = match self.get_state(basis) {
                    Ok(s) => s,
                    Err(e) => {
                        proof {
                            lemma_kept_then(start.configs@, mid, self.configs@, own);
                            let c = choose|c: int| #[trigger]
                                lacks_after(
                                    mid.len() as int,
                                    self.configs@,
                                    rules,
                                    self.symbols@,
                                    self.err_sym,
                                    c,
                                );
                            assert(lacks_after(
                                start.configs@.len() as int,
                                self.configs@,
                                rules,
                                self.symbols@,
                                self.err_sym,
                                c,
                            ));
                        }
                        return Err(e);
                    },
                };
                proof {
                    let after = self.configs@;
                    assert forall|c: int|
                        start.configs@.len() <= c < after.len() implies !#[trigger] lacks_rules(
                        after,
                        rules,
                        self.symbols@,
                        self.err_sym,
                        c,
                    ) by {
                        if c < mid.len() {
                            assert(!lacks_rules(mid, rules, self.symbols@, self.err_sym, c));
                            assert(after[c] == (Config {
                                bplp: after[c].bplp,
                                status: after[c].status,
                                ..mid[c]
                            }));
                        } else {
                            assert(!lacks_after(
                                mid.len() as int,
                                after,
                                rules,
                                self.symbols@,
                                self.err_sym,
                                c,
                            ));
                        }
                    }
                    lemma_kept_then(start.configs@, mid, after, own);
                    lemma_symbol_ok(self.symbols@, self.rules@, sp as int);
                    assert forall|x: int| 0 <= x < aps@.len() implies action_ok(
                        #[trigger] aps@[x],
                        self.symbols@.len(),
                        self.states@.len(),
                        self.rules@.len(),
                    ) by {
                        assert(action_ok(
                            aps@[x],
                            self.symbols@.len(),
                            nstates_before,
                            self.rules@.len(),
                        ));
                    }
                    lemma_kept_links(mid_states, self.states@, mid, after, Seq::empty());
                    assert forall|x: int|
                        start.states@.len() <= x < self.states@.len() implies #[trigger] shifted(
                        self.states@,
                        after,
                        rules,
                        self.symbols@,
                        x,
                    ) by {
                        if x < mid_states.len() {
                            lemma_shifted_kept(mid_states, self.states@, mid, after, rules, self.symbols@, x);
                        }
                    }
                    assert forall|a: int| 0 <= a < aps@.len() implies shift_justified(
                        self.states@,
                        after,
                        rules,
                        self.symbols@,
                        own,
                        #[trigger] aps@[a],
                    ) by {
                        lemma_justified_kept(
                            mid_states,
                            self.states@,
                            mid,
                            after,
                            rules,
                            self.symbols@,
                            own,
                            aps@[a],
                        );
                    }
                    assert forall|x: int|
                        0 <= x < n && after[(#[trigger] own[x]) as int].status is Complete implies shifts_for(
                        self.states@,
                        after,
                        rules,
                        self.symbols@,
                        aps@,
                        own[x] as int,
                    ) || (can_shift(after, rules, own[x] as int) && next_symbol(after, rules, own[x] as int)
                        == sp && goto_to(self.states@, after, own[x] as int, newst as int)) by {
                        let c = own[x] as int;
                        assert(after[c] == (Config {
                            bplp: after[c].bplp,
                            status: after[c].status,
                            ..mid[c]
                        }));
                        if after[c].status != mid[c].status {
                            assert(Seq::<usize>::empty().contains(c as usize));
                        }
                        if shifts_for(mid_states, mid, rules, self.symbols@, aps@, c) {
                            lemma_shifts_for_kept(
                                mid_states,
                                self.states@,
                                mid,
                                after,
                                rules,
                                self.symbols@,
                                aps@,
                                aps@,
                                c,
                            );
                        } else {
                            self.lemma_pending_taken(handed, mid, c, newst);
                        }
                    }
                    assert(goto_to(self.states@, after, cid as int, newst as int)) by {
                        let c = cid as int;
                        assert(after[c] == (Config {
                            bplp: after[c].bplp,
                            status: after[c].status,
                            ..mid[c]
                        }));
                        self.lemma_pending_taken(handed, mid, c, newst);
                    }
                    assert forall|c: int| 0 <= c < mid.len() implies (#[trigger] after[c]).status
                        == mid[c].status by {
                        if after[c].status != mid[c].status {
                            assert(Seq::<usize>::empty().contains(c as usize));
                        }
                    }
                    assert forall|x: int|
                        0 <= x < n && mid[(#[trigger] own[x]) as int].status
                            != prev.configs@[own[x] as int].status implies goto_to(
                        self.states@,
                        after,
                        own[x] as int,
                        newst as int,
                    ) by {
                        let c = own[x] as int;
                        assert(after[c] == (Config {
                            bplp: after[c].bplp,
                            status: after[c].status,
                            ..mid[c]
                        }));
                        self.lemma_pending_taken(handed, mid, c, newst);
                    }
                    lemma_group_together(
                        mid_states,
                        self.states@,
                        prev.configs@,
                        mid,
                        after,
                        rules,
                        own,
                        sp,
                        handed,
                        newst as int,
                        icfp as int,
                    );
                    self.lemma_listed_exist();
                    lemma_group_grouped(
                        mid_states,
                        self.states@,
                        prev.configs@,
                        mid,
                        after,
                        rules,
                        st as int,
                        sp,
                        handed,
                        newst as int,
                    );
                    assert forall|x: int|
                        start.states@.len() <= x < self.states@.len() implies #[trigger] all_grouped(
                        self.states@,
                        after,
                        rules,
                        x,
                    ) by {
                        if x < mid_states.len() {
                            lemma_all_grouped_kept(mid_states, self.states@, mid, after, rules, x);
                        }
                    }
                    assert forall|x: int|
                        start.states@.len() <= x < self.states@.len() implies #[trigger] one_target(
                        self.states@,
                        after,
                        rules,
                        x,
                    ) by {
                        if x < mid_states.len() {
                            lemma_one_target_kept(mid_states, self.states@, mid, after, rules, x);
                        }
                    }
                    assert forall|x: int|
                        start.states@.len() <= x < self.states@.len() implies #[trigger] advanced_state(
                        self.states@,
                        after,
                        x,
                    ) by {
                        if x < mid_states.len() {
                            lemma_advanced_kept(mid_states, self.states@, mid, after, x);
                        } else if x == mid_states.len() {
                            lemma_group_advanced(self.states@, after, x, handed, mid, rules, own, sp);
                        }
                    }
                    assert forall|x: int|
                        start.states@.len() <= x < self.states@.len() implies #[trigger] linked(
                        self.states@,
                        after,
                        rules,
                        x,
                    ) by {
                        if x < mid_states.len() {
                            lemma_linked_kept(mid_states, self.states@, mid, after, rules, x);
                        }
                    }
                    assert forall|x: int|
                        0 <= x < n && after[(#[trigger] own[x]) as int].status is Complete
                            && can_shift(after, rules, own[x] as int) implies goto_link(
                        self.states@,
                        after,
                        own[x] as int,
                    ) by {
                        let c = own[x] as int;
                        assert(after[c] == (Config {
                            bplp: after[c].bplp,
                            status: after[c].status,
                            ..mid[c]
                        }));
                        if after[c].status != mid[c].status {
                            assert(Seq::<usize>::empty().contains(c as usize));
                        }
                        if goto_link(mid_states, mid, c) {
                            lemma_goto_link_kept(mid_states, self.states@, mid, after, c);
                        } else {
                            assert(pending(handed, mid, c));
                            let i0 = choose|i: int|
                                0 <= i < handed.len() && (#[trigger] handed[i]).rule == mid[c].rule
                                    && handed[i].dot == mid[c].dot + 1 && handed[i].bplp@.contains(
                                    c as usize,
                                );
                            assert(taken_by(handed[i0], self.states@, after, newst as int));
                            let j0 = choose|j: int|
                                0 <= j < self.states@[newst as int].bp@.len() && hands_over(
                                    handed[i0],
                                    after,
                                    (#[trigger] self.states@[newst as int].bp@[j]) as int,
                                );
                            assert(advances(after, c, self.states@[newst as int].bp@[j0] as int));
                        }
                    }
                    assert forall|x: int|
                        0 <= x < icfp + 1 && can_shift(after, rules, (#[trigger] own[x]) as int)
                        implies after[own[x] as int].status is Complete by {
                        let c = own[x] as int;
                        assert(after[c] == (Config {
                            bplp: after[c].bplp,
                            status: after[c].status,
                            ..mid[c]
                        }));
                        if after[c].status != mid[c].status {
                            assert(Seq::<usize>::empty().contains(c as usize));
                        }
                    }
                }
                let ghost aps0 = aps@;
                match self.symbols[sp].kind {
                    SymbolKind::MultiTerminal => {
                        let nc = self.symbols[sp].sub_sym.len();
                        let mut c: usize = 0;
                        while c < nc
                            invariant
                                c <= nc,
                                sp < self.symbols@.len(),
                                nc == self.symbols@[sp as int].sub_sym@.len(),
                                symbol_ok(self.symbols@, self.rules@, sp as int),
                                newst < self.states@.len(),
                                forall|x: int|
                                    0 <= x < aps@.len() ==> action_ok(
                                        #[trigger] aps@[x],
                                        self.symbols@.len(),
                                        self.states@.len(),
                                        self.rules@.len(),
                                    ),
                                aps0.is_prefix_of(aps@),
                                aps@.len() == aps0.len() + c,
                                forall|j: int|
                                    0 <= j < c ==> #[trigger] aps@[aps0.len() + j] == (Action {
                                        sp: self.symbols@[sp as int].sub_sym@[j],
                                        x: EAction::Shift(newst),
                                    }),
                            decreases nc - c,
                        {
                            let child = self.symbols[sp].sub_sym[c];
                            assert(self.symbols@[sp as int].sub_sym@[c as int] < self.symbols@.len());
                            aps.push(Action { sp: child, x: EAction::Shift(newst) });
                            c += 1;
                        }
                        proof {
                            let subs = self.symbols@[sp as int].sub_sym@;
                            assert forall|a: int| aps0.len() <= a < aps@.len() implies (
                            #[trigger] aps@[a]).x == EAction::Shift(newst) && shifts_on(
                                self.symbols@,
                                sp,
                                aps@[a].sp,
                            ) by {
                                let j = a - aps0.len();
                                assert(aps@[aps0.len() + j].sp == subs[j]);
                            }
                            assert forall|sym: usize|
                                shifts_on(self.symbols@, sp, sym) implies #[trigger] shift_added(
                                aps0,
                                aps@,
                                sym,
                            ) by {
                                let j = choose|j: int| 0 <= j < subs.len() && subs[j] == sym;
                                assert(aps@[aps0.len() + j].sp == sym);
                            }
                        }
                    },
                    _ => {
                        aps.push(Action { sp, x: EAction::Shift(newst) });
                        proof {
                            assert forall|sym: usize|
                                shifts_on(self.symbols@, sp, sym) implies #[trigger] shift_added(
                                aps0,
                                aps@,
                                sym,
                            ) by {
                                assert(aps@[aps0.len() as int].sp == sym);
                            }
                        }
                    },
                }
                proof {
                    assert(adds_shifts(self.symbols@, sp, newst, aps0, aps@));
                    lemma_shifts_added(
                        self.states@,
                        self.configs@,
                        rules,
                        self.symbols@,
                        own,
                        aps0,
                        aps@,
                        sp,
                        newst,
                        icfp as int,
                    );
                }
            }
            icfp += 1;
        }
        let ghost before_states = self.states@;
        let ghost prev = *self;
        proof {
            self.lemma_listed_exist();
        }
        let ghost gathered = aps@;
        self.push_actions(st, aps);
        proof {
            self.lemma_formed_step(prev);
            assert(shifts_complete(
                before_states,
                self.configs@,
                rules,
                self.symbols@,
                own,
                gathered,
            )) by {
                assert forall|k: int| 0 <= k < own.len() implies shifts_for(
                    before_states,
                    self.configs@,
                    rules,
                    self.symbols@,
                    gathered,
                    (#[trigger] own[k]) as int,
                ) by {}
            }
            lemma_actions_pushed(
                before_states,
                self.states@,
                self.configs@,
                rules,
                self.symbols@,
                st as int,
                gathered,
            );
            assert(!new_lacking(
                start.configs@.len() as int,
                self.configs@,
                rules,
                self.symbols@,
                self.err_sym,
            )) by {
                assert forall|c: int|
                    !#[trigger] lacks_after(
                        start.configs@.len() as int,
                        self.configs@,
                        rules,
                        self.symbols@,
                        self.err_sym,
                        c,
                    ) by {}
            }
            assert forall|x: int|
                start.states@.len() <= x < self.states@.len() implies (#[trigger] self.states@[x]).state_num
                == x by {
                assert(self.states@[x] == before_states[x]);
            }
            let cfgs0 = self.configs@;
            assert(links_kept(before_states, self.states@, cfgs0, cfgs0)) by {
                assert forall|d: int| 0 <= d < cfgs0.len() implies cfgs0[d].bplp@.is_prefix_of(
                    (#[trigger] cfgs0[d]).bplp@,
                ) by {}
            }
            assert(one_target(before_states, cfgs0, rules, st as int)) by {
                assert forall|x: int, y: int|
                    0 <= x < own.len() && 0 <= y < own.len() && can_shift(
                        cfgs0,
                        rules,
                        (#[trigger] own[x]) as int,
                    ) && can_shift(cfgs0, rules, (#[trigger] own[y]) as int) && next_symbol(
                        cfgs0,
                        rules,
                        own[x] as int,
                    ) == next_symbol(cfgs0, rules, own[y] as int) implies same_target(
                    before_states,
                    cfgs0,
                    own[x] as int,
                    own[y] as int,
                ) by {}
            }
            lemma_one_target_kept(before_states, self.states@, cfgs0, cfgs0, rules, st as int);
            assert(all_grouped(before_states, cfgs0, rules, st as int)) by {
                assert forall|k: int| 0 <= k < own.len() implies #[trigger] grouped_at(
                    before_states,
                    cfgs0,
                    rules,
                    st as int,
                    k,
                ) by {
                    assert(done_grouped_at(before_states, cfgs0, rules, st as int, k));
                }
            }
            lemma_all_grouped_kept(before_states, self.states@, cfgs0, cfgs0, rules, st as int);
            assert forall|x: int|
                start.states@.len() <= x < self.states@.len() implies #[trigger] all_grouped(
                self.states@,
                cfgs0,
                rules,
                x,
            ) by {
                lemma_all_grouped_kept(before_states, self.states@, cfgs0, cfgs0, rules, x);
            }
            assert forall|x: int|
                start.states@.len() <= x < self.states@.len() implies #[trigger] one_target(
                self.states@,
                cfgs0,
                rules,
                x,
            ) by {
                lemma_one_target_kept(before_states, self.states@, cfgs0, cfgs0, rules, x);
            }
            assert forall|x: int|
                start.states@.len() <= x < self.states@.len() implies #[trigger] advanced_state(
                self.states@,
                cfgs0,
                x,
            ) by {
                lemma_advanced_kept(before_states, self.states@, cfgs0, cfgs0, x);
            }
            assert(start.states@[st as int].ap@.is_prefix_of(self.states@[st as int].ap@));
            let cfgs = self.configs@;
            assert(links_kept(before_states, self.states@, cfgs, cfgs)) by {
                assert forall|d: int| 0 <= d < cfgs.len() implies cfgs[d].bplp@.is_prefix_of(
                    (#[trigger] cfgs[d]).bplp@,
                ) by {}
            }
            assert(linked(before_states, cfgs, rules, st as int)) by {
                assert forall|k: int|
                    0 <= k < before_states[st as int].cfp@.len() && can_shift(
                        cfgs,
                        rules,
                        (#[trigger] before_states[st as int].cfp@[k]) as int,
                    ) implies goto_link(before_states, cfgs, before_states[st as int].cfp@[k] as int) by {
                    assert(before_states[st as int].cfp@[k] == own[k]);
                }
            }
            lemma_linked_kept(before_states, self.states@, cfgs, cfgs, rules, st as int);
            assert forall|x: int|
                start.states@.len() <= x < self.states@.len() implies #[trigger] linked(
                self.states@,
                cfgs,
                rules,
                x,
            ) by {
                lemma_linked_kept(before_states, self.states@, cfgs, cfgs, rules, x);
            }
        }
        Ok(())
    }

    /// A configuration whose successor was pending in the list handed to a
    /// state has that successor in the basis of the state.
    proof fn lemma_pending_taken(&self, handed: Seq<Config>, mid: Seq<Config>, c: int, newst: usize)
        requires
            newst < self.states@.len(),
            basis_taken(handed, self.states@, self.configs@, newst as int),
            pending(handed, mid, c),
            self.configs@[c].rule == mid[c].rule,
            self.configs@[c].dot == mid[c].dot,
        ensures
            goto_to(self.states@, self.configs@, c, newst as int),
    {
        let after = self.configs@;
        let i0 = choose|i: int|
            0 <= i < handed.len() && (#[trigger] handed[i]).rule == mid[c].rule && handed[i].dot
                == mid[c].dot + 1 && handed[i].bplp@.contains(c as usize);
        assert(taken_by(handed[i0], self.states@, after, newst as int));
        let j0 = choose|j: int|
            0 <= j < self.states@[newst as int].bp@.len() && hands_over(
                handed[i0],
                after,
                (#[trigger] self.states@[newst as int].bp@[j]) as int,
            );
        assert(advances(after, c, self.states@[newst as int].bp@[j0] as int));
    }

    /// Setting the status of a configuration that the state owns keeps the
    /// other configurations as they are.
    proof fn lemma_status_kept(
        &self,
        first: Seq<Config>,
        mid: Seq<Config>,
        own: Seq<usize>,
        cid: int,
        k: int,
    )
        requires
            configs_kept(first, mid, own),
            0 <= k < own.len(),
            own[k] == cid,
            0 <= cid < mid.len(),
            self.configs@.len() == mid.len(),
            forall|x: int| 0 <= x < mid.len() && x != cid ==> #[trigger] self.configs@[x] == mid[x],
            self.configs@[cid] == (Config { status: self.configs@[cid].status, ..mid[cid] }),
        ensures
            configs_kept(first, self.configs@, own),
    {
        let after = self.configs@;
        assert forall|x: int| 0 <= x < first.len() implies (#[trigger] after[x]) == (Config {
            bplp: after[x].bplp,
            status: after[x].status,
            ..first[x]
        }) && first[x].bplp@.is_prefix_of(after[x].bplp@) && (after[x].status != first[x].status
            ==> own.contains(x as usize)) by {
            assert(mid[x] == (Config { bplp: mid[x].bplp, status: mid[x].status, ..first[x] }));
            if x == cid {
                assert(own[k] == x as usize);
            }
        }
    }
}

} // verus!
