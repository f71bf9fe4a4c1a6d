//! Well-formed states.
//!
//! A state is well formed when its configurations and its basis are in the
//! order of their rules and marks, the basis is among the configurations,
//! the configurations are closed, and only configurations of the basis have
//! their mark inside a rule. No two states have the same basis.

use crate::closure::{closed_at, grown_from, items_distinct, seeded, seeds};
use crate::config::{Config, State};
use crate::grammar::Lemon;
use crate::order::{is_sorted_order, Key3};
use crate::states::{basis_distinct, basis_matches, configs_kept};
use crate::symbol::{Rule, Symbol};
use vstd::prelude::*;

verus! {

/// The rule and mark of configuration `a` come before those of `b`.
pub open spec fn item_less(configs: Seq<Config>, a: int, b: int) -> bool {
    configs[a].rule < configs[b].rule || (configs[a].rule == configs[b].rule && configs[a].dot
        < configs[b].dot)
}

/// The configurations listed are in the order of their rules and marks, and
/// no two are for the same rule and mark.
pub open spec fn ordered(configs: Seq<Config>, ids: Seq<usize>) -> bool {
    forall|i: int, j: int|
        0 <= i < j < ids.len() ==> item_less(configs, (#[trigger] ids[i]) as int, (#[trigger] ids[j]) as int)
}

/// One of the configurations listed is seeded by `c` for rule `q`.
pub open spec fn seeded_in(
    configs: Seq<Config>,
    symbols: Seq<Symbol>,
    rules: Seq<Rule>,
    ids: Seq<usize>,
    c: int,
    q: usize,
) -> bool {
    exists|x: int|
        0 <= x < ids.len() && seeds(configs, symbols, rules, c, q, (#[trigger] ids[x]) as int)
}

/// Configuration `c`, if its mark stands before a nonterminal, has among the
/// configurations listed one for each rule of that nonterminal, with the
/// mark at the start and seeded by `c`.
pub open spec fn closed_in(
    configs: Seq<Config>,
    rules: Seq<Rule>,
    symbols: Seq<Symbol>,
    ids: Seq<usize>,
    c: int,
) -> bool {
    let cfg = configs[c];
    cfg.dot < rules[cfg.rule as int].rhs@.len() && symbols[rules[cfg.rule as int].rhs@[cfg.dot as int].sym as int].kind is NonTerminal
        ==> forall|k: int|
        0 <= k < symbols[rules[cfg.rule as int].rhs@[cfg.dot as int].sym as int].rules@.len()
            ==> seeded_in(
            configs,
            symbols,
            rules,
            ids,
            c,
            #[trigger] symbols[rules[cfg.rule as int].rhs@[cfg.dot as int].sym as int].rules@[k],
        )
}

/// State `s` is well formed: its configurations and its basis are in order,
/// without repetition; the basis is among the configurations; the
/// configurations are closed; and those that are not of the basis have their
/// mark at the start.
pub open spec fn formed(
    states: Seq<State>,
    configs: Seq<Config>,
    rules: Seq<Rule>,
    symbols: Seq<Symbol>,
    s: int,
) -> bool {
    let st = states[s];
    &&& ordered(configs, st.cfp@)
    &&& ordered(configs, st.bp@)
    &&& forall|j: int| 0 <= j < st.bp@.len() ==> st.cfp@.contains(#[trigger] st.bp@[j])
    &&& forall|k: int|
        0 <= k < st.cfp@.len() ==> closed_in(
            configs,
            rules,
            symbols,
            st.cfp@,
            (#[trigger] st.cfp@[k]) as int,
        )
    &&& forall|k: int|
        0 <= k < st.cfp@.len() && !st.bp@.contains(#[trigger] st.cfp@[k])
            ==> configs[st.cfp@[k] as int].dot == 0
}

/// The two lists name configurations for the same rules and marks, one by
/// one.
pub open spec fn same_keys(configs: Seq<Config>, a: Seq<usize>, b: Seq<usize>) -> bool {
    &&& a.len() == b.len()
    &&& forall|j: int|
        0 <= j < a.len() ==> configs[(#[trigger] a[j]) as int].rule == configs[b[j] as int].rule
            && configs[a[j] as int].dot == configs[b[j] as int].dot
}

/// Every state is well formed, and no two states have the same basis.
pub open spec fn automaton_formed(
    states: Seq<State>,
    configs: Seq<Config>,
    rules: Seq<Rule>,
    symbols: Seq<Symbol>,
) -> bool {
    &&& forall|s: int| 0 <= s < states.len() ==> #[trigger] formed(states, configs, rules, symbols, s)
    &&& forall|x: int, y: int|
        0 <= x < y < states.len() ==> !same_keys(
            configs,
            (#[trigger] states[x]).bp@,
            (#[trigger] states[y]).bp@,
        )
}

/// The basis of state `x` consists of the configurations given: as many,
/// each of the given ones is for the rule and mark of one of the basis, and
/// each of the basis for the rule and mark of a given one.
pub open spec fn holds_basis(states: Seq<State>, configs: Seq<Config>, x: int, given: Seq<Config>) -> bool {
    &&& states[x].bp@.len() == given.len()
    &&& forall|i: int|
        0 <= i < given.len() ==> has_key(
            configs,
            states[x].bp@,
            (#[trigger] given[i]).rule,
            given[i].dot,
        )
    &&& forall|j: int|
        0 <= j < states[x].bp@.len() ==> given_has(
            given,
            configs[(#[trigger] states[x].bp@[j]) as int].rule,
            configs[states[x].bp@[j] as int].dot,
        )
}

/// One of the given configurations is for the given rule and mark.
pub open spec fn given_has(given: Seq<Config>, rule: usize, dot: usize) -> bool {
    exists|i: int| 0 <= i < given.len() && (#[trigger] given[i]).rule == rule && given[i].dot == dot
}

/// Configuration `d` is for the rule and mark of `given`, and its follow set
/// holds that of `given`.
pub open spec fn takes_follow(given: Config, configs: Seq<Config>, d: int) -> bool {
    &&& configs[d].rule == given.rule
    &&& configs[d].dot == given.dot
    &&& given.fws@.subset_of(configs[d].fws@)
}

/// The basis of state `t` has a configuration for the rule and mark of
/// `given` whose follow set holds that of `given`.
pub open spec fn carries(given: Config, states: Seq<State>, configs: Seq<Config>, t: int) -> bool {
    exists|j: int|
        0 <= j < states[t].bp@.len() && takes_follow(given, configs, (#[trigger] states[t].bp@[j]) as int)
}

/// One of the configurations listed is for the given rule and mark.
pub open spec fn has_key(configs: Seq<Config>, ids: Seq<usize>, rule: usize, dot: usize) -> bool {
    exists|j: int|
        0 <= j < ids.len() && configs[(#[trigger] ids[j]) as int].rule == rule && configs[ids[j] as int].dot
            == dot
}

/// From (`sa`, `ca`) to (`sb`, `cb`) the states kept their configurations,
/// and the configurations of the states kept their rules and marks, while
/// their follow sets and links forward only grew.
pub open spec fn shape_kept(
    sa: Seq<State>,
    sb: Seq<State>,
    ca: Seq<Config>,
    cb: Seq<Config>,
) -> bool {
    &&& sa.len() <= sb.len()
    &&& forall|t: int|
        0 <= t < sa.len() ==> (#[trigger] sb[t]).bp == sa[t].bp && sb[t].cfp == sa[t].cfp
    &&& grown_from(ca, cb, 0)
}

/// A well-formed state stays well formed.
pub proof fn lemma_formed_kept(
    sa: Seq<State>,
    sb: Seq<State>,
    ca: Seq<Config>,
    cb: Seq<Config>,
    rules: Seq<Rule>,
    symbols: Seq<Symbol>,
    s: int,
)
    requires
        shape_kept(sa, sb, ca, cb),
        0 <= s < sa.len(),
        forall|k: int| 0 <= k < sa[s].cfp@.len() ==> (#[trigger] sa[s].cfp@[k]) < ca.len(),
        forall|k: int| 0 <= k < sa[s].bp@.len() ==> (#[trigger] sa[s].bp@[k]) < ca.len(),
        formed(sa, ca, rules, symbols, s),
    ensures
        formed(sb, cb, rules, symbols, s),
{
    let cfp = sa[s].cfp@;
    let bp = sa[s].bp@;
    assert(sb[s].cfp == sa[s].cfp && sb[s].bp == sa[s].bp);
    assert forall|i: int, j: int| 0 <= i < j < cfp.len() implies item_less(
        cb,
        (#[trigger] cfp[i]) as int,
        (#[trigger] cfp[j]) as int,
    ) by {
        assert(item_less(ca, cfp[i] as int, cfp[j] as int));
        assert(cb[cfp[i] as int].rule == ca[cfp[i] as int].rule);
        assert(cb[cfp[j] as int].rule == ca[cfp[j] as int].rule);
    }
    assert forall|i: int, j: int| 0 <= i < j < bp.len() implies item_less(
        cb,
        (#[trigger] bp[i]) as int,
        (#[trigger] bp[j]) as int,
    ) by {
        assert(item_less(ca, bp[i] as int, bp[j] as int));
        assert(cb[bp[i] as int].rule == ca[bp[i] as int].rule);
        assert(cb[bp[j] as int].rule == ca[bp[j] as int].rule);
    }
    assert forall|k: int| 0 <= k < cfp.len() implies closed_in(
        cb,
        rules,
        symbols,
        cfp,
        (#[trigger] cfp[k]) as int,
    ) by {
        let c = cfp[k] as int;
        assert(closed_in(ca, rules, symbols, cfp, c));
        assert(cb[c].rule == ca[c].rule && cb[c].dot == ca[c].dot);
        let cfg = ca[c];
        if cfg.dot < rules[cfg.rule as int].rhs@.len() && symbols[rules[cfg.rule as int].rhs@[cfg.dot as int].sym as int].kind is NonTerminal {
            let sp = rules[cfg.rule as int].rhs@[cfg.dot as int].sym as int;
            assert forall|q: int| 0 <= q < symbols[sp].rules@.len() implies seeded_in(
                cb,
                symbols,
                rules,
                cfp,
                c,
                #[trigger] symbols[sp].rules@[q],
            ) by {
                assert(seeded_in(ca, symbols, rules, cfp, c, symbols[sp].rules@[q]));
                let x = choose|x: int|
                    0 <= x < cfp.len() && seeds(
                        ca,
                        symbols,
                        rules,
                        c,
                        symbols[sp].rules@[q],
                        (#[trigger] cfp[x]) as int,
                    );
                let d = cfp[x] as int;
                assert(cb[d].rule == ca[d].rule);
                assert(ca[d].fws@.subset_of(cb[d].fws@));
                if ca[c].fplp@.contains(d as usize) {
                    let w = choose|w: int| 0 <= w < ca[c].fplp@.len() && ca[c].fplp@[w] == d as usize;
                    assert(ca[c].fplp@.is_prefix_of(cb[c].fplp@));
                    assert(cb[c].fplp@[w] == d as usize);
                }
                assert(seeds(cb, symbols, rules, c, symbols[sp].rules@[q], cfp[x] as int));
            }
        }
    }
    assert forall|k: int| 0 <= k < cfp.len() && !bp.contains(#[trigger] cfp[k]) implies cb[cfp[k] as int].dot
        == 0 by {
        assert(cb[cfp[k] as int].dot == ca[cfp[k] as int].dot);
    }
}

/// The first `n` states are well formed, and no two of them have the same
/// basis.
pub open spec fn formed_upto(
    states: Seq<State>,
    configs: Seq<Config>,
    rules: Seq<Rule>,
    symbols: Seq<Symbol>,
    n: int,
) -> bool {
    &&& forall|s: int| 0 <= s < n ==> #[trigger] formed(states, configs, rules, symbols, s)
    &&& forall|x: int, y: int|
        0 <= x < y < n ==> !same_keys(configs, (#[trigger] states[x]).bp@, (#[trigger] states[y]).bp@)
}

/// Well-formed states with different bases stay so.
pub proof fn lemma_automaton_formed_kept(
    sa: Seq<State>,
    sb: Seq<State>,
    ca: Seq<Config>,
    cb: Seq<Config>,
    rules: Seq<Rule>,
    symbols: Seq<Symbol>,
)
    requires
        shape_kept(sa, sb, ca, cb),
        forall|t: int, k: int|
            0 <= t < sa.len() && 0 <= k < sa[t].cfp@.len() ==> (#[trigger] sa[t].cfp@[k]) < ca.len(),
        forall|t: int, k: int|
            0 <= t < sa.len() && 0 <= k < sa[t].bp@.len() ==> (#[trigger] sa[t].bp@[k]) < ca.len(),
        automaton_formed(sa, ca, rules, symbols),
    ensures
        formed_upto(sb, cb, rules, symbols, sa.len() as int),
        sa.len() == sb.len() ==> automaton_formed(sb, cb, rules, symbols),
{
    assert forall|s: int| 0 <= s < sa.len() implies #[trigger] formed(sb, cb, rules, symbols, s) by {
        lemma_formed_kept(sa, sb, ca, cb, rules, symbols, s);
    }
    assert forall|x: int, y: int| 0 <= x < y < sa.len() implies !same_keys(
        cb,
        (#[trigger] sb[x]).bp@,
        (#[trigger] sb[y]).bp@,
    ) by {
        assert(sb[x].bp == sa[x].bp && sb[y].bp == sa[y].bp);
        if same_keys(cb, sb[x].bp@, sb[y].bp@) {
            assert forall|j: int| 0 <= j < sa[x].bp@.len() implies ca[(#[trigger] sa[x].bp@[j]) as int].rule
                == ca[sa[y].bp@[j] as int].rule && ca[sa[x].bp@[j] as int].dot
                == ca[sa[y].bp@[j] as int].dot by {
                let a = sa[x].bp@[j] as int;
                let b = sa[y].bp@[j] as int;
                assert(sa[y].bp@[j] < ca.len());
                assert(cb[a].rule == ca[a].rule && cb[b].rule == ca[b].rule);
                assert(cb[a].dot == ca[a].dot && cb[b].dot == ca[b].dot);
            }
            assert(same_keys(ca, sa[x].bp@, sa[y].bp@));
        }
    }
}

/// Symbols `b` are symbols `a` in all that the automaton rests on: kinds,
/// indices, alternatives, rules, and what the analysis found.
pub open spec fn same_facts(a: Seq<Symbol>, b: Seq<Symbol>) -> bool {
    &&& a.len() == b.len()
    &&& forall|s: int|
        0 <= s < a.len() ==> (#[trigger] b[s]).kind == a[s].kind && b[s].index == a[s].index
            && b[s].sub_sym == a[s].sub_sym && b[s].rules == a[s].rules && b[s].lambda == a[s].lambda
            && b[s].first_set@ == a[s].first_set@
}

/// Rules `b` have the right-hand sides of rules `a`.
pub open spec fn same_rhs(a: Seq<Rule>, b: Seq<Rule>) -> bool {
    &&& a.len() == b.len()
    &&& forall|r: int| 0 <= r < a.len() ==> (#[trigger] b[r]).rhs == a[r].rhs
}

/// The symbols in the slots and among the alternatives exist.
pub open spec fn slots_exist(symbols: Seq<Symbol>, rules: Seq<Rule>) -> bool {
    &&& forall|q: int, k: int|
        0 <= q < rules.len() && 0 <= k < rules[q].rhs@.len() ==> (#[trigger] rules[q].rhs@[k]).sym
            < symbols.len()
    &&& forall|s: int, k: int|
        0 <= s < symbols.len() && 0 <= k < symbols[s].sub_sym@.len() ==> (
        #[trigger] symbols[s].sub_sym@[k]) < symbols.len()
}

/// What the rest of a right-hand side can begin with, and whether it is
/// nullable, is the same for symbols that are the same in what counts.
pub proof fn lemma_suffix_same(
    sa: Seq<Symbol>,
    sb: Seq<Symbol>,
    rhs: Seq<crate::symbol::RhsItem>,
    from: int,
)
    requires
        same_facts(sa, sb),
        forall|k: int| 0 <= k < rhs.len() ==> (#[trigger] rhs[k]).sym < sa.len(),
        forall|s: int, k: int|
            0 <= s < sa.len() && 0 <= k < sa[s].sub_sym@.len() ==> (#[trigger] sa[s].sub_sym@[k])
                < sa.len(),
    ensures
        crate::closure::suffix_first(sa, rhs, from) == crate::closure::suffix_first(sb, rhs, from),
        crate::closure::suffix_nullable(sa, rhs, from) == crate::closure::suffix_nullable(sb, rhs, from),
    decreases rhs.len() - from,
{
    if 0 <= from < rhs.len() {
        lemma_suffix_same(sa, sb, rhs, from + 1);
        let sym = rhs[from].sym as int;
        assert(sb[sym].kind == sa[sym].kind);
        assert(crate::first::firsts(sa) =~= crate::first::firsts(sb));
        if sa[sym].kind is MultiTerminal {
            assert forall|t: usize|
                crate::first::is_child_index(sa, sym, t) <==> crate::first::is_child_index(sb, sym, t) by {
                if crate::first::is_child_index(sa, sym, t) {
                    let k = choose|k: int|
                        0 <= k < sa[sym].sub_sym@.len() && sa[(#[trigger] sa[sym].sub_sym@[k]) as int].index
                            == t;
                    assert(sb[sb[sym].sub_sym@[k] as int].index == t);
                }
                if crate::first::is_child_index(sb, sym, t) {
                    let k = choose|k: int|
                        0 <= k < sb[sym].sub_sym@.len() && sb[(#[trigger] sb[sym].sub_sym@[k]) as int].index
                            == t;
                    assert(sa[sa[sym].sub_sym@[k] as int].index == t);
                }
            }
            assert(crate::first::slot_first(sa, crate::first::firsts(sa), sym)
                =~= crate::first::slot_first(sb, crate::first::firsts(sb), sym));
        }
    }
}

/// Well-formed states are well formed under rules and symbols that differ
/// only in what the automaton does not rest on.
pub proof fn lemma_formed_same_grammar(
    states: Seq<State>,
    configs: Seq<Config>,
    ra: Seq<Rule>,
    rb: Seq<Rule>,
    sa: Seq<Symbol>,
    sb: Seq<Symbol>,
)
    requires
        automaton_formed(states, configs, ra, sa),
        same_facts(sa, sb),
        same_rhs(ra, rb),
        slots_exist(sa, ra),
        forall|t: int, k: int|
            0 <= t < states.len() && 0 <= k < states[t].cfp@.len() ==> (#[trigger] states[t].cfp@[k])
                < configs.len(),
        forall|c: int| 0 <= c < configs.len() ==> (#[trigger] configs[c]).rule < ra.len(),
    ensures
        automaton_formed(states, configs, rb, sb),
{
    assert forall|s: int| 0 <= s < states.len() implies #[trigger] formed(states, configs, rb, sb, s) by {
        assert(formed(states, configs, ra, sa, s));
        let cfp = states[s].cfp@;
        assert forall|k: int| 0 <= k < cfp.len() implies closed_in(
            configs,
            rb,
            sb,
            cfp,
            (#[trigger] cfp[k]) as int,
        ) by {
            let c = cfp[k] as int;
            assert(closed_in(configs, ra, sa, cfp, c));
            let cfg = configs[c];
            assert(cfg.rule < ra.len());
            let rhs = ra[cfg.rule as int].rhs@;
            assert(rb[cfg.rule as int].rhs == ra[cfg.rule as int].rhs);
            if cfg.dot < rhs.len() {
                let sp = rhs[cfg.dot as int].sym as int;
                assert(sp < sa.len());
                assert(sb[sp].kind == sa[sp].kind && sb[sp].rules == sa[sp].rules);
                if sa[sp].kind is NonTerminal {
                    assert forall|q: int| 0 <= q < sb[sp].rules@.len() implies seeded_in(
                        configs,
                        sb,
                        rb,
                        cfp,
                        c,
                        #[trigger] sb[sp].rules@[q],
                    ) by {
                        assert(seeded_in(configs, sa, ra, cfp, c, sa[sp].rules@[q]));
                        let x = choose|x: int|
                            0 <= x < cfp.len() && seeds(
                                configs,
                                sa,
                                ra,
                                c,
                                sa[sp].rules@[q],
                                (#[trigger] cfp[x]) as int,
                            );
                        lemma_suffix_same(sa, sb, rhs, cfg.dot + 1);
                        assert(seeds(configs, sb, rb, c, sb[sp].rules@[q], cfp[x] as int));
                    }
                }
            }
        }
    }
}

/// Some state has the given configurations as its basis.
pub open spec fn known_basis(states: Seq<State>, configs: Seq<Config>, given: Seq<Config>) -> bool {
    exists|x: int| 0 <= x < states.len() && #[trigger] holds_basis(states, configs, x, given)
}

/// The rules and marks of the configurations listed, as keys.
pub open spec fn keys_of(configs: Seq<Config>, ids: Seq<usize>) -> Seq<Key3> {
    Seq::new(
        ids.len(),
        |j: int| Key3 { k0: configs[ids[j] as int].rule, k1: configs[ids[j] as int].dot, k2: 0 },
    )
}

/// The keys are those of the given configurations, one by one.
pub open spec fn keys_are(keys: Seq<Key3>, given: Seq<Config>) -> bool {
    &&& keys.len() == given.len()
    &&& forall|i: int|
        0 <= i < keys.len() ==> #[trigger] keys[i] == (Key3 {
            k0: given[i].rule,
            k1: given[i].dot,
            k2: 0,
        })
}

/// `sorted` holds the keys in their sorted order.
pub open spec fn in_order(keys: Seq<Key3>, order: Seq<usize>, sorted: Seq<Key3>) -> bool {
    &&& is_sorted_order(keys, order)
    &&& sorted.len() == keys.len()
    &&& forall|i: int| 0 <= i < sorted.len() ==> #[trigger] sorted[i] == keys[order[i] as int]
}

/// A state with an ordered basis that consists of the given configurations
/// has their rules and marks, sorted, as those of its basis.
pub proof fn lemma_basis_found(
    states: Seq<State>,
    configs: Seq<Config>,
    x: int,
    given: Seq<Config>,
    keys: Seq<Key3>,
    order: Seq<usize>,
    sorted: Seq<Key3>,
)
    requires
        ordered(configs, states[x].bp@),
        holds_basis(states, configs, x, given),
        basis_distinct(given),
        keys_are(keys, given),
        in_order(keys, order, sorted),
    ensures
        basis_matches(states, configs, x, sorted),
{
    let bp = states[x].bp@;
    let b = keys_of(configs, bp);
    assert(crate::order::strictly_rising(b)) by {
        assert forall|i: int, j: int| 0 <= i < j < b.len() implies crate::order::key_less(
            #[trigger] b[i],
            #[trigger] b[j],
        ) by {
            assert(item_less(configs, bp[i] as int, bp[j] as int));
        }
    }
    assert forall|i: int, j: int| 0 <= i < j < keys.len() implies #[trigger] keys[i] != #[trigger] keys[j] by {
        assert(!(given[i].rule == given[j].rule && given[i].dot == given[j].dot));
    }
    crate::order::lemma_sorted_rises(keys, order, sorted);
    assert forall|i: int| 0 <= i < sorted.len() implies crate::order::among(b, #[trigger] sorted[i]) by {
        let o = order[i] as int;
        assert(has_key(configs, bp, given[o].rule, given[o].dot));
        let j = choose|j: int|
            0 <= j < bp.len() && configs[(#[trigger] bp[j]) as int].rule == given[o].rule
                && configs[bp[j] as int].dot == given[o].dot;
        assert(b[j] == sorted[i]);
    }
    crate::order::lemma_rising_same(sorted, b);
    assert forall|i: int| 0 <= i < sorted.len() implies configs[(#[trigger] bp[i]) as int].rule
        == sorted[i].k0 && configs[bp[i] as int].dot == sorted[i].k1 by {
        assert(b[i] == sorted[i]);
    }
}

/// A state whose basis has the sorted rules and marks of the given
/// configurations has them as its basis.
pub proof fn lemma_basis_holds(
    states: Seq<State>,
    configs: Seq<Config>,
    x: int,
    given: Seq<Config>,
    keys: Seq<Key3>,
    order: Seq<usize>,
    sorted: Seq<Key3>,
)
    requires
        basis_matches(states, configs, x, sorted),
        keys_are(keys, given),
        in_order(keys, order, sorted),
    ensures
        holds_basis(states, configs, x, given),
{
    let bp = states[x].bp@;
    assert forall|i: int| 0 <= i < given.len() implies has_key(
        configs,
        bp,
        (#[trigger] given[i]).rule,
        given[i].dot,
    ) by {
        assert(crate::order::occurs(order, i));
        let p = choose|p: int| 0 <= p < order.len() && #[trigger] order[p] == i;
        assert(sorted[p] == keys[i]);
        assert(configs[bp[p] as int].rule == sorted[p].k0);
    }
    assert forall|j: int| 0 <= j < bp.len() implies given_has(
        given,
        configs[(#[trigger] bp[j]) as int].rule,
        configs[bp[j] as int].dot,
    ) by {
        let o = order[j] as int;
        assert(sorted[j] == keys[o]);
        assert(keys[o].k0 == given[o].rule);
        assert(configs[bp[j] as int].rule == sorted[j].k0);
    }
}

/// A state made of the configurations from `base` on, which are closed, with
/// the first `m` of them as its basis, each list in sorted order, is well
/// formed.
pub proof fn lemma_new_state_formed(
    states: Seq<State>,
    configs: Seq<Config>,
    rules: Seq<Rule>,
    symbols: Seq<Symbol>,
    s: int,
    base: int,
    m: int,
    keys: Seq<Key3>,
    order: Seq<usize>,
    keys2: Seq<Key3>,
    order2: Seq<usize>,
)
    requires
        0 <= s < states.len(),
        0 <= base,
        0 <= m,
        base + m <= configs.len(),
        keys.len() == m,
        keys2.len() == configs.len() - base,
        is_sorted_order(keys, order),
        is_sorted_order(keys2, order2),
        forall|i: int|
            0 <= i < keys2.len() ==> #[trigger] keys2[i] == (Key3 {
                k0: configs[base + i].rule,
                k1: configs[base + i].dot,
                k2: 0,
            }),
        forall|i: int| 0 <= i < m ==> #[trigger] keys[i] == keys2[i],
        states[s].bp@.len() == m,
        states[s].cfp@.len() == keys2.len(),
        forall|i: int| 0 <= i < m ==> #[trigger] states[s].bp@[i] == base + order[i],
        forall|i: int| 0 <= i < keys2.len() ==> #[trigger] states[s].cfp@[i] == base + order2[i],
        items_distinct(configs, base),
        forall|c: int| base <= c < configs.len() ==> #[trigger] closed_at(configs, rules, symbols, base, c),
        forall|c: int| base + m <= c < configs.len() ==> (#[trigger] configs[c]).dot == 0,
    ensures
        formed(states, configs, rules, symbols, s),
{
    let bp = states[s].bp@;
    let cfp = states[s].cfp@;
    assert forall|i: int, j: int| 0 <= i < j < cfp.len() implies item_less(
        configs,
        (#[trigger] cfp[i]) as int,
        (#[trigger] cfp[j]) as int,
    ) by {
        assert(crate::order::comes_before(keys2, order2[i] as int, order2[j] as int));
        if order2[i] == order2[j] {
            crate::order::lemma_sorted_order_distinct(keys2, order2, i, j);
        }
        let a = order2[i] as int;
        let b = order2[j] as int;
        assert(keys2[a].k0 == configs[base + a].rule);
        assert(keys2[b].k0 == configs[base + b].rule);
        if a < b {
            assert(!(configs[base + a].rule == configs[base + b].rule && configs[base + a].dot
                == configs[base + b].dot));
        } else {
            assert(!(configs[base + b].rule == configs[base + a].rule && configs[base + b].dot
                == configs[base + a].dot));
        }
    }
    assert forall|i: int, j: int| 0 <= i < j < bp.len() implies item_less(
        configs,
        (#[trigger] bp[i]) as int,
        (#[trigger] bp[j]) as int,
    ) by {
        assert(crate::order::comes_before(keys, order[i] as int, order[j] as int));
        if order[i] == order[j] {
            crate::order::lemma_sorted_order_distinct(keys, order, i, j);
        }
        let a = order[i] as int;
        let b = order[j] as int;
        assert(keys[a] == keys2[a]);
        assert(keys[b] == keys2[b]);
        assert(keys2[a].k0 == configs[base + a].rule);
        assert(keys2[b].k0 == configs[base + b].rule);
        if a < b {
            assert(!(configs[base + a].rule == configs[base + b].rule && configs[base + a].dot
                == configs[base + b].dot));
        } else {
            assert(!(configs[base + b].rule == configs[base + a].rule && configs[base + b].dot
                == configs[base + a].dot));
        }
    }
    assert forall|j: int| 0 <= j < bp.len() implies cfp.contains(#[trigger] bp[j]) by {
        let v = order[j] as int;
        assert(crate::order::occurs(order2, v));
        let q = choose|q: int| 0 <= q < order2.len() && #[trigger] order2[q] == v;
        assert(cfp[q] == bp[j]);
    }
    assert forall|k: int| 0 <= k < cfp.len() implies closed_in(
        configs,
        rules,
        symbols,
        cfp,
        (#[trigger] cfp[k]) as int,
    ) by {
        let c = cfp[k] as int;
        assert(closed_at(configs, rules, symbols, base, c));
        let cfg = configs[c];
        if cfg.dot < rules[cfg.rule as int].rhs@.len() && symbols[rules[cfg.rule as int].rhs@[cfg.dot as int].sym as int].kind is NonTerminal {
            let sp = rules[cfg.rule as int].rhs@[cfg.dot as int].sym as int;
            assert forall|q: int| 0 <= q < symbols[sp].rules@.len() implies seeded_in(
                configs,
                symbols,
                rules,
                cfp,
                c,
                #[trigger] symbols[sp].rules@[q],
            ) by {
                assert(seeded(configs, symbols, rules, base, c, symbols[sp].rules@[q]));
                let d = choose|d: int|
                    base <= d < configs.len() && #[trigger] seeds(
                        configs,
                        symbols,
                        rules,
                        c,
                        symbols[sp].rules@[q],
                        d,
                    );
                assert(crate::order::occurs(order2, d - base));
                let w = choose|w: int| 0 <= w < order2.len() && #[trigger] order2[w] == d - base;
                assert(cfp[w] == d);
            }
        }
    }
    assert forall|k: int| 0 <= k < cfp.len() && !bp.contains(#[trigger] cfp[k]) implies configs[cfp[k] as int].dot
        == 0 by {
        let v = order2[k] as int;
        if v < m {
            assert(crate::order::occurs(order, v));
            let q = choose|q: int| 0 <= q < order.len() && #[trigger] order[q] == v;
            assert(bp[q] == cfp[k]);
        }
    }
}

/// Configurations that were kept, under states that were kept, keep the
/// shape of the automaton.
pub proof fn lemma_kept_shape(
    sa: Seq<State>,
    sb: Seq<State>,
    ca: Seq<Config>,
    cb: Seq<Config>,
    touched: Seq<usize>,
)
    requires
        sa.len() <= sb.len(),
        forall|t: int| 0 <= t < sa.len() ==> (#[trigger] sb[t]).bp == sa[t].bp && sb[t].cfp == sa[t].cfp,
        configs_kept(ca, cb, touched),
    ensures
        shape_kept(sa, sb, ca, cb),
{
    assert forall|x: int| 0 <= x < ca.len() implies (#[trigger] cb[x]).rule == ca[x].rule && cb[x].dot
        == ca[x].dot && ca[x].fws@.subset_of(cb[x].fws@) && ca[x].fplp@.is_prefix_of(cb[x].fplp@) by {
        assert(cb[x] == (Config { bplp: cb[x].bplp, status: cb[x].status, ..ca[x] }));
    }
}

impl Lemon {
    /// A step that changes no more than the status of configurations and
    /// the actions of states keeps the states well formed.
    pub proof fn lemma_formed_step(&self, prev: Lemon)
        requires
            prev.built_wf(),
            automaton_formed(prev.states@, prev.configs@, prev.rules@, prev.symbols@),
            self.rules == prev.rules,
            self.symbols == prev.symbols,
            self.states@.len() == prev.states@.len(),
            forall|t: int|
                0 <= t < prev.states@.len() ==> (#[trigger] self.states@[t]).bp == prev.states@[t].bp
                    && self.states@[t].cfp == prev.states@[t].cfp,
            prev.configs@.len() <= self.configs@.len(),
            forall|x: int|
                0 <= x < prev.configs@.len() ==> #[trigger] self.configs@[x] == (Config {
                    status: self.configs@[x].status,
                    ..prev.configs@[x]
                }),
        ensures
            automaton_formed(self.states@, self.configs@, self.rules@, self.symbols@),
    {
        prev.lemma_listed_exist();
        assert(shape_kept(prev.states@, self.states@, prev.configs@, self.configs@)) by {
            assert forall|x: int| 0 <= x < prev.configs@.len() implies (#[trigger] self.configs@[x]).rule
                == prev.configs@[x].rule && self.configs@[x].dot == prev.configs@[x].dot
                && prev.configs@[x].fws@.subset_of(self.configs@[x].fws@)
                && prev.configs@[x].fplp@.is_prefix_of(self.configs@[x].fplp@) by {
                assert(self.configs@[x] == (Config {
                    status: self.configs@[x].status,
                    ..prev.configs@[x]
                }));
            }
        }
        lemma_automaton_formed_kept(
            prev.states@,
            self.states@,
            prev.configs@,
            self.configs@,
            self.rules@,
            self.symbols@,
        );
    }
}

} // verus!
