//! How a parser reads its tables.
//!
//! Given the state on top of its stack and a lookahead, the parser adds the
//! lookahead to the state's offset and looks at the slot so addressed. If the
//! slot was written for that lookahead it holds the action to take; if not,
//! the parser tries the lookahead's fallback, then the wildcard, and at last
//! takes the state's default action.

use crate::tables::{table_hit, Tables};
use vstd::prelude::*;

verus! {

/// The arrays of the tables are of a piece: actions and lookaheads go slot by
/// slot, and every state has a default.
pub open spec fn readable(t: Tables) -> bool {
    &&& t.action@.len() == t.lookahead@.len()
    &&& t.shift_ofst@.len() <= t.default@.len()
    &&& t.reduce_ofst@.len() <= t.default@.len()
}

/// What the arrays hold for lookahead `la` at offset `ofs`, if the slot
/// addressed exists and is for `la`.
pub fn probe(t: &Tables, ofs: i32, la: usize) -> (r: Option<usize>)
    requires
        t.action@.len() == t.lookahead@.len(),
    ensures
        r == table_hit(t.action@, t.lookahead@, ofs as int, la as int),
{
    let n = t.action.len();
    if ofs >= 0 {
        let o = ofs as usize;
        if la < n && o < n - la {
            let j = o + la;
            if t.lookahead[j] == la {
                return Some(t.action[j]);
            }
        }
        None
    } else {
        // the offset is negative: the slot is `la` less what the offset takes
        let back: u32 = if ofs == i32::MIN {
            0x8000_0000u32
        } else {
            (-ofs) as u32
        };
        let back = back as usize;
        if la >= back {
            let j = la - back;
            if j < n {
                if t.lookahead[j] == la {
                    return Some(t.action[j]);
                }
            }
        }
        None
    }
}

/// The action for terminal `la` in the state of the given number, where
/// fallbacks may still be followed `fuel` times.
pub open spec fn shift_action(t: Tables, stateno: int, la: int, fuel: nat) -> usize
    decreases fuel,
{
    if stateno >= t.shift_ofst@.len() || t.shift_ofst@[stateno] == t.shift_use_dflt {
        t.default@[stateno]
    } else {
        match table_hit(t.action@, t.lookahead@, t.shift_ofst@[stateno] as int, la) {
            Some(a) => a,
            None => if la > 0 && la < t.fallback@.len() && t.fallback@[la] != 0 && fuel > 0 {
                shift_action(t, stateno, t.fallback@[la] as int, (fuel - 1) as nat)
            } else if la > 0 && t.wildcard > 0 {
                match table_hit(
                    t.action@,
                    t.lookahead@,
                    t.shift_ofst@[stateno] as int,
                    t.wildcard as int,
                ) {
                    Some(a) => a,
                    None => t.default@[stateno],
                }
            } else {
                t.default@[stateno]
            },
        }
    }
}

/// The action for nonterminal `la` in the state of the given number.
pub open spec fn reduce_action(t: Tables, stateno: int, la: int) -> usize {
    if stateno >= t.reduce_ofst@.len() || t.reduce_ofst@[stateno] == t.reduce_use_dflt {
        t.default@[stateno]
    } else {
        match table_hit(t.action@, t.lookahead@, t.reduce_ofst@[stateno] as int, la) {
            Some(a) => a,
            None => t.default@[stateno],
        }
    }
}

/// Finds the action for terminal `look_ahead` in the state of the given
/// number. A fallback is followed where the terminal itself has no entry;
/// no more fallbacks are followed in a row than the table of fallbacks is
/// long.
pub fn find_shift_action(t: &Tables, stateno: usize, look_ahead: usize) -> (a: usize)
    requires
        readable(*t),
        stateno < t.default@.len(),
    ensures
        a == shift_action(*t, stateno as int, look_ahead as int, t.fallback@.len()),
{
    if stateno >= t.shift_ofst.len() {
        return t.default[stateno];
    }
    let ofs = t.shift_ofst[stateno];
    if ofs == t.shift_use_dflt {
        return t.default[stateno];
    }
    let mut la = look_ahead;
    let mut fuel = t.fallback.len();
    loop
        invariant
            readable(*t),
            stateno < t.shift_ofst@.len(),
            ofs == t.shift_ofst@[stateno as int],
            ofs != t.shift_use_dflt,
            fuel <= t.fallback@.len(),
            shift_action(*t, stateno as int, look_ahead as int, t.fallback@.len()) == shift_action(
                *t,
                stateno as int,
                la as int,
                fuel as nat,
            ),
        decreases fuel,
    {
        match probe(t, ofs, la) {
            Some(a) => {
                return a;
            },
            None => {},
        }
        if la > 0 && la < t.fallback.len() && fuel > 0 {
            let fb = t.fallback[la];
            if fb != 0 {
                la = fb;
                fuel -= 1;
                continue ;
            }
        }
        if la > 0 && t.wildcard > 0 {
            match probe(t, ofs, t.wildcard) {
                Some(a) => {
                    return a;
                },
                None => {},
            }
        }
        return t.default[stateno];
    }
}

/// Finds the action for nonterminal `look_ahead` in the state of the given
/// number.
pub fn find_reduce_action(t: &Tables, stateno: usize, look_ahead: usize) -> (a: usize)
    requires
        readable(*t),
        stateno < t.default@.len(),
    ensures
        a == reduce_action(*t, stateno as int, look_ahead as int),
{
    if stateno >= t.reduce_ofst.len() {
        return t.default[stateno];
    }
    let ofs = t.reduce_ofst[stateno];
    if ofs == t.reduce_use_dflt {
        return t.default[stateno];
    }
    match probe(t, ofs, look_ahead) {
        Some(a) => a,
        None => t.default[stateno],
    }
}

/// Where the table has an entry for the lookahead at the state's offset, that
/// entry is the action, not the default.
pub proof fn law_entry_before_default(t: Tables, stateno: int, la: int, fuel: nat)
    requires
        0 <= stateno < t.shift_ofst@.len(),
        t.shift_ofst@[stateno] != t.shift_use_dflt,
        table_hit(t.action@, t.lookahead@, t.shift_ofst@[stateno] as int, la) is Some,
    ensures
        Some(shift_action(t, stateno, la, fuel)) == table_hit(
            t.action@,
            t.lookahead@,
            t.shift_ofst@[stateno] as int,
            la,
        ),
{
}

} // verus!
