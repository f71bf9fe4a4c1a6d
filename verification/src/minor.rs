//! The types of the values that symbols carry.
//!
//! The parser's stack holds the values of symbols in a union with one slot
//! per distinct type. Every symbol is given the number of its slot; 0 is the
//! slot of symbols without value.

use crate::decl::TypeRef;
use crate::error::{Error, Fault};
use crate::grammar::{lemma_grown_keeps_wf, lemma_symbol_ok, symbol_grown, Lemon};
use crate::symbol::{Symbol, SymbolKind};
use std::collections::HashMap;
use vstd::prelude::*;

verus! {

broadcast use vstd::std_specs::hash::group_hash_axioms;

/// The type given, or else the default.
pub open spec fn or_default(t: Option<TypeRef>, dflt: Option<TypeRef>) -> Option<TypeRef> {
    if t is Some {
        t
    } else {
        dflt
    }
}

/// The type of the value that symbol `s` carries: a terminal its own type or
/// else the default type; a multi-terminal what its first alternative
/// carries, or the default type if it has none; a nonterminal its own type,
/// if it has one.
pub open spec fn value_type(symbols: Seq<Symbol>, dflt: Option<TypeRef>, s: int) -> Option<TypeRef> {
    match symbols[s].kind {
        SymbolKind::Terminal => or_default(symbols[s].data_type, dflt),
        SymbolKind::NonTerminal => symbols[s].data_type,
        SymbolKind::MultiTerminal => if symbols[s].sub_sym@.len() > 0 {
            or_default(symbols[symbols[s].sub_sym@[0] as int].data_type, dflt)
        } else {
            dflt
        },
    }
}

/// Some symbol carries a value of type `ty`.
pub open spec fn type_used(symbols: Seq<Symbol>, dflt: Option<TypeRef>, ty: TypeRef) -> bool {
    exists|s: int| 0 <= s < symbols.len() && #[trigger] value_type(symbols, dflt, s) == Some(ty)
}

/// The list holds no type twice.
pub open spec fn distinct_types(types: Seq<TypeRef>) -> bool {
    forall|i: int, j: int|
        0 <= i < j < types.len() ==> (#[trigger] types[i]).id != (#[trigger] types[j]).id
}

/// `n` is the slot of type `t` in the list: 0 for no type, else one more than
/// the place of the type in the list.
pub open spec fn is_slot(types: Seq<TypeRef>, t: Option<TypeRef>, n: usize) -> bool {
    match t {
        None => n == 0,
        Some(ty) => 1 <= n <= types.len() && types[n - 1].id == ty.id,
    }
}

/// Symbol `b` is symbol `a` but for its type and its slot.
pub open spec fn same_but_type(a: Symbol, b: Symbol) -> bool {
    b == (Symbol { data_type: b.data_type, dt_num: b.dt_num, ..a })
}

/// The map gives the slots of the types of the list, by the handles of the
/// types, and nothing else; the list holds no type twice.
pub open spec fn slots_match(types: Seq<TypeRef>, slots: Map<usize, usize>) -> bool {
    &&& distinct_types(types)
    &&& forall|i: int|
        0 <= i < types.len() ==> slots.contains_key((#[trigger] types[i]).id) && slots[types[i].id] == i
            + 1
    &&& forall|id: usize| #[trigger]
        slots.contains_key(id) ==> 1 <= slots[id] <= types.len() && types[slots[id] - 1].id == id
}

/// Looks a type up in the map of slots, and adds it at the end of the list
/// if it is new. Returns the slot of the type.
pub fn slot_of(types: &mut Vec<TypeRef>, slots: &mut HashMap<usize, usize>, ty: TypeRef) -> (n: usize)
    requires
        slots_match(old(types)@, old(slots)@),
    ensures
        slots_match(final(types)@, final(slots)@),
        old(types)@.is_prefix_of(final(types)@),
        is_slot(final(types)@, Some(ty), n),
        final(types)@.len() <= old(types)@.len() + 1,
        final(types)@.len() == old(types)@.len() + 1 ==> n == final(types)@.len() && final(types)@.last() == ty,
        final(types)@.len() == old(types)@.len() ==> final(types)@ == old(types)@ && final(slots)@ == old(
            slots,
        )@,
{
    let found: Option<usize> = match slots.get(&ty.id) {
        Some(n) => Some(*n),
        None => None,
    };
    match found {
        Some(n) => n,
        None => {
            types.push(ty);
            let n: usize = types.len();
            slots.insert(ty.id, n);
            proof {
                assert forall|i: int| 0 <= i < old(types)@.len() implies (#[trigger] old(types)@[i]).id
                    != ty.id by {
                    assert(old(slots)@.contains_key(old(types)@[i].id));
                }
                assert forall|i: int| 0 <= i < types@.len() implies slots@.contains_key(
                    (#[trigger] types@[i]).id,
                ) && slots@[types@[i].id] == i + 1 by {
                    if i < old(types)@.len() {
                        assert(types@[i] == old(types)@[i]);
                    }
                }
                assert forall|id: usize| #[trigger] slots@.contains_key(id) implies 1 <= slots@[id]
                    <= types@.len() && types@[slots@[id] - 1].id == id by {
                    if id != ty.id {
                        assert(old(slots)@.contains_key(id));
                        assert(types@[old(slots)@[id] - 1] == old(types)@[old(slots)@[id] - 1]);
                    }
                }
            }
            n
        },
    }
}

/// The wildcard has a type.
pub open spec fn typed_wildcard(lem: Lemon) -> bool {
    lem.wildcard matches Some(w) && lem.symbols@[w as int].data_type is Some
}

/// `symbols` are the symbols of `was` with their values' types and slots
/// assigned, and `types` are the types, by slot: no type twice; every symbol
/// but the error symbol and the wildcard has the type of its value and the
/// slot of that type; every type is that of some symbol's value; the error
/// symbol has a slot of its own, after all others; and the wildcard is as it
/// was.
pub open spec fn slots_assigned(was: Lemon, symbols: Seq<Symbol>, types: Seq<TypeRef>) -> bool {
    &&& distinct_types(types)
    &&& forall|s: int|
        0 <= s < was.symbols@.len() && s != was.err_sym && was.wildcard != Some(s as usize) ==> (
        #[trigger] symbols[s]).data_type == value_type(was.symbols@, was.var_type, s) && is_slot(
            types,
            symbols[s].data_type,
            symbols[s].dt_num,
        )
    &&& forall|k: int| 0 <= k < types.len() ==> type_used(was.symbols@, was.var_type, #[trigger] types[k])
    &&& symbols[was.err_sym as int].dt_num == types.len() + 1
    &&& symbols[was.err_sym as int].data_type == was.symbols@[was.err_sym as int].data_type
    &&& match was.wildcard {
        Some(w) => w != was.err_sym ==> symbols[w as int] == was.symbols@[w as int],
        None => true,
    }
}

impl Lemon {
    /// The type of the value that symbol `s` carries.
    fn value_type_of(&self, s: usize) -> (t: Option<TypeRef>)
        requires
            self.wf(),
            s < self.symbols@.len(),
        ensures
            t == value_type(self.symbols@, self.var_type, s as int),
    {
        proof {
            lemma_symbol_ok(self.symbols@, self.rules@, s as int);
        }
        match self.symbols[s].kind {
            SymbolKind::Terminal => {
                if self.symbols[s].data_type.is_some() {
                    self.symbols[s].data_type
                } else {
                    self.var_type
                }
            },
            SymbolKind::NonTerminal => self.symbols[s].data_type,
            SymbolKind::MultiTerminal => {
                if self.symbols[s].sub_sym.len() > 0 {
                    let first = self.symbols[s].sub_sym[0];
                    assert(self.symbols@[s as int].sub_sym@[0] < self.symbols@.len());
                    if self.symbols[first].data_type.is_some() {
                        self.symbols[first].data_type
                    } else {
                        self.var_type
                    }
                } else {
                    self.var_type
                }
            },
        }
    }

    /// Gives symbol `s` its type and slot.
    fn set_type(&mut self, s: usize, t: Option<TypeRef>, n: usize)
        requires
            old(self).built_wf(),
            s < old(self).symbols@.len(),
        ensures
            final(self).built_wf(),
            *final(self) == (Lemon { symbols: final(self).symbols, ..*old(self) }),
            final(self).symbols@.len() == old(self).symbols@.len(),
            forall|x: int|
                0 <= x < old(self).symbols@.len() && x != s ==> #[trigger] final(self).symbols@[x]
                    == old(self).symbols@[x],
            final(self).symbols@[s as int] == (Symbol {
                data_type: t,
                dt_num: n,
                ..old(self).symbols@[s as int]
            }),
    {
        let ghost before = self.symbols@;
        self.symbols[s].data_type = t;
        self.symbols[s].dt_num = n;
        proof {
            assert forall|j: int| 0 <= j < before.len() implies symbol_grown(
                before,
                before[j],
                #[trigger] self.symbols@[j],
            ) by {}
            lemma_grown_keeps_wf(before, self.symbols@, self.rules@);
        }
    }

    /// Gives every symbol the type of the value that it carries and the slot
    /// of that type, in the order of the symbols' indices; the error symbol
    /// gets a slot of its own, after all others. Returns the types, by slot.
    ///
    /// The wildcard carries no value and may not have a type.
    pub fn assign_minor_types(&mut self) -> (r: Result<Vec<TypeRef>, Error>)
        requires
            old(self).built_wf(),
            old(self).is_numbered(),
        ensures
            final(self).built_wf(),
            *final(self) == (Lemon { symbols: final(self).symbols, ..*old(self) }),
            final(self).symbols@.len() == old(self).symbols@.len(),
            forall|s: int|
                0 <= s < old(self).symbols@.len() ==> same_but_type(
                    old(self).symbols@[s],
                    #[trigger] final(self).symbols@[s],
                ),
            r is Err <==> (old(self).wildcard matches Some(w) && old(self).symbols@[w as int].data_type is Some),
            r matches Err(e) ==> e == (Error {
                fault: Fault::WildcardHasType,
                span: crate::decl::CALL_SITE,
            }) && final(self).symbols == old(self).symbols,
            r matches Ok(types) ==> slots_assigned(*old(self), final(self).symbols@, types@),
    {
        match self.wildcard {
            Some(w) => {
                if self.symbols[w].data_type.is_some() {
                    return Err(Error::new(Fault::WildcardHasType, crate::decl::CALL_SITE));
                }
            },
            None => {},
        }
        let ghost orig = self.symbols@;
        let ghost dflt = self.var_type;
        proof {
            crate::grammar::lemma_tables_len(orig, self.rules@);
        }
        let n = self.symbols.len();
        let mut types: Vec<TypeRef> = Vec::new();
        let mut slots: HashMap<usize, usize> = HashMap::new();
        let mut i: usize = 0;
        while i < n
            invariant
                i <= n,
                n == orig.len(),
                orig == old(self).symbols@,
                dflt == old(self).var_type,
                self.built_wf(),
                self.is_numbered(),
                *self == (Lemon { symbols: self.symbols, ..*old(self) }),
                self.symbols@.len() == n,
                self.err_sym < n,
                self.wildcard matches Some(w) ==> orig[w as int].data_type is None,
                forall|s: int| 0 <= s < n ==> same_but_type(orig[s], #[trigger] self.symbols@[s]),
                types@.len() <= i,
                orig[self.err_sym as int].index < i ==> types@.len() + 1 <= i,
                slots_match(types@, slots@),
                // symbols whose turn is yet to come are as they were
                forall|s: int|
                    0 <= s < n && orig[s].index >= i ==> #[trigger] self.symbols@[s] == orig[s],
                self.symbols@[self.err_sym as int] == orig[self.err_sym as int],
                self.wildcard matches Some(w) ==> w < n && self.symbols@[w as int] == orig[w as int],
                // those whose turn has been have the type and slot of their value
                forall|s: int|
                    0 <= s < n && orig[s].index < i && s != self.err_sym && self.wildcard != Some(
                        s as usize,
                    ) ==> (#[trigger] self.symbols@[s]).data_type == value_type(orig, dflt, s)
                        && is_slot(types@, self.symbols@[s].data_type, self.symbols@[s].dt_num),
                forall|k: int| 0 <= k < types@.len() ==> type_used(orig, dflt, #[trigger] types@[k]),
            decreases n - i,
        {
            let s = self.by_index[i];
            proof {
                // `s` is the symbol of index `i`
                assert(self.symbols@[self.by_index@[i as int] as int].index == i);
                assert(same_but_type(orig[s as int], self.symbols@[s as int]));
                assert(orig[s as int].index == i);
                if orig[self.err_sym as int].index == i && s != self.err_sym {
                    self.lemma_index_unique(orig, self.err_sym as int, s as int);
                }
            }
            let skip = s == self.err_sym || match self.wildcard {
                Some(w) => w == s,
                None => false,
            };
            if !skip {
                let ghost before = self.symbols@;
                let t = self.value_type_of(s);
                proof {
                    self.lemma_value_type_same(orig, s as int);
                }
                let ghost old_types = types@;
                let slot = match t {
                    None => 0,
                    Some(ty) => slot_of(&mut types, &mut slots, ty),
                };
                self.set_type(s, t, slot);
                proof {
                    let after = self.symbols@;
                    assert forall|x: int| 0 <= x < n implies same_but_type(
                        orig[x],
                        #[trigger] after[x],
                    ) by {
                        assert(same_but_type(orig[x], before[x]));
                    }
                    assert forall|x: int| 0 <= x < n implies (#[trigger] after[x]).kind
                        == before[x].kind && after[x].index == before[x].index by {}
                    crate::first::lemma_numbered_kept(
                        before,
                        after,
                        self.by_index@,
                        self.nterminal,
                        self.nsymbol,
                    );
                    assert forall|x: int|
                        0 <= x < n && orig[x].index < i + 1 && x != self.err_sym && self.wildcard
                            != Some(x as usize) implies (#[trigger] after[x]).data_type
                        == value_type(orig, dflt, x) && is_slot(
                        types@,
                        after[x].data_type,
                        after[x].dt_num,
                    ) by {
                        if x != s {
                            assert(after[x] == before[x]);
                            assert(orig[x].index != i) by {
                                if orig[x].index == i {
                                    self.lemma_index_unique(orig, x, s as int);
                                }
                            }
                            assert(is_slot(old_types, before[x].data_type, before[x].dt_num));
                        }
                    }
                    assert forall|k: int| 0 <= k < types@.len() implies type_used(
                        orig,
                        dflt,
                        #[trigger] types@[k],
                    ) by {
                        if k < old_types.len() {
                            assert(types@[k] == old_types[k]);
                            assert(type_used(orig, dflt, old_types[k]));
                        } else {
                            assert(value_type(orig, dflt, s as int) == Some(types@[k]));
                        }
                    }
                }
            } else {
                proof {
                    assert forall|x: int|
                        0 <= x < n && orig[x].index < i + 1 && x != self.err_sym && self.wildcard
                            != Some(x as usize) implies orig[x].index < i by {
                        if orig[x].index == i {
                            self.lemma_index_unique(orig, x, s as int);
                        }
                    }
                }
            }
            i += 1;
        }
        let e = self.err_sym;
        let t = self.symbols[e].data_type;
        let ghost before = self.symbols@;
        self.set_type(e, t, types.len() + 1);
        proof {
            let after = self.symbols@;
            assert forall|x: int| 0 <= x < n implies same_but_type(orig[x], #[trigger] after[x]) by {
                assert(same_but_type(orig[x], before[x]));
            }
        }
        Ok(types)
    }

    /// Symbols that were not changed but in type and slot are numbered as
    /// they were.
    proof fn lemma_index_unique(&self, orig: Seq<Symbol>, a: int, b: int)
        requires
            self.is_numbered(),
            orig.len() == self.symbols@.len(),
            forall|s: int| 0 <= s < orig.len() ==> same_but_type(orig[s], #[trigger] self.symbols@[s]),
            0 <= a < orig.len(),
            0 <= b < orig.len(),
            orig[a].index == orig[b].index,
        ensures
            a == b,
    {
        let syms = self.symbols@;
        assert(same_but_type(orig[a], syms[a]));
        assert(same_but_type(orig[b], syms[b]));
        let order = self.by_index@;
        assert(crate::order::occurs(order, a));
        assert(crate::order::occurs(order, b));
        let pa = choose|p: int| 0 <= p < order.len() && #[trigger] order[p] == a;
        let pb = choose|p: int| 0 <= p < order.len() && #[trigger] order[p] == b;
        assert(syms[order[pa] as int].index == pa);
        assert(syms[order[pb] as int].index == pb);
    }

    /// The type of the value of a symbol whose turn has not come is what it
    /// was at the start.
    proof fn lemma_value_type_same(&self, orig: Seq<Symbol>, s: int)
        requires
            self.wf(),
            self.is_numbered(),
            orig.len() == self.symbols@.len(),
            0 <= s < orig.len(),
            forall|x: int| 0 <= x < orig.len() ==> same_but_type(orig[x], #[trigger] self.symbols@[x]),
            self.symbols@[s] == orig[s],
            forall|x: int|
                0 <= x < orig.len() && self.symbols@[x] != orig[x] && x != self.err_sym ==> (
                #[trigger] self.symbols@[x]).data_type == value_type(orig, self.var_type, x),
            self.symbols@[self.err_sym as int].data_type == orig[self.err_sym as int].data_type
                || self.err_sym >= orig.len(),
        ensures
            value_type(self.symbols@, self.var_type, s) == value_type(orig, self.var_type, s),
    {
        let syms = self.symbols@;
        if orig[s].kind is MultiTerminal && orig[s].sub_sym@.len() > 0 {
            lemma_symbol_ok(syms, self.rules@, s);
            let c = orig[s].sub_sym@[0] as int;
            assert(syms[s].sub_sym@[0] < syms.len());
            assert(same_but_type(orig[c], syms[c]));
            assert(syms[c].kind is Terminal);
            if syms[c] != orig[c] && c != self.err_sym {
                assert(syms[c].data_type == value_type(orig, self.var_type, c));
            }
        }
    }
}

} // verus!
