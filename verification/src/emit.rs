//! Putting the tables of a parser together.

use crate::actions::lookahead_sorted;
use crate::acttab::{lookup, row_action, LookaheadAction, MAX_TABLE_INDEX};
use crate::decl::{CALL_SITE, Ident, TypeRef};
use crate::error::{Error, Fault};
use crate::grammar::{lemma_rule_ok, lemma_symbol_ok, rule_ok, symbol_ok, Lemon};
use crate::minor::{slots_assigned, typed_wildcard};
use crate::pack::{reads_back, same_but_offsets};
use crate::symbol::{Rule, Symbol, SymbolKind};
use crate::tables::{
    flatten, flattened, is_offset_table, lemma_flat_lookup, offset_at, table_hit, RhsInfo, RuleInfo,
    Tables, TokenInfo,
};
use vstd::prelude::*;

verus! {

/// The index of the terminal that symbol `s` falls back to, or 0.
pub open spec fn fallback_index(symbols: Seq<Symbol>, s: int) -> usize {
    match symbols[s].fallback {
        Some(f) => symbols[f as int].index,
        None => 0,
    }
}

/// Symbol `s` falls back to a terminal that carries a value of another type
/// than its own.
pub open spec fn fallback_mismatch(symbols: Seq<Symbol>, s: int) -> bool {
    symbols[s].fallback matches Some(f) && symbols[f as int].dt_num != 0 && symbols[f as int].dt_num
        != symbols[s].dt_num
}

/// The table of fallbacks: for each index up to the last symbol that has a
/// fallback, the index fallen back to, or 0.
pub open spec fn is_fallback_table(symbols: Seq<Symbol>, by_index: Seq<usize>, table: Seq<usize>) -> bool {
    &&& table.len() <= by_index.len()
    &&& forall|i: int|
        0 <= i < table.len() ==> #[trigger] table[i] == fallback_index(symbols, by_index[i] as int)
    &&& forall|i: int|
        table.len() <= i < by_index.len() ==> symbols[(#[trigger] by_index[i]) as int].fallback is None
    &&& table.len() > 0 ==> symbols[by_index[table.len() - 1] as int].fallback is Some
}

/// Slot `k` of rule `r` binds the value of a compound token whose
/// alternatives do not all carry the type of the first.
pub open spec fn compound_mismatch(symbols: Seq<Symbol>, rules: Seq<Rule>, r: int, k: int) -> bool {
    let item = rules[r].rhs@[k];
    let sym = symbols[item.sym as int];
    item.alias is Some && sym.kind is MultiTerminal && exists|c: int|
        1 <= c < sym.sub_sym@.len() && symbols[(#[trigger] sym.sub_sym@[c]) as int].dt_num
            != sym.dt_num
}

/// Slot `k` of rule `r` binds the value of the wildcard, which has none.
pub open spec fn wildcard_bound(
    rules: Seq<Rule>,
    wildcard: Option<usize>,
    err_sym: usize,
    r: int,
    k: int,
) -> bool {
    let item = rules[r].rhs@[k];
    item.alias is Some && item.sym != err_sym && wildcard == Some(item.sym)
}

/// What the generated parser has to know of rule `r`.
pub open spec fn is_rule_info(symbols: Seq<Symbol>, rules: Seq<Rule>, err_sym: usize, r: int, info: RuleInfo) -> bool {
    let rule = rules[r];
    &&& info.lhs == symbols[rule.lhs as int].index
    &&& info.lhs_dt_num == symbols[rule.lhs as int].dt_num
    &&& info.lhs_type == symbols[rule.lhs as int].data_type
    &&& info.code == rule.code
    &&& info.span == rule.span
    &&& info.rhs@.len() == rule.rhs@.len()
    &&& forall|k: int|
        0 <= k < rule.rhs@.len() ==> #[trigger] info.rhs@[k] == (RhsInfo {
            dt_num: symbols[rule.rhs@[k].sym as int].dt_num,
            alias: rule.rhs@[k].alias,
            is_error: rule.rhs@[k].sym == err_sym,
            span: rule.rhs@[k].span,
        })
}

impl Lemon {
    /// The table of fallbacks, by the index of the symbols.
    ///
    /// A terminal may fall back only to a terminal that carries no value or a
    /// value of the same type.
    pub fn fallback_table(&self) -> (r: Result<Vec<usize>, Error>)
        requires
            self.wf(),
            self.is_numbered(),
        ensures
            match r {
                Ok(table) => is_fallback_table(self.symbols@, self.by_index@, table@) && forall|i: int|
                    0 <= i < table@.len() ==> !fallback_mismatch(
                        self.symbols@,
                        (#[trigger] self.by_index@[i]) as int,
                    ),
                Err(e) => e == (Error { fault: Fault::FallbackTypeMismatch, span: CALL_SITE })
                    && exists|i: int|
                    0 <= i < self.by_index@.len() && fallback_mismatch(
                        self.symbols@,
                        (#[trigger] self.by_index@[i]) as int,
                    ),
            },
    {
        let n = self.by_index.len();
        let mut mx: usize = 0;
        let mut i: usize = 0;
        while i < n
            invariant
                i <= n,
                mx <= i,
                n == self.by_index@.len(),
                n == self.symbols@.len(),
                self.is_numbered(),
                forall|x: int|
                    mx <= x < i ==> self.symbols@[(#[trigger] self.by_index@[x]) as int].fallback is None,
                mx > 0 ==> self.symbols@[self.by_index@[mx - 1] as int].fallback is Some,
            decreases n - i,
        {
            let s = self.by_index[i];
            if self.symbols[s].fallback.is_some() {
                mx = i + 1;
            }
            i += 1;
        }
        let mut table: Vec<usize> = Vec::new();
        let mut i: usize = 0;
        while i < mx
            invariant
                i <= mx,
                mx <= n,
                n == self.by_index@.len(),
                n == self.symbols@.len(),
                self.wf(),
                self.is_numbered(),
                table@.len() == i,
                forall|x: int|
                    0 <= x < i ==> #[trigger] table@[x] == fallback_index(
                        self.symbols@,
                        self.by_index@[x] as int,
                    ),
                forall|x: int|
                    0 <= x < i ==> !fallback_mismatch(
                        self.symbols@,
                        (#[trigger] self.by_index@[x]) as int,
                    ),
            decreases mx - i,
        {
            let s = self.by_index[i];
            proof {
                lemma_symbol_ok(self.symbols@, self.rules@, s as int);
            }
            match self.symbols[s].fallback {
                None => {
                    table.push(0);
                },
                Some(fb) => {
                    let fdt = self.symbols[fb].dt_num;
                    let pdt = self.symbols[s].dt_num;
                    if fdt != 0 && fdt != pdt {
                        assert(fallback_mismatch(self.symbols@, self.by_index@[i as int] as int));
                        return Err(Error::new(Fault::FallbackTypeMismatch, CALL_SITE));
                    }
                    table.push(self.symbols[fb].index);
                },
            }
            i += 1;
        }
        Ok(table)
    }

    /// What the generated parser has to know of the terminals, but the end
    /// of input, by index.
    pub fn token_infos(&self) -> (r: Vec<TokenInfo>)
        requires
            self.wf(),
            self.is_numbered(),
        ensures
            r@.len() == self.nterminal - 1,
            forall|i: int|
                0 <= i < r@.len() ==> {
                    let sym = self.symbols@[self.by_index@[i + 1] as int];
                    let info = #[trigger] r@[i];
                    &&& info.name@ == sym.name@
                    &&& info.index == i + 1
                    &&& info.dt_num == sym.dt_num
                    &&& info.data_type == sym.data_type
                },
    {
        let n = self.nterminal;
        let ghost syms = self.symbols@;
        proof {
            // the end of input is a terminal, so there is one at least
            crate::grammar::lemma_tables_len(syms, self.rules@);
            assert(syms[0].kind is Terminal);
            assert(syms[0].index < self.nterminal);
        }
        let mut r: Vec<TokenInfo> = Vec::new();
        if n == 0 {
            return r;
        }
        let mut i: usize = 1;
        while i < n
            invariant
                1 <= i <= n,
                n == self.nterminal,
                self.is_numbered(),
                r@.len() == i - 1,
                forall|x: int|
                    0 <= x < i - 1 ==> {
                        let sym = self.symbols@[self.by_index@[x + 1] as int];
                        let info = #[trigger] r@[x];
                        &&& info.name@ == sym.name@
                        &&& info.index == x + 1
                        &&& info.dt_num == sym.dt_num
                        &&& info.data_type == sym.data_type
                    },
            decreases n - i,
        {
            let s = self.by_index[i];
            r.push(
                TokenInfo {
                    name: self.symbols[s].name.clone(),
                    index: i,
                    dt_num: self.symbols[s].dt_num,
                    data_type: self.symbols[s].data_type,
                },
            );
            i += 1;
        }
        r
    }

    /// Whether the alternatives of the compound token `sym`, from the second
    /// on, all carry a value of the type that the token carries.
    fn compound_agrees(&self, sym: usize) -> (b: bool)
        requires
            self.wf(),
            sym < self.symbols@.len(),
        ensures
            b == !exists|c: int|
                1 <= c < self.symbols@[sym as int].sub_sym@.len() && self.symbols@[(
                #[trigger] self.symbols@[sym as int].sub_sym@[c]) as int].dt_num
                    != self.symbols@[sym as int].dt_num,
    {
        proof {
            lemma_symbol_ok(self.symbols@, self.rules@, sym as int);
        }
        let n = self.symbols[sym].sub_sym.len();
        let mut c: usize = 1;
        while c < n
            invariant
                1 <= c,
                c <= n || n == 0,
                sym < self.symbols@.len(),
                n == self.symbols@[sym as int].sub_sym@.len(),
                symbol_ok(self.symbols@, self.rules@, sym as int),
                forall|x: int|
                    1 <= x < c ==> self.symbols@[(
                    #[trigger] self.symbols@[sym as int].sub_sym@[x]) as int].dt_num
                        == self.symbols@[sym as int].dt_num,
            decreases n - c,
        {
            let child = self.symbols[sym].sub_sym[c];
            assert(self.symbols@[sym as int].sub_sym@[c as int] < self.symbols@.len());
            if self.symbols[child].dt_num != self.symbols[sym].dt_num {
                return false;
            }
            c += 1;
        }
        true
    }

    /// What the generated parser has to know of rule `r`.
    ///
    /// A compound token whose value is bound must carry the same type
    /// whichever alternative it is, and the wildcard, which carries no
    /// value, may not be bound.
    pub fn translate_code(&self, r: usize) -> (res: Result<RuleInfo, Error>)
        requires
            self.wf(),
            r < self.rules@.len(),
        ensures
            match res {
                Ok(info) => is_rule_info(self.symbols@, self.rules@, self.err_sym, r as int, info)
                    && forall|k: int|
                    0 <= k < self.rules@[r as int].rhs@.len() ==> !#[trigger] compound_mismatch(
                        self.symbols@,
                        self.rules@,
                        r as int,
                        k,
                    ) && !wildcard_bound(self.rules@, self.wildcard, self.err_sym, r as int, k),
                Err(e) => exists|k: int| #[trigger] slot_error(*self, e, r as int, k),
            },
    {
        proof {
            lemma_rule_ok(self.symbols@, self.rules@, r as int);
        }
        let n = self.rules[r].rhs.len();
        let mut k: usize = 0;
        while k < n
            invariant
                k <= n,
                self.wf(),
                r < self.rules@.len(),
                n == self.rules@[r as int].rhs@.len(),
                rule_ok(self.symbols@, self.rules@, r as int),
                forall|x: int|
                    0 <= x < k ==> !#[trigger] compound_mismatch(
                        self.symbols@,
                        self.rules@,
                        r as int,
                        x,
                    ),
            decreases n - k,
        {
            let item = self.rules[r].rhs[k];
            assert(self.rules@[r as int].rhs@[k as int].sym < self.symbols@.len());
            if item.alias.is_some() && self.symbols[item.sym].kind == SymbolKind::MultiTerminal {
                if !self.compound_agrees(item.sym) {
                    assert(compound_mismatch(self.symbols@, self.rules@, r as int, k as int));
                    assert(slot_error(
                        *self,
                        Error { fault: Fault::CompoundTypeMismatch, span: item.span },
                        r as int,
                        k as int,
                    ));
                    return Err(Error::new(Fault::CompoundTypeMismatch, item.span));
                }
            }
            k += 1;
        }
        let mut rhs: Vec<RhsInfo> = Vec::new();
        let mut k: usize = 0;
        while k < n
            invariant
                k <= n,
                self.wf(),
                r < self.rules@.len(),
                n == self.rules@[r as int].rhs@.len(),
                rule_ok(self.symbols@, self.rules@, r as int),
                forall|x: int|
                    0 <= x < n ==> !#[trigger] compound_mismatch(
                        self.symbols@,
                        self.rules@,
                        r as int,
                        x,
                    ),
                forall|x: int|
                    0 <= x < k ==> !wildcard_bound(
                        self.rules@,
                        self.wildcard,
                        self.err_sym,
                        r as int,
                        x,
                    ),
                rhs@.len() == k,
                forall|x: int|
                    0 <= x < k ==> #[trigger] rhs@[x] == (RhsInfo {
                        dt_num: self.symbols@[self.rules@[r as int].rhs@[x].sym as int].dt_num,
                        alias: self.rules@[r as int].rhs@[x].alias,
                        is_error: self.rules@[r as int].rhs@[x].sym == self.err_sym,
                        span: self.rules@[r as int].rhs@[x].span,
                    }),
            decreases n - k,
        {
            let item = self.rules[r].rhs[k];
            assert(self.rules@[r as int].rhs@[k as int].sym < self.symbols@.len());
            let is_error = item.sym == self.err_sym;
            if !is_error && item.alias.is_some() {
                let is_wildcard = match self.wildcard {
                    Some(w) => w == item.sym,
                    None => false,
                };
                if is_wildcard {
                    assert(wildcard_bound(
                        self.rules@,
                        self.wildcard,
                        self.err_sym,
                        r as int,
                        k as int,
                    ));
                    assert(slot_error(
                        *self,
                        Error { fault: Fault::WildcardHasAlias, span: item.span },
                        r as int,
                        k as int,
                    ));
                    return Err(Error::new(Fault::WildcardHasAlias, item.span));
                }
            }
            rhs.push(
                RhsInfo {
                    dt_num: self.symbols[item.sym].dt_num,
                    alias: item.alias,
                    is_error,
                    span: item.span,
                },
            );
            k += 1;
        }
        let lhs = self.rules[r].lhs;
        Ok(
            RuleInfo {
                lhs: self.symbols[lhs].index,
                lhs_dt_num: self.symbols[lhs].dt_num,
                lhs_type: self.symbols[lhs].data_type,
                code: self.rules[r].code,
                span: self.rules[r].span,
                rhs,
            },
        )
    }
}

/// Slot `k` of the arrays is a cell of the row of state `s`: the row has an
/// offset, the slot is where that offset puts its lookahead, and its action
/// is the one that the row has for the lookahead.
pub open spec fn slot_of_row(t: Tables, lem: Lemon, s: int, is_tkn: bool, k: int) -> bool {
    &&& 0 <= s < lem.states@.len()
    &&& crate::pack::row_offset(lem.states@, s, is_tkn) matches Some(o) && k - o == t.lookahead@[k]
    &&& row_action(lem.row_of(s, is_tkn), t.lookahead@[k] as int) == Some(t.action@[k])
}

/// Slot `k` of the arrays holds the fillers, or it is a cell of the row of
/// some state.
pub open spec fn slot_right(t: Tables, lem: Lemon, k: int) -> bool {
    if t.lookahead@[k] == lem.nsymbol {
        t.action@[k] == lem.states@.len() + lem.rules@.len() + 2
    } else {
        exists|s: int, is_tkn: bool| #[trigger] slot_of_row(t, lem, s, is_tkn, k)
    }
}

/// The table of offsets says that the state of rank `i` has a row.
pub open spec fn has_row(table: Seq<i32>, use_dflt: i32, i: int) -> bool {
    i < table.len() && table[i] != use_dflt
}

/// What the tables hold at the offsets of the states is the rows of the
/// states: the arrays hold a table that was made by storing the rows one by
/// one, those with the most actions first; the state of rank `i` has an
/// offset exactly if its row is not empty, and then every lookahead but the
/// filler finds in the arrays the action that the state's row has for it,
/// and nothing where the row has none.
pub open spec fn rows_read_back(t: Tables, lem: Lemon) -> bool {
    &&& exists|tab: Seq<Option<LookaheadAction>>| #[trigger]
        flattened(
            tab,
            t.action@,
            t.lookahead@,
            (lem.states@.len() + lem.rules@.len() + 2) as usize,
            lem.nsymbol,
        ) && crate::pack::was_packed(lem, tab)
    &&& forall|i: int|
        0 <= i < lem.state_order@.len() ==> (has_row(t.shift_ofst@, t.shift_use_dflt, i) <==> lem.row_of(
            (#[trigger] lem.state_order@[i]) as int,
            true,
        ).len() > 0) && (has_row(t.reduce_ofst@, t.reduce_use_dflt, i) <==> lem.row_of(
            lem.state_order@[i] as int,
            false,
        ).len() > 0)
    &&& forall|i: int, lh: int|
        0 <= i < t.shift_ofst@.len() && t.shift_ofst@[i] != t.shift_use_dflt && lh != t.n_symbol
            ==> #[trigger] table_hit(t.action@, t.lookahead@, t.shift_ofst@[i] as int, lh)
            == row_action(lem.row_of(lem.state_order@[i] as int, true), lh)
    &&& forall|i: int, lh: int|
        0 <= i < t.reduce_ofst@.len() && t.reduce_ofst@[i] != t.reduce_use_dflt && lh != t.n_symbol
            ==> #[trigger] table_hit(t.action@, t.lookahead@, t.reduce_ofst@[i] as int, lh)
            == row_action(lem.row_of(lem.state_order@[i] as int, false), lh)
}

/// The tables are those of the grammar and its automaton.
pub open spec fn tables_of(t: Tables, lem: Lemon) -> bool {
    &&& t.n_state == lem.states@.len()
    &&& t.n_rule == lem.rules@.len()
    &&& t.n_terminal == lem.nterminal
    &&& t.n_symbol == lem.nsymbol
    &&& t.error_symbol == lem.symbols@[lem.err_sym as int].index
    &&& t.wildcard == match lem.wildcard {
        Some(w) => lem.symbols@[w as int].index,
        None => 0,
    }
    &&& t.module == lem.module
    &&& t.includes@ == lem.includes@
    &&& t.syntax_error == lem.syntax_error
    &&& t.parse_fail == lem.parse_fail
    &&& t.token_enum == lem.token_enum
    &&& t.extra_argument == lem.arg
    &&& t.error_type == lem.err_type
    &&& lem.start matches Some(s) ==> t.start_type == lem.symbols@[s as int].data_type
        && t.start_dt_num == lem.symbols@[s as int].dt_num
    &&& is_offset_table(
        lem.states@,
        lem.state_order@,
        true,
        t.shift_ofst@,
        t.shift_use_dflt,
        t.shift_min,
        t.shift_max,
    )
    &&& is_offset_table(
        lem.states@,
        lem.state_order@,
        false,
        t.reduce_ofst@,
        t.reduce_use_dflt,
        t.reduce_min,
        t.reduce_max,
    )
    &&& t.default@.len() == lem.states@.len()
    &&& forall|i: int|
        0 <= i < t.default@.len() ==> #[trigger] t.default@[i] == lem.states@[lem.state_order@[i] as int].i_dflt
    &&& is_fallback_table(lem.symbols@, lem.by_index@, t.fallback@)
    &&& t.rule_info@.len() == lem.rules@.len()
    &&& t.rules@.len() == lem.rules@.len()
    &&& forall|r: int|
        0 <= r < lem.rules@.len() ==> #[trigger] t.rule_info@[r] == lem.symbols@[lem.rules@[r].lhs as int].index
            && is_rule_info(lem.symbols@, lem.rules@, lem.err_sym, r, t.rules@[r])
    &&& t.action@.len() == t.lookahead@.len()
    &&& forall|k: int| 0 <= k < t.action@.len() ==> #[trigger] slot_right(t, lem, k)
    &&& t.tokens@.len() == lem.nterminal - 1
    &&& forall|i: int|
        0 <= i < t.tokens@.len() ==> {
            let sym = lem.symbols@[lem.by_index@[i + 1] as int];
            let info = #[trigger] t.tokens@[i];
            &&& info.name@ == sym.name@
            &&& info.index == i + 1
            &&& info.dt_num == sym.dt_num
            &&& info.data_type == sym.data_type
        }
}

/// Slot `k` of rule `r` cannot be bound in the rule's code.
pub open spec fn slot_fault(lem: Lemon, r: int, k: int) -> bool {
    compound_mismatch(lem.symbols@, lem.rules@, r, k) || wildcard_bound(
        lem.rules@,
        lem.wildcard,
        lem.err_sym,
        r,
        k,
    )
}

/// Some slot of rule `r` cannot be bound in the rule's code.
pub open spec fn rule_fault(lem: Lemon, r: int) -> bool {
    exists|k: int| 0 <= k < lem.rules@[r].rhs@.len() && #[trigger] slot_fault(lem, r, k)
}

/// Some slot of some rule cannot be bound in the rule's code.
pub open spec fn any_rule_fault(lem: Lemon) -> bool {
    exists|r: int| 0 <= r < lem.rules@.len() && #[trigger] rule_fault(lem, r)
}

/// The error is for slot `k` of rule `r`, which cannot be bound: a compound
/// whose alternatives differ in type, or the wildcard.
pub open spec fn slot_error(lem: Lemon, e: Error, r: int, k: int) -> bool {
    &&& 0 <= k < lem.rules@[r].rhs@.len()
    &&& e.span == lem.rules@[r].rhs@[k].span
    &&& (e.fault == Fault::CompoundTypeMismatch && compound_mismatch(lem.symbols@, lem.rules@, r, k))
        || (e.fault == Fault::WildcardHasAlias && wildcard_bound(
        lem.rules@,
        lem.wildcard,
        lem.err_sym,
        r,
        k,
    ))
}

/// The error is for a slot of rule `r`, the first rule with a slot that
/// cannot be bound.
pub open spec fn code_fault_at(lem: Lemon, e: Error, r: int, k: int) -> bool {
    &&& 0 <= r < lem.rules@.len()
    &&& forall|x: int| 0 <= x < r ==> !#[trigger] rule_fault(lem, x)
    &&& slot_error(lem, e, r, k)
}

/// The error is for a slot of the first rule with a slot that cannot be
/// bound.
pub open spec fn code_fault(lem: Lemon, e: Error) -> bool {
    exists|r: int, k: int| #[trigger] code_fault_at(lem, e, r, k)
}

/// Some symbol falls back to one whose value has another type.
pub open spec fn any_fallback_mismatch(lem: Lemon) -> bool {
    exists|i: int|
        0 <= i < lem.by_index@.len() && fallback_mismatch(lem.symbols@, (#[trigger] lem.by_index@[i]) as int)
}

/// The set of tokens is given as an enumeration that has variants already.
pub open spec fn enum_has_variants(lem: Lemon) -> bool {
    lem.token_enum matches Some(t) && t.n_variants > 0
}

/// What an error of putting the tables together says of the grammar `was`
/// that the tables were to be made for and of the grammar `now` that was
/// left. The checks are made in this order, and the first that fails gives
/// the error: the wildcard has a type; the enumeration of tokens has
/// variants; the tables grow too large; a symbol falls back to one of
/// another type; a slot cannot be bound in the code of its rule.
pub open spec fn emission_verdict(was: Lemon, now: Lemon, e: Error) -> bool {
    match e.fault {
        Fault::WildcardHasType => typed_wildcard(was) && e.span == CALL_SITE && now.symbols
            == was.symbols,
        Fault::TokenEnumNotEmpty => !typed_wildcard(was) && enum_has_variants(was) && e.span
            == was.token_enum->0.span,
        Fault::TablesTooLarge => !typed_wildcard(was) && !enum_has_variants(was) && e.span
            == CALL_SITE && crate::pack::may_overflow(was),
        Fault::FallbackTypeMismatch => !typed_wildcard(was) && !enum_has_variants(was)
            && any_fallback_mismatch(now) && e.span == CALL_SITE,
        Fault::CompoundTypeMismatch | Fault::WildcardHasAlias => !typed_wildcard(was)
            && !enum_has_variants(was) && !any_fallback_mismatch(now) && code_fault(now, e),
        _ => false,
    }
}

/// The faults that putting the tables together can meet.
pub open spec fn emission_fault(f: Fault) -> bool {
    f == Fault::WildcardHasType || f == Fault::TokenEnumNotEmpty || f == Fault::TablesTooLarge || f
        == Fault::FallbackTypeMismatch || f == Fault::CompoundTypeMismatch || f
        == Fault::WildcardHasAlias
}

impl Lemon {
    /// What the generated parser has to know of the rules, in order.
    pub fn rule_infos(&self) -> (res: Result<Vec<RuleInfo>, Error>)
        requires
            self.wf(),
        ensures
            match res {
                Ok(infos) => infos@.len() == self.rules@.len() && forall|r: int|
                    0 <= r < self.rules@.len() ==> is_rule_info(
                        self.symbols@,
                        self.rules@,
                        self.err_sym,
                        r,
                        #[trigger] infos@[r],
                    ),
                Err(e) => (e.fault == Fault::CompoundTypeMismatch || e.fault == Fault::WildcardHasAlias)
                    && code_fault(*self, e),
            },
            res is Ok ==> !any_rule_fault(*self),
    {
        let n = self.rules.len();
        let mut infos: Vec<RuleInfo> = Vec::new();
        let mut r: usize = 0;
        while r < n
            invariant
                r <= n,
                n == self.rules@.len(),
                self.wf(),
                infos@.len() == r,
                forall|x: int| 0 <= x < r ==> !#[trigger] rule_fault(*self, x),
                forall|x: int|
                    0 <= x < r ==> is_rule_info(
                        self.symbols@,
                        self.rules@,
                        self.err_sym,
                        x,
                        #[trigger] infos@[x],
                    ),
            decreases n - r,
        {
            match self.translate_code(r) {
                Ok(info) => {
                    infos.push(info);
                    proof {
                        assert(!rule_fault(*self, r as int)) by {
                            if rule_fault(*self, r as int) {
                                let k = choose|k: int|
                                    0 <= k < self.rules@[r as int].rhs@.len() && #[trigger] slot_fault(
                                        *self,
                                        r as int,
                                        k,
                                    );
                                assert(!compound_mismatch(self.symbols@, self.rules@, r as int, k));
                            }
                        }
                    }
                },
                Err(e) => {
                    proof {
                        let k = choose|k: int| #[trigger] slot_error(*self, e, r as int, k);
                        assert(code_fault_at(*self, e, r as int, k));
                    }
                    return Err(e);
                },
            }
            r += 1;
        }
        proof {
            assert(!any_rule_fault(*self));
        }
        Ok(infos)
    }

    /// For each rule, the index of its left-hand side.
    pub fn rule_lhs_table(&self) -> (table: Vec<usize>)
        requires
            self.wf(),
        ensures
            table@.len() == self.rules@.len(),
            forall|r: int|
                0 <= r < self.rules@.len() ==> #[trigger] table@[r] == self.symbols@[self.rules@[r].lhs as int].index,
    {
        let n = self.rules.len();
        let mut table: Vec<usize> = Vec::new();
        let mut r: usize = 0;
        while r < n
            invariant
                r <= n,
                n == self.rules@.len(),
                self.wf(),
                table@.len() == r,
                forall|x: int|
                    0 <= x < r ==> #[trigger] table@[x] == self.symbols@[self.rules@[x].lhs as int].index,
            decreases n - r,
        {
            proof {
                lemma_rule_ok(self.symbols@, self.rules@, r as int);
            }
            table.push(self.symbols[self.rules[r].lhs].index);
            r += 1;
        }
        table
    }

    /// Puts together the tables of the parser: gives the symbols the slots
    /// of their values, packs the actions of the states, and lays out what
    /// the generated parser needs.
    pub fn generate_tables(&mut self) -> (r: Result<Tables, Error>)
        requires
            old(self).built_wf(),
            old(self).is_numbered(),
            old(self).start is Some,
            old(self).states@.len() + old(self).rules@.len() + 2 <= MAX_TABLE_INDEX,
            crate::pack::ranked(*old(self)),
            forall|s: int|
                0 <= s < old(self).states@.len() ==> lookahead_sorted(
                    old(self).symbols@,
                    (#[trigger] old(self).states@[s]).ap@,
                ),
        ensures
            final(self).built_wf(),
            final(self).is_numbered(),
            *final(self) == (Lemon {
                symbols: final(self).symbols,
                states: final(self).states,
                ..*old(self)
            }),
            final(self).states@.len() == old(self).states@.len(),
            final(self).symbols@.len() == old(self).symbols@.len(),
            forall|s: int|
                0 <= s < old(self).states@.len() ==> same_but_offsets(
                    old(self).states@[s],
                    #[trigger] final(self).states@[s],
                ),
            forall|s: int|
                0 <= s < old(self).symbols@.len() ==> crate::minor::same_but_type(
                    old(self).symbols@[s],
                    #[trigger] final(self).symbols@[s],
                ),
            r matches Ok(t) ==> tables_of(t, *final(self)) && rows_read_back(t, *final(self)),
            r matches Err(e) ==> emission_fault(e.fault) && emission_verdict(
                *old(self),
                *final(self),
                e,
            ),
            !typed_wildcard(*old(self)) ==> exists|types: Seq<TypeRef>| #[trigger]
                slots_assigned(*old(self), final(self).symbols@, types),
            r matches Ok(t) ==> slots_assigned(*old(self), final(self).symbols@, t.minor_types@),
            r is Ok ==> !typed_wildcard(*old(self)) && !enum_has_variants(*old(self))
                && !any_fallback_mismatch(*final(self)) && !any_rule_fault(*final(self)),
            typed_wildcard(*old(self)) ==> r is Err,
            enum_has_variants(*old(self)) ==> r is Err,
            any_fallback_mismatch(*final(self)) ==> r is Err,
            any_rule_fault(*final(self)) ==> r is Err,
            !crate::pack::may_overflow(*old(self)) ==> (r is Err <==> typed_wildcard(*old(self))
                || enum_has_variants(*old(self)) || any_fallback_mismatch(*final(self))
                || any_rule_fault(*final(self))),
    {
        let ghost was = *self;
        let ghost orig_syms = self.symbols@;
        let ghost orig_states = self.states@;
        let types = match self.assign_minor_types() {
            Ok(t) => t,
            Err(e) => {
                proof {
                    assert forall|s: int| 0 <= s < orig_states.len() implies same_but_offsets(
                        orig_states[s],
                        #[trigger] self.states@[s],
                    ) by {}
                }
                return Err(e);
            },
        };
        proof {
            assert forall|s: int| 0 <= s < orig_syms.len() implies (#[trigger] self.symbols@[s]).kind
                == orig_syms[s].kind && self.symbols@[s].index == orig_syms[s].index by {
                assert(crate::minor::same_but_type(orig_syms[s], self.symbols@[s]));
            }
            crate::first::lemma_numbered_kept(
                orig_syms,
                self.symbols@,
                self.by_index@,
                self.nterminal,
                self.nsymbol,
            );
            assert forall|s: int| 0 <= s < orig_states.len() implies lookahead_sorted(
                self.symbols@,
                (#[trigger] self.states@[s]).ap@,
            ) by {
                assert(lookahead_sorted(orig_syms, orig_states[s].ap@));
                let ap = orig_states[s].ap@;
                assert forall|a: int, b: int| 0 <= a <= b < ap.len() implies self.symbols@[(
                #[trigger] ap[a]).sp as int].index <= self.symbols@[(#[trigger] ap[b]).sp as int].index by {
                    crate::automaton::lemma_state_ok(
                        self.configs@,
                        self.states@,
                        self.rules@,
                        self.symbols@.len(),
                        s,
                    );
                    assert(crate::automaton::action_ok(
                        ap[a],
                        self.symbols@.len(),
                        self.states@.len(),
                        self.rules@.len(),
                    ));
                    assert(crate::automaton::action_ok(
                        ap[b],
                        self.symbols@.len(),
                        self.states@.len(),
                        self.rules@.len(),
                    ));
                    assert(orig_syms[ap[a].sp as int].index <= orig_syms[ap[b].sp as int].index);
                }
            }
            assert forall|s: int| 0 <= s < orig_states.len() implies same_but_offsets(
                orig_states[s],
                #[trigger] self.states@[s],
            ) by {}
        }
        match self.token_enum {
            Some(e) => {
                if e.n_variants > 0 {
                    return Err(Error::new(Fault::TokenEnumNotEmpty, e.span));
                }
            },
            None => {},
        }
        let ghost unpacked = *self;
        let tab = match self.pack_actions() {
            Ok(tab) => tab,
            Err(e) => {
                proof {
                    assert(crate::pack::may_overflow(unpacked));
                    assert(unpacked.states@.len() == was.states@.len());
                    assert(unpacked.symbols@.len() == was.symbols@.len());
                    assert(crate::pack::may_overflow(was));
                }
                return Err(e);
            },
        };
        let no_action = self.states.len() + self.rules.len() + 2;
        let (action, lookahead) = flatten(&tab, no_action, self.nsymbol);
        let (shift_ofst, shift_use_dflt, shift_min, shift_max) = self.offset_table(true);
        let (reduce_ofst, reduce_use_dflt, reduce_min, reduce_max) = self.offset_table(false);
        let default = self.default_table();
        let fallback = match self.fallback_table() {
            Ok(f) => f,
            Err(e) => {
                return Err(e);
            },
        };
        proof {
            assert(!any_fallback_mismatch(*self)) by {
                if any_fallback_mismatch(*self) {
                    let i = choose|i: int|
                        0 <= i < self.by_index@.len() && fallback_mismatch(
                            self.symbols@,
                            (#[trigger] self.by_index@[i]) as int,
                        );
                    if i >= fallback@.len() {
                        assert(self.symbols@[self.by_index@[i] as int].fallback is None);
                    }
                }
            }
        }
        let rule_info = self.rule_lhs_table();
        let rules = match self.rule_infos() {
            Ok(r) => r,
            Err(e) => {
                proof {
                    let (r, k) = choose|r: int, k: int| #[trigger] code_fault_at(*self, e, r, k);
                    assert(slot_fault(*self, r, k));
                    assert(rule_fault(*self, r));
                }
                return Err(e);
            },
        };
        let tokens = self.token_infos();
        let start = match self.start {
            Some(s) => s,
            None => 0,
        };
        let wildcard = match self.wildcard {
            Some(w) => self.symbols[w].index,
            None => 0,
        };
        let mut includes: Vec<usize> = Vec::new();
        let ni = self.includes.len();
        let mut k: usize = 0;
        while k < ni
            invariant
                k <= ni,
                ni == self.includes@.len(),
                includes@ == self.includes@.take(k as int),
            decreases ni - k,
        {
            includes.push(self.includes[k]);
            assert(self.includes@.take(k + 1) == self.includes@.take(k as int).push(
                self.includes@[k as int],
            ));
            k += 1;
        }
        assert(self.includes@.take(ni as int) == self.includes@);
        let t = Tables {
            module: Ident { name: self.module.name.clone(), span: self.module.span },
            includes,
            syntax_error: self.syntax_error,
            parse_fail: self.parse_fail,
            token_enum: self.token_enum,
            extra_argument: self.arg,
            error_type: self.err_type,
            start_type: self.symbols[start].data_type,
            start_dt_num: self.symbols[start].dt_num,
            n_state: self.states.len(),
            n_rule: self.rules.len(),
            n_terminal: self.nterminal,
            n_symbol: self.nsymbol,
            error_symbol: self.symbols[self.err_sym].index,
            wildcard,
            minor_types: types,
            tokens,
            action,
            lookahead,
            shift_use_dflt,
            shift_min,
            shift_max,
            shift_ofst,
            reduce_use_dflt,
            reduce_min,
            reduce_max,
            reduce_ofst,
            default,
            fallback,
            rule_info,
            rules,
        };
        proof {
            let lem = *self;
            assert(flattened(tab@, t.action@, t.lookahead@, no_action, lem.nsymbol)
                && crate::pack::was_packed(lem, tab@));
            assert forall|k: int| 0 <= k < t.action@.len() implies #[trigger] slot_right(t, lem, k) by {
                if tab@[k] is Some {
                    let a = tab@[k]->0;
                    assert(crate::pack::cell_owned(tab@, lem.states@, k));
                    let (s, is_tkn) = choose|s: int, is_tkn: bool| #[trigger]
                        crate::pack::owns(tab@, lem.states@, s, is_tkn, k);
                    let o = crate::pack::row_offset(lem.states@, s, is_tkn)->0;
                    let row = lem.row_of(s, is_tkn);
                    assert(reads_back(tab@, lem.states@[s].i_tkn_ofst, lem.row_of(s, true)));
                    assert(reads_back(tab@, lem.states@[s].i_nt_ofst, lem.row_of(s, false)));
                    let lh = k - o;
                    assert(lookup(tab@, o as int, lh) == row_action(row, lh));
                    assert(row_action(row, lh) == Some(a.action));
                    crate::pack::lemma_row_no_filler(
                        lem.symbols@,
                        crate::actions::state_nums(lem.states@),
                        lem.rules@.len() as int,
                        lem.nterminal,
                        lem.nsymbol,
                        lem.states@[s].ap@,
                        is_tkn,
                        lem.states@[s].ap@.len() as int,
                    );
                    assert(crate::acttab::row_has(row, lh));
                    let c = choose|c: int| 0 <= c < row.len() && #[trigger] row[c].lookahead == lh;
                    assert(row[c].lookahead != lem.nsymbol);
                    assert(slot_of_row(t, lem, s, is_tkn, k));
                }
            }
            assert forall|i: int|
                0 <= i < lem.state_order@.len() implies (has_row(t.shift_ofst@, t.shift_use_dflt, i)
                <==> lem.row_of((#[trigger] lem.state_order@[i]) as int, true).len() > 0) && (has_row(
                t.reduce_ofst@,
                t.reduce_use_dflt,
                i,
            ) <==> lem.row_of(lem.state_order@[i] as int, false).len() > 0) by {
                let id = lem.state_order@[i] as int;
                assert(crate::pack::offsets_given(lem, id));
                let o = offset_at(lem.states@, lem.state_order@, i, true);
                let q = offset_at(lem.states@, lem.state_order@, i, false);
            }
            assert forall|i: int, lh: int|
                0 <= i < t.shift_ofst@.len() && t.shift_ofst@[i] != t.shift_use_dflt && lh
                    != t.n_symbol implies #[trigger] table_hit(
                t.action@,
                t.lookahead@,
                t.shift_ofst@[i] as int,
                lh,
            ) == row_action(lem.row_of(lem.state_order@[i] as int, true), lh) by {
                let o = offset_at(lem.states@, lem.state_order@, i, true);
                assert(o is Some);
                let id = lem.state_order@[i] as int;
                assert(reads_back(tab@, lem.states@[id].i_tkn_ofst, lem.row_of(id, true)));
                lemma_flat_lookup(
                    tab@,
                    t.action@,
                    t.lookahead@,
                    no_action,
                    self.nsymbol,
                    t.shift_ofst@[i] as int,
                    lh,
                );
                assert(lookup(tab@, o->0 as int, lh) == row_action(lem.row_of(id, true), lh));
            }
            assert forall|i: int, lh: int|
                0 <= i < t.reduce_ofst@.len() && t.reduce_ofst@[i] != t.reduce_use_dflt && lh
                    != t.n_symbol implies #[trigger] table_hit(
                t.action@,
                t.lookahead@,
                t.reduce_ofst@[i] as int,
                lh,
            ) == row_action(lem.row_of(lem.state_order@[i] as int, false), lh) by {
                let o = offset_at(lem.states@, lem.state_order@, i, false);
                assert(o is Some);
                let id = lem.state_order@[i] as int;
                assert(reads_back(tab@, lem.states@[id].i_nt_ofst, lem.row_of(id, false)));
                lemma_flat_lookup(
                    tab@,
                    t.action@,
                    t.lookahead@,
                    no_action,
                    self.nsymbol,
                    t.reduce_ofst@[i] as int,
                    lh,
                );
                assert(lookup(tab@, o->0 as int, lh) == row_action(lem.row_of(id, false), lh));
            }
        }
        Ok(t)
    }
}

/// Two descriptions of a terminal say the same.
pub open spec fn same_token(a: TokenInfo, b: TokenInfo) -> bool {
    &&& a.name@ == b.name@
    &&& a.index == b.index
    &&& a.dt_num == b.dt_num
    &&& a.data_type == b.data_type
}

/// Two descriptions of a rule say the same.
pub open spec fn same_rule(a: RuleInfo, b: RuleInfo) -> bool {
    &&& a.lhs == b.lhs
    &&& a.lhs_dt_num == b.lhs_dt_num
    &&& a.lhs_type == b.lhs_type
    &&& a.code == b.code
    &&& a.span == b.span
    &&& a.rhs@ == b.rhs@
}

/// Two sets of tables hold the same, but for the types of the values on the
/// stack, of which this says nothing.
pub open spec fn same_tables(a: Tables, b: Tables) -> bool {
    &&& a.module == b.module
    &&& a.includes@ == b.includes@
    &&& a.syntax_error == b.syntax_error
    &&& a.parse_fail == b.parse_fail
    &&& a.token_enum == b.token_enum
    &&& a.extra_argument == b.extra_argument
    &&& a.error_type == b.error_type
    &&& a.start_type == b.start_type
    &&& a.start_dt_num == b.start_dt_num
    &&& a.n_state == b.n_state
    &&& a.n_rule == b.n_rule
    &&& a.n_terminal == b.n_terminal
    &&& a.n_symbol == b.n_symbol
    &&& a.error_symbol == b.error_symbol
    &&& a.wildcard == b.wildcard
    &&& a.tokens@.len() == b.tokens@.len()
    &&& forall|i: int| 0 <= i < a.tokens@.len() ==> same_token(#[trigger] a.tokens@[i], b.tokens@[i])
    &&& a.action@ == b.action@
    &&& a.lookahead@ == b.lookahead@
    &&& a.shift_use_dflt == b.shift_use_dflt
    &&& a.shift_min == b.shift_min
    &&& a.shift_max == b.shift_max
    &&& a.shift_ofst@ == b.shift_ofst@
    &&& a.reduce_use_dflt == b.reduce_use_dflt
    &&& a.reduce_min == b.reduce_min
    &&& a.reduce_max == b.reduce_max
    &&& a.reduce_ofst@ == b.reduce_ofst@
    &&& a.default@ == b.default@
    &&& a.fallback@ == b.fallback@
    &&& a.rule_info@ == b.rule_info@
    &&& a.rules@.len() == b.rules@.len()
    &&& forall|r: int| 0 <= r < a.rules@.len() ==> same_rule(#[trigger] a.rules@[r], b.rules@[r])
}

/// A grammar with its automaton has one set of tables: two that are both
/// the tables of the grammar, with the rows of its states stored in them,
/// hold the same.
pub proof fn law_one_set_of_tables(lem: Lemon, a: Tables, b: Tables)
    requires
        crate::pack::ranked(lem),
        lem.start is Some,
        tables_of(a, lem),
        rows_read_back(a, lem),
        tables_of(b, lem),
        rows_read_back(b, lem),
    ensures
        same_tables(a, b),
{
    let filler = (lem.states@.len() + lem.rules@.len() + 2) as usize;
    let ta = choose|tab: Seq<Option<LookaheadAction>>| #[trigger]
        flattened(tab, a.action@, a.lookahead@, filler, lem.nsymbol) && crate::pack::was_packed(
            lem,
            tab,
        );
    let tb = choose|tab: Seq<Option<LookaheadAction>>| #[trigger]
        flattened(tab, b.action@, b.lookahead@, filler, lem.nsymbol) && crate::pack::was_packed(
            lem,
            tab,
        );
    crate::pack::law_packing_has_one_outcome(lem, lem, ta, tb);
    assert forall|k: int| 0 <= k < ta.len() implies a.action@[k] == b.action@[k] && a.lookahead@[k]
        == b.lookahead@[k] by {
        let cell = ta[k];
    }
    assert(a.action@ =~= b.action@);
    assert(a.lookahead@ =~= b.lookahead@);
    crate::tables::law_one_offset_table(
        lem.states@,
        lem.state_order@,
        true,
        (a.shift_ofst@, a.shift_use_dflt, a.shift_min, a.shift_max),
        (b.shift_ofst@, b.shift_use_dflt, b.shift_min, b.shift_max),
    );
    crate::tables::law_one_offset_table(
        lem.states@,
        lem.state_order@,
        false,
        (a.reduce_ofst@, a.reduce_use_dflt, a.reduce_min, a.reduce_max),
        (b.reduce_ofst@, b.reduce_use_dflt, b.reduce_min, b.reduce_max),
    );
    assert(a.default@ =~= b.default@);
    assert(a.rule_info@ =~= b.rule_info@);
    assert(a.fallback@ =~= b.fallback@) by {
        let la: int = a.fallback@.len() as int;
        let lb: int = b.fallback@.len() as int;
        if la < lb {
            assert(lem.symbols@[lem.by_index@[lb - 1] as int].fallback is Some);
        }
        if lb < la {
            assert(lem.symbols@[lem.by_index@[la - 1] as int].fallback is Some);
        }
    }
    assert forall|r: int| 0 <= r < a.rules@.len() implies same_rule(
        #[trigger] a.rules@[r],
        b.rules@[r],
    ) by {
        let x: usize = a.rule_info@[r];
        let y: usize = b.rule_info@[r];
        assert(is_rule_info(lem.symbols@, lem.rules@, lem.err_sym, r, a.rules@[r]));
        assert(is_rule_info(lem.symbols@, lem.rules@, lem.err_sym, r, b.rules@[r]));
        assert(a.rules@[r].rhs@ =~= b.rules@[r].rhs@);
    }
    assert forall|i: int| 0 <= i < a.tokens@.len() implies same_token(
        #[trigger] a.tokens@[i],
        b.tokens@[i],
    ) by {
        let x = b.tokens@[i];
    }
}

} // verus!
