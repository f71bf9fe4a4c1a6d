//! Loading a grammar from its declarations.

use crate::decl::{
    is_lower_name, is_lowercase, is_upper_name, is_uppercase, CALL_SITE, Decl, Ident, RhsSlot,
    TypeRef,
};
use crate::error::{Error, Fault};
use crate::grammar::{
    count_rules, lemma_add_rule_keeps_wf, lemma_grown_keeps_wf, lemma_kept_at, lemma_kept_len,
    lemma_kept_refl, lemma_kept_trans, lemma_kept_unanalyzed, lemma_names_unique, lemma_rule_ok,
    lemma_symbol_new_keeps_wf, lemma_symbol_ok, lemma_tables_len, lemma_touched_none,
    lemma_touched_trans, level_step, loading_step, plain_name, symbol_but, symbol_grown, symbol_ok,
    symbols_kept, symbols_step, tables_wf, touch_none, touched_only, unanalyzed, Lemon, Touch,
};
use crate::precedence::{Associativity, Precedence};
use crate::symbol::{
    is_fresh_symbol, name_unused, names_unique, symbol_new, RhsItem, Rule, Symbol, SymbolKind,
};
use vstd::prelude::*;

verus! {

/// A copy of an identifier.
fn copy_ident(id: &Ident) -> (c: Ident)
    ensures
        c == *id,
{
    Ident { name: id.name.clone(), span: id.span }
}

/// Appends the items of `src` to `dst`.
fn extend_from(dst: &mut Vec<usize>, src: &Vec<usize>)
    ensures
        final(dst)@ == old(dst)@ + src@,
{
    let n = src.len();
    let mut k: usize = 0;
    while k < n
        invariant
            k <= n,
            n == src@.len(),
            dst@ == old(dst)@ + src@.take(k as int),
        decreases n - k,
    {
        dst.push(src[k]);
        assert(src@.take(k + 1) == src@.take(k as int).push(src@[k as int]));
        k += 1;
    }
    assert(src@.take(n as int) == src@);
}

/// The name of the end-of-input terminal.
pub open spec fn end_name() -> Seq<char> {
    "$"@
}

/// The name of the error nonterminal.
pub open spec fn error_name() -> Seq<char> {
    "error"@
}

/// The name of the sentinel that stands for "any other lookahead".
pub open spec fn default_name() -> Seq<char> {
    "{default}"@
}

impl Lemon {
    /// The grammar is complete: its last symbol is the sentinel for default
    /// actions, a nonterminal.
    pub open spec fn loaded(&self) -> bool {
        &&& self.symbols@.len() >= 3
        &&& self.symbols@.last().name@ == default_name()
        &&& self.symbols@.last().kind is NonTerminal
    }

    /// Refers to a symbol by name, creating it if need be.
    fn symbol_new_t(&mut self, name: &Ident, kind: SymbolKind) -> (r: usize)
        requires
            old(self).wf(),
            plain_name(name.name@),
        ensures
            final(self).wf(),
            symbols_step(*old(self), *final(self)),
            final(self).has_fallback == old(self).has_fallback,
            r < final(self).symbols@.len(),
            r <= old(self).symbols@.len(),
            final(self).symbols@.len() >= old(self).symbols@.len(),
            final(self).symbols@[r as int].name@ == name.name@,
            r < old(self).symbols@.len() ==> {
                &&& name.name@.len() > 0
                &&& old(self).symbols@[r as int].name@ == name.name@
                &&& final(self).symbols@.len() == old(self).symbols@.len()
                &&& final(self).symbols@[r as int].kind == old(self).symbols@[r as int].kind
                &&& final(self).symbols@[r as int].data_type == old(self).symbols@[r as int].data_type
                &&& final(self).symbols@[r as int].assoc == old(self).symbols@[r as int].assoc
                &&& final(self).symbols@[r as int].fallback == old(self).symbols@[r as int].fallback
                &&& final(self).symbols@[r as int].sub_sym == old(self).symbols@[r as int].sub_sym
            },
            r == old(self).symbols@.len() ==> {
                &&& name.name@.len() > 0 ==> name_unused(old(self).symbols@, name.name@)
                &&& final(self).symbols@.len() == old(self).symbols@.len() + 1
                &&& final(self).symbols@[r as int].kind == kind
                &&& final(self).symbols@[r as int].data_type is None
                &&& final(self).symbols@[r as int].assoc is None
                &&& final(self).symbols@[r as int].fallback is None
                &&& final(self).symbols@[r as int].sub_sym@.len() == 0
                &&& final(self).symbols@[r as int].rules@.len() == 0
            },
            *final(self) == (Lemon { symbols: final(self).symbols, ..*old(self) }),
            touched_only(old(self).symbols@, final(self).symbols@, touch_none()),
            forall|j: int|
                0 <= j < old(self).symbols@.len() && j != r ==> #[trigger] final(self).symbols@[j]
                    == old(self).symbols@[j],
    {
        let ghost before = self.symbols@;
        let r = symbol_new(&mut self.symbols, &name.name, kind);
        proof {
            lemma_symbol_new_keeps_wf(before, self.symbols@, self.rules@, name.name@, kind, r as int);
        }
        r
    }

    /// Sets the fallback of a symbol.
    fn set_fallback(&mut self, s: usize, f: usize)
        requires
            old(self).wf(),
            s < old(self).symbols@.len(),
            f < old(self).symbols@.len(),
        ensures
            final(self).wf(),
            symbols_step(*old(self), *final(self)),
            final(self).symbols@.len() == old(self).symbols@.len(),
            final(self).symbols@[s as int].fallback == Some(f),
            final(self).has_fallback,
            *final(self) == (Lemon {
                symbols: final(self).symbols,
                has_fallback: final(self).has_fallback,
                ..*old(self)
            }),
            symbol_but(
                old(self).symbols@[s as int],
                final(self).symbols@[s as int],
                Touch { fallback: true, ..touch_none() },
            ),
            forall|j: int|
                0 <= j < old(self).symbols@.len() && j != s ==> #[trigger] final(self).symbols@[j]
                    == old(self).symbols@[j],
    {
        let ghost before = self.symbols@;
        self.symbols[s].fallback = Some(f);
        self.has_fallback = true;
        proof {
            assert forall|j: int| 0 <= j < before.len() implies symbol_grown(
                before,
                before[j],
                #[trigger] self.symbols@[j],
            ) by {}
            lemma_grown_keeps_wf(before, self.symbols@, self.rules@);
        }
    }

    /// Sets what no table refers to: the type of a symbol.
    fn set_data_type(&mut self, s: usize, ty: TypeRef)
        requires
            old(self).wf(),
            s < old(self).symbols@.len(),
        ensures
            final(self).wf(),
            symbols_step(*old(self), *final(self)),
            final(self).has_fallback == old(self).has_fallback,
            final(self).symbols@.len() == old(self).symbols@.len(),
            final(self).symbols@[s as int].data_type == Some(ty),
            *final(self) == (Lemon { symbols: final(self).symbols, ..*old(self) }),
            symbol_but(
                old(self).symbols@[s as int],
                final(self).symbols@[s as int],
                Touch { data_type: true, ..touch_none() },
            ),
            forall|j: int|
                0 <= j < old(self).symbols@.len() && j != s ==> #[trigger] final(self).symbols@[j]
                    == old(self).symbols@[j],
    {
        let ghost before = self.symbols@;
        self.symbols[s].data_type = Some(ty);
        proof {
            assert forall|j: int| 0 <= j < before.len() implies symbol_grown(
                before,
                before[j],
                #[trigger] self.symbols@[j],
            ) by {}
            lemma_grown_keeps_wf(before, self.symbols@, self.rules@);
        }
    }

    /// Sets what no table refers to: the precedence of a symbol.
    fn set_assoc(&mut self, s: usize, p: Precedence)
        requires
            old(self).wf(),
            s < old(self).symbols@.len(),
        ensures
            final(self).wf(),
            symbols_step(*old(self), *final(self)),
            final(self).has_fallback == old(self).has_fallback,
            final(self).symbols@.len() == old(self).symbols@.len(),
            final(self).symbols@[s as int].assoc == Some(p),
            *final(self) == (Lemon { symbols: final(self).symbols, ..*old(self) }),
            symbol_but(
                old(self).symbols@[s as int],
                final(self).symbols@[s as int],
                Touch { assoc: true, ..touch_none() },
            ),
            forall|j: int|
                0 <= j < old(self).symbols@.len() && j != s ==> #[trigger] final(self).symbols@[j]
                    == old(self).symbols@[j],
    {
        let ghost before = self.symbols@;
        self.symbols[s].assoc = Some(p);
        proof {
            assert forall|j: int| 0 <= j < before.len() implies symbol_grown(
                before,
                before[j],
                #[trigger] self.symbols@[j],
            ) by {}
            lemma_grown_keeps_wf(before, self.symbols@, self.rules@);
        }
    }

    /// Adds a terminal to the alternatives of a multi-terminal.
    fn push_sub_sym(&mut self, s: usize, c: usize)
        requires
            old(self).wf(),
            s < old(self).symbols@.len(),
            c < old(self).symbols@.len(),
            old(self).symbols@[s as int].kind is MultiTerminal,
            old(self).symbols@[c as int].kind is Terminal,
        ensures
            final(self).wf(),
            symbols_step(*old(self), *final(self)),
            final(self).has_fallback == old(self).has_fallback,
            final(self).symbols@.len() == old(self).symbols@.len(),
            final(self).symbols@[s as int].sub_sym@ == old(self).symbols@[s as int].sub_sym@.push(c),
            forall|j: int|
                0 <= j < old(self).symbols@.len() && j != s ==> #[trigger] final(self).symbols@[j]
                    == old(self).symbols@[j],
            *final(self) == (Lemon { symbols: final(self).symbols, ..*old(self) }),
            symbol_but(
                old(self).symbols@[s as int],
                final(self).symbols@[s as int],
                Touch { sub_sym: true, ..touch_none() },
            ),
    {
        let ghost before = self.symbols@;
        self.symbols[s].sub_sym.push(c);
        proof {
            assert forall|j: int| 0 <= j < before.len() implies symbol_grown(
                before,
                before[j],
                #[trigger] self.symbols@[j],
            ) by {}
            lemma_grown_keeps_wf(before, self.symbols@, self.rules@);
        }
    }

    /// Adds the terminal that `tok` names to the alternatives of the
    /// multi-terminal `mt`.
    fn add_member(&mut self, mt: usize, tok: &Ident, fault: Fault) -> (r: Result<(), Error>)
        requires
            old(self).wf(),
            mt < old(self).symbols@.len(),
            old(self).symbols@[mt as int].kind is MultiTerminal,
        ensures
            final(self).wf(),
            symbols_step(*old(self), *final(self)),
            final(self).has_fallback == old(self).has_fallback,
            r is Ok ==> final(self).symbols@[mt as int].sub_sym@.len() == old(self).symbols@[mt as int].sub_sym@.len() + 1,
            r is Ok ==> is_upper_name(tok.name@),
            r matches Err(e) ==> e == (Error { fault, span: tok.span }),
            r is Err <==> member_bad(old(self).symbols@, *tok),
            added_by_case(old(self).symbols@, final(self).symbols@),
            *final(self) == (Lemon { symbols: final(self).symbols, ..*old(self) }),
            touched_only(
                old(self).symbols@,
                final(self).symbols@,
                Touch { sub_sym: true, ..touch_none() },
            ),
            forall|j: int|
                0 <= j < old(self).symbols@.len() && j != mt ==> symbol_but(
                    old(self).symbols@[j],
                    #[trigger] final(self).symbols@[j],
                    touch_none(),
                ),
            r is Err ==> final(self).symbols@[mt as int].sub_sym == old(self).symbols@[mt as int].sub_sym,
            forall|j: int|
                0 <= j < old(self).symbols@.len() && j != mt ==> (#[trigger] final(self).symbols@[j]).sub_sym
                    == old(self).symbols@[j].sub_sym,
            r is Ok ==> {
                let subs = final(self).symbols@[mt as int].sub_sym@;
                &&& subs.drop_last() == old(self).symbols@[mt as int].sub_sym@
                &&& subs.last() < final(self).symbols@.len()
                &&& final(self).symbols@[subs.last() as int].name@ == tok.name@
                &&& final(self).symbols@[subs.last() as int].kind is Terminal
            },
    {
        if !is_uppercase(tok) {
            proof {
                lemma_kept_refl(self.symbols@);
            }
            return Err(Error::new(fault, tok.span));
        }
        let ghost before = self.symbols@;
        let c = self.symbol_new_t(tok, SymbolKind::Terminal);
        if self.symbols[c].kind != SymbolKind::Terminal {
            proof {
                assert(kind_clash(before, c as int, tok.name@, SymbolKind::Terminal));
                lemma_touched_none(before, self.symbols@, Touch { sub_sym: true, ..touch_none() });
            }
            return Err(Error::new(fault, tok.span));
        }
        proof {
            if wrong_kind(before, tok.name@, SymbolKind::Terminal) {
                let w = choose|w: int| #[trigger]
                    kind_clash(before, w, tok.name@, SymbolKind::Terminal);
                if c < before.len() {
                    lemma_names_unique(before, old(self).rules@, w, c as int);
                }
            }
        }
        let ghost mid = self.symbols@;
        assert(c != mt);
        assert(mid[mt as int] == before[mt as int]);
        self.push_sub_sym(mt, c);
        proof {
            assert forall|j: int| 0 <= j < before.len() implies symbol_but(
                before[j],
                #[trigger] self.symbols@[j],
                Touch { sub_sym: true, ..touch_none() },
            ) && (j != mt ==> symbol_but(before[j], self.symbols@[j], touch_none())) by {
                assert(symbol_but(before[j], mid[j], touch_none()));
            }
            lemma_kept_at(mid, self.symbols@, c as int);
            assert(self.symbols@[mt as int].sub_sym@.drop_last() == before[mt as int].sub_sym@);
            lemma_kept_trans(before, mid, self.symbols@);
            lemma_kept_len(mid, self.symbols@);
            assert forall|x: int| before.len() <= x < self.symbols@.len() implies by_case(
                #[trigger] self.symbols@[x],
            ) by {
                lemma_kept_at(mid, self.symbols@, x);
            }
        }
        Ok(())
    }

    /// Loads one slot of a right-hand side: a single name refers to a
    /// terminal or nonterminal by its case, several names make a new
    /// multi-terminal of the terminals they name.
    fn load_rhs_slot(&mut self, slot: &RhsSlot, lhs_span: usize) -> (r: Result<RhsItem, Error>)
        requires
            old(self).wf(),
        ensures
            final(self).wf(),
            symbols_step(*old(self), *final(self)),
            final(self).has_fallback == old(self).has_fallback,
            r matches Ok(item) ==> item.sym < final(self).symbols@.len() && item.alias
                == slot.alias,
            slot.toks@.len() == 1 ==> match r {
                Ok(item) => (is_upper_name(slot.toks@[0].name@) || is_lower_name(
                    slot.toks@[0].name@,
                )) && final(self).symbols@[item.sym as int].name@ == slot.toks@[0].name@
                    && item.span == slot.toks@[0].span,
                Err(e) => !is_upper_name(slot.toks@[0].name@) && !is_lower_name(
                    slot.toks@[0].name@,
                ) && e == (Error { fault: Fault::RhsInvalidToken, span: slot.toks@[0].span }),
            },
            slot.toks@.len() != 1 ==> (r matches Ok(item) ==> final(self).symbols@[item.sym as int].kind is MultiTerminal && final(self).symbols@[item.sym as int].sub_sym@.len() == slot.toks@.len() && item.sym >= old(self).symbols@.len()),
            added_by_case(old(self).symbols@, final(self).symbols@),
            subs_kept(old(self).symbols@, final(self).symbols@),
            *final(self) == (Lemon { symbols: final(self).symbols, ..*old(self) }),
            touched_only(old(self).symbols@, final(self).symbols@, touch_none()),
            r matches Err(e) ==> slot_fails(old(self).symbols@, *slot, lhs_span, e),
            r matches Ok(item) ==> slot_ok(old(self).symbols@, *slot) && slot_loaded(
                old(self).symbols@,
                final(self).symbols@,
                *slot,
                item,
            ),
    {
        if slot.toks.len() == 1 {
            let tok = &slot.toks[0];
            let kind = if is_uppercase(tok) {
                SymbolKind::Terminal
            } else if is_lowercase(tok) {
                SymbolKind::NonTerminal
            } else {
                proof {
                    lemma_kept_refl(self.symbols@);
                }
                return Err(Error::new(Fault::RhsInvalidToken, tok.span));
            };
            let sym = self.symbol_new_t(tok, kind);
            Ok(RhsItem { sym, span: tok.span, alias: slot.alias })
        } else {
            if slot.toks.len() == 0 {
                proof {
                    lemma_kept_refl(self.symbols@);
                }
                return Err(Error::new(Fault::RhsInvalidToken, lhs_span));
            }
            let anon = Ident { name: String::new(), span: slot.toks[0].span };
            let mt = self.symbol_new_t(&anon, SymbolKind::MultiTerminal);
            proof {
                assert(!is_upper_name(anon.name@) && !is_lower_name(anon.name@));
            }
            let n = slot.toks.len();
            let mut k: usize = 0;
            while k < n
                invariant
                    k <= n,
                    n == slot.toks@.len(),
                    n != 1,
                    self.wf(),
                    symbols_step(*old(self), *self),
                    self.has_fallback == old(self).has_fallback,
                    mt < self.symbols@.len(),
                    mt >= old(self).symbols@.len(),
                    self.symbols@[mt as int].kind is MultiTerminal,
                    self.symbols@[mt as int].sub_sym@.len() == k,
                    added_by_case(old(self).symbols@, self.symbols@),
                    forall|y: int|
                        0 <= y < k ==> !member_bad(old(self).symbols@, #[trigger] slot.toks@[y]),
                    subs_kept(old(self).symbols@, self.symbols@),
                    compound_of(self.symbols@, mt as int, slot.toks@, k as int),
                    *self == (Lemon { symbols: self.symbols, ..*old(self) }),
                    touched_only(old(self).symbols@, self.symbols@, touch_none()),
                decreases n - k,
            {
                let ghost mid = self.symbols@;
                let res = self.add_member(mt, &slot.toks[k], Fault::CompoundWithNonTerminal);
                proof {
                    if is_upper_name(slot.toks@[k as int].name@) {
                        lemma_clash_same(
                            old(self).symbols@,
                            mid,
                            slot.toks@[k as int].name@,
                            SymbolKind::Terminal,
                        );
                    }
                    lemma_case_trans(old(self).symbols@, mid, self.symbols@);
                    lemma_kept_trans(old(self).symbols@, mid, self.symbols@);
                    lemma_kept_len(mid, self.symbols@);
                    lemma_kept_len(old(self).symbols@, mid);
                    lemma_kept_at(mid, self.symbols@, mt as int);
                    assert forall|j: int| 0 <= j < old(self).symbols@.len() implies symbol_but(
                        old(self).symbols@[j],
                        #[trigger] self.symbols@[j],
                        touch_none(),
                    ) by {
                        assert(symbol_but(old(self).symbols@[j], mid[j], touch_none()));
                        assert(symbol_but(mid[j], self.symbols@[j], touch_none()));
                    }
                    if res is Ok {
                        let cur = self.symbols@;
                        let subs = cur[mt as int].sub_sym@;
                        let was = mid[mt as int].sub_sym@;
                        assert(subs.drop_last() == was);
                        assert forall|j: int| 0 <= j < k + 1 implies (#[trigger] subs[j]) < cur.len()
                            && cur[subs[j] as int].name@ == slot.toks@[j].name@
                            && cur[subs[j] as int].kind is Terminal by {
                            if j < k {
                                assert(subs[j] == subs.drop_last()[j]);
                                assert(was[j] < mid.len());
                                lemma_kept_at(mid, cur, was[j] as int);
                            }
                        }
                    }
                }
                match res {
                    Err(e) => {
                        proof {
                            assert(first_bad_member(old(self).symbols@, slot.toks@, k as int));
                        }
                        return Err(e);
                    },
                    Ok(()) => {},
                }
                k += 1;
            }
            Ok(RhsItem { sym: mt, span: slot.toks[0].span, alias: slot.alias })
        }
    }

    /// Loads a rule: its left-hand side, its slots in order, and the terminal
    /// named for its precedence.
    fn load_rule(
        &mut self,
        lhs: &Ident,
        rhs: &Vec<RhsSlot>,
        action: Option<usize>,
        prec: &Option<Ident>,
    ) -> (r: Result<(), Error>)
        requires
            old(self).wf(),
        ensures
            final(self).wf(),
            loading_step(*old(self), *final(self)),
            final(self).start == old(self).start,
            final(self).wildcard == old(self).wildcard,
            r is Ok ==> {
                &&& is_lower_name(lhs.name@)
                &&& final(self).rules@.len() == old(self).rules@.len() + 1
                &&& final(self).rules@.last().rhs@.len() == rhs@.len()
                &&& final(self).rules@.last().code == action
                &&& final(self).rules@.last().span == lhs.span
                &&& final(self).symbols@[final(self).rules@.last().lhs as int].name@ == lhs.name@
                &&& final(self).rules@.last().prec_sym is Some == prec is Some
                &&& !final(self).rules@.last().can_reduce
                &&& !final(self).rules@.last().lhs_start
            },
            r is Err ==> final(self).rules@.len() == old(self).rules@.len(),
            !is_lower_name(lhs.name@) ==> r == Err::<(), Error>(
                Error { fault: Fault::LhsNotNonTerminal, span: lhs.span },
            ),
            r is Ok <==> rule_loads(old(self).symbols@, *lhs, rhs@, *prec),
            r matches Err(e) ==> rule_fails(old(self).symbols@, *lhs, rhs@, *prec, e),
            rule_frame(*old(self), *lhs, r is Ok, *final(self)),
            r is Ok ==> forall|x: int|
                0 <= x < rhs@.len() ==> slot_loaded(
                    old(self).symbols@,
                    final(self).symbols@,
                    #[trigger] rhs@[x],
                    final(self).rules@.last().rhs@[x],
                ),
            r is Ok ==> match *prec {
                Some(id) => final(self).rules@.last().prec_sym matches Some(p) && p
                    < final(self).symbols@.len() && final(self).symbols@[p as int].name@ == id.name@,
                None => final(self).rules@.last().prec_sym is None,
            },
    {
        if !is_lowercase(lhs) {
            proof {
                lemma_kept_refl(self.symbols@);
            }
            return Err(Error::new(Fault::LhsNotNonTerminal, lhs.span));
        }
        let ghost orig = self.symbols@;
        let lhs_id = self.symbol_new_t(lhs, SymbolKind::NonTerminal);
        if self.symbols[lhs_id].kind != SymbolKind::NonTerminal {
            proof {
                assert(kind_clash(orig, lhs_id as int, lhs.name@, SymbolKind::NonTerminal));
                lemma_touched_none(orig, self.symbols@, Touch { rules: true, ..touch_none() });
            }
            return Err(Error::new(Fault::LhsNotNonTerminal, lhs.span));
        }
        proof {
            if wrong_kind(orig, lhs.name@, SymbolKind::NonTerminal) {
                let w = choose|w: int| #[trigger]
                    kind_clash(orig, w, lhs.name@, SymbolKind::NonTerminal);
                if lhs_id < orig.len() {
                    lemma_names_unique(orig, old(self).rules@, w, lhs_id as int);
                }
            }
            assert(added_by_case(orig, self.symbols@));
        }
        let mut items: Vec<RhsItem> = Vec::new();
        let n = rhs.len();
        let mut k: usize = 0;
        while k < n
            invariant
                k <= n,
                n == rhs@.len(),
                self.wf(),
                symbols_step(*old(self), *self),
                lhs_id < self.symbols@.len(),
                self.symbols@[lhs_id as int].kind is NonTerminal,
                self.symbols@[lhs_id as int].name@ == lhs.name@,
                items@.len() == k,
                is_lower_name(lhs.name@),
                forall|x: int| 0 <= x < k ==> (#[trigger] items@[x]).sym < self.symbols@.len(),
                orig == old(self).symbols@,
                !lhs_bad(orig, *lhs),
                added_by_case(orig, self.symbols@),
                *self == (Lemon { symbols: self.symbols, ..*old(self) }),
                touched_only(orig, self.symbols@, touch_none()),
                forall|x: int| 0 <= x < k ==> slot_ok(orig, #[trigger] rhs@[x]),
                forall|x: int|
                    0 <= x < k ==> slot_loaded(orig, self.symbols@, #[trigger] rhs@[x], items@[x]),
            decreases n - k,
        {
            let ghost mid = self.symbols@;
            let ghost had = items@;
            let res = self.load_rhs_slot(&rhs[k], lhs.span);
            proof {
                lemma_slot_same(orig, mid, rhs@[k as int], lhs.span);
                lemma_case_trans(orig, mid, self.symbols@);
                lemma_touched_trans(orig, mid, self.symbols@, touch_none());
                assert forall|x: int| 0 <= x < k && rhs@[x].toks@.len() != 1 implies compound_of(
                    self.symbols@,
                    (#[trigger] had[x]).sym as int,
                    rhs@[x].toks@,
                    rhs@[x].toks@.len() as int,
                ) by {
                    assert(slot_loaded(orig, mid, rhs@[x], had[x]));
                    lemma_compound_kept(
                        mid,
                        self.symbols@,
                        had[x].sym as int,
                        rhs@[x].toks@,
                        rhs@[x].toks@.len() as int,
                    );
                }
                lemma_kept_trans(old(self).symbols@, mid, self.symbols@);
                lemma_kept_len(mid, self.symbols@);
                lemma_kept_len(orig, mid);
                lemma_kept_at(mid, self.symbols@, lhs_id as int);
                assert forall|x: int| 0 <= x < k implies slot_loaded(
                    orig,
                    self.symbols@,
                    #[trigger] rhs@[x],
                    had[x],
                ) by {
                    assert(slot_loaded(orig, mid, rhs@[x], had[x]));
                    lemma_kept_at(mid, self.symbols@, had[x].sym as int);
                }
            }
            match res {
                Err(e) => {
                    proof {
                        assert(slot_fails(orig, rhs@[k as int], lhs.span, e));
                        assert(!slot_ok(orig, rhs@[k as int]));
                        assert(first_bad_slot(orig, rhs@, lhs.span, e, k as int));
                        lemma_touched_none(orig, self.symbols@, Touch { rules: true, ..touch_none() });
                    }
                    return Err(e);
                },
                Ok(item) => {
                    items.push(item);
                },
            }
            k += 1;
        }
        let ghost mid = self.symbols@;
        let ghost loaded = items@;
        let prec_sym = match prec {
            Some(id) => {
                if !is_uppercase(id) {
                    proof {
                        lemma_touched_none(orig, self.symbols@, Touch { rules: true, ..touch_none() });
                    }
                    return Err(Error::new(Fault::PrecedenceSymbolNotTerminal, id.span));
                }
                Some(self.symbol_new_t(id, SymbolKind::Terminal))
            },
            None => {
                proof {
                    lemma_kept_refl(self.symbols@);
                }
                None
            },
        };
        proof {
            lemma_kept_trans(old(self).symbols@, mid, self.symbols@);
            lemma_kept_len(mid, self.symbols@);
            lemma_kept_at(mid, self.symbols@, lhs_id as int);
        }
        let index = self.rules.len();
        let rule = Rule {
            span: lhs.span,
            lhs: lhs_id,
            lhs_span: lhs.span,
            lhs_start: false,
            rhs: items,
            code: action,
            prec_sym,
            index,
            can_reduce: false,
        };
        let ghost syms_before = self.symbols@;
        let ghost rules_before = self.rules@;
        self.symbols[lhs_id].rules.push(index);
        self.rules.push(rule);
        proof {
            lemma_touched_trans(orig, mid, syms_before, touch_none());
            assert forall|j: int| 0 <= j < orig.len() implies symbol_but(
                orig[j],
                #[trigger] self.symbols@[j],
                Touch { rules: true, ..touch_none() },
            ) && (self.symbols@[j].rules@ == orig[j].rules@ || (self.symbols@[j].name@ == lhs.name@
                && self.symbols@[j].rules@ == orig[j].rules@.push(index))) by {
                assert(symbol_but(orig[j], syms_before[j], touch_none()));
            }
            lemma_add_rule_keeps_wf(syms_before, self.symbols@, rules_before, self.rules@);
            lemma_kept_trans(old(self).symbols@, syms_before, self.symbols@);
            lemma_kept_len(mid, syms_before);
            lemma_kept_refl(syms_before);
            assert(subs_kept(mid, syms_before));
            assert(subs_kept(syms_before, self.symbols@));
            assert forall|x: int| 0 <= x < rhs@.len() implies slot_loaded(
                orig,
                self.symbols@,
                #[trigger] rhs@[x],
                self.rules@.last().rhs@[x],
            ) by {
                assert(slot_loaded(orig, mid, rhs@[x], loaded[x]));
                lemma_kept_at(mid, syms_before, loaded[x].sym as int);
                if rhs@[x].toks@.len() != 1 {
                    let n = rhs@[x].toks@.len() as int;
                    lemma_compound_kept(mid, syms_before, loaded[x].sym as int, rhs@[x].toks@, n);
                    lemma_compound_same(syms_before, self.symbols@, loaded[x].sym as int, rhs@[x].toks@, n);
                }
            }
        }
        Ok(())
    }

    /// Gives a symbol its type.
    fn load_type(&mut self, id: &Ident, ty: TypeRef) -> (r: Result<(), Error>)
        requires
            old(self).wf(),
        ensures
            final(self).wf(),
            symbols_step(*old(self), *final(self)),
            final(self).has_fallback == old(self).has_fallback,
            type_outcome(*old(self), *id, ty, r, *final(self)),
            symbols_frame(*old(self), *final(self), Touch { data_type: true, ..touch_none() }),
    {
        let kind = if is_uppercase(id) {
            SymbolKind::Terminal
        } else if is_lowercase(id) {
            SymbolKind::NonTerminal
        } else {
            proof {
                lemma_kept_refl(self.symbols@);
            }
            return Err(Error::new(Fault::SymbolNotAscii, id.span));
        };
        let ghost before = self.symbols@;
        let sp = self.symbol_new_t(id, kind);
        let ghost mid = self.symbols@;
        proof {
            lemma_touched_none(before, mid, Touch { data_type: true, ..touch_none() });
        }
        if self.symbols[sp].data_type.is_some() {
            proof {
                lemma_is_typed(before, id.name@, sp as int);
            }
            return Err(Error::new(Fault::TypeAlreadyDefined, id.span));
        }
        proof {
            lemma_not_typed(before, self.rules@, id.name@, sp as int);
        }
        self.set_data_type(sp, ty);
        proof {
            assert forall|j: int| 0 <= j < before.len() implies symbol_but(
                before[j],
                #[trigger] self.symbols@[j],
                Touch { data_type: true, ..touch_none() },
            ) by {
                assert(symbol_but(before[j], mid[j], touch_none()));
            }
            lemma_kept_trans(before, mid, self.symbols@);
            lemma_kept_at(mid, self.symbols@, sp as int);
            lemma_typed_at(before, mid, self.symbols@, id.name@, ty, sp as int);
        }
        Ok(())
    }

    /// Opens a new precedence level and gives it, with the associativity, to
    /// each of the terminals named.
    fn load_assoc(&mut self, a: Associativity, ids: &Vec<Ident>) -> (r: Result<(), Error>)
        requires
            old(self).wf(),
        ensures
            final(self).wf(),
            assoc_outcome(*old(self), a, ids@, r, *final(self)),
            assoc_frame(*old(self), *final(self)),
    {
        if self.precedence < i32::MAX {
            self.precedence += 1;
        }
        let level = self.precedence;
        let ghost orig = old(self).symbols@;
        let ghost p = Precedence(level, a);
        proof {
            lemma_kept_refl(self.symbols@);
        }
        let n = ids.len();
        let mut k: usize = 0;
        while k < n
            invariant
                k <= n,
                n == ids@.len(),
                self.wf(),
                level_step(*old(self), *self),
                self.has_fallback == old(self).has_fallback,
                level == self.precedence,
                level == next_level(old(self).precedence),
                forall|x: int| 0 <= x < k ==> is_upper_name((#[trigger] ids@[x]).name@),
                forall|x: int|
                    0 <= x < k ==> #[trigger] has_precedence(self.symbols@, ids@[x].name@, Precedence(level, a)),
                orig == old(self).symbols@,
                p == Precedence(level, a),
                *self == (Lemon {
                    symbols: self.symbols,
                    precedence: self.precedence,
                    ..*old(self)
                }),
                touched_only(orig, self.symbols@, Touch { assoc: true, ..touch_none() }),
                forall|x: int| 0 <= x < k ==> !#[trigger] assoc_bad(orig, ids@, x),
                forall|w: int|
                    0 <= w < self.symbols@.len() ==> #[trigger] assoc_kept(
                        orig,
                        self.symbols@,
                        ids@,
                        k as int,
                        p,
                        w,
                    ),
            decreases n - k,
        {
            let token = &ids[k];
            if !is_uppercase(token) {
                assert(ids@[k as int].span == token.span);
                proof {
                    assert(first_assoc_bad(orig, ids@, k as int));
                    lemma_assoc_widen(orig, self.symbols@, ids@, k as int, n as int, p);
                }
                return Err(Error::new(Fault::PrecedenceOnNonTerminal, token.span));
            }
            let ghost mid = self.symbols@;
            let sp = self.symbol_new_t(token, SymbolKind::Terminal);
            proof {
                lemma_touched_none(mid, self.symbols@, Touch { assoc: true, ..touch_none() });
                lemma_touched_trans(orig, mid, self.symbols@, Touch { assoc: true, ..touch_none() });
                lemma_kept_len(orig, mid);
                lemma_kept_trans(orig, mid, self.symbols@);
                assert forall|w: int| 0 <= w < self.symbols@.len() implies #[trigger] assoc_kept(
                    orig,
                    self.symbols@,
                    ids@,
                    k + 1,
                    p,
                    w,
                ) by {
                    if w < mid.len() {
                        assert(assoc_kept(orig, mid, ids@, k as int, p, w));
                        lemma_kept_at(mid, self.symbols@, w);
                        if named_among(ids@, k as int, mid[w].name@) {
                            let y = choose|y: int| y < k && #[trigger] names_it(ids@, y, mid[w].name@);
                            assert(names_it(ids@, y, self.symbols@[w].name@));
                        }
                    } else {
                        assert(names_it(ids@, k as int, self.symbols@[w].name@));
                    }
                }
            }
            if self.symbols[sp].assoc.is_some() {
                proof {
                    assert(ids@[k as int].span == token.span);
                    let name = ids@[k as int].name@;
                    assert(assoc_kept(orig, self.symbols@, ids@, k + 1, p, sp as int));
                    if sp >= mid.len() {
                    } else {
                        assert(assoc_kept(orig, mid, ids@, k as int, p, sp as int));
                        lemma_kept_at(orig, mid, sp as int);
                        if sp < orig.len() && mid[sp as int].assoc == orig[sp as int].assoc {
                            assert(given_at(orig, sp as int, name));
                        }
                    }
                    assert(assoc_bad(orig, ids@, k as int));
                    assert(first_assoc_bad(orig, ids@, k as int));
                    lemma_assoc_widen(orig, self.symbols@, ids@, k + 1, n as int, p);
                }
                return Err(Error::new(Fault::PrecedenceAlreadyGiven, token.span));
            }
            proof {
                // the symbol had no precedence, so the name is not a bad one
                let name = ids@[k as int].name@;
                let cur = self.symbols@;
                if precedence_given(orig, name) {
                    let w = choose|w: int| #[trigger] given_at(orig, w, name);
                    lemma_kept_at(orig, cur, w);
                    lemma_names_unique(cur, self.rules@, w, sp as int);
                    assert(assoc_kept(orig, cur, ids@, k + 1, p, w));
                }
                if named_among(ids@, k as int, name) {
                    let y = choose|y: int| y < k && #[trigger] names_it(ids@, y, name);
                    assert(has_precedence(mid, ids@[y].name@, p));
                    reveal(has_precedence);
                    let w = choose|w: int|
                        0 <= w < mid.len() && (#[trigger] mid[w]).name@ == name && mid[w].assoc
                            == Some(p);
                    lemma_kept_at(mid, cur, w);
                    lemma_names_unique(cur, self.rules@, w, sp as int);
                }
                assert(!assoc_bad(orig, ids@, k as int));
            }
            let ghost mid2 = self.symbols@;
            self.set_assoc(sp, Precedence(level, a));
            proof {
                assert forall|j: int| 0 <= j < orig.len() implies symbol_but(
                    orig[j],
                    #[trigger] self.symbols@[j],
                    Touch { assoc: true, ..touch_none() },
                ) by {
                    assert(symbol_but(orig[j], mid2[j], Touch { assoc: true, ..touch_none() }));
                }
                assert forall|w: int| 0 <= w < self.symbols@.len() implies #[trigger] assoc_kept(
                    orig,
                    self.symbols@,
                    ids@,
                    k + 1,
                    p,
                    w,
                ) by {
                    assert(assoc_kept(orig, mid2, ids@, k + 1, p, w));
                    if w == sp {
                        assert(names_it(ids@, k as int, mid2[w].name@));
                        lemma_kept_at(mid2, self.symbols@, w);
                        assert(names_it(ids@, k as int, self.symbols@[w].name@));
                    }
                }
                lemma_kept_trans(old(self).symbols@, mid, mid2);
                lemma_kept_trans(old(self).symbols@, mid2, self.symbols@);
                assert forall|x: int| 0 <= x < k + 1 implies #[trigger] has_precedence(
                    self.symbols@,
                    ids@[x].name@,
                    Precedence(level, a),
                ) by {
                    if x < k {
                        lemma_precedence_kept(mid, mid2, ids@[x].name@, Precedence(level, a));
                        lemma_precedence_kept(
                            mid2,
                            self.symbols@,
                            ids@[x].name@,
                            Precedence(level, a),
                        );
                    } else {
                        lemma_kept_at(mid2, self.symbols@, sp as int);
                        lemma_precedence_new(
                            self.symbols@,
                            ids@[x].name@,
                            Precedence(level, a),
                            sp as int,
                        );
                    }
                }
            }
            k += 1;
        }
        Ok(())
    }

    /// Names the terminal to fall back to for each of the terminals listed.
    fn load_fallback(&mut self, fb: &Ident, ids: &Vec<Ident>) -> (r: Result<(), Error>)
        requires
            old(self).wf(),
        ensures
            final(self).wf(),
            fallback_outcome(*old(self), *fb, ids@, r, *final(self)),
            fallback_frame(*old(self), *final(self)),
    {
        if !is_uppercase(fb) {
            proof {
                lemma_kept_refl(self.symbols@);
            }
            return Err(Error::new(Fault::FallbackNotToken, fb.span));
        }
        let fallback = self.symbol_new_t(fb, SymbolKind::Terminal);
        let ghost first = old(self).symbols@;
        let ghost to = fb.name@;
        proof {
            lemma_kept_len(first, self.symbols@);
            lemma_touched_none(first, self.symbols@, Touch { fallback: true, ..touch_none() });
        }
        let n = ids.len();
        let mut k: usize = 0;
        while k < n
            invariant
                k <= n,
                n == ids@.len(),
                self.wf(),
                symbols_step(*old(self), *self),
                first == old(self).symbols@,
                is_upper_name(fb.name@),
                fallback < self.symbols@.len(),
                self.symbols@[fallback as int].name@ == fb.name@,
                forall|x: int|
                    0 <= x < k ==> #[trigger] falls_back(self.symbols@, ids@[x].name@, fb.name@),
                to == fb.name@,
                first.len() <= self.symbols@.len(),
                *self == (Lemon {
                    symbols: self.symbols,
                    has_fallback: self.has_fallback,
                    ..*old(self)
                }),
                touched_only(first, self.symbols@, Touch { fallback: true, ..touch_none() }),
                forall|x: int| 0 <= x < k ==> !#[trigger] fallback_bad(first, ids@, x),
                forall|w: int|
                    0 <= w < self.symbols@.len() ==> #[trigger] fallback_kept(
                        first,
                        self.symbols@,
                        ids@,
                        k as int,
                        to,
                        w,
                    ),
                old(self).has_fallback ==> self.has_fallback,
                self.has_fallback ==> old(self).has_fallback || k > 0,
                k > 0 ==> self.has_fallback,
            decreases n - k,
        {
            let id = &ids[k];
            if !is_uppercase(id) {
                proof {
                    assert(first_fallback_bad(first, ids@, k as int));
                    lemma_fallback_widen(first, self.symbols@, ids@, k as int, n as int, to);
                }
                return Err(Error::new(Fault::FallbackNotToken, id.span));
            }
            let ghost mid = self.symbols@;
            let sp = self.symbol_new_t(id, SymbolKind::Terminal);
            proof {
                lemma_touched_none(mid, self.symbols@, Touch { fallback: true, ..touch_none() });
                lemma_touched_trans(first, mid, self.symbols@, Touch { fallback: true, ..touch_none() });
                lemma_kept_len(mid, self.symbols@);
                lemma_kept_at(mid, self.symbols@, fallback as int);
                assert forall|w: int| 0 <= w < self.symbols@.len() implies #[trigger] fallback_kept(
                    first,
                    self.symbols@,
                    ids@,
                    k + 1,
                    to,
                    w,
                ) by {
                    if w < mid.len() {
                        assert(fallback_kept(first, mid, ids@, k as int, to, w));
                        lemma_kept_at(mid, self.symbols@, w);
                        if mid[w].fallback is Some {
                            let f = mid[w].fallback->0;
                            lemma_symbol_ok(mid, self.rules@, w);
                            lemma_kept_at(mid, self.symbols@, f as int);
                        }
                        if named_among(ids@, k as int, mid[w].name@) {
                            let y = choose|y: int| y < k && #[trigger] names_it(ids@, y, mid[w].name@);
                            assert(names_it(ids@, y, self.symbols@[w].name@));
                        }
                    }
                }
            }
            if self.symbols[sp].fallback.is_some() {
                proof {
                    lemma_kept_trans(first, mid, self.symbols@);
                    let name = ids@[k as int].name@;
                    assert(fallback_kept(first, mid, ids@, k as int, to, sp as int));
                    lemma_kept_at(first, mid, sp as int);
                    if sp < first.len() && mid[sp as int].fallback == first[sp as int].fallback {
                        assert(fallback_at(first, sp as int, name));
                    }
                    assert(fallback_bad(first, ids@, k as int));
                    assert(first_fallback_bad(first, ids@, k as int));
                    lemma_fallback_widen(first, self.symbols@, ids@, k + 1, n as int, to);
                }
                return Err(Error::new(Fault::FallbackAlreadyAssigned, id.span));
            }
            proof {
                let name = ids@[k as int].name@;
                let cur = self.symbols@;
                lemma_kept_trans(first, mid, cur);
                if fallback_given(first, name) {
                    let w = choose|w: int| #[trigger] fallback_at(first, w, name);
                    lemma_kept_at(first, cur, w);
                    lemma_names_unique(cur, self.rules@, w, sp as int);
                    assert(fallback_kept(first, cur, ids@, k + 1, to, w));
                }
                if named_among(ids@, k as int, name) {
                    let y = choose|y: int| y < k && #[trigger] names_it(ids@, y, name);
                    assert(falls_back(mid, ids@[y].name@, fb.name@));
                    reveal(falls_back);
                    let (w, f) = choose|w: int, f: int|
                        0 <= w < mid.len() && 0 <= f < mid.len() && (#[trigger] mid[w]).name@ == name
                            && (#[trigger] mid[f]).name@ == fb.name@ && mid[w].fallback == Some(
                            f as usize,
                        );
                    lemma_kept_at(mid, cur, w);
                    lemma_names_unique(cur, self.rules@, w, sp as int);
                }
                assert(!fallback_bad(first, ids@, k as int));
            }
            let ghost mid2 = self.symbols@;
            self.set_fallback(sp, fallback);
            proof {
                assert forall|j: int| 0 <= j < first.len() implies symbol_but(
                    first[j],
                    #[trigger] self.symbols@[j],
                    Touch { fallback: true, ..touch_none() },
                ) by {
                    assert(symbol_but(first[j], mid2[j], Touch { fallback: true, ..touch_none() }));
                }
                lemma_kept_len(mid2, self.symbols@);
                assert forall|w: int| 0 <= w < self.symbols@.len() implies #[trigger] fallback_kept(
                    first,
                    self.symbols@,
                    ids@,
                    k + 1,
                    to,
                    w,
                ) by {
                    assert(fallback_kept(first, mid2, ids@, k + 1, to, w));
                    lemma_kept_at(mid2, self.symbols@, w);
                    lemma_kept_at(mid2, self.symbols@, fallback as int);
                    if w == sp {
                        assert(names_it(ids@, k as int, self.symbols@[w].name@));
                    } else if mid2[w].fallback is Some {
                        let f = mid2[w].fallback->0;
                        lemma_symbol_ok(mid2, self.rules@, w);
                        lemma_kept_at(mid2, self.symbols@, f as int);
                    }
                }
                lemma_kept_trans(first, mid, mid2);
                lemma_kept_trans(first, mid2, self.symbols@);
                lemma_kept_at(mid2, self.symbols@, fallback as int);
                assert(self.symbols@[fallback as int].name@ == fb.name@);
                assert forall|x: int| 0 <= x < k + 1 implies #[trigger] falls_back(
                    self.symbols@,
                    ids@[x].name@,
                    fb.name@,
                ) by {
                    if x < k {
                        lemma_fallback_kept(mid, mid2, ids@[x].name@, fb.name@);
                        lemma_fallback_kept(mid2, self.symbols@, ids@[x].name@, fb.name@);
                    } else {
                        lemma_kept_at(mid2, self.symbols@, sp as int);
                        lemma_fallback_new(
                            self.symbols@,
                            ids@[x].name@,
                            fb.name@,
                            sp as int,
                            fallback as int,
                        );
                    }
                }
            }
            k += 1;
        }
        Ok(())
    }

    /// Declares a named multi-terminal, or adds alternatives to it.
    fn load_token_class(&mut self, tk: &Ident, ids: &Vec<Ident>) -> (r: Result<(), Error>)
        requires
            old(self).wf(),
        ensures
            final(self).wf(),
            class_outcome(*old(self), *tk, ids@, r, *final(self)),
            class_frame(*old(self), *tk, *final(self)),
    {
        if !is_uppercase(tk) && !is_lowercase(tk) {
            proof {
                lemma_kept_refl(self.symbols@);
            }
            return Err(Error::new(Fault::SymbolNotAscii, tk.span));
        }
        let ghost orig = self.symbols@;
        let mt = self.symbol_new_t(tk, SymbolKind::MultiTerminal);
        if self.symbols[mt].kind != SymbolKind::MultiTerminal {
            proof {
                assert(kind_clash(orig, mt as int, tk.name@, SymbolKind::MultiTerminal));
                lemma_touched_none(orig, self.symbols@, Touch { sub_sym: true, ..touch_none() });
            }
            return Err(Error::new(Fault::TokenClassNotClass, tk.span));
        }
        let ghost class = tk.name@;
        let ghost had: Seq<usize> = if mt < orig.len() {
            orig[mt as int].sub_sym@
        } else {
            Seq::empty()
        };
        proof {
            if wrong_kind(orig, tk.name@, SymbolKind::MultiTerminal) {
                let w = choose|w: int| #[trigger]
                    kind_clash(orig, w, tk.name@, SymbolKind::MultiTerminal);
                if mt < orig.len() {
                    lemma_names_unique(orig, old(self).rules@, w, mt as int);
                }
            }
            assert(self.symbols@[mt as int].sub_sym@ =~= had);
        }
        let n = ids.len();
        let mut k: usize = 0;
        while k < n
            invariant
                k <= n,
                n == ids@.len(),
                self.wf(),
                symbols_step(*old(self), *self),
                self.has_fallback == old(self).has_fallback,
                mt < self.symbols@.len(),
                self.symbols@[mt as int].kind is MultiTerminal,
                self.symbols@[mt as int].name@ == tk.name@,
                self.symbols@[mt as int].sub_sym@.len() >= k,
                is_upper_name(tk.name@) || is_lower_name(tk.name@),
                orig == old(self).symbols@,
                class == tk.name@,
                *self == (Lemon { symbols: self.symbols, ..*old(self) }),
                forall|x: int|
                    0 <= x < orig.len() ==> symbol_but(
                        orig[x],
                        #[trigger] self.symbols@[x],
                        Touch { sub_sym: true, ..touch_none() },
                    ) && (x != mt ==> self.symbols@[x].sub_sym == orig[x].sub_sym),
                had == if mt < orig.len() {
                    orig[mt as int].sub_sym@
                } else {
                    Seq::empty()
                },
                !wrong_kind(orig, class, SymbolKind::MultiTerminal),
                forall|s: int|
                    orig.len() <= s < self.symbols@.len() && s != mt ==> by_case(
                        #[trigger] self.symbols@[s],
                    ),
                forall|x: int| 0 <= x < k ==> !class_member_bad(orig, class, #[trigger] ids@[x]),
                class_grown(orig, self.symbols@, class, ids@, k as int, mt as int),
            decreases n - k,
        {
            let ghost mid = self.symbols@;
            let res = self.add_member(mt, &ids[k], Fault::TokenClassMemberNotToken);
            proof {
                let cur = self.symbols@;
                if is_upper_name(ids@[k as int].name@) {
                    lemma_clash_class(orig, mid, mt as int, class, ids@[k as int].name@);
                }
                lemma_kept_trans(old(self).symbols@, mid, self.symbols@);
                lemma_kept_len(mid, self.symbols@);
                lemma_kept_at(mid, self.symbols@, mt as int);
                lemma_kept_len(orig, mid);
                assert forall|x: int| 0 <= x < orig.len() implies symbol_but(
                    orig[x],
                    #[trigger] cur[x],
                    Touch { sub_sym: true, ..touch_none() },
                ) && (x != mt ==> cur[x].sub_sym == orig[x].sub_sym) by {
                    assert(symbol_but(orig[x], mid[x], Touch { sub_sym: true, ..touch_none() }));
                    assert(symbol_but(mid[x], cur[x], Touch { sub_sym: true, ..touch_none() }));
                    if x != mt {
                        assert(symbol_but(mid[x], cur[x], touch_none()));
                    }
                }
                assert forall|s: int| orig.len() <= s < cur.len() && s != mt implies by_case(
                    #[trigger] cur[s],
                ) by {
                    lemma_kept_len(orig, mid);
                    if s < mid.len() {
                        lemma_kept_at(mid, cur, s);
                    }
                }
                if res is Ok {
                    let subs = cur[mt as int].sub_sym@;
                    let was = mid[mt as int].sub_sym@;
                    assert(subs.drop_last() == was);
                    assert forall|j: int| 0 <= j < had.len() implies #[trigger] subs[j] == had[j] by {
                        assert(subs[j] == subs.drop_last()[j]);
                    }
                    assert forall|j: int| had.len() <= j < had.len() + k + 1 implies (#[trigger] subs[j])
                        < cur.len() && cur[subs[j] as int].name@ == ids@[j - had.len()].name@
                        && cur[subs[j] as int].kind is Terminal by {
                        if j < had.len() + k {
                            assert(subs[j] == subs.drop_last()[j]);
                            assert(was[j] < mid.len());
                            lemma_kept_at(mid, cur, was[j] as int);
                        }
                    }
                    assert(class_grown(orig, cur, class, ids@, k + 1, mt as int));
                }
            }
            match res {
                Err(e) => {
                    proof {
                        assert(first_class_bad(orig, class, ids@, k as int));
                    }
                    return Err(e);
                },
                Ok(()) => {},
            }
            k += 1;
        }
        proof {
            lemma_kept_len(orig, self.symbols@);
            assert forall|j: int| 0 <= j < orig.len() implies (#[trigger] self.symbols@[j]).sub_sym
                == orig[j].sub_sym || self.symbols@[j].name@ == tk.name@ by {
                assert(symbol_but(orig[j], self.symbols@[j], Touch { sub_sym: true, ..touch_none() }));
            }
        }
        Ok(())
    }

    /// Applies one declaration to the grammar.
    pub fn parse_one_decl(&mut self, decl: &Decl) -> (r: Result<(), Error>)
        requires
            old(self).wf(),
        ensures
            final(self).wf(),
            loading_step(*old(self), *final(self)),
            decl_outcome(*old(self), *decl, r, *final(self)),
    {
        proof {
            lemma_kept_refl(self.symbols@);
        }
        match decl {
            Decl::Module(id) => {
                self.module = copy_ident(id);
                Ok(())
            },
            Decl::Include(code) => {
                extend_from(&mut self.includes, code);
                Ok(())
            },
            Decl::SyntaxError(code) => {
                self.syntax_error = Some(*code);
                Ok(())
            },
            Decl::ParseFail(code) => {
                self.parse_fail = Some(*code);
                Ok(())
            },
            Decl::Type(id, ty) => self.load_type(id, *ty),
            Decl::Assoc(a, ids) => self.load_assoc(*a, ids),
            Decl::DefaultType(ty) => {
                if self.var_type.is_some() {
                    return Err(Error::new(Fault::DefaultTypeAlreadyDefined, ty.span));
                }
                self.var_type = Some(*ty);
                Ok(())
            },
            Decl::ExtraArgument(ty) => {
                if self.arg.is_some() {
                    return Err(Error::new(Fault::ExtraArgumentAlreadyDefined, ty.span));
                }
                self.arg = Some(*ty);
                Ok(())
            },
            Decl::Error(ty) => {
                if self.err_type.is_some() {
                    return Err(Error::new(Fault::ErrorTypeAlreadyDefined, ty.span));
                }
                self.err_type = Some(*ty);
                Ok(())
            },
            Decl::StartSymbol(id) => {
                if self.start.is_some() {
                    return Err(Error::new(Fault::StartAlreadyDefined, id.span));
                }
                if !is_lowercase(id) {
                    return Err(Error::new(Fault::StartNotNonTerminal, id.span));
                }
                let sp = self.symbol_new_t(id, SymbolKind::NonTerminal);
                self.start = Some(sp);
                Ok(())
            },
            Decl::Fallback(fb, ids) => self.load_fallback(fb, ids),
            Decl::Wildcard(id) => {
                if self.wildcard.is_some() {
                    return Err(Error::new(Fault::WildcardAlreadyDefined, id.span));
                }
                if !is_uppercase(id) {
                    return Err(Error::new(Fault::WildcardNotToken, id.span));
                }
                let sp = self.symbol_new_t(id, SymbolKind::Terminal);
                self.wildcard = Some(sp);
                Ok(())
            },
            Decl::TokenClass(tk, ids) => self.load_token_class(tk, ids),
            Decl::Token(e) => {
                if self.token_enum.is_some() {
                    return Err(Error::new(Fault::TokenRedeclared, e.span));
                }
                self.token_enum = Some(*e);
                Ok(())
            },
            Decl::Rule { lhs, rhs, action, prec } => self.load_rule(lhs, rhs, *action, prec),
        }
    }

    /// Loads a grammar from its declarations, in order, and closes it with the
    /// sentinel symbol for default actions. The first declaration that fails
    /// ends the loading with its error.
    pub fn new_from_decls(decls: Vec<Decl>) -> (r: Result<Lemon, Error>)
        ensures
            match r {
                Ok(lem) => {
                    &&& lem.wf()
                    &&& lem.fresh()
                    &&& lem.loaded()
                    &&& unanalyzed(lem.symbols@)
                    &&& lem.rules@.len() == count_rules(decls@, decls@.len() as int)
                    &&& exists|trace: Seq<Lemon>| #[trigger]
                        loads(decls@, trace, decls@.len() as int) && closes(trace.last(), lem)
                },
                Err(e) => exists|trace: Seq<Lemon>, k: int, bad: Lemon| #[trigger]
                    fails_at(decls@, trace, k, e, bad),
            },
    {
        let mut symbols: Vec<Symbol> = Vec::new();
        let end = "$".to_owned();
        let err = "error".to_owned();
        proof {
            reveal_strlit("$");
            reveal_strlit("error");
            reveal_strlit("parser");
        }
        symbol_new(&mut symbols, &end, SymbolKind::Terminal);
        let ghost first = symbols@;
        let err_sym = symbol_new(&mut symbols, &err, SymbolKind::NonTerminal);
        assert(err_sym == 1) by {
            assert(first[0].name@.len() == 1);
        }
        let mut lem = Lemon {
            module: Ident { name: "parser".to_owned(), span: CALL_SITE },
            includes: Vec::new(),
            syntax_error: None,
            parse_fail: None,
            token_enum: None,
            states: Vec::new(),
            configs: Vec::new(),
            state_order: Vec::new(),
            rules: Vec::new(),
            nsymbol: 0,
            nterminal: 0,
            symbols,
            by_index: Vec::new(),
            err_sym,
            wildcard: None,
            arg: None,
            err_type: None,
            nconflict: 0,
            has_fallback: false,
            var_type: None,
            start: None,
            precedence: 0,
        };
        proof {
            lemma_initial_wf(lem.symbols@, lem.rules@);
        }
        let ghost mut trace: Seq<Lemon> = seq![lem];
        let n = decls.len();
        let mut k: usize = 0;
        while k < n
            invariant
                k <= n,
                n == decls@.len(),
                lem.wf(),
                lem.fresh(),
                lem.rules@.len() == count_rules(decls@, k as int),
                loads(decls@, trace, k as int),
                trace.last() == lem,
            decreases n - k,
        {
            let ghost prev = lem;
            let res = lem.parse_one_decl(&decls[k]);
            match res {
                Err(e) => {
                    proof {
                        assert(fails_at(decls@, trace, k as int, e, lem));
                    }
                    return Err(e);
                },
                Ok(()) => {},
            }
            proof {
                let next = trace.push(lem);
                assert(loads(decls@, next, k + 1)) by {
                    assert forall|x: int| 0 <= x < k + 1 implies #[trigger] step_ok(
                        decls@,
                        next,
                        x,
                    ) by {
                        if x < k {
                            assert(step_ok(decls@, trace, x));
                            assert(next[x] == trace[x]);
                            assert(next[x + 1] == trace[x + 1]);
                        } else {
                            assert(next[x] == prev);
                            assert(next[x + 1] == lem);
                        }
                    }
                }
                trace = next;
            }
            k += 1;
        }
        let ghost before = lem;
        let dflt = "{default}".to_owned();
        proof {
            reveal_strlit("{default}");
            lemma_tables_len(lem.symbols@, lem.rules@);
            lemma_loads_kept(decls@, trace, n as int);
            lemma_no_default_yet(trace[0].symbols@, before.symbols@);
            lemma_kept_unanalyzed(trace[0].symbols@, before.symbols@);
        }
        let d = symbol_new(&mut lem.symbols, &dflt, SymbolKind::NonTerminal);
        proof {
            lemma_symbol_new_keeps_wf(
                before.symbols@,
                lem.symbols@,
                lem.rules@,
                dflt@,
                SymbolKind::NonTerminal,
                d as int,
            );
            assert(closes(trace.last(), lem));
        }
        Ok(lem)
    }
}

/// Symbol `w` has the name but is not of the kind.
pub open spec fn kind_clash(symbols: Seq<Symbol>, w: int, name: Seq<char>, kind: SymbolKind) -> bool {
    0 <= w < symbols.len() && symbols[w].name@ == name && symbols[w].kind != kind
}

/// Some symbol has the name but is not of the kind.
pub open spec fn wrong_kind(symbols: Seq<Symbol>, name: Seq<char>, kind: SymbolKind) -> bool {
    exists|w: int| #[trigger] kind_clash(symbols, w, name, kind)
}

/// The symbol is of the kind that the case of its name calls for.
pub open spec fn by_case(sym: Symbol) -> bool {
    &&& is_upper_name(sym.name@) ==> sym.kind is Terminal
    &&& is_lower_name(sym.name@) ==> sym.kind is NonTerminal
}

/// The symbols added from `before` to `after` are of the kinds that the
/// cases of their names call for.
pub open spec fn added_by_case(before: Seq<Symbol>, after: Seq<Symbol>) -> bool {
    forall|s: int| before.len() <= s < after.len() ==> by_case(#[trigger] after[s])
}

/// The name cannot stand in a compound slot: it is not a terminal's, or the
/// symbol of that name is no terminal.
pub open spec fn member_bad(symbols: Seq<Symbol>, tok: Ident) -> bool {
    !is_upper_name(tok.name@) || wrong_kind(symbols, tok.name@, SymbolKind::Terminal)
}

/// The slot cannot be loaded, and `e` is the error for it: a single name
/// that is neither a terminal's nor a nonterminal's; no name at all; or a
/// compound, for the first of its names that cannot stand in one.
pub open spec fn slot_fails(symbols: Seq<Symbol>, slot: RhsSlot, lhs_span: usize, e: Error) -> bool {
    if slot.toks@.len() == 1 {
        !is_upper_name(slot.toks@[0].name@) && !is_lower_name(slot.toks@[0].name@) && e == (Error {
            fault: Fault::RhsInvalidToken,
            span: slot.toks@[0].span,
        })
    } else if slot.toks@.len() == 0 {
        e == (Error { fault: Fault::RhsInvalidToken, span: lhs_span })
    } else {
        exists|x: int| #[trigger] first_bad_member(symbols, slot.toks@, x) && e == (Error {
            fault: Fault::CompoundWithNonTerminal,
            span: slot.toks@[x].span,
        })
    }
}

/// Name `x` is the first of the names that cannot stand in a compound slot.
pub open spec fn first_bad_member(symbols: Seq<Symbol>, toks: Seq<Ident>, x: int) -> bool {
    &&& 0 <= x < toks.len()
    &&& member_bad(symbols, toks[x])
    &&& forall|y: int| 0 <= y < x ==> !member_bad(symbols, #[trigger] toks[y])
}

/// The slot can be loaded.
pub open spec fn slot_ok(symbols: Seq<Symbol>, slot: RhsSlot) -> bool {
    if slot.toks@.len() == 1 {
        is_upper_name(slot.toks@[0].name@) || is_lower_name(slot.toks@[0].name@)
    } else {
        slot.toks@.len() > 1 && forall|y: int|
            0 <= y < slot.toks@.len() ==> !member_bad(symbols, #[trigger] slot.toks@[y])
    }
}

/// The name cannot be a rule's left-hand side: it is not a nonterminal's,
/// or the symbol of that name is no nonterminal.
pub open spec fn lhs_bad(symbols: Seq<Symbol>, lhs: Ident) -> bool {
    !is_lower_name(lhs.name@) || wrong_kind(symbols, lhs.name@, SymbolKind::NonTerminal)
}

/// Slot `k` is the first slot that cannot be loaded, and `e` is the error
/// for it.
pub open spec fn first_bad_slot(
    symbols: Seq<Symbol>,
    rhs: Seq<RhsSlot>,
    lhs_span: usize,
    e: Error,
    k: int,
) -> bool {
    &&& 0 <= k < rhs.len()
    &&& slot_fails(symbols, rhs[k], lhs_span, e)
    &&& forall|j: int| 0 <= j < k ==> slot_ok(symbols, #[trigger] rhs[j])
}

/// The rule can be loaded into a grammar with the given symbols: its
/// left-hand side can be one, each of its slots can be loaded, and the name
/// given for its precedence is a terminal's.
pub open spec fn rule_loads(
    symbols: Seq<Symbol>,
    lhs: Ident,
    rhs: Seq<RhsSlot>,
    prec: Option<Ident>,
) -> bool {
    &&& !lhs_bad(symbols, lhs)
    &&& forall|j: int| 0 <= j < rhs.len() ==> slot_ok(symbols, #[trigger] rhs[j])
    &&& prec matches Some(id) ==> is_upper_name(id.name@)
}

/// The rule cannot be loaded, and `e` is the error of the first thing that
/// is wrong with it: its left-hand side, then its slots in order, then the
/// name given for its precedence.
pub open spec fn rule_fails(
    symbols: Seq<Symbol>,
    lhs: Ident,
    rhs: Seq<RhsSlot>,
    prec: Option<Ident>,
    e: Error,
) -> bool {
    if lhs_bad(symbols, lhs) {
        e == (Error { fault: Fault::LhsNotNonTerminal, span: lhs.span })
    } else if forall|j: int| 0 <= j < rhs.len() ==> slot_ok(symbols, #[trigger] rhs[j]) {
        prec matches Some(id) && !is_upper_name(id.name@) && e == (Error {
            fault: Fault::PrecedenceSymbolNotTerminal,
            span: id.span,
        })
    } else {
        exists|k: int| #[trigger] first_bad_slot(symbols, rhs, lhs.span, e, k)
    }
}

/// The item is what the slot asks for: it bears the slot's alias; for a
/// single name it refers to the symbol of that name, at the name's place;
/// for a compound it refers to a multi-terminal made for the slot, at the
/// place of the first name.
pub open spec fn slot_loaded(before: Seq<Symbol>, after: Seq<Symbol>, slot: RhsSlot, item: RhsItem) -> bool {
    &&& item.sym < after.len()
    &&& item.alias == slot.alias
    &&& slot.toks@.len() > 0 ==> item.span == slot.toks@[0].span
    &&& if slot.toks@.len() == 1 {
        after[item.sym as int].name@ == slot.toks@[0].name@
    } else {
        after[item.sym as int].kind is MultiTerminal && item.sym >= before.len() && compound_of(
            after,
            item.sym as int,
            slot.toks@,
            slot.toks@.len() as int,
        )
    }
}

/// The alternatives of symbol `s` are the terminals of the first `upto`
/// names, in order.
pub open spec fn compound_of(symbols: Seq<Symbol>, s: int, toks: Seq<Ident>, upto: int) -> bool {
    &&& symbols[s].sub_sym@.len() == upto
    &&& forall|j: int|
        0 <= j < upto ==> (#[trigger] symbols[s].sub_sym@[j]) < symbols.len()
            && symbols[symbols[s].sub_sym@[j] as int].name@ == toks[j].name@
            && symbols[symbols[s].sub_sym@[j] as int].kind is Terminal
}

/// The symbols of `before` have in `after` the alternatives they had.
pub open spec fn subs_kept(before: Seq<Symbol>, after: Seq<Symbol>) -> bool {
    forall|j: int| 0 <= j < before.len() ==> (#[trigger] after[j]).sub_sym == before[j].sub_sym
}

/// A compound keeps its alternatives while names, kinds and alternatives
/// are kept.
pub proof fn lemma_compound_kept(a: Seq<Symbol>, b: Seq<Symbol>, s: int, toks: Seq<Ident>, upto: int)
    requires
        symbols_kept(a, b),
        subs_kept(a, b),
        0 <= s < a.len(),
        compound_of(a, s, toks, upto),
    ensures
        compound_of(b, s, toks, upto),
{
    lemma_kept_len(a, b);
    assert(b[s].sub_sym == a[s].sub_sym);
    assert forall|j: int| 0 <= j < upto implies (#[trigger] b[s].sub_sym@[j]) < b.len()
        && b[b[s].sub_sym@[j] as int].name@ == toks[j].name@ && b[b[s].sub_sym@[j] as int].kind is Terminal by {
        assert(a[s].sub_sym@[j] < a.len());
        lemma_kept_at(a, b, a[s].sub_sym@[j] as int);
    }
}

/// Whether a name of one case has a symbol of another kind does not change
/// while symbols are only added by the case of their names.
pub proof fn lemma_clash_same(a: Seq<Symbol>, b: Seq<Symbol>, name: Seq<char>, kind: SymbolKind)
    requires
        symbols_kept(a, b),
        added_by_case(a, b),
        (is_upper_name(name) && kind == SymbolKind::Terminal) || (is_lower_name(name) && kind
            == SymbolKind::NonTerminal),
    ensures
        wrong_kind(a, name, kind) == wrong_kind(b, name, kind),
{
    if wrong_kind(a, name, kind) {
        let w = choose|w: int| #[trigger] kind_clash(a, w, name, kind);
        lemma_kept_len(a, b);
        lemma_kept_at(a, b, w);
        assert(kind_clash(b, w, name, kind));
    }
    if wrong_kind(b, name, kind) {
        let w = choose|w: int| #[trigger] kind_clash(b, w, name, kind);
        lemma_kept_at(a, b, w);
        if w >= a.len() {
            assert(by_case(b[w]));
        }
        assert(kind_clash(a, w, name, kind));
    }
}

/// Whether a slot can be loaded, and with which error it fails, does not
/// change while symbols are only added by the case of their names.
pub proof fn lemma_slot_same(a: Seq<Symbol>, b: Seq<Symbol>, slot: RhsSlot, lhs_span: usize)
    requires
        symbols_kept(a, b),
        added_by_case(a, b),
    ensures
        slot_ok(a, slot) == slot_ok(b, slot),
        forall|e: Error| #[trigger] slot_fails(a, slot, lhs_span, e) == slot_fails(b, slot, lhs_span, e),
{
    assert forall|y: int| 0 <= y < slot.toks@.len() implies member_bad(a, #[trigger] slot.toks@[y])
        == member_bad(b, slot.toks@[y]) by {
        if is_upper_name(slot.toks@[y].name@) {
            lemma_clash_same(a, b, slot.toks@[y].name@, SymbolKind::Terminal);
        }
    }
    assert forall|x: int| #[trigger]
        first_bad_member(a, slot.toks@, x) == first_bad_member(b, slot.toks@, x) by {}
    assert forall|e: Error| #[trigger]
        slot_fails(a, slot, lhs_span, e) == slot_fails(b, slot, lhs_span, e) by {
        if slot.toks@.len() > 1 {
            if slot_fails(a, slot, lhs_span, e) {
                let x = choose|x: int| #[trigger]
                    first_bad_member(a, slot.toks@, x) && e == (Error {
                        fault: Fault::CompoundWithNonTerminal,
                        span: slot.toks@[x].span,
                    });
                assert(first_bad_member(b, slot.toks@, x));
            }
            if slot_fails(b, slot, lhs_span, e) {
                let x = choose|x: int| #[trigger]
                    first_bad_member(b, slot.toks@, x) && e == (Error {
                        fault: Fault::CompoundWithNonTerminal,
                        span: slot.toks@[x].span,
                    });
                assert(first_bad_member(a, slot.toks@, x));
            }
        }
    }
}

/// What holds of the precedences for the first names of a list holds for
/// the whole list.
pub proof fn lemma_assoc_widen(
    before: Seq<Symbol>,
    after: Seq<Symbol>,
    ids: Seq<Ident>,
    k: int,
    n: int,
    p: Precedence,
)
    requires
        k <= n,
        forall|w: int| 0 <= w < after.len() ==> #[trigger] assoc_kept(before, after, ids, k, p, w),
    ensures
        forall|w: int| 0 <= w < after.len() ==> #[trigger] assoc_kept(before, after, ids, n, p, w),
{
    assert forall|w: int| 0 <= w < after.len() implies #[trigger] assoc_kept(
        before,
        after,
        ids,
        n,
        p,
        w,
    ) by {
        assert(assoc_kept(before, after, ids, k, p, w));
        if named_among(ids, k, after[w].name@) {
            let y = choose|y: int| y < k && #[trigger] names_it(ids, y, after[w].name@);
            assert(names_it(ids, y, after[w].name@));
        }
    }
}

/// A compound keeps its alternatives where only the rules of a symbol
/// change.
pub proof fn lemma_compound_same(a: Seq<Symbol>, b: Seq<Symbol>, s: int, toks: Seq<Ident>, upto: int)
    requires
        a.len() == b.len(),
        forall|j: int|
            0 <= j < a.len() ==> (#[trigger] b[j]).sub_sym == a[j].sub_sym && b[j].name == a[j].name
                && b[j].kind == a[j].kind,
        0 <= s < a.len(),
        compound_of(a, s, toks, upto),
    ensures
        compound_of(b, s, toks, upto),
{
    assert forall|j: int| 0 <= j < upto implies (#[trigger] b[s].sub_sym@[j]) < b.len()
        && b[b[s].sub_sym@[j] as int].name@ == toks[j].name@ && b[b[s].sub_sym@[j] as int].kind is Terminal by {
        assert(a[s].sub_sym@[j] < a.len());
    }
}

/// Adding by case carries over from step to step.
pub proof fn lemma_case_trans(a: Seq<Symbol>, b: Seq<Symbol>, c: Seq<Symbol>)
    requires
        symbols_kept(a, b),
        symbols_kept(b, c),
        added_by_case(a, b),
        added_by_case(b, c),
    ensures
        added_by_case(a, c),
{
    lemma_kept_len(a, b);
    lemma_kept_len(b, c);
    assert forall|s: int| a.len() <= s < c.len() implies by_case(#[trigger] c[s]) by {
        if s < b.len() {
            lemma_kept_at(b, c, s);
            assert(by_case(b[s]));
        }
    }
}

/// Some symbol of the given name has the given precedence.
#[verifier::opaque]
pub open spec fn has_precedence(symbols: Seq<Symbol>, name: Seq<char>, p: Precedence) -> bool {
    exists|w: int|
        0 <= w < symbols.len() && (#[trigger] symbols[w]).name@ == name && symbols[w].assoc == Some(p)
}

/// Some symbol named `name` falls back to a symbol named `to`.
#[verifier::opaque]
pub open spec fn falls_back(symbols: Seq<Symbol>, name: Seq<char>, to: Seq<char>) -> bool {
    exists|w: int, f: int|
        0 <= w < symbols.len() && 0 <= f < symbols.len() && (#[trigger] symbols[w]).name@ == name
            && (#[trigger] symbols[f]).name@ == to && symbols[w].fallback == Some(f as usize)
}

/// The next precedence level after `level`; the highest level stays.
pub open spec fn next_level(level: i32) -> i32 {
    if level < i32::MAX {
        (level + 1) as i32
    } else {
        level
    }
}

/// Some symbol of the given name has a type.
#[verifier::opaque]
pub open spec fn has_typed(symbols: Seq<Symbol>, name: Seq<char>) -> bool {
    exists|w: int|
        0 <= w < symbols.len() && (#[trigger] symbols[w]).name@ == name && symbols[w].data_type is Some
}

/// Symbol `s` of `after` bears the name and the type; if it is new its kind is
/// the one that the name's case calls for; no other symbol of `before` changed.
#[verifier::opaque]
pub open spec fn typed_at(
    before: Seq<Symbol>,
    after: Seq<Symbol>,
    name: Seq<char>,
    ty: TypeRef,
    s: int,
) -> bool {
    &&& 0 <= s < after.len()
    &&& after[s].name@ == name
    &&& after[s].data_type == Some(ty)
    &&& s >= before.len() ==> after[s].kind == if is_upper_name(name) {
        SymbolKind::Terminal
    } else {
        SymbolKind::NonTerminal
    }
    &&& forall|j: int| 0 <= j < before.len() && j != s ==> #[trigger] after[j] == before[j]
}

/// Symbol `w` has the name and a precedence.
pub open spec fn given_at(symbols: Seq<Symbol>, w: int, name: Seq<char>) -> bool {
    0 <= w < symbols.len() && symbols[w].name@ == name && symbols[w].assoc is Some
}

/// Some symbol of the given name has a precedence.
pub open spec fn precedence_given(symbols: Seq<Symbol>, name: Seq<char>) -> bool {
    exists|w: int| #[trigger] given_at(symbols, w, name)
}

/// Name `y` of the list is the given name.
pub open spec fn names_it(ids: Seq<Ident>, y: int, name: Seq<char>) -> bool {
    0 <= y < ids.len() && ids[y].name@ == name
}

/// One of the first `upto` names of the list is the given name.
pub open spec fn named_among(ids: Seq<Ident>, upto: int, name: Seq<char>) -> bool {
    exists|y: int| y < upto && #[trigger] names_it(ids, y, name)
}

/// Name `x` of an associativity directive cannot be given the precedence:
/// it is not a terminal's, or the symbol has a precedence already, be it
/// from before or from earlier in the list.
pub open spec fn assoc_bad(symbols: Seq<Symbol>, ids: Seq<Ident>, x: int) -> bool {
    !is_upper_name(ids[x].name@) || precedence_given(symbols, ids[x].name@) || named_among(
        ids,
        x,
        ids[x].name@,
    )
}

/// Name `x` is the first of the list that cannot be given the precedence.
pub open spec fn first_assoc_bad(symbols: Seq<Symbol>, ids: Seq<Ident>, x: int) -> bool {
    &&& 0 <= x < ids.len()
    &&& assoc_bad(symbols, ids, x)
    &&& forall|y: int| 0 <= y < x ==> !#[trigger] assoc_bad(symbols, ids, y)
}

/// Symbol `w` has the precedence it had, or it had none and is one of the
/// first `upto` names of the list and has precedence `p`; a symbol that was
/// not there before is one of those names.
pub open spec fn assoc_kept(
    before: Seq<Symbol>,
    after: Seq<Symbol>,
    ids: Seq<Ident>,
    upto: int,
    p: Precedence,
    w: int,
) -> bool {
    if w < before.len() {
        after[w].assoc == before[w].assoc || (before[w].assoc is None && after[w].assoc == Some(p)
            && named_among(ids, upto, after[w].name@))
    } else {
        named_among(ids, upto, after[w].name@)
    }
}

/// Symbol `w` has the name and a fallback.
pub open spec fn fallback_at(symbols: Seq<Symbol>, w: int, name: Seq<char>) -> bool {
    0 <= w < symbols.len() && symbols[w].name@ == name && symbols[w].fallback is Some
}

/// Some symbol of the given name has a fallback.
pub open spec fn fallback_given(symbols: Seq<Symbol>, name: Seq<char>) -> bool {
    exists|w: int| #[trigger] fallback_at(symbols, w, name)
}

/// Name `x` of a fallback directive cannot be given the fallback: it is not
/// a terminal's, or the symbol has a fallback already, be it from before or
/// from earlier in the list.
pub open spec fn fallback_bad(symbols: Seq<Symbol>, ids: Seq<Ident>, x: int) -> bool {
    !is_upper_name(ids[x].name@) || fallback_given(symbols, ids[x].name@) || named_among(
        ids,
        x,
        ids[x].name@,
    )
}

/// Name `x` is the first of the list that cannot be given the fallback.
pub open spec fn first_fallback_bad(symbols: Seq<Symbol>, ids: Seq<Ident>, x: int) -> bool {
    &&& 0 <= x < ids.len()
    &&& fallback_bad(symbols, ids, x)
    &&& forall|y: int| 0 <= y < x ==> !#[trigger] fallback_bad(symbols, ids, y)
}

/// Symbol `w` has the fallback it had, or it had none and is one of the
/// first `upto` names of the list and falls back to the symbol named `to`;
/// a symbol that was not there before has no other fallback either.
pub open spec fn fallback_kept(
    before: Seq<Symbol>,
    after: Seq<Symbol>,
    ids: Seq<Ident>,
    upto: int,
    to: Seq<char>,
    w: int,
) -> bool {
    ||| w < before.len() && after[w].fallback == before[w].fallback
    ||| w >= before.len() && after[w].fallback is None
    ||| {
        &&& w < before.len() ==> before[w].fallback is None
        &&& after[w].fallback matches Some(f) && f < after.len() && after[f as int].name@ == to
        &&& named_among(ids, upto, after[w].name@)
    }
}

/// What a fallback directive does: it fails on a fallback name that is not
/// a terminal's; else on the first name of the list that is not a
/// terminal's or whose symbol has a fallback already; else every symbol
/// named falls back to the one named as the fallback. No other symbol's
/// fallback changes.
pub open spec fn fallback_outcome(
    before: Lemon,
    fb: Ident,
    ids: Seq<Ident>,
    r: Result<(), Error>,
    after: Lemon,
) -> bool {
    &&& symbols_step(before, after)
    &&& !is_upper_name(fb.name@) ==> r == Err::<(), Error>(
        Error { fault: Fault::FallbackNotToken, span: fb.span },
    ) && after.has_fallback == before.has_fallback
    &&& r is Ok ==> forall|x: int|
        0 <= x < ids.len() ==> #[trigger] falls_back(after.symbols@, ids[x].name@, fb.name@)
    &&& r matches Err(e) ==> e.fault == Fault::FallbackNotToken || e.fault
        == Fault::FallbackAlreadyAssigned
    &&& r is Ok <==> is_upper_name(fb.name@) && forall|x: int|
        0 <= x < ids.len() ==> !#[trigger] fallback_bad(before.symbols@, ids, x)
    &&& r matches Err(e) ==> is_upper_name(fb.name@) ==> exists|x: int|
        #[trigger] first_fallback_bad(before.symbols@, ids, x) && e.span == ids[x].span && (
        if is_upper_name(ids[x].name@) {
            e.fault == Fault::FallbackAlreadyAssigned
        } else {
            e.fault == Fault::FallbackNotToken
        })
    &&& forall|w: int|
        0 <= w < after.symbols@.len() ==> #[trigger] fallback_kept(
            before.symbols@,
            after.symbols@,
            ids,
            ids.len() as int,
            fb.name@,
            w,
        )
    &&& before.has_fallback ==> after.has_fallback
    &&& after.has_fallback ==> before.has_fallback || ids.len() > 0
    &&& r is Ok && ids.len() > 0 ==> after.has_fallback
}

/// What holds of the fallbacks for the first names of a list holds for the
/// whole list.
pub proof fn lemma_fallback_widen(
    before: Seq<Symbol>,
    after: Seq<Symbol>,
    ids: Seq<Ident>,
    k: int,
    n: int,
    to: Seq<char>,
)
    requires
        k <= n,
        forall|w: int| 0 <= w < after.len() ==> #[trigger] fallback_kept(before, after, ids, k, to, w),
    ensures
        forall|w: int| 0 <= w < after.len() ==> #[trigger] fallback_kept(before, after, ids, n, to, w),
{
    assert forall|w: int| 0 <= w < after.len() implies #[trigger] fallback_kept(
        before,
        after,
        ids,
        n,
        to,
        w,
    ) by {
        assert(fallback_kept(before, after, ids, k, to, w));
        if named_among(ids, k, after[w].name@) {
            let y = choose|y: int| y < k && #[trigger] names_it(ids, y, after[w].name@);
            assert(names_it(ids, y, after[w].name@));
        }
    }
}

/// The name cannot be a member of the token class named `class`: it cannot
/// stand in a compound, or it is the name of the class itself.
pub open spec fn class_member_bad(symbols: Seq<Symbol>, class: Seq<char>, tok: Ident) -> bool {
    member_bad(symbols, tok) || tok.name@ == class
}

/// Name `x` is the first of the list that cannot be a member of the class.
pub open spec fn first_class_bad(symbols: Seq<Symbol>, class: Seq<char>, ids: Seq<Ident>, x: int) -> bool {
    &&& 0 <= x < ids.len()
    &&& class_member_bad(symbols, class, ids[x])
    &&& forall|y: int| 0 <= y < x ==> !class_member_bad(symbols, class, #[trigger] ids[y])
}

/// Symbol `s` is the token class with the first `upto` names of the list
/// added to the members that it had: those it had are still there, in
/// order, and then come the terminals of the names, in order.
pub open spec fn class_grown(
    before: Seq<Symbol>,
    after: Seq<Symbol>,
    class: Seq<char>,
    ids: Seq<Ident>,
    upto: int,
    s: int,
) -> bool {
    let had: Seq<usize> = if s < before.len() {
        before[s].sub_sym@
    } else {
        Seq::empty()
    };
    &&& 0 <= s < after.len()
    &&& after[s].name@ == class
    &&& after[s].kind is MultiTerminal
    &&& after[s].sub_sym@.len() == had.len() + upto
    &&& forall|j: int| 0 <= j < had.len() ==> #[trigger] after[s].sub_sym@[j] == had[j]
    &&& forall|j: int|
        had.len() <= j < had.len() + upto ==> (#[trigger] after[s].sub_sym@[j]) < after.len()
            && after[after[s].sub_sym@[j] as int].name@ == ids[j - had.len()].name@
            && after[after[s].sub_sym@[j] as int].kind is Terminal
}

/// What a token class directive does: it fails on a class name that is
/// neither a terminal's nor a nonterminal's, and on one whose symbol is no
/// token class; else on the first name of the list that cannot be a member;
/// else the class, made if need be, has the terminals named added to its
/// members.
pub open spec fn class_outcome(
    before: Lemon,
    tk: Ident,
    ids: Seq<Ident>,
    r: Result<(), Error>,
    after: Lemon,
) -> bool {
    &&& symbols_step(before, after)
    &&& after.has_fallback == before.has_fallback
    &&& if !is_upper_name(tk.name@) && !is_lower_name(tk.name@) {
        r == Err::<(), Error>(Error { fault: Fault::SymbolNotAscii, span: tk.span })
    } else if wrong_kind(before.symbols@, tk.name@, SymbolKind::MultiTerminal) {
        r == Err::<(), Error>(Error { fault: Fault::TokenClassNotClass, span: tk.span })
    } else {
        match r {
            Ok(_) => (forall|x: int|
                0 <= x < ids.len() ==> !class_member_bad(before.symbols@, tk.name@, #[trigger] ids[x]))
                && exists|s: int|
                #[trigger] class_grown(
                    before.symbols@,
                    after.symbols@,
                    tk.name@,
                    ids,
                    ids.len() as int,
                    s,
                ),
            Err(e) => exists|x: int|
                #[trigger] first_class_bad(before.symbols@, tk.name@, ids, x) && e == (Error {
                    fault: Fault::TokenClassMemberNotToken,
                    span: ids[x].span,
                }),
        }
    }
}

/// Whether a terminal's name has a symbol that is no terminal, while a
/// token class and terminals by the case of their names are added.
pub proof fn lemma_clash_class(
    a: Seq<Symbol>,
    b: Seq<Symbol>,
    mt: int,
    class: Seq<char>,
    name: Seq<char>,
)
    requires
        symbols_kept(a, b),
        0 <= mt < b.len(),
        b[mt].name@ == class,
        b[mt].kind is MultiTerminal,
        forall|s: int| a.len() <= s < b.len() && s != mt ==> by_case(#[trigger] b[s]),
        is_upper_name(name),
    ensures
        wrong_kind(b, name, SymbolKind::Terminal) == (wrong_kind(a, name, SymbolKind::Terminal)
            || name == class),
{
    lemma_kept_len(a, b);
    if wrong_kind(a, name, SymbolKind::Terminal) {
        let w = choose|w: int| #[trigger] kind_clash(a, w, name, SymbolKind::Terminal);
        lemma_kept_at(a, b, w);
        assert(kind_clash(b, w, name, SymbolKind::Terminal));
    }
    if name == class {
        assert(kind_clash(b, mt, name, SymbolKind::Terminal));
    }
    if wrong_kind(b, name, SymbolKind::Terminal) {
        let w = choose|w: int| #[trigger] kind_clash(b, w, name, SymbolKind::Terminal);
        lemma_kept_at(a, b, w);
        if w < a.len() {
            assert(kind_clash(a, w, name, SymbolKind::Terminal));
        } else if w != mt {
            assert(by_case(b[w]));
        }
    }
}

/// What a rule leaves alone: all of the grammar but the symbols and the
/// rules; of the symbols that were there, all but the count of their uses
/// and their lists of rules; and of those lists all but that of the
/// left-hand side, which, if the rule is loaded, has the new rule at its
/// end.
pub open spec fn rule_frame(before: Lemon, lhs: Ident, loaded: bool, after: Lemon) -> bool {
    &&& (Lemon { symbols: before.symbols, rules: before.rules, ..after }) == before
    &&& touched_only(before.symbols@, after.symbols@, Touch { rules: true, ..touch_none() })
    &&& forall|j: int|
        0 <= j < before.symbols@.len() ==> (#[trigger] after.symbols@[j]).rules@
            == before.symbols@[j].rules@ || (loaded && after.symbols@[j].name@ == lhs.name@
            && after.symbols@[j].rules@ == before.symbols@[j].rules@.push(before.rules@.len() as usize))
}

/// What an associativity directive leaves alone: all of the grammar but
/// the symbols and the precedence level, and of the symbols that were there
/// all but the count of their uses and their precedence.
pub open spec fn assoc_frame(before: Lemon, after: Lemon) -> bool {
    &&& (Lemon { symbols: before.symbols, precedence: before.precedence, ..after }) == before
    &&& touched_only(before.symbols@, after.symbols@, Touch { assoc: true, ..touch_none() })
}

/// What a fallback directive leaves alone: all of the grammar but the
/// symbols and the note that there are fallbacks, and of the symbols that
/// were there all but the count of their uses and their fallback.
pub open spec fn fallback_frame(before: Lemon, after: Lemon) -> bool {
    &&& (Lemon { symbols: before.symbols, has_fallback: before.has_fallback, ..after }) == before
    &&& touched_only(before.symbols@, after.symbols@, Touch { fallback: true, ..touch_none() })
}

/// What a token class directive leaves alone: all of the grammar but the
/// symbols, of the symbols that were there all but the count of their uses
/// and their alternatives, and the alternatives of all but the class.
pub open spec fn class_frame(before: Lemon, tk: Ident, after: Lemon) -> bool {
    &&& (Lemon { symbols: before.symbols, ..after }) == before
    &&& touched_only(before.symbols@, after.symbols@, Touch { sub_sym: true, ..touch_none() })
    &&& forall|j: int|
        0 <= j < before.symbols@.len() ==> (#[trigger] after.symbols@[j]).sub_sym
            == before.symbols@[j].sub_sym || after.symbols@[j].name@ == tk.name@
}

/// What a directive on symbols leaves alone: all of the grammar but the
/// symbols, and of the symbols that were there all but the count of their
/// uses and what `t` names.
pub open spec fn symbols_frame(before: Lemon, after: Lemon, t: Touch) -> bool {
    &&& (Lemon { symbols: before.symbols, ..after }) == before
    &&& touched_only(before.symbols@, after.symbols@, t)
}

/// What a type directive does: it fails on a name that is neither a
/// terminal's nor a nonterminal's, and on a symbol that has a type; else the
/// symbol of that name, made if need be, has the type and no other symbol
/// changed.
pub open spec fn type_outcome(
    before: Lemon,
    id: Ident,
    ty: TypeRef,
    r: Result<(), Error>,
    after: Lemon,
) -> bool {
    if !is_upper_name(id.name@) && !is_lower_name(id.name@) {
        r == Err::<(), Error>(Error { fault: Fault::SymbolNotAscii, span: id.span })
    } else if has_typed(before.symbols@, id.name@) {
        r == Err::<(), Error>(Error { fault: Fault::TypeAlreadyDefined, span: id.span })
    } else {
        r is Ok && exists|s: int| #[trigger] typed_at(before.symbols@, after.symbols@, id.name@, ty, s)
    }
}

/// What an associativity directive does: it opens the next precedence level;
/// it fails on a name that is not a terminal's and on a symbol that has a
/// precedence; else every terminal named has the new level and the
/// associativity.
pub open spec fn assoc_outcome(
    before: Lemon,
    a: Associativity,
    ids: Seq<Ident>,
    r: Result<(), Error>,
    after: Lemon,
) -> bool {
    &&& after.precedence == next_level(before.precedence)
    &&& level_step(before, after)
    &&& after.has_fallback == before.has_fallback
    &&& match r {
        Ok(_) => forall|x: int|
            0 <= x < ids.len() ==> is_upper_name((#[trigger] ids[x]).name@) && has_precedence(
                after.symbols@,
                ids[x].name@,
                Precedence(after.precedence, a),
            ),
        Err(e) => exists|x: int|
            #[trigger] first_assoc_bad(before.symbols@, ids, x) && e.span == ids[x].span && (
            if is_upper_name(ids[x].name@) {
                e.fault == Fault::PrecedenceAlreadyGiven
            } else {
                e.fault == Fault::PrecedenceOnNonTerminal
            }),
    }
    &&& r is Ok <==> forall|x: int| 0 <= x < ids.len() ==> !#[trigger] assoc_bad(before.symbols@, ids, x)
    &&& forall|w: int|
        0 <= w < after.symbols@.len() ==> #[trigger] assoc_kept(
            before.symbols@,
            after.symbols@,
            ids,
            ids.len() as int,
            Precedence(after.precedence, a),
            w,
        )
}

/// What one declaration does to the grammar.
pub open spec fn decl_outcome(before: Lemon, decl: Decl, r: Result<(), Error>, after: Lemon) -> bool {
    match decl {
        Decl::Module(id) => r is Ok && after.module == id && (Lemon {
            module: before.module,
            ..after
        }) == before,
        Decl::Include(code) => r is Ok && after.includes@ == before.includes@ + code@ && (Lemon {
            includes: before.includes,
            ..after
        }) == before,
        Decl::SyntaxError(code) => r is Ok && after.syntax_error == Some(code) && (Lemon {
            syntax_error: before.syntax_error,
            ..after
        }) == before,
        Decl::ParseFail(code) => r is Ok && after.parse_fail == Some(code) && (Lemon {
            parse_fail: before.parse_fail,
            ..after
        }) == before,
        Decl::Type(id, ty) => symbols_step(before, after) && type_outcome(before, id, ty, r, after)
            && symbols_frame(before, after, Touch { data_type: true, ..touch_none() }),
        Decl::Assoc(a, ids) => assoc_outcome(before, a, ids@, r, after) && assoc_frame(before, after),
        Decl::DefaultType(ty) => if before.var_type is Some {
            r == Err::<(), Error>(Error { fault: Fault::DefaultTypeAlreadyDefined, span: ty.span })
                && after == before
        } else {
            r is Ok && after.var_type == Some(ty) && (Lemon { var_type: before.var_type, ..after })
                == before
        },
        Decl::ExtraArgument(ty) => if before.arg is Some {
            r == Err::<(), Error>(
                Error { fault: Fault::ExtraArgumentAlreadyDefined, span: ty.span },
            ) && after == before
        } else {
            r is Ok && after.arg == Some(ty) && (Lemon { arg: before.arg, ..after }) == before
        },
        Decl::Error(ty) => if before.err_type is Some {
            r == Err::<(), Error>(Error { fault: Fault::ErrorTypeAlreadyDefined, span: ty.span })
                && after == before
        } else {
            r is Ok && after.err_type == Some(ty) && (Lemon { err_type: before.err_type, ..after })
                == before
        },
        Decl::StartSymbol(id) => if before.start is Some {
            r == Err::<(), Error>(Error { fault: Fault::StartAlreadyDefined, span: id.span })
                && after == before
        } else if !is_lower_name(id.name@) {
            r == Err::<(), Error>(Error { fault: Fault::StartNotNonTerminal, span: id.span })
                && after == before
        } else {
            &&& r is Ok
            &&& after.start matches Some(s) && s < after.symbols@.len()
                && after.symbols@[s as int].name@ == id.name@
            &&& symbols_step(Lemon { start: after.start, ..before }, after)
            &&& (Lemon { symbols: before.symbols, start: before.start, ..after }) == before
            &&& touched_only(before.symbols@, after.symbols@, touch_none())
        },
        Decl::Fallback(fb, ids) => fallback_outcome(before, fb, ids@, r, after) && fallback_frame(
            before,
            after,
        ),
        Decl::Wildcard(id) => if before.wildcard is Some {
            r == Err::<(), Error>(Error { fault: Fault::WildcardAlreadyDefined, span: id.span })
                && after == before
        } else if !is_upper_name(id.name@) {
            r == Err::<(), Error>(Error { fault: Fault::WildcardNotToken, span: id.span })
                && after == before
        } else {
            &&& r is Ok
            &&& after.wildcard matches Some(s) && s < after.symbols@.len()
                && after.symbols@[s as int].name@ == id.name@
            &&& symbols_step(Lemon { wildcard: after.wildcard, ..before }, after)
            &&& (Lemon { symbols: before.symbols, wildcard: before.wildcard, ..after }) == before
            &&& touched_only(before.symbols@, after.symbols@, touch_none())
        },
        Decl::TokenClass(tk, ids) => class_outcome(before, tk, ids@, r, after) && class_frame(
            before,
            tk,
            after,
        ),
        Decl::Token(e) => if before.token_enum is Some {
            r == Err::<(), Error>(Error { fault: Fault::TokenRedeclared, span: e.span }) && after
                == before
        } else {
            r is Ok && after.token_enum == Some(e) && (Lemon {
                token_enum: before.token_enum,
                ..after
            }) == before
        },
        Decl::Rule { lhs, rhs, action, prec } => {
            &&& after.start == before.start
            &&& after.wildcard == before.wildcard
            &&& r is Ok ==> {
                &&& is_lower_name(lhs.name@)
                &&& after.rules@.len() == before.rules@.len() + 1
                &&& after.rules@.last().rhs@.len() == rhs@.len()
                &&& after.rules@.last().code == action
                &&& after.rules@.last().span == lhs.span
                &&& after.symbols@[after.rules@.last().lhs as int].name@ == lhs.name@
                &&& after.rules@.last().prec_sym is Some == prec is Some
                &&& !after.rules@.last().can_reduce
                &&& !after.rules@.last().lhs_start
            }
            &&& r is Err ==> after.rules@.len() == before.rules@.len()
            &&& !is_lower_name(lhs.name@) ==> r == Err::<(), Error>(
                Error { fault: Fault::LhsNotNonTerminal, span: lhs.span },
            )
            &&& r is Ok <==> rule_loads(before.symbols@, lhs, rhs@, prec)
            &&& r matches Err(e) ==> rule_fails(before.symbols@, lhs, rhs@, prec, e)
            &&& rule_frame(before, lhs, r is Ok, after)
            &&& r is Ok ==> forall|x: int|
                0 <= x < rhs@.len() ==> slot_loaded(
                    before.symbols@,
                    after.symbols@,
                    #[trigger] rhs@[x],
                    after.rules@.last().rhs@[x],
                )
            &&& r is Ok ==> match prec {
                Some(id) => after.rules@.last().prec_sym matches Some(p) && p < after.symbols@.len()
                    && after.symbols@[p as int].name@ == id.name@,
                None => after.rules@.last().prec_sym is None,
            }
        },
    }
}

/// The grammar before any declaration: the end-of-input terminal, the error
/// nonterminal, and nothing else.
pub open spec fn initial(g: Lemon) -> bool {
    &&& g.symbols@.len() == 2
    &&& is_fresh_symbol(g.symbols@[0], end_name(), SymbolKind::Terminal)
    &&& is_fresh_symbol(g.symbols@[1], error_name(), SymbolKind::NonTerminal)
    &&& g.rules@.len() == 0
    &&& g.fresh()
    &&& g.err_sym == 1
    &&& g.module.name@ == "parser"@
    &&& g.includes@.len() == 0
    &&& g.syntax_error is None
    &&& g.parse_fail is None
    &&& g.token_enum is None
    &&& g.wildcard is None
    &&& g.arg is None
    &&& g.err_type is None
    &&& g.var_type is None
    &&& g.start is None
    &&& !g.has_fallback
    &&& g.precedence == 0
}

/// Declaration `x` took the grammar from `trace[x]` to `trace[x + 1]`.
pub open spec fn step_ok(decls: Seq<Decl>, trace: Seq<Lemon>, x: int) -> bool {
    &&& trace[x + 1].wf()
    &&& loading_step(trace[x], trace[x + 1])
    &&& decl_outcome(trace[x], decls[x], Ok(()), trace[x + 1])
}

/// `trace` shows the grammar before the first and after each of the first `k`
/// declarations, all of which succeeded.
pub open spec fn loads(decls: Seq<Decl>, trace: Seq<Lemon>, k: int) -> bool {
    &&& trace.len() == k + 1
    &&& initial(trace[0])
    &&& forall|x: int| 0 <= x < k ==> #[trigger] step_ok(decls, trace, x)
}

/// The first `k` declarations succeeded, as `trace` shows, and declaration `k`
/// failed with `e`, leaving `bad` behind.
pub open spec fn fails_at(decls: Seq<Decl>, trace: Seq<Lemon>, k: int, e: Error, bad: Lemon) -> bool {
    &&& 0 <= k < decls.len()
    &&& loads(decls, trace, k)
    &&& decl_outcome(trace.last(), decls[k], Err(e), bad)
}

/// `lem` is `last` closed: the sentinel for default actions was added as a new
/// nonterminal, and nothing else changed.
pub open spec fn closes(last: Lemon, lem: Lemon) -> bool {
    &&& lem.symbols@.len() == last.symbols@.len() + 1
    &&& forall|j: int| 0 <= j < last.symbols@.len() ==> lem.symbols@[j] == last.symbols@[j]
    &&& is_fresh_symbol(lem.symbols@.last(), default_name(), SymbolKind::NonTerminal)
    &&& (Lemon { symbols: last.symbols, ..lem }) == last
}

/// A symbol with a type witnesses that its name has one.
proof fn lemma_is_typed(symbols: Seq<Symbol>, name: Seq<char>, s: int)
    requires
        0 <= s < symbols.len(),
        symbols[s].name@ == name,
        symbols[s].data_type is Some,
    ensures
        has_typed(symbols, name),
{
    reveal(has_typed);
}

/// Where the symbol of a name has no type, or no symbol has the name, the
/// name has no type.
proof fn lemma_not_typed(symbols: Seq<Symbol>, rules: Seq<Rule>, name: Seq<char>, s: int)
    requires
        tables_wf(symbols, rules),
        name.len() > 0,
        0 <= s,
        s < symbols.len() ==> symbols[s].name@ == name && symbols[s].data_type is None,
        s >= symbols.len() ==> name_unused(symbols, name),
    ensures
        !has_typed(symbols, name),
{
    reveal(has_typed);
    if has_typed(symbols, name) {
        let w = choose|w: int|
            0 <= w < symbols.len() && (#[trigger] symbols[w]).name@ == name
                && symbols[w].data_type is Some;
        if s < symbols.len() {
            lemma_names_unique(symbols, rules, w, s);
        }
    }
}

/// Referring to a symbol and then giving it a type changes that symbol only.
proof fn lemma_typed_at(
    before: Seq<Symbol>,
    mid: Seq<Symbol>,
    after: Seq<Symbol>,
    name: Seq<char>,
    ty: TypeRef,
    s: int,
)
    requires
        0 <= s < after.len(),
        after.len() == mid.len(),
        before.len() <= mid.len(),
        forall|j: int| 0 <= j < before.len() && j != s ==> #[trigger] mid[j] == before[j],
        forall|j: int| 0 <= j < mid.len() && j != s ==> #[trigger] after[j] == mid[j],
        after[s].name@ == name,
        after[s].data_type == Some(ty),
        s >= before.len() ==> after[s].kind == if is_upper_name(name) {
            SymbolKind::Terminal
        } else {
            SymbolKind::NonTerminal
        },
    ensures
        exists|x: int| #[trigger] typed_at(before, after, name, ty, x),
{
    reveal(typed_at);
    assert(typed_at(before, after, name, ty, s));
}

/// A precedence once given stays while symbols that have one keep theirs.
proof fn lemma_precedence_kept(a: Seq<Symbol>, b: Seq<Symbol>, name: Seq<char>, p: Precedence)
    requires
        has_precedence(a, name, p),
        symbols_kept(a, b),
        forall|j: int|
            0 <= j < a.len() && (#[trigger] a[j]).assoc is Some ==> b[j].assoc == a[j].assoc,
    ensures
        has_precedence(b, name, p),
{
    reveal(has_precedence);
    let w = choose|w: int|
        0 <= w < a.len() && (#[trigger] a[w]).name@ == name && a[w].assoc == Some(p);
    lemma_kept_len(a, b);
    lemma_kept_at(a, b, w);
    assert(b[w].name@ == name && b[w].assoc == Some(p));
}

/// A symbol with a precedence witnesses that its name has it.
proof fn lemma_precedence_new(b: Seq<Symbol>, name: Seq<char>, p: Precedence, s: int)
    requires
        0 <= s < b.len(),
        b[s].name@ == name,
        b[s].assoc == Some(p),
    ensures
        has_precedence(b, name, p),
{
    reveal(has_precedence);
}

/// A fallback once named stays while symbols that have one keep theirs.
proof fn lemma_fallback_kept(a: Seq<Symbol>, b: Seq<Symbol>, name: Seq<char>, to: Seq<char>)
    requires
        falls_back(a, name, to),
        symbols_kept(a, b),
        forall|j: int|
            0 <= j < a.len() && (#[trigger] a[j]).fallback is Some ==> b[j].fallback
                == a[j].fallback,
    ensures
        falls_back(b, name, to),
{
    reveal(falls_back);
    let (w, f) = choose|w: int, f: int|
        0 <= w < a.len() && 0 <= f < a.len() && (#[trigger] a[w]).name@ == name && (
        #[trigger] a[f]).name@ == to && a[w].fallback == Some(f as usize);
    lemma_kept_len(a, b);
    lemma_kept_at(a, b, w);
    lemma_kept_at(a, b, f);
    assert(b[w].name@ == name && b[f].name@ == to && b[w].fallback == Some(f as usize));
}

/// A symbol with a fallback witnesses that its name falls back.
proof fn lemma_fallback_new(b: Seq<Symbol>, name: Seq<char>, to: Seq<char>, s: int, f: int)
    requires
        0 <= s < b.len(),
        0 <= f < b.len(),
        b[s].name@ == name,
        b[s].fallback == Some(f as usize),
        b[f].name@ == to,
    ensures
        falls_back(b, name, to),
{
    reveal(falls_back);
    assert(b[s].name@ == name && b[f].name@ == to && b[s].fallback == Some(f as usize));
}

/// The two symbols that every grammar starts with make consistent tables.
proof fn lemma_initial_wf(symbols: Seq<Symbol>, rules: Seq<Rule>)
    requires
        symbols.len() == 2,
        is_fresh_symbol(symbols[0], end_name(), SymbolKind::Terminal),
        is_fresh_symbol(symbols[1], error_name(), SymbolKind::NonTerminal),
        rules.len() == 0,
    ensures
        tables_wf(symbols, rules),
{
    reveal(tables_wf);
    reveal_strlit("$");
    reveal_strlit("error");
    assert forall|s: int| 0 <= s < symbols.len() implies #[trigger] symbol_ok(symbols, rules, s) by {
        assert(symbols[s].first_set@ == Set::<usize>::empty());
    }
    assert(names_unique(symbols)) by {
        assert(symbols[0].name@.len() == 1);
        assert(symbols[1].name@.len() == 5);
    }
}

/// Throughout loading, the symbols of the initial grammar keep their names and
/// all later symbols have plain names.
proof fn lemma_loads_kept(decls: Seq<Decl>, trace: Seq<Lemon>, k: int)
    requires
        0 <= k,
        loads(decls, trace, k),
    ensures
        symbols_kept(trace[0].symbols@, trace[k].symbols@),
    decreases k,
{
    if k > 0 {
        assert(loads(decls, trace.take(k), k - 1)) by {
            assert forall|x: int| 0 <= x < k - 1 implies #[trigger] step_ok(
                decls,
                trace.take(k),
                x,
            ) by {
                assert(step_ok(decls, trace, x));
                assert(trace.take(k)[x] == trace[x]);
                assert(trace.take(k)[x + 1] == trace[x + 1]);
            }
        }
        lemma_loads_kept(decls, trace.take(k), k - 1);
        assert(trace.take(k)[k - 1] == trace[k - 1]);
        assert(trace.take(k)[0] == trace[0]);
        assert(step_ok(decls, trace, k - 1));
        lemma_kept_trans(trace[0].symbols@, trace[k - 1].symbols@, trace[k].symbols@);
    } else {
        lemma_kept_refl(trace[0].symbols@);
    }
}

/// No symbol that loading can make bears the sentinel's name.
proof fn lemma_no_default_yet(first: Seq<Symbol>, now: Seq<Symbol>)
    requires
        first.len() == 2,
        first[0].name@ == end_name(),
        first[1].name@ == error_name(),
        symbols_kept(first, now),
    ensures
        name_unused(now, default_name()),
{
    reveal_strlit("$");
    reveal_strlit("error");
    reveal_strlit("{default}");
    assert forall|i: int| 0 <= i < now.len() implies (#[trigger] now[i]).name@ != default_name() by {
        lemma_kept_at(first, now, i);
        if i >= 2 {
            assert(plain_name(now[i].name@));
        } else {
            assert(now[i].name@ == first[i].name@);
            assert(default_name().len() == 9);
        }
    }
}

/// The rule is the one declared: its left-hand side bears the name, it has
/// the code and the place, its slots are those declared, each with its
/// alias, a single name referring to the symbol of that name and a compound
/// to a multi-terminal, and its precedence is that of the terminal named.
pub open spec fn rule_as_declared(
    symbols: Seq<Symbol>,
    rule: Rule,
    lhs: Ident,
    rhs: Seq<RhsSlot>,
    action: Option<usize>,
    prec: Option<Ident>,
) -> bool {
    &&& rule.lhs < symbols.len()
    &&& symbols[rule.lhs as int].name@ == lhs.name@
    &&& rule.span == lhs.span
    &&& rule.code == action
    &&& rule.rhs@.len() == rhs.len()
    &&& forall|x: int|
        0 <= x < rhs.len() ==> {
            let item = #[trigger] rule.rhs@[x];
            &&& item.sym < symbols.len()
            &&& item.alias == rhs[x].alias
            &&& rhs[x].toks@.len() > 0 ==> item.span == rhs[x].toks@[0].span
            &&& if rhs[x].toks@.len() == 1 {
                symbols[item.sym as int].name@ == rhs[x].toks@[0].name@
            } else {
                symbols[item.sym as int].kind is MultiTerminal
            }
        }
    &&& match prec {
        Some(id) => rule.prec_sym matches Some(p) && p < symbols.len() && symbols[p as int].name@
            == id.name@,
        None => rule.prec_sym is None,
    }
}

/// A rule that is as declared stays so while its symbols keep their names
/// and kinds.
proof fn lemma_declared_kept(
    a: Seq<Symbol>,
    b: Seq<Symbol>,
    rule: Rule,
    lhs: Ident,
    rhs: Seq<RhsSlot>,
    action: Option<usize>,
    prec: Option<Ident>,
)
    requires
        symbols_kept(a, b),
        rule_as_declared(a, rule, lhs, rhs, action, prec),
    ensures
        rule_as_declared(b, rule, lhs, rhs, action, prec),
{
    lemma_kept_len(a, b);
    lemma_kept_at(a, b, rule.lhs as int);
    assert forall|x: int| 0 <= x < rhs.len() implies {
        let item = #[trigger] rule.rhs@[x];
        &&& item.sym < b.len()
        &&& item.alias == rhs[x].alias
        &&& rhs[x].toks@.len() > 0 ==> item.span == rhs[x].toks@[0].span
        &&& if rhs[x].toks@.len() == 1 {
            b[item.sym as int].name@ == rhs[x].toks@[0].name@
        } else {
            b[item.sym as int].kind is MultiTerminal
        }
    } by {
        lemma_kept_at(a, b, rule.rhs@[x].sym as int);
    }
    if rule.prec_sym is Some {
        lemma_kept_at(a, b, rule.prec_sym->0 as int);
    }
}

/// The rule that declaration `k` made is, after declaration `n`, still the
/// rule declared.
proof fn lemma_rule_stays(decls: Seq<Decl>, trace: Seq<Lemon>, k: int, n: int)
    requires
        0 <= k < n < trace.len(),
        forall|x: int| 0 <= x < n ==> #[trigger] step_ok(decls, trace, x),
        decls[k] is Rule,
    ensures
        trace[k].rules@.len() < trace[n].rules@.len(),
        rule_as_declared(
            trace[n].symbols@,
            trace[n].rules@[trace[k].rules@.len() as int],
            decls[k]->lhs,
            decls[k]->rhs@,
            decls[k]->action,
            decls[k]->prec,
        ),
    decreases n - k,
{
    let r = trace[k].rules@.len() as int;
    if n == k + 1 {
        assert(step_ok(decls, trace, k));
        let before = trace[k];
        let after = trace[k + 1];
        assert(after.rules@.len() == r + 1);
        assert(after.rules@.last() == after.rules@[r]);
        lemma_rule_ok(after.symbols@, after.rules@, r);
    } else {
        lemma_rule_stays(decls, trace, k, n - 1);
        assert(step_ok(decls, trace, n - 1));
        assert(trace[n].rules@[r] == trace[n - 1].rules@[r]);
        lemma_declared_kept(
            trace[n - 1].symbols@,
            trace[n].symbols@,
            trace[n].rules@[r],
            decls[k]->lhs,
            decls[k]->rhs@,
            decls[k]->action,
            decls[k]->prec,
        );
    }
}

/// Whether the directive adds to the included code or sets the code run on
/// a syntax error: such a directive reads nothing of the grammar.
pub open spec fn is_code_directive(d: Decl) -> bool {
    d is Include || d is SyntaxError
}

/// Two results that are both a success are the same result.
proof fn lemma_one_success(a: Result<(), Error>, b: Result<(), Error>)
    requires
        a is Ok,
        b is Ok,
    ensures
        a == b,
{
    match (a, b) {
        (Ok(x), Ok(y)) => {
            assert(x == y);
        },
        _ => {},
    }
}

/// Grammars `a` and `b` differ in nothing but their symbols.
pub open spec fn alike_but_symbols(a: Lemon, b: Lemon) -> bool {
    &&& b.includes@ == a.includes@
    &&& (Lemon { symbols: a.symbols, includes: a.includes, ..b }) == a
}

/// A type directive and a directive that includes code or sets the code for
/// syntax errors may change places, and so may an include directive and one
/// for syntax errors: each directive ends as it ended in the other order, and
/// the two grammars differ in nothing but, after a type directive, their
/// symbols, which in either order are what the type directive makes of the
/// symbols that were there before the two.
pub proof fn law_directives_change_places(
    before: Lemon,
    t: Decl,
    o: Decl,
    first: (Result<(), Error>, Lemon, Result<(), Error>, Lemon),
    second: (Result<(), Error>, Lemon, Result<(), Error>, Lemon),
)
    requires
        is_code_directive(o),
        t is Type || (is_code_directive(t) && (t is Include) != (o is Include)),
        decl_outcome(before, t, first.0, first.1),
        decl_outcome(first.1, o, first.2, first.3),
        decl_outcome(before, o, second.0, second.1),
        decl_outcome(second.1, t, second.2, second.3),
    ensures
        second.2 == first.0,
        second.0 == first.2,
        alike_but_symbols(first.3, second.3),
        !(t is Type) ==> second.3.symbols == first.3.symbols,
        t matches Decl::Type(id, ty) ==> {
            &&& type_outcome(before, id, ty, first.0, first.3)
            &&& type_outcome(before, id, ty, first.0, second.3)
            &&& touched_only(
                before.symbols@,
                first.3.symbols@,
                Touch { data_type: true, ..touch_none() },
            )
            &&& touched_only(
                before.symbols@,
                second.3.symbols@,
                Touch { data_type: true, ..touch_none() },
            )
        },
{
    lemma_one_success(first.2, second.0);
    match t {
        Decl::Type(id, ty) => {
            assert(second.1.symbols@ == before.symbols@);
            assert(first.3.symbols@ == first.1.symbols@);
            if first.0 is Ok {
                lemma_one_success(first.0, second.2);
            }
        },
        _ => {
            lemma_one_success(first.0, second.2);
            assert(second.3.includes@ =~= first.3.includes@);
        },
    }
}

/// Every rule of a loaded grammar is the rule that its declaration gave:
/// the rule that the `k`-th declaration made bears the number that the
/// grammar had rules before it, and it holds what was declared.
pub proof fn law_rules_are_as_declared(decls: Seq<Decl>, trace: Seq<Lemon>, lem: Lemon, k: int)
    requires
        loads(decls, trace, decls.len() as int),
        closes(trace.last(), lem),
        0 <= k < decls.len(),
        decls[k] is Rule,
    ensures
        trace[k].rules@.len() < lem.rules@.len(),
        rule_as_declared(
            lem.symbols@,
            lem.rules@[trace[k].rules@.len() as int],
            decls[k]->lhs,
            decls[k]->rhs@,
            decls[k]->action,
            decls[k]->prec,
        ),
{
    let n = decls.len() as int;
    lemma_rule_stays(decls, trace, k, n);
    let last = trace[n];
    let r = trace[k].rules@.len() as int;
    assert(lem.rules == last.rules);
    let rule = lem.rules@[r];
    let rhs = decls[k]->rhs@;
    assert forall|x: int| 0 <= x < rhs.len() implies {
        let item = #[trigger] rule.rhs@[x];
        &&& item.sym < lem.symbols@.len()
        &&& item.alias == rhs[x].alias
        &&& rhs[x].toks@.len() > 0 ==> item.span == rhs[x].toks@[0].span
        &&& if rhs[x].toks@.len() == 1 {
            lem.symbols@[item.sym as int].name@ == rhs[x].toks@[0].name@
        } else {
            lem.symbols@[item.sym as int].kind is MultiTerminal
        }
    } by {
        let item = rule.rhs@[x];
        assert(item.sym < last.symbols@.len());
        assert(lem.symbols@[item.sym as int] == last.symbols@[item.sym as int]);
    }
    assert(lem.symbols@[rule.lhs as int] == last.symbols@[rule.lhs as int]);
    if rule.prec_sym is Some {
        assert(lem.symbols@[rule.prec_sym->0 as int] == last.symbols@[rule.prec_sym->0 as int]);
    }
}

} // verus!
