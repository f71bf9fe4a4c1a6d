//! Numbering the symbols and finding each rule's precedence.

use crate::grammar::{
    lemma_grown_keeps_wf, lemma_marked_keeps_wf, lemma_rule_ok, lemma_symbol_ok, lemma_tables_len,
    rule_marked, rule_ok, symbol_grown, symbol_ok, tables_wf, Lemon,
};
use crate::order::{comes_before, is_sorted_order, occurs, sorted_order, Key3};
use crate::symbol::{RhsItem, Rule, Symbol, SymbolKind};
use vstd::prelude::*;

verus! {

/// The place of a kind in the numbering: terminals first, then nonterminals,
/// then multi-terminals.
pub open spec fn kind_rank(kind: SymbolKind) -> usize {
    match kind {
        SymbolKind::Terminal => 0,
        SymbolKind::NonTerminal => 1,
        SymbolKind::MultiTerminal => 2,
    }
}

/// The keys by which the symbols are numbered.
pub open spec fn kind_keys(symbols: Seq<Symbol>) -> Seq<Key3> {
    Seq::new(symbols.len(), |s: int| Key3 { k0: kind_rank(symbols[s].kind), k1: 0, k2: 0 })
}

/// Symbol `b` is symbol `a` but for its index.
pub open spec fn same_but_index(a: Symbol, b: Symbol) -> bool {
    b == (Symbol { index: b.index, ..a })
}

/// The symbols are numbered: by kind (terminals, nonterminals, multi-terminals)
/// and within a kind in the order of first mention; `by_index` lists them by
/// number; the terminals have the numbers below `nterminal` and the
/// nonterminals those from there up to `nsymbol`.
pub open spec fn numbered(
    symbols: Seq<Symbol>,
    by_index: Seq<usize>,
    nterminal: usize,
    nsymbol: usize,
) -> bool {
    &&& is_sorted_order(kind_keys(symbols), by_index)
    &&& forall|i: int| 0 <= i < by_index.len() ==> symbols[#[trigger] by_index[i] as int].index == i
    &&& forall|s: int|
        0 <= s < symbols.len() ==> ((#[trigger] symbols[s]).kind is Terminal <==> symbols[s].index
            < nterminal)
    &&& forall|s: int|
        0 <= s < symbols.len() ==> ((#[trigger] symbols[s]).kind is MultiTerminal
            <==> symbols[s].index > nsymbol)
    &&& forall|s: int| 0 <= s < symbols.len() ==> (#[trigger] symbols[s]).index < symbols.len()
    &&& nterminal <= nsymbol < symbols.len()
}

/// The first of the alternatives from position `from` on that has a
/// precedence.
pub open spec fn first_prec_child(symbols: Seq<Symbol>, sub: Seq<usize>, from: int) -> Option<usize>
    decreases sub.len() - from,
{
    if from < 0 || from >= sub.len() {
        None
    } else if symbols[sub[from] as int].assoc is Some {
        Some(sub[from])
    } else {
        first_prec_child(symbols, sub, from + 1)
    }
}

/// The symbol that gives a slot its precedence: for a multi-terminal the first
/// alternative that has one, else the symbol itself if it has one.
pub open spec fn slot_prec(symbols: Seq<Symbol>, sym: usize) -> Option<usize> {
    if symbols[sym as int].kind is MultiTerminal {
        first_prec_child(symbols, symbols[sym as int].sub_sym@, 0)
    } else if symbols[sym as int].assoc is Some {
        Some(sym)
    } else {
        None
    }
}

/// The precedence symbol of the first slot from position `from` on that has
/// one.
pub open spec fn first_prec_slot(symbols: Seq<Symbol>, rhs: Seq<RhsItem>, from: int) -> Option<usize>
    decreases rhs.len() - from,
{
    if from < 0 || from >= rhs.len() {
        None
    } else {
        match slot_prec(symbols, rhs[from].sym) {
            Some(p) => Some(p),
            None => first_prec_slot(symbols, rhs, from + 1),
        }
    }
}

/// The precedence symbol of a rule: the one written with it, else that of the
/// first slot of its right-hand side that has one.
pub open spec fn rule_precedence(symbols: Seq<Symbol>, rule: Rule) -> Option<usize> {
    if rule.prec_sym is Some {
        rule.prec_sym
    } else {
        first_prec_slot(symbols, rule.rhs@, 0)
    }
}

/// The rank of a kind.
fn rank_of(kind: SymbolKind) -> (r: usize)
    ensures
        r == kind_rank(kind),
{
    match kind {
        SymbolKind::Terminal => 0,
        SymbolKind::NonTerminal => 1,
        SymbolKind::MultiTerminal => 2,
    }
}

impl Lemon {
    /// The grammar has a start symbol or a rule to take it from.
    pub open spec fn has_start(&self) -> bool {
        self.start is Some || self.rules@.len() > 0
    }

    /// Whether the grammar has a start symbol or a rule to take it from.
    pub fn can_prepare(&self) -> (b: bool)
        ensures
            b == self.has_start(),
    {
        self.start.is_some() || self.rules.len() > 0
    }

    /// The symbols are numbered.
    pub open spec fn is_numbered(&self) -> bool {
        numbered(self.symbols@, self.by_index@, self.nterminal, self.nsymbol)
    }

    /// Numbers the symbols and settles the start symbol.
    ///
    /// Terminals get the lowest numbers, the end-of-input terminal the number
    /// 0; the nonterminals follow, then the multi-terminals; within a kind
    /// the order of first mention decides. Where no start symbol was declared,
    /// the left-hand side of the first rule becomes the start symbol.
    pub fn prepare(&mut self)
        requires
            old(self).wf(),
            old(self).has_start(),
        ensures
            final(self).wf(),
            final(self).is_numbered(),
            final(self).nterminal <= final(self).nsymbol,
            final(self).symbols@[0].index == 0,
            final(self).symbols@.len() == old(self).symbols@.len(),
            forall|s: int|
                0 <= s < old(self).symbols@.len() ==> same_but_index(
                    old(self).symbols@[s],
                    #[trigger] final(self).symbols@[s],
                ),
            final(self).start == if old(self).start is Some {
                old(self).start
            } else {
                Some(old(self).rules@[0].lhs)
            },
            final(self).rules == old(self).rules,
            final(self).states == old(self).states,
            final(self).configs == old(self).configs,
            final(self).state_order == old(self).state_order,
            final(self).nconflict == old(self).nconflict,
            final(self).wildcard == old(self).wildcard,
            final(self).err_sym == old(self).err_sym,
            final(self).var_type == old(self).var_type,
            final(self).arg == old(self).arg,
            final(self).err_type == old(self).err_type,
            final(self).token_enum == old(self).token_enum,
            final(self).has_fallback == old(self).has_fallback,
            final(self).module == old(self).module,
            final(self).includes == old(self).includes,
            final(self).syntax_error == old(self).syntax_error,
            final(self).parse_fail == old(self).parse_fail,
            final(self).precedence == old(self).precedence,
    {
        let n = self.symbols.len();
        let ghost orig = self.symbols@;
        proof {
            lemma_tables_len(orig, self.rules@);
        }
        let mut keys: Vec<Key3> = Vec::new();
        let mut s: usize = 0;
        while s < n
            invariant
                s <= n,
                n == self.symbols@.len(),
                self.symbols@ == orig,
                keys@.len() == s,
                forall|x: int|
                    0 <= x < s ==> #[trigger] keys@[x] == (Key3 {
                        k0: kind_rank(orig[x].kind),
                        k1: 0,
                        k2: 0,
                    }),
            decreases n - s,
        {
            keys.push(Key3 { k0: rank_of(self.symbols[s].kind), k1: 0, k2: 0 });
            s += 1;
        }
        assert(keys@ =~= kind_keys(orig));
        let order = sorted_order(&keys);
        let mut nterminal: usize = 0;
        let mut nsymbol: usize = 0;
        let mut i: usize = 0;
        while i < n
            invariant
                i <= n,
                n == orig.len(),
                n == self.symbols@.len(),
                n >= 2,
                orig[0].kind is Terminal,
                orig[1].kind is NonTerminal,
                is_sorted_order(kind_keys(orig), order@),
                forall|x: int|
                    0 <= x < n ==> same_but_index(orig[x], #[trigger] self.symbols@[x]),
                forall|x: int| 0 <= x < i ==> self.symbols@[#[trigger] order@[x] as int].index == x,
                nterminal < n,
                nsymbol < n,
                forall|x: int|
                    0 <= x < i && orig[#[trigger] order@[x] as int].kind is Terminal ==> x
                        <= nterminal,
                forall|x: int|
                    0 <= x < i && orig[#[trigger] order@[x] as int].kind is NonTerminal ==> x
                        <= nsymbol,
                i > 0 ==> orig[order@[nterminal as int] as int].kind is Terminal,
                (exists|x: int| 0 <= x < i && orig[#[trigger] order@[x] as int].kind is NonTerminal)
                    ==> orig[order@[nsymbol as int] as int].kind is NonTerminal,
                self.rules == old(self).rules,
                self.states == old(self).states,
                self.configs == old(self).configs,
                self.state_order == old(self).state_order,
                self.nconflict == old(self).nconflict,
                self.wildcard == old(self).wildcard,
                self.err_sym == old(self).err_sym,
                self.start == old(self).start,
                self.var_type == old(self).var_type,
                self.arg == old(self).arg,
                self.err_type == old(self).err_type,
                self.token_enum == old(self).token_enum,
                self.has_fallback == old(self).has_fallback,
                self.module == old(self).module,
                self.includes == old(self).includes,
                self.syntax_error == old(self).syntax_error,
                self.parse_fail == old(self).parse_fail,
                self.precedence == old(self).precedence,
            decreases n - i,
        {
            let sid = order[i];
            let ghost prev = self.symbols@;
            proof {
                lemma_first_is_end(orig, order@);
                assert(same_but_index(orig[sid as int], prev[sid as int]));
            }
            self.symbols[sid].index = i;
            match self.symbols[sid].kind {
                SymbolKind::Terminal => {
                    nterminal = i;
                },
                SymbolKind::NonTerminal => {
                    nsymbol = i;
                },
                SymbolKind::MultiTerminal => {},
            }
            proof {
                assert forall|x: int| 0 <= x < i + 1 implies self.symbols@[#[trigger] order@[x] as int].index
                    == x by {
                    if x < i {
                        if order@[x] == order@[i as int] {
                            crate::order::lemma_sorted_order_distinct(
                                kind_keys(orig),
                                order@,
                                x,
                                i as int,
                            );
                        }
                        assert(prev[order@[x] as int].index == x);
                    }
                }
            }
            i += 1;
        }
        self.by_index = order;
        self.nterminal = nterminal + 1;
        self.nsymbol = nsymbol;
        if self.start.is_none() {
            self.start = Some(self.rules[0].lhs);
        }
        proof {
            assert forall|x: int| 0 <= x < orig.len() implies symbol_grown(
                orig,
                orig[x],
                #[trigger] self.symbols@[x],
            ) by {
                assert(same_but_index(orig[x], self.symbols@[x]));
            }
            lemma_grown_keeps_wf(orig, self.symbols@, self.rules@);
            lemma_numbering(orig, self.symbols@, self.by_index@, nterminal as int, nsymbol as int);
            lemma_rule_lhs_in_range(self.symbols@, self.rules@);
        }
    }
}

impl Lemon {
    /// The symbol that gives a slot its precedence.
    fn slot_precedence(&self, sym: usize) -> (p: Option<usize>)
        requires
            self.wf(),
            sym < self.symbols@.len(),
        ensures
            p == slot_prec(self.symbols@, sym),
            p matches Some(x) ==> x < self.symbols@.len(),
    {
        proof {
            lemma_symbol_ok(self.symbols@, self.rules@, sym as int);
        }
        match self.symbols[sym].kind {
            SymbolKind::MultiTerminal => {
                let n = self.symbols[sym].sub_sym.len();
                let mut k: usize = 0;
                while k < n
                    invariant
                        k <= n,
                        sym < self.symbols@.len(),
                        n == self.symbols@[sym as int].sub_sym@.len(),
                        symbol_ok(self.symbols@, self.rules@, sym as int),
                        first_prec_child(self.symbols@, self.symbols@[sym as int].sub_sym@, 0)
                            == first_prec_child(
                            self.symbols@,
                            self.symbols@[sym as int].sub_sym@,
                            k as int,
                        ),
                    decreases n - k,
                {
                    let c = self.symbols[sym].sub_sym[k];
                    assert(self.symbols@[sym as int].sub_sym@[k as int] < self.symbols@.len());
                    if self.symbols[c].assoc.is_some() {
                        return Some(c);
                    }
                    k += 1;
                }
                None
            },
            _ => {
                if self.symbols[sym].assoc.is_some() {
                    Some(sym)
                } else {
                    None
                }
            },
        }
    }

    /// The precedence symbol that the right-hand side of rule `r` gives it.
    fn rhs_precedence(&self, r: usize) -> (p: Option<usize>)
        requires
            self.wf(),
            r < self.rules@.len(),
        ensures
            p == first_prec_slot(self.symbols@, self.rules@[r as int].rhs@, 0),
            p matches Some(x) ==> x < self.symbols@.len(),
    {
        proof {
            lemma_rule_ok(self.symbols@, self.rules@, r as int);
        }
        let n = self.rules[r].rhs.len();
        let mut k: usize = 0;
        while k < n
            invariant
                k <= n,
                self.wf(),
                r < self.rules@.len(),
                n == self.rules@[r as int].rhs@.len(),
                rule_ok(self.symbols@, self.rules@, r as int),
                first_prec_slot(self.symbols@, self.rules@[r as int].rhs@, 0) == first_prec_slot(
                    self.symbols@,
                    self.rules@[r as int].rhs@,
                    k as int,
                ),
            decreases n - k,
        {
            let sym = self.rules[r].rhs[k].sym;
            assert(self.rules@[r as int].rhs@[k as int].sym < self.symbols@.len());
            match self.slot_precedence(sym) {
                Some(p) => {
                    return Some(p);
                },
                None => {},
            }
            k += 1;
        }
        None
    }

    /// Gives every rule that has no precedence symbol of its own the one that
    /// its right-hand side gives it.
    pub fn find_rule_precedences(&mut self)
        requires
            old(self).wf(),
        ensures
            final(self).wf(),
            final(self).rules@.len() == old(self).rules@.len(),
            forall|r: int|
                0 <= r < old(self).rules@.len() ==> #[trigger] final(self).rules@[r] == (Rule {
                    prec_sym: rule_precedence(old(self).symbols@, old(self).rules@[r]),
                    ..old(self).rules@[r]
                }),
            final(self).symbols == old(self).symbols,
            final(self).by_index == old(self).by_index,
            final(self).nterminal == old(self).nterminal,
            final(self).nsymbol == old(self).nsymbol,
            final(self).start == old(self).start,
            final(self).states == old(self).states,
            final(self).configs == old(self).configs,
            final(self).state_order == old(self).state_order,
            final(self).nconflict == old(self).nconflict,
            final(self).wildcard == old(self).wildcard,
            final(self).err_sym == old(self).err_sym,
            final(self).var_type == old(self).var_type,
            final(self).arg == old(self).arg,
            final(self).err_type == old(self).err_type,
            final(self).token_enum == old(self).token_enum,
            final(self).has_fallback == old(self).has_fallback,
            final(self).module == old(self).module,
            final(self).includes == old(self).includes,
            final(self).syntax_error == old(self).syntax_error,
            final(self).parse_fail == old(self).parse_fail,
            final(self).precedence == old(self).precedence,
    {
        let n = self.rules.len();
        let ghost orig = self.rules@;
        let mut r: usize = 0;
        while r < n
            invariant
                r <= n,
                n == orig.len(),
                n == self.rules@.len(),
                orig == old(self).rules@,
                self.wf(),
                forall|x: int|
                    0 <= x < r ==> #[trigger] self.rules@[x] == (Rule {
                        prec_sym: rule_precedence(self.symbols@, orig[x]),
                        ..orig[x]
                    }),
                forall|x: int| r <= x < n ==> #[trigger] self.rules@[x] == orig[x],
                self.symbols == old(self).symbols,
                self.by_index == old(self).by_index,
                self.nterminal == old(self).nterminal,
                self.nsymbol == old(self).nsymbol,
                self.start == old(self).start,
                self.states == old(self).states,
                self.configs == old(self).configs,
                self.state_order == old(self).state_order,
                self.nconflict == old(self).nconflict,
                self.wildcard == old(self).wildcard,
                self.err_sym == old(self).err_sym,
                self.var_type == old(self).var_type,
                self.arg == old(self).arg,
                self.err_type == old(self).err_type,
                self.token_enum == old(self).token_enum,
                self.has_fallback == old(self).has_fallback,
                self.module == old(self).module,
                self.includes == old(self).includes,
                self.syntax_error == old(self).syntax_error,
                self.parse_fail == old(self).parse_fail,
                self.precedence == old(self).precedence,
            decreases n - r,
        {
            if self.rules[r].prec_sym.is_none() {
                let p = self.rhs_precedence(r);
                let ghost prev = self.rules@;
                self.rules[r].prec_sym = p;
                proof {
                    assert forall|x: int| 0 <= x < prev.len() implies rule_marked(
                        prev[x],
                        #[trigger] self.rules@[x],
                    ) by {}
                    assert forall|x: int| 0 <= x < prev.len() implies ((
                    #[trigger] self.rules@[x]).prec_sym matches Some(q) ==> q < self.symbols@.len()) by {
                        lemma_rule_ok(self.symbols@, prev, x);
                    }
                    lemma_marked_keeps_wf(self.symbols@, prev, self.rules@);
                }
            }
            r += 1;
        }
    }
}

/// The left-hand side of every rule is a symbol of the table.
pub proof fn lemma_rule_lhs_in_range(symbols: Seq<Symbol>, rules: Seq<Rule>)
    requires
        tables_wf(symbols, rules),
    ensures
        forall|r: int| 0 <= r < rules.len() ==> (#[trigger] rules[r]).lhs < symbols.len(),
{
    reveal(tables_wf);
    assert forall|r: int| 0 <= r < rules.len() implies (#[trigger] rules[r]).lhs < symbols.len() by {
        assert(rule_ok(symbols, rules, r));
    }
}

/// The end-of-input terminal, the first symbol, comes first in the numbering.
proof fn lemma_first_is_end(symbols: Seq<Symbol>, order: Seq<usize>)
    requires
        symbols.len() >= 2,
        symbols[0].kind is Terminal,
        is_sorted_order(kind_keys(symbols), order),
    ensures
        order[0] == 0,
{
    let keys = kind_keys(symbols);
    assert(occurs(order, 0));
    let p = choose|p: int| 0 <= p < order.len() && #[trigger] order[p] == 0;
    if p > 0 {
        assert(comes_before(keys, order[0] as int, order[p] as int));
        assert(keys[0].k0 == 0);
    }
}

/// What the numbering loop found is the numbering.
proof fn lemma_numbering(
    orig: Seq<Symbol>,
    symbols: Seq<Symbol>,
    order: Seq<usize>,
    last_t: int,
    last_n: int,
)
    requires
        orig.len() >= 2,
        orig[0].kind is Terminal,
        orig[1].kind is NonTerminal,
        symbols.len() == orig.len(),
        is_sorted_order(kind_keys(orig), order),
        forall|x: int| 0 <= x < orig.len() ==> same_but_index(orig[x], #[trigger] symbols[x]),
        forall|x: int| 0 <= x < order.len() ==> symbols[#[trigger] order[x] as int].index == x,
        0 <= last_t < orig.len(),
        0 <= last_n < orig.len(),
        forall|x: int|
            0 <= x < order.len() && orig[#[trigger] order[x] as int].kind is Terminal ==> x
                <= last_t,
        forall|x: int|
            0 <= x < order.len() && orig[#[trigger] order[x] as int].kind is NonTerminal ==> x
                <= last_n,
        orig[order[last_t] as int].kind is Terminal,
        (exists|x: int| 0 <= x < order.len() && orig[#[trigger] order[x] as int].kind is NonTerminal)
            ==> orig[order[last_n] as int].kind is NonTerminal,
    ensures
        numbered(symbols, order, (last_t + 1) as usize, last_n as usize),
        symbols[0].index == 0,
{
    let keys = kind_keys(orig);
    assert(kind_keys(symbols) =~= keys) by {
        assert forall|x: int| 0 <= x < orig.len() implies kind_keys(symbols)[x] == keys[x] by {
            assert(same_but_index(orig[x], symbols[x]));
        }
    }
    lemma_first_is_end(orig, order);
    // every symbol has the position at which the order lists it
    assert forall|s: int| 0 <= s < symbols.len() implies 0 <= (#[trigger] symbols[s]).index
        < symbols.len() && order[symbols[s].index as int] == s by {
        assert(occurs(order, s));
        let p = choose|p: int| 0 <= p < order.len() && #[trigger] order[p] == s;
        assert(symbols[order[p] as int].index == p);
    }
    // the error nonterminal is listed, so some nonterminal is
    let pe = symbols[1].index as int;
    assert(order[pe] == 1);
    assert(orig[order[pe] as int].kind is NonTerminal);
    assert(orig[order[last_n] as int].kind is NonTerminal);
    assert forall|s: int| 0 <= s < symbols.len() implies ((#[trigger] symbols[s]).kind is Terminal
        <==> symbols[s].index < last_t + 1) by {
        let p = symbols[s].index as int;
        assert(same_but_index(orig[s], symbols[s]));
        if p <= last_t && !(orig[s].kind is Terminal) {
            if p < last_t {
                assert(comes_before(keys, order[p] as int, order[last_t] as int));
            }
        }
    }
    assert forall|s: int| 0 <= s < symbols.len() implies ((#[trigger] symbols[s]).kind is MultiTerminal
        <==> symbols[s].index > last_n) by {
        let p = symbols[s].index as int;
        assert(same_but_index(orig[s], symbols[s]));
        if p > last_n && !(orig[s].kind is MultiTerminal) {
            if orig[s].kind is Terminal {
                assert(comes_before(keys, order[last_n] as int, order[p] as int));
            }
        }
        if p <= last_n && orig[s].kind is MultiTerminal {
            if p < last_n {
                assert(comes_before(keys, order[p] as int, order[last_n] as int));
            }
        }
    }
    assert(last_t < last_n) by {
        if last_n <= last_t {
            if last_n < last_t {
                assert(comes_before(keys, order[last_n] as int, order[last_t] as int));
            }
        }
    }
}

/// The precedence symbol of a rule rests on the kinds, the alternatives and
/// the precedences of the symbols only.
pub proof fn lemma_precedence_same(sa: Seq<Symbol>, sb: Seq<Symbol>, rule: Rule)
    requires
        sa.len() == sb.len(),
        forall|s: int|
            0 <= s < sa.len() ==> (#[trigger] sb[s]).kind == sa[s].kind && sb[s].assoc == sa[s].assoc
                && sb[s].sub_sym == sa[s].sub_sym,
        forall|k: int| 0 <= k < rule.rhs@.len() ==> (#[trigger] rule.rhs@[k]).sym < sa.len(),
        forall|s: int, k: int|
            0 <= s < sa.len() && 0 <= k < sa[s].sub_sym@.len() ==> (#[trigger] sa[s].sub_sym@[k])
                < sa.len(),
    ensures
        rule_precedence(sa, rule) == rule_precedence(sb, rule),
{
    lemma_slots_same(sa, sb, rule.rhs@, 0);
}

/// The first precedence-bearing slot is the same for such symbols.
proof fn lemma_slots_same(sa: Seq<Symbol>, sb: Seq<Symbol>, rhs: Seq<RhsItem>, from: int)
    requires
        sa.len() == sb.len(),
        forall|s: int|
            0 <= s < sa.len() ==> (#[trigger] sb[s]).kind == sa[s].kind && sb[s].assoc == sa[s].assoc
                && sb[s].sub_sym == sa[s].sub_sym,
        forall|k: int| 0 <= k < rhs.len() ==> (#[trigger] rhs[k]).sym < sa.len(),
        forall|s: int, k: int|
            0 <= s < sa.len() && 0 <= k < sa[s].sub_sym@.len() ==> (#[trigger] sa[s].sub_sym@[k])
                < sa.len(),
    ensures
        first_prec_slot(sa, rhs, from) == first_prec_slot(sb, rhs, from),
    decreases rhs.len() - from,
{
    if 0 <= from < rhs.len() {
        let sym = rhs[from].sym as int;
        assert(sb[sym].kind == sa[sym].kind);
        lemma_children_same(sa, sb, sa[sym].sub_sym@, 0);
        lemma_slots_same(sa, sb, rhs, from + 1);
    }
}

/// The first precedence-bearing alternative is the same for such symbols.
proof fn lemma_children_same(sa: Seq<Symbol>, sb: Seq<Symbol>, sub: Seq<usize>, from: int)
    requires
        sa.len() == sb.len(),
        forall|s: int| 0 <= s < sa.len() ==> (#[trigger] sb[s]).assoc == sa[s].assoc,
    ensures
        (forall|k: int| 0 <= k < sub.len() ==> (#[trigger] sub[k]) < sa.len()) ==> first_prec_child(
            sa,
            sub,
            from,
        ) == first_prec_child(sb, sub, from),
    decreases sub.len() - from,
{
    if 0 <= from < sub.len() {
        lemma_children_same(sa, sb, sub, from + 1);
        if forall|k: int| 0 <= k < sub.len() ==> (#[trigger] sub[k]) < sa.len() {
            assert(sub[from] < sa.len());
        }
    }
}

} // verus!
