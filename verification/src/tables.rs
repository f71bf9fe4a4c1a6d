//! The tables that the generated parser is made of.

use crate::acttab::{lookup, ActTab, LookaheadAction};
use crate::config::State;
use crate::decl::{Ident, Span, TokenEnum, TypeRef};
use crate::grammar::Lemon;
use vstd::prelude::*;

verus! {

/// The narrowest signed integer type that holds a number.
#[derive(Clone, Copy, Debug, PartialEq, Eq, Structural)]
pub enum SignedWidth {
    I8,
    I16,
    I32,
}

/// The narrowest unsigned integer type that holds a number.
#[derive(Clone, Copy, Debug, PartialEq, Eq, Structural)]
pub enum UnsignedWidth {
    U8,
    U16,
    U32,
}

/// The narrowest signed integer type that holds `max`.
pub fn minimum_signed_type(max: usize) -> (w: SignedWidth)
    ensures
        w == if max < 0x80 {
            SignedWidth::I8
        } else if max < 0x8000 {
            SignedWidth::I16
        } else {
            SignedWidth::I32
        },
{
    if max < 0x80 {
        SignedWidth::I8
    } else if max < 0x8000 {
        SignedWidth::I16
    } else {
        SignedWidth::I32
    }
}

/// The narrowest unsigned integer type that holds `max`.
pub fn minimum_unsigned_type(max: usize) -> (w: UnsignedWidth)
    ensures
        w == if max < 0x100 {
            UnsignedWidth::U8
        } else if max < 0x10000 {
            UnsignedWidth::U16
        } else {
            UnsignedWidth::U32
        },
{
    if max < 0x100 {
        UnsignedWidth::U8
    } else if max < 0x10000 {
        UnsignedWidth::U16
    } else {
        UnsignedWidth::U32
    }
}

/// What the generated parser has to know of a terminal.
#[derive(Debug)]
pub struct TokenInfo {
    pub name: String,
    pub index: usize,
    pub dt_num: usize,
    pub data_type: Option<TypeRef>,
}

/// What the generated parser has to know of a slot of a rule.
#[derive(Clone, Copy, Debug, PartialEq, Eq, Structural)]
pub struct RhsInfo {
    /// The slot of the union that holds the symbol's value.
    pub dt_num: usize,
    /// The pattern that binds the value, if it is bound.
    pub alias: Option<usize>,
    /// Whether the slot holds the error symbol, whose value is not looked at.
    pub is_error: bool,
    pub span: Span,
}

/// What the generated parser has to know of a rule.
#[derive(Debug)]
pub struct RuleInfo {
    /// The index of the left-hand side.
    pub lhs: usize,
    pub lhs_dt_num: usize,
    pub lhs_type: Option<TypeRef>,
    pub code: Option<usize>,
    pub span: Span,
    pub rhs: Vec<RhsInfo>,
}

/// The tables of a parser.
#[derive(Debug)]
pub struct Tables {
    pub module: Ident,
    pub includes: Vec<usize>,
    pub syntax_error: Option<usize>,
    pub parse_fail: Option<usize>,
    pub token_enum: Option<TokenEnum>,
    pub extra_argument: Option<TypeRef>,
    pub error_type: Option<TypeRef>,
    pub start_type: Option<TypeRef>,
    pub start_dt_num: usize,
    pub n_state: usize,
    pub n_rule: usize,
    pub n_terminal: usize,
    pub n_symbol: usize,
    /// The index of the error symbol.
    pub error_symbol: usize,
    /// The index of the wildcard, or 0 where there is none.
    pub wildcard: usize,
    /// The types of the values on the stack; the type of slot `k` is entry
    /// `k - 1`.
    pub minor_types: Vec<TypeRef>,
    /// The terminals but the end of input, by index.
    pub tokens: Vec<TokenInfo>,
    pub action: Vec<usize>,
    pub lookahead: Vec<usize>,
    pub shift_use_dflt: i32,
    pub shift_min: i32,
    pub shift_max: i32,
    pub shift_ofst: Vec<i32>,
    pub reduce_use_dflt: i32,
    pub reduce_min: i32,
    pub reduce_max: i32,
    pub reduce_ofst: Vec<i32>,
    pub default: Vec<usize>,
    pub fallback: Vec<usize>,
    /// For each rule, the index of its left-hand side.
    pub rule_info: Vec<usize>,
    pub rules: Vec<RuleInfo>,
}

/// What the arrays hold for lookahead `lh` at offset `ofs`: the action in
/// the slot addressed, if there is such a slot and it is for `lh`.
pub open spec fn table_hit(action: Seq<usize>, lookahead: Seq<usize>, ofs: int, lh: int) -> Option<
    usize,
> {
    if 0 <= ofs + lh < lookahead.len() && lookahead[ofs + lh] == lh {
        Some(action[ofs + lh])
    } else {
        None
    }
}

/// The arrays hold the table: an occupied slot its lookahead and action, a
/// free slot the fillers.
pub open spec fn flattened(
    tab: Seq<Option<LookaheadAction>>,
    action: Seq<usize>,
    lookahead: Seq<usize>,
    no_action: usize,
    no_lookahead: usize,
) -> bool {
    &&& action.len() == tab.len()
    &&& lookahead.len() == tab.len()
    &&& forall|k: int|
        0 <= k < tab.len() ==> match #[trigger] tab[k] {
            Some(a) => action[k] == a.action && lookahead[k] == a.lookahead,
            None => action[k] == no_action && lookahead[k] == no_lookahead,
        }
}

/// Reading the arrays is reading the table, for every lookahead but the
/// filler.
pub proof fn lemma_flat_lookup(
    tab: Seq<Option<LookaheadAction>>,
    action: Seq<usize>,
    lookahead: Seq<usize>,
    no_action: usize,
    no_lookahead: usize,
    ofs: int,
    lh: int,
)
    requires
        flattened(tab, action, lookahead, no_action, no_lookahead),
        lh != no_lookahead,
    ensures
        table_hit(action, lookahead, ofs, lh) == lookup(tab, ofs, lh),
{
    let k = ofs + lh;
    if 0 <= k < tab.len() {
        match tab[k] {
            Some(a) => {},
            None => {},
        }
    }
}

/// Copies the table to two arrays, with `no_action` and `no_lookahead` in
/// the place of free slots.
pub fn flatten(tab: &ActTab, no_action: usize, no_lookahead: usize) -> (r: (Vec<usize>, Vec<usize>))
    ensures
        flattened(tab@, r.0@, r.1@, no_action, no_lookahead),
{
    let n = tab.a_action.len();
    let mut action: Vec<usize> = Vec::new();
    let mut lookahead: Vec<usize> = Vec::new();
    let mut k: usize = 0;
    while k < n
        invariant
            k <= n,
            n == tab@.len(),
            action@.len() == k,
            lookahead@.len() == k,
            forall|x: int|
                0 <= x < k ==> match #[trigger] tab@[x] {
                    Some(a) => action@[x] == a.action && lookahead@[x] == a.lookahead,
                    None => action@[x] == no_action && lookahead@[x] == no_lookahead,
                },
        decreases n - k,
    {
        match tab.a_action[k] {
            Some(a) => {
                action.push(a.action);
                lookahead.push(a.lookahead);
            },
            None => {
                action.push(no_action);
                lookahead.push(no_lookahead);
            },
        }
        k += 1;
    }
    (action, lookahead)
}

/// The offset of the row of the state of rank `i`.
pub open spec fn offset_at(states: Seq<State>, order: Seq<usize>, i: int, is_tkn: bool) -> Option<
    i32,
> {
    if is_tkn {
        states[order[i] as int].i_tkn_ofst
    } else {
        states[order[i] as int].i_nt_ofst
    }
}

/// One of the first `upto` states, by rank, has a row at offset `v`.
pub open spec fn offset_among(
    states: Seq<State>,
    order: Seq<usize>,
    is_tkn: bool,
    upto: int,
    v: i32,
) -> bool {
    exists|i: int| 0 <= i < upto && #[trigger] offset_at(states, order, i, is_tkn) == Some(v)
}

/// `table` gives the offsets of the rows of the states, by rank, up to the
/// last state that has a row, with `use_dflt` for states without row;
/// `low` is the least of the offsets and 0, `high` the greatest of the
/// offsets and 0; and `use_dflt` is below every offset.
pub open spec fn is_offset_table(
    states: Seq<State>,
    order: Seq<usize>,
    is_tkn: bool,
    table: Seq<i32>,
    use_dflt: i32,
    low: i32,
    high: i32,
) -> bool {
    &&& table.len() <= order.len()
    &&& use_dflt == low - 1
    &&& low <= 0 <= high
    &&& forall|i: int|
        0 <= i < order.len() ==> match #[trigger] offset_at(states, order, i, is_tkn) {
            Some(o) => i < table.len() && table[i] == o && low <= o <= high,
            None => i < table.len() ==> table[i] == use_dflt,
        }
    &&& table.len() > 0 ==> offset_at(states, order, table.len() - 1, is_tkn) is Some
    &&& low < 0 ==> offset_among(states, order, is_tkn, order.len() as int, low)
    &&& high > 0 ==> offset_among(states, order, is_tkn, order.len() as int, high)
}

impl Lemon {
    /// The offset of the row of state `s`.
    fn offset_of(&self, s: usize, is_tkn: bool) -> (o: Option<i32>)
        requires
            s < self.states@.len(),
        ensures
            o == if is_tkn {
                self.states@[s as int].i_tkn_ofst
            } else {
                self.states@[s as int].i_nt_ofst
            },
    {
        if is_tkn {
            self.states[s].i_tkn_ofst
        } else {
            self.states[s].i_nt_ofst
        }
    }

    /// The table of the offsets of the rows for terminals (`is_tkn`) or for
    /// nonterminals, by the rank of the states, with the number that stands
    /// for "no row", the least offset and the greatest.
    pub fn offset_table(&self, is_tkn: bool) -> (r: (Vec<i32>, i32, i32, i32))
        requires
            self.state_order@.len() == self.states@.len(),
            forall|i: int|
                0 <= i < self.state_order@.len() ==> (#[trigger] self.state_order@[i])
                    < self.states@.len(),
            forall|s: int|
                0 <= s < self.states@.len() ==> ((#[trigger] self.states@[s]).i_tkn_ofst matches Some(
                    o,
                ) ==> o > i32::MIN) && (self.states@[s].i_nt_ofst matches Some(o) ==> o > i32::MIN),
        ensures
            is_offset_table(self.states@, self.state_order@, is_tkn, r.0@, r.1, r.2, r.3),
    {
        let n = self.state_order.len();
        let mut low: i32 = 0;
        let mut high: i32 = 0;
        let mut count: usize = 0;
        let mut i: usize = 0;
        while i < n
            invariant
                i <= n,
                n == self.state_order@.len(),
                n == self.states@.len(),
                forall|x: int| 0 <= x < n ==> (#[trigger] self.state_order@[x]) < n,
                forall|s: int|
                    0 <= s < n ==> ((#[trigger] self.states@[s]).i_tkn_ofst matches Some(o) ==> o
                        > i32::MIN) && (self.states@[s].i_nt_ofst matches Some(o) ==> o > i32::MIN),
                low <= 0 <= high,
                low > i32::MIN,
                count <= i,
                forall|x: int|
                    0 <= x < i ==> match #[trigger] offset_at(
                        self.states@,
                        self.state_order@,
                        x,
                        is_tkn,
                    ) {
                        Some(o) => x < count && low <= o <= high,
                        None => true,
                    },
                count > 0 ==> offset_at(self.states@, self.state_order@, count - 1, is_tkn) is Some,
                low < 0 ==> offset_among(self.states@, self.state_order@, is_tkn, i as int, low),
                high > 0 ==> offset_among(self.states@, self.state_order@, is_tkn, i as int, high),
            decreases n - i,
        {
            let id = self.state_order[i];
            let ghost was_low = low;
            let ghost was_high = high;
            match self.offset_of(id, is_tkn) {
                Some(o) => {
                    if o < low {
                        low = o;
                    }
                    if o > high {
                        high = o;
                    }
                    count = i + 1;
                },
                None => {},
            }
            proof {
                let here = offset_at(self.states@, self.state_order@, i as int, is_tkn);
                if low < 0 {
                    if low == was_low {
                        let x = choose|x: int|
                            0 <= x < i && #[trigger] offset_at(
                                self.states@,
                                self.state_order@,
                                x,
                                is_tkn,
                            ) == Some(low);
                        assert(offset_at(self.states@, self.state_order@, x, is_tkn) == Some(low));
                    } else {
                        assert(here == Some(low));
                    }
                }
                if high > 0 {
                    if high == was_high {
                        let x = choose|x: int|
                            0 <= x < i && #[trigger] offset_at(
                                self.states@,
                                self.state_order@,
                                x,
                                is_tkn,
                            ) == Some(high);
                        assert(offset_at(self.states@, self.state_order@, x, is_tkn) == Some(high));
                    } else {
                        assert(here == Some(high));
                    }
                }
            }
            i += 1;
        }
        let use_dflt = low - 1;
        let mut table: Vec<i32> = Vec::new();
        let mut i: usize = 0;
        while i < count
            invariant
                i <= count,
                count <= n,
                n == self.state_order@.len(),
                n == self.states@.len(),
                forall|x: int| 0 <= x < n ==> (#[trigger] self.state_order@[x]) < n,
                table@.len() == i,
                forall|x: int|
                    0 <= x < i ==> #[trigger] table@[x] == match offset_at(
                        self.states@,
                        self.state_order@,
                        x,
                        is_tkn,
                    ) {
                        Some(o) => o,
                        None => use_dflt,
                    },
            decreases count - i,
        {
            let id = self.state_order[i];
            match self.offset_of(id, is_tkn) {
                Some(o) => {
                    table.push(o);
                },
                None => {
                    table.push(use_dflt);
                },
            }
            i += 1;
        }
        (table, use_dflt, low, high)
    }

    /// The default actions of the states, by rank.
    pub fn default_table(&self) -> (r: Vec<usize>)
        requires
            self.state_order@.len() == self.states@.len(),
            forall|i: int|
                0 <= i < self.state_order@.len() ==> (#[trigger] self.state_order@[i])
                    < self.states@.len(),
        ensures
            r@.len() == self.state_order@.len(),
            forall|i: int|
                0 <= i < r@.len() ==> #[trigger] r@[i] == self.states@[self.state_order@[i] as int].i_dflt,
    {
        let n = self.state_order.len();
        let mut r: Vec<usize> = Vec::new();
        let mut i: usize = 0;
        while i < n
            invariant
                i <= n,
                n == self.state_order@.len(),
                n == self.states@.len(),
                forall|x: int| 0 <= x < n ==> (#[trigger] self.state_order@[x]) < n,
                r@.len() == i,
                forall|x: int|
                    0 <= x < i ==> #[trigger] r@[x] == self.states@[self.state_order@[x] as int].i_dflt,
            decreases n - i,
        {
            r.push(self.states[self.state_order[i]].i_dflt);
            i += 1;
        }
        r
    }
}

/// The states have one table of offsets: two that are both the table of the
/// offsets of the same states are the same, with the same bounds.
pub proof fn law_one_offset_table(
    states: Seq<State>,
    order: Seq<usize>,
    is_tkn: bool,
    a: (Seq<i32>, i32, i32, i32),
    b: (Seq<i32>, i32, i32, i32),
)
    requires
        is_offset_table(states, order, is_tkn, a.0, a.1, a.2, a.3),
        is_offset_table(states, order, is_tkn, b.0, b.1, b.2, b.3),
    ensures
        a == b,
{
    let n: int = order.len() as int;
    if a.2 < b.2 {
        assert(offset_among(states, order, is_tkn, n, a.2));
    }
    if b.2 < a.2 {
        assert(offset_among(states, order, is_tkn, n, b.2));
    }
    if a.3 > b.3 {
        assert(offset_among(states, order, is_tkn, n, a.3));
    }
    if b.3 > a.3 {
        assert(offset_among(states, order, is_tkn, n, b.3));
    }
    if a.0.len() < b.0.len() {
        assert(offset_at(states, order, b.0.len() - 1, is_tkn) is Some);
    }
    if b.0.len() < a.0.len() {
        assert(offset_at(states, order, a.0.len() - 1, is_tkn) is Some);
    }
    assert forall|i: int| 0 <= i < a.0.len() implies a.0[i] == b.0[i] by {
        let o = offset_at(states, order, i, is_tkn);
    }
    assert(a.0 =~= b.0);
}

} // verus!
