//! Symbols and rules of a grammar.
//!
//! Symbols and rules live in two tables and refer to each other by position:
//! a symbol id is a position in the symbol table, a rule id a position in the
//! rule table.

use crate::decl::{Span, TypeRef};
use crate::precedence::Precedence;
use std::collections::BTreeSet;
use vstd::prelude::*;

verus! {

/// What a symbol is.
#[derive(Clone, Copy, Debug, PartialEq, Eq, Structural)]
pub enum SymbolKind {
    /// A token of the input.
    Terminal,
    /// A category that rules reduce to.
    NonTerminal,
    /// One of several terminals, standing in a single slot of a rule.
    MultiTerminal,
}

/// A symbol of the grammar.
#[derive(Debug)]
pub struct Symbol {
    /// The name; empty for a compound written in place in a rule.
    pub name: String,
    /// The number under which the tables know the symbol.
    pub index: usize,
    pub kind: SymbolKind,
    /// The rules that reduce to this nonterminal, in the order declared.
    pub rules: Vec<usize>,
    /// Indices of the terminals that can begin this nonterminal.
    pub first_set: BTreeSet<usize>,
    /// Whether this nonterminal can derive the empty string.
    pub lambda: bool,
    /// The alternatives of a multi-terminal, in the order written.
    pub sub_sym: Vec<usize>,
    /// The terminal to try when this one has no action.
    pub fallback: Option<usize>,
    pub assoc: Option<Precedence>,
    /// How often the symbol was referred to; it stops counting at the largest
    /// number it can hold.
    pub use_cnt: usize,
    pub data_type: Option<TypeRef>,
    /// Which slot of the value stack's union holds this symbol's value; 0 for
    /// a symbol without value.
    pub dt_num: usize,
}

/// One slot of a rule's right-hand side.
#[derive(Clone, Copy, Debug, PartialEq, Eq, Structural)]
pub struct RhsItem {
    pub sym: usize,
    pub span: Span,
    pub alias: Option<usize>,
}

/// A production of the grammar.
#[derive(Debug)]
pub struct Rule {
    pub span: Span,
    pub lhs: usize,
    pub lhs_span: Span,
    /// Whether the left-hand side is the start symbol.
    pub lhs_start: bool,
    pub rhs: Vec<RhsItem>,
    pub code: Option<usize>,
    /// The terminal whose precedence the rule has.
    pub prec_sym: Option<usize>,
    pub index: usize,
    /// Whether some state reduces by this rule.
    pub can_reduce: bool,
}

/// No two symbols share a non-empty name.
pub open spec fn names_unique(symbols: Seq<Symbol>) -> bool {
    forall|i: int, j: int|
        0 <= i < j < symbols.len() && (#[trigger] symbols[i]).name@ == (#[trigger] symbols[j]).name@
            ==> symbols[i].name@.len() == 0
}

/// `sym` is a symbol of the given name and kind that nothing refers to yet
/// but its creator.
pub open spec fn is_fresh_symbol(sym: Symbol, name: Seq<char>, kind: SymbolKind) -> bool {
    &&& sym.name@ == name
    &&& sym.index == 0
    &&& sym.kind == kind
    &&& sym.rules@.len() == 0
    &&& sym.first_set@ == Set::<usize>::empty()
    &&& !sym.lambda
    &&& sym.sub_sym@.len() == 0
    &&& sym.fallback is None
    &&& sym.assoc is None
    &&& sym.use_cnt == 1
    &&& sym.data_type is None
    &&& sym.dt_num == 0
}

/// `after` is `before` except that symbol `i` was referred to once more.
pub open spec fn used_once_more(before: Seq<Symbol>, after: Seq<Symbol>, i: int) -> bool {
    &&& after.len() == before.len()
    &&& forall|j: int| 0 <= j < before.len() && j != i ==> after[j] == before[j]
    &&& after[i].name == before[i].name
    &&& after[i].index == before[i].index
    &&& after[i].kind == before[i].kind
    &&& after[i].rules == before[i].rules
    &&& after[i].first_set == before[i].first_set
    &&& after[i].lambda == before[i].lambda
    &&& after[i].sub_sym == before[i].sub_sym
    &&& after[i].fallback == before[i].fallback
    &&& after[i].assoc == before[i].assoc
    &&& after[i].data_type == before[i].data_type
    &&& after[i].dt_num == before[i].dt_num
    &&& after[i].use_cnt == if before[i].use_cnt < usize::MAX {
        (before[i].use_cnt + 1) as usize
    } else {
        before[i].use_cnt
    }
}

/// Looks a symbol up by name.
pub fn symbol_find(symbols: &Vec<Symbol>, name: &String) -> (r: Option<usize>)
    ensures
        match r {
            Some(i) => i < symbols@.len() && symbols@[i as int].name@ == name@ && forall|j: int|
                0 <= j < i ==> (#[trigger] symbols@[j]).name@ != name@,
            None => forall|j: int| 0 <= j < symbols@.len() ==> (#[trigger] symbols@[j]).name@ != name@,
        },
{
    let mut i: usize = 0;
    while i < symbols.len()
        invariant
            i <= symbols@.len(),
            forall|j: int| 0 <= j < i ==> (#[trigger] symbols@[j]).name@ != name@,
        decreases symbols@.len() - i,
    {
        if symbols[i].name == *name {
            return Some(i);
        }
        i += 1;
    }
    None
}

/// No symbol of the table has the name.
pub open spec fn name_unused(symbols: Seq<Symbol>, name: Seq<char>) -> bool {
    forall|w: int| 0 <= w < symbols.len() ==> (#[trigger] symbols[w]).name@ != name
}

/// Returns the symbol of the given name, creating it with the given kind if
/// there is none. An existing symbol keeps its kind and is counted as used once
/// more. An empty name always makes a new symbol.
pub fn symbol_new(symbols: &mut Vec<Symbol>, name: &String, kind: SymbolKind) -> (r: usize)
    ensures
        r < final(symbols)@.len(),
        final(symbols)@[r as int].name@ == name@,
        r <= old(symbols)@.len(),
        r < old(symbols)@.len() ==> {
            &&& name@.len() > 0
            &&& old(symbols)@[r as int].name@ == name@
            &&& name_unused(old(symbols)@.take(r as int), name@)
            &&& used_once_more(old(symbols)@, final(symbols)@, r as int)
        },
        r == old(symbols)@.len() ==> {
            &&& name@.len() > 0 ==> name_unused(old(symbols)@, name@)
            &&& final(symbols)@ == old(symbols)@.push(final(symbols)@[r as int])
            &&& is_fresh_symbol(final(symbols)@[r as int], name@, kind)
        },
{
    if name.as_str().unicode_len() != 0 {
        match symbol_find(symbols, name) {
            Some(i) => {
                if symbols[i].use_cnt < usize::MAX {
                    symbols[i].use_cnt += 1;
                }
                return i;
            },
            None => {},
        }
    }
    let symbol = Symbol {
        name: name.clone(),
        index: 0,
        kind,
        rules: Vec::new(),
        first_set: BTreeSet::new(),
        lambda: false,
        sub_sym: Vec::new(),
        fallback: None,
        assoc: None,
        use_cnt: 1,
        data_type: None,
        dt_num: 0,
    };
    symbols.push(symbol);
    symbols.len() - 1
}

} // verus!
