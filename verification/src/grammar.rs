//! The grammar under construction and the loader that fills it from
//! declarations.

use crate::config::{Config, State};
use crate::decl::{is_lower_name, is_upper_name, Decl, Ident, TokenEnum, TypeRef};
use crate::symbol::{
    is_fresh_symbol, name_unused, names_unique, used_once_more, Rule, Symbol, SymbolKind,
};
use vstd::prelude::*;

verus! {

/// A grammar, and later the automaton and the action lists computed for it.
#[derive(Debug)]
pub struct Lemon {
    pub module: Ident,
    pub includes: Vec<usize>,
    pub syntax_error: Option<usize>,
    pub parse_fail: Option<usize>,
    /// The enumeration given with the token directive, if any.
    pub token_enum: Option<TokenEnum>,
    /// The states, by the number they got when they were found.
    pub states: Vec<State>,
    /// The configurations of all states.
    pub configs: Vec<Config>,
    /// For each rank in the final numbering, the state that has it.
    pub state_order: Vec<usize>,
    pub rules: Vec<Rule>,
    /// Index of the last nonterminal: the sentinel for default actions.
    pub nsymbol: usize,
    /// Number of terminals: they have the indices below it.
    pub nterminal: usize,
    /// The symbols, in the order in which they were first mentioned.
    pub symbols: Vec<Symbol>,
    /// For each index, the symbol that has it.
    pub by_index: Vec<usize>,
    pub err_sym: usize,
    pub wildcard: Option<usize>,
    pub arg: Option<TypeRef>,
    pub err_type: Option<TypeRef>,
    pub nconflict: usize,
    pub has_fallback: bool,
    pub var_type: Option<TypeRef>,
    pub start: Option<usize>,
    /// The precedence level given by the latest associativity directive.
    pub precedence: i32,
}

/// How many of the first `n` declarations are rules.
pub open spec fn count_rules(decls: Seq<Decl>, n: int) -> nat
    decreases n,
{
    if n <= 0 {
        0
    } else {
        count_rules(decls, n - 1) + if decls[n - 1] is Rule {
            1nat
        } else {
            0nat
        }
    }
}

/// The symbol and rule tables refer to each other consistently.
#[verifier::opaque]
pub open spec fn tables_wf(symbols: Seq<Symbol>, rules: Seq<Rule>) -> bool {
    &&& symbols.len() >= 2
    &&& symbols[0].kind is Terminal
    &&& symbols[1].kind is NonTerminal
    &&& names_unique(symbols)
    &&& forall|s: int| 0 <= s < symbols.len() ==> #[trigger] symbol_ok(symbols, rules, s)
    &&& forall|r: int| 0 <= r < rules.len() ==> #[trigger] rule_ok(symbols, rules, r)
}

/// Symbol `s` refers only to symbols and rules that exist: its alternatives
/// are terminals, its rules reduce to it, and its first set holds indices of
/// symbols.
pub open spec fn symbol_ok(symbols: Seq<Symbol>, rules: Seq<Rule>, s: int) -> bool {
    let sym = symbols[s];
    &&& forall|k: int|
        0 <= k < sym.sub_sym@.len() ==> (#[trigger] sym.sub_sym@[k]) < symbols.len()
            && symbols[sym.sub_sym@[k] as int].kind is Terminal
    &&& sym.kind !is MultiTerminal ==> sym.sub_sym@.len() == 0
    &&& forall|k: int|
        0 <= k < sym.rules@.len() ==> (#[trigger] sym.rules@[k]) < rules.len()
            && rules[sym.rules@[k] as int].lhs == s
    &&& sym.kind !is NonTerminal ==> sym.rules@.len() == 0
    &&& sym.kind !is NonTerminal ==> !sym.lambda
    &&& sym.fallback matches Some(f) ==> f < symbols.len()
    &&& forall|t: usize| sym.first_set@.contains(t) ==> t < symbols.len()
}

/// Rule `r` knows its own number and refers only to symbols that exist; its
/// left-hand side is a nonterminal that lists it.
pub open spec fn rule_ok(symbols: Seq<Symbol>, rules: Seq<Rule>, r: int) -> bool {
    let rule = rules[r];
    &&& rule.index == r
    &&& rule.lhs < symbols.len()
    &&& symbols[rule.lhs as int].kind is NonTerminal
    &&& symbols[rule.lhs as int].rules@.contains(r as usize)
    &&& forall|k: int| 0 <= k < rule.rhs@.len() ==> (#[trigger] rule.rhs@[k]).sym < symbols.len()
    &&& rule.prec_sym matches Some(p) ==> p < symbols.len()
}

/// A name as the grammar's text can give it to a symbol: empty (a compound
/// written in place) or beginning with an ASCII letter.
pub open spec fn plain_name(name: Seq<char>) -> bool {
    name.len() == 0 || is_upper_name(name) || is_lower_name(name)
}

/// Every symbol of `before` is still there in `after`, under the same name
/// and of the same kind, and the symbols added have plain names.
#[verifier::opaque]
pub open spec fn symbols_kept(before: Seq<Symbol>, after: Seq<Symbol>) -> bool {
    &&& before.len() <= after.len()
    &&& forall|s: int|
        0 <= s < before.len() ==> (#[trigger] after[s]).name@ == before[s].name@ && after[s].kind
            == before[s].kind
    &&& forall|s: int|
        0 <= s < before.len() ==> (#[trigger] after[s]).lambda == before[s].lambda
            && after[s].first_set == before[s].first_set
    &&& forall|s: int|
        before.len() <= s < after.len() ==> plain_name((#[trigger] after[s]).name@)
            && !after[s].lambda && after[s].first_set@ == Set::<usize>::empty()
}

/// No symbol has been found nullable yet, and all first sets are empty.
pub open spec fn unanalyzed(symbols: Seq<Symbol>) -> bool {
    forall|s: int|
        0 <= s < symbols.len() ==> !(#[trigger] symbols[s]).lambda && symbols[s].first_set@
            == Set::<usize>::empty()
}

/// Symbols that were added to an unanalyzed table leave it unanalyzed.
pub proof fn lemma_kept_unanalyzed(a: Seq<Symbol>, b: Seq<Symbol>)
    requires
        symbols_kept(a, b),
        unanalyzed(a),
    ensures
        unanalyzed(b),
{
    reveal(symbols_kept);
    assert forall|s: int| 0 <= s < b.len() implies !(#[trigger] b[s]).lambda && b[s].first_set@
        == Set::<usize>::empty() by {
        if s < a.len() {
            assert(!a[s].lambda);
        }
    }
}

/// Symbol `b` is symbol `a` but for what the analysis of nullable symbols and
/// first sets fills in.
pub open spec fn same_but_analysis(a: Symbol, b: Symbol) -> bool {
    b == (Symbol { lambda: b.lambda, first_set: b.first_set, ..a })
}

/// Filling in nullable flags of nonterminals and first sets of symbol indices
/// keeps the tables consistent.
pub proof fn lemma_analysis_keeps_wf(before: Seq<Symbol>, after: Seq<Symbol>, rules: Seq<Rule>)
    requires
        tables_wf(before, rules),
        after.len() == before.len(),
        forall|s: int| 0 <= s < before.len() ==> same_but_analysis(before[s], #[trigger] after[s]),
        forall|s: int|
            0 <= s < before.len() && (#[trigger] after[s]).lambda ==> after[s].kind is NonTerminal,
        forall|s: int, t: usize|
            0 <= s < before.len() && #[trigger] after[s].first_set@.contains(t) ==> t
                < before.len(),
    ensures
        tables_wf(after, rules),
{
    reveal(tables_wf);
    assert forall|s: int| 0 <= s < after.len() implies #[trigger] symbol_ok(after, rules, s) by {
        assert(symbol_ok(before, rules, s));
        assert(same_but_analysis(before[s], after[s]));
        assert forall|k: int| 0 <= k < after[s].sub_sym@.len() implies (
        #[trigger] after[s].sub_sym@[k]) < after.len() && after[after[s].sub_sym@[k] as int].kind is Terminal by {
            let c = before[s].sub_sym@[k] as int;
            assert(0 <= c < before.len());
            assert(before[c].kind is Terminal);
            assert(same_but_analysis(before[c], after[c]));
        }
    }
    assert forall|q: int| 0 <= q < rules.len() implies #[trigger] rule_ok(after, rules, q) by {
        assert(rule_ok(before, rules, q));
        let l = rules[q].lhs as int;
        assert(same_but_analysis(before[l], after[l]));
    }
    assert(names_unique(after)) by {
        assert forall|i: int, j: int|
            0 <= i < j < after.len() && (#[trigger] after[i]).name@ == (#[trigger] after[j]).name@
            implies after[i].name@.len() == 0 by {
            assert(same_but_analysis(before[i], after[i]));
            assert(same_but_analysis(before[j], after[j]));
        }
    }
    assert(same_but_analysis(before[0], after[0]));
    assert(same_but_analysis(before[1], after[1]));
}

/// From `a` to `b` nothing changed but the symbol table, in which every symbol
/// of `a` is still there under its name and with its kind.
pub open spec fn symbols_step(a: Lemon, b: Lemon) -> bool {
    &&& level_step(a, b)
    &&& b.precedence == a.precedence
}

/// From `a` to `b` nothing changed but the symbol table, in which every symbol
/// of `a` is still there under its name and with its kind, and the precedence
/// level.
pub open spec fn level_step(a: Lemon, b: Lemon) -> bool {
    &&& symbols_kept(a.symbols@, b.symbols@)
    &&& b.module == a.module
    &&& b.includes == a.includes
    &&& b.syntax_error == a.syntax_error
    &&& b.parse_fail == a.parse_fail
    &&& b.token_enum == a.token_enum
    &&& b.states == a.states
    &&& b.configs == a.configs
    &&& b.state_order == a.state_order
    &&& b.rules == a.rules
    &&& b.nsymbol == a.nsymbol
    &&& b.nterminal == a.nterminal
    &&& b.by_index == a.by_index
    &&& b.err_sym == a.err_sym
    &&& b.wildcard == a.wildcard
    &&& b.arg == a.arg
    &&& b.err_type == a.err_type
    &&& b.nconflict == a.nconflict
    &&& b.var_type == a.var_type
    &&& b.start == a.start
}

/// From `a` to `b` the grammar was only added to: symbols keep name and kind,
/// rules keep their place, and nothing of the automaton was touched.
pub open spec fn loading_step(a: Lemon, b: Lemon) -> bool {
    &&& symbols_kept(a.symbols@, b.symbols@)
    &&& a.rules@.len() <= b.rules@.len()
    &&& forall|r: int| 0 <= r < a.rules@.len() ==> #[trigger] b.rules@[r] == a.rules@[r]
    &&& b.states == a.states
    &&& b.configs == a.configs
    &&& b.state_order == a.state_order
    &&& b.nsymbol == a.nsymbol
    &&& b.nterminal == a.nterminal
    &&& b.by_index == a.by_index
    &&& b.err_sym == a.err_sym
    &&& b.nconflict == a.nconflict
}

impl Lemon {
    /// The tables are consistent and the grammar's own references (error
    /// symbol, wildcard, start symbol) name symbols that exist.
    pub open spec fn wf(&self) -> bool {
        &&& tables_wf(self.symbols@, self.rules@)
        &&& self.err_sym == 1
        &&& self.wildcard matches Some(w) ==> w < self.symbols@.len()
        &&& self.start matches Some(s) ==> s < self.symbols@.len()
    }

    /// Nothing has been built yet: there are no states, no configurations and
    /// no conflicts.
    pub open spec fn fresh(&self) -> bool {
        &&& self.states@.len() == 0
        &&& self.configs@.len() == 0
        &&& self.state_order@.len() == 0
        &&& self.nconflict == 0
    }

    /// The name under which the generated parser's module is to be known.
    pub fn module_name(&self) -> (id: &Ident)
        ensures
            *id == self.module,
    {
        &self.module
    }

    /// Looks a symbol up by name.
    pub fn symbol_find(&self, name: &String) -> (r: Option<usize>)
        ensures
            match r {
                Some(i) => i < self.symbols@.len() && self.symbols@[i as int].name@ == name@
                    && forall|j: int| 0 <= j < i ==> (#[trigger] self.symbols@[j]).name@ != name@,
                None => forall|j: int|
                    0 <= j < self.symbols@.len() ==> (#[trigger] self.symbols@[j]).name@ != name@,
            },
    {
        crate::symbol::symbol_find(&self.symbols, name)
    }
}

/// Symbol `a` is symbol `b` after a change that adds alternatives, sets
/// the fallback, or touches only what no table refers to.
pub open spec fn symbol_grown(table: Seq<Symbol>, b: Symbol, a: Symbol) -> bool {
    &&& a.name == b.name
    &&& a.kind == b.kind
    &&& a.rules == b.rules
    &&& a.lambda == b.lambda
    &&& a.first_set == b.first_set
    &&& a.sub_sym@.len() >= b.sub_sym@.len()
    &&& a.sub_sym@.len() > b.sub_sym@.len() ==> a.kind is MultiTerminal
    &&& forall|k: int|
        0 <= k < a.sub_sym@.len() ==> if k < b.sub_sym@.len() {
            (#[trigger] a.sub_sym@[k]) == b.sub_sym@[k]
        } else {
            a.sub_sym@[k] < table.len() && table[a.sub_sym@[k] as int].kind is Terminal
        }
    &&& a.fallback != b.fallback ==> (a.fallback matches Some(f) && f < table.len())
}

/// Changes that add alternatives, set fallbacks, or touch only what no table
/// refers to keep the tables consistent.
pub proof fn lemma_grown_keeps_wf(before: Seq<Symbol>, after: Seq<Symbol>, rules: Seq<Rule>)
    requires
        tables_wf(before, rules),
        after.len() == before.len(),
        forall|s: int| 0 <= s < before.len() ==> symbol_grown(before, before[s], #[trigger] after[s]),
    ensures
        tables_wf(after, rules),
        symbols_kept(before, after),
{
    reveal(tables_wf);
    reveal(symbols_kept);
    assert forall|s: int| 0 <= s < after.len() implies #[trigger] symbol_ok(after, rules, s) by {
        assert(symbol_ok(before, rules, s));
        assert(symbol_grown(before, before[s], after[s]));
        assert forall|k: int| 0 <= k < after[s].sub_sym@.len() implies (
        #[trigger] after[s].sub_sym@[k]) < after.len() && after[after[s].sub_sym@[k] as int].kind is Terminal by {
            let c = after[s].sub_sym@[k] as int;
            if k < before[s].sub_sym@.len() {
                assert(before[s].sub_sym@[k] == c);
            }
            assert(0 <= c < before.len());
            assert(before[c].kind is Terminal);
            assert(symbol_grown(before, before[c], after[c]));
        }
    }
    assert forall|q: int| 0 <= q < rules.len() implies #[trigger] rule_ok(after, rules, q) by {
        assert(rule_ok(before, rules, q));
        let l = rules[q].lhs as int;
        assert(symbol_grown(before, before[l], after[l]));
    }
    assert(names_unique(after)) by {
        assert forall|i: int, j: int|
            0 <= i < j < after.len() && (#[trigger] after[i]).name@ == (#[trigger] after[j]).name@
            implies after[i].name@.len() == 0 by {
            assert(symbol_grown(before, before[i], after[i]));
            assert(symbol_grown(before, before[j], after[j]));
        }
    }
    assert(symbol_grown(before, before[0], after[0]));
    assert(symbol_grown(before, before[1], after[1]));
    assert forall|s: int| 0 <= s < before.len() implies (#[trigger] after[s]).name@
        == before[s].name@ && after[s].kind == before[s].kind by {
        assert(symbol_grown(before, before[s], after[s]));
    }
}

/// Counting one more use of a symbol keeps the tables consistent.
pub proof fn lemma_use_keeps_wf(before: Seq<Symbol>, after: Seq<Symbol>, rules: Seq<Rule>, r: int)
    requires
        tables_wf(before, rules),
        0 <= r < before.len(),
        used_once_more(before, after, r),
    ensures
        tables_wf(after, rules),
        symbols_kept(before, after),
{
    assert forall|s: int| 0 <= s < before.len() implies symbol_grown(
        before,
        before[s],
        #[trigger] after[s],
    ) by {
        if s != r {
            assert(after[s] == before[s]);
        }
    }
    lemma_grown_keeps_wf(before, after, rules);
}

/// Referring to a symbol by name keeps the tables consistent.
pub proof fn lemma_symbol_new_keeps_wf(
    before: Seq<Symbol>,
    after: Seq<Symbol>,
    rules: Seq<Rule>,
    name: Seq<char>,
    kind: SymbolKind,
    r: int,
)
    requires
        tables_wf(before, rules),
        0 <= r <= before.len(),
        r < before.len() ==> used_once_more(before, after, r),
        r == before.len() ==> {
            &&& name.len() > 0 ==> name_unused(before, name)
            &&& after == before.push(after[r])
            &&& is_fresh_symbol(after[r], name, kind)
        },
    ensures
        tables_wf(after, rules),
        plain_name(name) ==> symbols_kept(before, after),
        after.len() >= before.len(),
{
    if r < before.len() {
        lemma_use_keeps_wf(before, after, rules, r);
    } else {
        assert(after.len() == before.len() + 1);
        assert forall|j: int| 0 <= j < before.len() implies after[j] == before[j] by {}
        lemma_push_keeps_wf(before, after, rules, name, kind);
    }
}

/// Adding a rule, and listing it with its left-hand side, keeps the tables
/// consistent.
pub proof fn lemma_add_rule_keeps_wf(
    before: Seq<Symbol>,
    after: Seq<Symbol>,
    rules_before: Seq<Rule>,
    rules_after: Seq<Rule>,
)
    requires
        tables_wf(before, rules_before),
        rules_after.len() == rules_before.len() + 1,
        forall|q: int| 0 <= q < rules_before.len() ==> rules_after[q] == rules_before[q],
        rules_after.last().index == rules_before.len(),
        rules_after.last().lhs < before.len(),
        before[rules_after.last().lhs as int].kind is NonTerminal,
        forall|k: int|
            0 <= k < rules_after.last().rhs@.len() ==> (#[trigger] rules_after.last().rhs@[k]).sym
                < before.len(),
        rules_after.last().prec_sym matches Some(p) ==> p < before.len(),
        after.len() == before.len(),
        forall|s: int|
            0 <= s < before.len() && s != rules_after.last().lhs ==> after[s] == before[s],
        ({
            let l = rules_after.last().lhs as int;
            &&& after[l].name == before[l].name
            &&& after[l].kind == before[l].kind
            &&& after[l].lambda == before[l].lambda
            &&& after[l].first_set == before[l].first_set
            &&& after[l].sub_sym == before[l].sub_sym
            &&& after[l].fallback == before[l].fallback
            &&& after[l].rules@ == before[l].rules@.push(rules_before.len() as usize)
        }),
    ensures
        tables_wf(after, rules_after),
        symbols_kept(before, after),
{
    reveal(tables_wf);
    reveal(symbols_kept);
    let l = rules_after.last().lhs as int;
    let n = rules_before.len() as int;
    assert(rules_after[n] == rules_after.last());
    assert forall|s: int| 0 <= s < after.len() implies #[trigger] symbol_ok(
        after,
        rules_after,
        s,
    ) by {
        assert(symbol_ok(before, rules_before, s));
        assert forall|k: int| 0 <= k < after[s].sub_sym@.len() implies (
        #[trigger] after[s].sub_sym@[k]) < after.len() && after[after[s].sub_sym@[k] as int].kind is Terminal by {
            let c = before[s].sub_sym@[k] as int;
            assert(0 <= c < before.len());
            assert(before[c].kind is Terminal);
        }
        assert forall|k: int| 0 <= k < after[s].rules@.len() implies (
        #[trigger] after[s].rules@[k]) < rules_after.len() && rules_after[after[s].rules@[k] as int].lhs
            == s by {
            if s == l && k == before[l].rules@.len() {
            } else {
                assert(before[s].rules@[k] < rules_before.len());
            }
        }
    }
    assert forall|q: int| 0 <= q < rules_after.len() implies #[trigger] rule_ok(
        after,
        rules_after,
        q,
    ) by {
        if q < n {
            assert(rule_ok(before, rules_before, q));
            let ql = rules_before[q].lhs as int;
            let w = choose|w: int|
                0 <= w < before[ql].rules@.len() && before[ql].rules@[w] == q as usize;
            assert(after[ql].rules@[w] == q as usize);
        } else {
            assert(after[l].rules@[before[l].rules@.len() as int] == n as usize);
        }
    }
    assert(names_unique(after)) by {
        assert forall|i: int, j: int|
            0 <= i < j < after.len() && (#[trigger] after[i]).name@ == (#[trigger] after[j]).name@
            implies after[i].name@.len() == 0 by {
            assert(after[i].name == before[i].name);
            assert(after[j].name == before[j].name);
        }
    }
}

/// Adding a symbol that refers to nothing, under a name that is new or
/// empty, keeps the tables consistent.
pub proof fn lemma_push_keeps_wf(
    before: Seq<Symbol>,
    after: Seq<Symbol>,
    rules: Seq<Rule>,
    name: Seq<char>,
    kind: SymbolKind,
)
    requires
        tables_wf(before, rules),
        name.len() > 0 ==> name_unused(before, name),
        after.len() == before.len() + 1,
        forall|j: int| 0 <= j < before.len() ==> after[j] == before[j],
        is_fresh_symbol(after[before.len() as int], name, kind),
    ensures
        tables_wf(after, rules),
        plain_name(name) ==> symbols_kept(before, after),
{
    reveal(tables_wf);
    reveal(symbols_kept);
    assert forall|s: int| 0 <= s < after.len() implies #[trigger] symbol_ok(after, rules, s) by {
        if s < before.len() {
            assert(symbol_ok(before, rules, s));
            assert(after[s] == before[s]);
            assert forall|k: int| 0 <= k < after[s].sub_sym@.len() implies (
            #[trigger] after[s].sub_sym@[k]) < after.len() && after[after[s].sub_sym@[k] as int].kind is Terminal by {
                let c = before[s].sub_sym@[k] as int;
                assert(0 <= c < before.len());
                assert(before[c].kind is Terminal);
                assert(after[c] == before[c]);
            }
        }
    }
    assert forall|q: int| 0 <= q < rules.len() implies #[trigger] rule_ok(after, rules, q) by {
        assert(rule_ok(before, rules, q));
        let l = rules[q].lhs as int;
        assert(after[l] == before[l]);
    }
    assert(names_unique(after)) by {
        assert forall|i: int, j: int|
            0 <= i < j < after.len() && (#[trigger] after[i]).name@ == (#[trigger] after[j]).name@
            implies after[i].name@.len() == 0 by {
            assert(after[i] == before[i]);
            if j < before.len() {
                assert(after[j] == before[j]);
            }
        }
    }
    assert(after[0] == before[0]);
    assert(after[1] == before[1]);
}

/// In consistent tables no two symbols share a non-empty name.
pub proof fn lemma_names_unique(symbols: Seq<Symbol>, rules: Seq<Rule>, i: int, j: int)
    requires
        tables_wf(symbols, rules),
        0 <= i < symbols.len(),
        0 <= j < symbols.len(),
        symbols[i].name@ == symbols[j].name@,
        symbols[i].name@.len() > 0,
    ensures
        i == j,
{
    reveal(tables_wf);
    if i < j {
        assert(symbols[i].name@ == symbols[j].name@);
    } else if j < i {
        assert(symbols[j].name@ == symbols[i].name@);
    }
}

/// Consistent tables hold at least the two symbols that every grammar has.
pub proof fn lemma_tables_len(symbols: Seq<Symbol>, rules: Seq<Rule>)
    requires
        tables_wf(symbols, rules),
    ensures
        symbols.len() >= 2,
        symbols[0].kind is Terminal,
        symbols[1].kind is NonTerminal,
{
    reveal(tables_wf);
}

/// What consistency says of one rule.
pub proof fn lemma_rule_ok(symbols: Seq<Symbol>, rules: Seq<Rule>, r: int)
    requires
        tables_wf(symbols, rules),
        0 <= r < rules.len(),
    ensures
        rule_ok(symbols, rules, r),
{
    reveal(tables_wf);
}

/// What consistency says of one symbol.
pub proof fn lemma_symbol_ok(symbols: Seq<Symbol>, rules: Seq<Rule>, s: int)
    requires
        tables_wf(symbols, rules),
        0 <= s < symbols.len(),
    ensures
        symbol_ok(symbols, rules, s),
{
    reveal(tables_wf);
}

/// Rule `b` is rule `a` but for the flags that the passes set: its precedence
/// symbol, whether its left-hand side is the start symbol, and whether it is
/// ever reduced.
pub open spec fn rule_marked(a: Rule, b: Rule) -> bool {
    b == (Rule { prec_sym: b.prec_sym, lhs_start: b.lhs_start, can_reduce: b.can_reduce, ..a })
}

/// Setting flags of rules keeps the tables consistent.
pub proof fn lemma_marked_keeps_wf(symbols: Seq<Symbol>, before: Seq<Rule>, after: Seq<Rule>)
    requires
        tables_wf(symbols, before),
        after.len() == before.len(),
        forall|r: int| 0 <= r < before.len() ==> rule_marked(before[r], #[trigger] after[r]),
        forall|r: int|
            0 <= r < before.len() ==> ((#[trigger] after[r]).prec_sym matches Some(p) ==> p
                < symbols.len()),
    ensures
        tables_wf(symbols, after),
{
    reveal(tables_wf);
    assert forall|s: int| 0 <= s < symbols.len() implies #[trigger] symbol_ok(symbols, after, s) by {
        assert(symbol_ok(symbols, before, s));
        assert forall|k: int| 0 <= k < symbols[s].rules@.len() implies (
        #[trigger] symbols[s].rules@[k]) < after.len() && after[symbols[s].rules@[k] as int].lhs
            == s by {
            let q = symbols[s].rules@[k] as int;
            assert(rule_marked(before[q], after[q]));
        }
    }
    assert forall|q: int| 0 <= q < after.len() implies #[trigger] rule_ok(symbols, after, q) by {
        assert(rule_ok(symbols, before, q));
        assert(rule_marked(before[q], after[q]));
    }
}

/// A table keeps its own symbols.
pub proof fn lemma_kept_refl(a: Seq<Symbol>)
    ensures
        symbols_kept(a, a),
{
    reveal(symbols_kept);
}

/// Keeping names and kinds carries over from step to step.
pub proof fn lemma_kept_trans(a: Seq<Symbol>, b: Seq<Symbol>, c: Seq<Symbol>)
    requires
        symbols_kept(a, b),
        symbols_kept(b, c),
    ensures
        symbols_kept(a, c),
{
    reveal(symbols_kept);
    assert forall|s: int| 0 <= s < a.len() implies (#[trigger] c[s]).name@ == a[s].name@ && c[s].kind
        == a[s].kind by {
        assert(b[s].name@ == a[s].name@);
    }
    assert forall|s: int| a.len() <= s < c.len() implies plain_name((#[trigger] c[s]).name@) by {
        if s < b.len() {
            assert(plain_name(b[s].name@));
            assert(c[s].name@ == b[s].name@);
        }
    }
}

/// A table that keeps the symbols of another is no shorter.
pub proof fn lemma_kept_len(a: Seq<Symbol>, b: Seq<Symbol>)
    requires
        symbols_kept(a, b),
    ensures
        a.len() <= b.len(),
{
    reveal(symbols_kept);
}

/// What keeping says of one symbol.
pub proof fn lemma_kept_at(a: Seq<Symbol>, b: Seq<Symbol>, s: int)
    requires
        symbols_kept(a, b),
        0 <= s < b.len(),
    ensures
        a.len() <= b.len(),
        s < a.len() ==> b[s].name@ == a[s].name@ && b[s].kind == a[s].kind,
        s >= a.len() ==> plain_name(b[s].name@),
{
    reveal(symbols_kept);
}

/// What of a symbol a step of the loading may set.
pub struct Touch {
    pub assoc: bool,
    pub fallback: bool,
    pub data_type: bool,
    pub sub_sym: bool,
    pub rules: bool,
}

/// Nothing of a symbol may be set.
pub open spec fn touch_none() -> Touch {
    Touch { assoc: false, fallback: false, data_type: false, sub_sym: false, rules: false }
}

/// Symbol `b` is symbol `a` but for the count of its uses and for what
/// `t` lets a step set.
pub open spec fn symbol_but(a: Symbol, b: Symbol, t: Touch) -> bool {
    &&& b.name == a.name
    &&& b.index == a.index
    &&& b.kind == a.kind
    &&& b.lambda == a.lambda
    &&& b.first_set == a.first_set
    &&& b.dt_num == a.dt_num
    &&& !t.assoc ==> b.assoc == a.assoc
    &&& !t.fallback ==> b.fallback == a.fallback
    &&& !t.data_type ==> b.data_type == a.data_type
    &&& !t.sub_sym ==> b.sub_sym == a.sub_sym
    &&& !t.rules ==> b.rules == a.rules
}

/// Every symbol of `before` is in `after` what it was, but for the count of
/// its uses and for what `t` lets a step set.
pub open spec fn touched_only(before: Seq<Symbol>, after: Seq<Symbol>, t: Touch) -> bool {
    &&& before.len() <= after.len()
    &&& forall|j: int| 0 <= j < before.len() ==> symbol_but(before[j], #[trigger] after[j], t)
}

/// What two steps leave untouched, both together leave untouched.
pub proof fn lemma_touched_trans(a: Seq<Symbol>, b: Seq<Symbol>, c: Seq<Symbol>, t: Touch)
    requires
        touched_only(a, b, t),
        touched_only(b, c, t),
    ensures
        touched_only(a, c, t),
{
    assert forall|j: int| 0 <= j < a.len() implies symbol_but(a[j], #[trigger] c[j], t) by {
        assert(symbol_but(a[j], b[j], t));
        assert(symbol_but(b[j], c[j], t));
    }
}

/// A step that sets nothing leaves untouched whatever may be set.
pub proof fn lemma_touched_none(a: Seq<Symbol>, b: Seq<Symbol>, t: Touch)
    requires
        touched_only(a, b, touch_none()),
    ensures
        touched_only(a, b, t),
{
    assert forall|j: int| 0 <= j < a.len() implies symbol_but(a[j], #[trigger] b[j], t) by {
        assert(symbol_but(a[j], b[j], touch_none()));
    }
}

} // verus!
