//! The declarations from which a grammar is loaded.
//!
//! Everything that the generator only carries along (source positions, type
//! descriptors, code blocks, patterns) is held as an integer handle chosen by
//! the caller. Two type descriptors denote the same type exactly when their
//! handles are equal.

use crate::precedence::Associativity;
use vstd::prelude::*;

verus! {

/// Handle of a place in the grammar's source text.
pub type Span = usize;

/// The span used where no construct of the source is to blame.
pub const CALL_SITE: Span = 0;

/// A name as written in the grammar, with the place where it was written.
#[derive(Clone, Debug)]
pub struct Ident {
    pub name: String,
    pub span: Span,
}

/// A type descriptor: the handle that identifies the type, and the place
/// where it was written.
#[derive(Clone, Copy, Debug, PartialEq, Eq, Structural)]
pub struct TypeRef {
    pub id: usize,
    pub span: Span,
}

/// The enumeration that is to receive one variant per terminal. Only the
/// number of variants it already has matters here.
#[derive(Clone, Copy, Debug, PartialEq, Eq, Structural)]
pub struct TokenEnum {
    pub item: usize,
    pub span: Span,
    pub n_variants: usize,
}

/// One slot of a rule's right-hand side: one name, or several alternative
/// terminals, and the pattern that binds the slot's value.
#[derive(Clone, Debug)]
pub struct RhsSlot {
    pub toks: Vec<Ident>,
    pub alias: Option<usize>,
}

/// One declaration of a grammar.
#[derive(Clone, Debug)]
pub enum Decl {
    Module(Ident),
    Include(Vec<usize>),
    SyntaxError(usize),
    ParseFail(usize),
    Type(Ident, TypeRef),
    Assoc(Associativity, Vec<Ident>),
    DefaultType(TypeRef),
    ExtraArgument(TypeRef),
    Error(TypeRef),
    StartSymbol(Ident),
    Fallback(Ident, Vec<Ident>),
    Wildcard(Ident),
    TokenClass(Ident, Vec<Ident>),
    Token(TokenEnum),
    Rule { lhs: Ident, rhs: Vec<RhsSlot>, action: Option<usize>, prec: Option<Ident> },
}

/// The name begins with an upper-case ASCII letter: it names a terminal.
pub open spec fn is_upper_name(name: Seq<char>) -> bool {
    name.len() > 0 && 'A' <= name[0] && name[0] <= 'Z'
}

/// The name begins with a lower-case ASCII letter: it names a nonterminal.
pub open spec fn is_lower_name(name: Seq<char>) -> bool {
    name.len() > 0 && 'a' <= name[0] && name[0] <= 'z'
}

/// Whether the identifier names a terminal.
pub fn is_uppercase(id: &Ident) -> (b: bool)
    ensures
        b == is_upper_name(id.name@),
{
    if id.name.as_str().unicode_len() == 0 {
        return false;
    }
    let c = id.name.as_str().get_char(0);
    'A' <= c && c <= 'Z'
}

/// Whether the identifier names a nonterminal.
pub fn is_lowercase(id: &Ident) -> (b: bool)
    ensures
        b == is_lower_name(id.name@),
{
    if id.name.as_str().unicode_len() == 0 {
        return false;
    }
    let c = id.name.as_str().get_char(0);
    'a' <= c && c <= 'z'
}

} // verus!
