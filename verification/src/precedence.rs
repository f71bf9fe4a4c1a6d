//! Operator precedence and associativity of terminals.

use std::cmp::Ordering;
use vstd::prelude::*;

verus! {

/// How a terminal groups with itself at equal precedence.
#[derive(Clone, Copy, Debug, PartialEq, Eq, Structural)]
pub enum Associativity {
    Left,
    Right,
    Nonassoc,
}

/// A precedence level together with the associativity declared for it.
#[derive(Clone, Copy, Debug)]
pub struct Precedence(pub i32, pub Associativity);

/// The outcome of comparing two precedences, as a plain integer:
/// negative when the first yields, positive when it wins, zero on a tie that
/// associativity cannot break.
pub open spec fn precedence_order(a: Precedence, b: Precedence) -> int {
    if a.0 < b.0 {
        -1
    } else if a.0 > b.0 {
        1
    } else {
        match a.1 {
            Associativity::Left => -1,
            Associativity::Right => 1,
            Associativity::Nonassoc => 0,
        }
    }
}

/// Compares two precedences: by level first, and at equal level by the
/// associativity of the first.
pub fn precedence_cmp(a: &Precedence, b: &Precedence) -> (o: Ordering)
    ensures
        o == Ordering::Less <==> precedence_order(*a, *b) < 0,
        o == Ordering::Equal <==> precedence_order(*a, *b) == 0,
        o == Ordering::Greater <==> precedence_order(*a, *b) > 0,
{
    if a.0 < b.0 {
        Ordering::Less
    } else if a.0 > b.0 {
        Ordering::Greater
    } else {
        match a.1 {
            Associativity::Left => Ordering::Less,
            Associativity::Right => Ordering::Greater,
            Associativity::Nonassoc => Ordering::Equal,
        }
    }
}

} // verus!
