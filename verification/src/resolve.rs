//! Resolving two actions on one lookahead by precedence.

use crate::config::EAction;
use crate::precedence::{precedence_cmp, precedence_order, Precedence};
use std::cmp::Ordering;
use vstd::prelude::*;

verus! {

/// What becomes of two actions on the same lookahead, the first of which
/// comes first in the order of actions, and whether they are in conflict.
///
/// `px` is the precedence of the first action (of the lookahead, for a shift;
/// of the rule, for a reduce) and `py` that of the second.
pub open spec fn resolution(
    px: Option<Precedence>,
    py: Option<Precedence>,
    x: EAction,
    y: EAction,
) -> (EAction, EAction, bool) {
    match (x, y) {
        (EAction::Shift(a), EAction::Shift(b)) => (EAction::Shift(a), EAction::SSConflict(b), true),
        (EAction::Shift(a), EAction::Reduce(r)) => match (px, py) {
            (Some(p), Some(q)) => if precedence_order(p, q) < 0 {
                (EAction::SHResolved(a), EAction::Reduce(r), false)
            } else if precedence_order(p, q) == 0 {
                (EAction::Error, EAction::Error, false)
            } else {
                (EAction::Shift(a), EAction::RDResolved(r), false)
            },
            _ => (EAction::Shift(a), EAction::SRConflict(r), true),
        },
        (EAction::Reduce(a), EAction::Reduce(b)) => match (px, py) {
            (Some(p), Some(q)) => if p.0 < q.0 {
                (EAction::RDResolved(a), EAction::Reduce(b), false)
            } else if p.0 == q.0 {
                (EAction::Reduce(a), EAction::RRConflict(b), true)
            } else {
                (EAction::Reduce(a), EAction::RDResolved(b), false)
            },
            _ => (EAction::Reduce(a), EAction::RRConflict(b), true),
        },
        _ => (x, y, false),
    }
}

/// Resolves two actions on the same lookahead.
///
/// Two shifts are in conflict. A shift and a reduce are decided by
/// precedence: the higher one stays and the other is marked as resolved; at
/// equal level a left-associative lookahead yields to the reduce, a
/// right-associative one wins, and without associativity both become errors.
/// Two reduces are decided by the levels of their rules alone: the higher
/// one stays, and at equal level the first stays and the second is in
/// conflict. Where a precedence is missing there is a conflict.
/// Any other pair is left alone.
pub fn resolve(px: Option<Precedence>, py: Option<Precedence>, x: EAction, y: EAction) -> (r: (
    EAction,
    EAction,
    bool,
))
    ensures
        r == resolution(px, py, x, y),
{
    match (x, y) {
        (EAction::Shift(a), EAction::Shift(b)) => (EAction::Shift(a), EAction::SSConflict(b), true),
        (EAction::Shift(a), EAction::Reduce(r)) => match (px, py) {
            (Some(p), Some(q)) => match precedence_cmp(&p, &q) {
                Ordering::Less => (EAction::SHResolved(a), EAction::Reduce(r), false),
                Ordering::Equal => (EAction::Error, EAction::Error, false),
                Ordering::Greater => (EAction::Shift(a), EAction::RDResolved(r), false),
            },
            _ => (EAction::Shift(a), EAction::SRConflict(r), true),
        },
        (EAction::Reduce(a), EAction::Reduce(b)) => match (px, py) {
            (Some(p), Some(q)) => if p.0 < q.0 {
                (EAction::RDResolved(a), EAction::Reduce(b), false)
            } else if p.0 == q.0 {
                (EAction::Reduce(a), EAction::RRConflict(b), true)
            } else {
                (EAction::Reduce(a), EAction::RDResolved(b), false)
            },
            _ => (EAction::Reduce(a), EAction::RRConflict(b), true),
        },
        _ => (x, y, false),
    }
}

} // verus!
