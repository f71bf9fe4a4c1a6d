//! The ways in which loading or building a grammar fails.

use crate::decl::Span;
use vstd::prelude::*;

verus! {

/// The broad kind of a failure.
#[derive(Clone, Copy, Debug, PartialEq, Eq, Structural)]
pub enum ErrorKind {
    BadIdentifier,
    DuplicateDirective,
    BadFallbackType,
    StartOnRhs,
    EmptyNonterminal,
    UnreachableRule,
    Conflicts,
    WildcardTyped,
    TokenEnumNonEmpty,
    CompoundTokenTypeMismatch,
    /// The tables would not fit the numbers that hold them.
    TooLarge,
}

/// What exactly went wrong.
#[derive(Clone, Copy, Debug, PartialEq, Eq, Structural)]
pub enum Fault {
    SymbolNotAscii,
    TypeAlreadyDefined,
    PrecedenceOnNonTerminal,
    PrecedenceAlreadyGiven,
    DefaultTypeAlreadyDefined,
    ExtraArgumentAlreadyDefined,
    ErrorTypeAlreadyDefined,
    StartAlreadyDefined,
    StartNotNonTerminal,
    FallbackNotToken,
    FallbackAlreadyAssigned,
    WildcardAlreadyDefined,
    WildcardNotToken,
    TokenClassNotClass,
    TokenClassMemberNotToken,
    TokenRedeclared,
    LhsNotNonTerminal,
    RhsInvalidToken,
    CompoundWithNonTerminal,
    PrecedenceSymbolNotTerminal,
    StartOnRhs,
    NonterminalWithoutRules,
    RuleNeverReduced,
    ParsingConflicts,
    WildcardHasType,
    WildcardHasAlias,
    TokenEnumNotEmpty,
    FallbackTypeMismatch,
    CompoundTypeMismatch,
    TablesTooLarge,
}

/// A failure, with the place in the source that is to blame.
#[derive(Clone, Copy, Debug, PartialEq, Eq, Structural)]
pub struct Error {
    pub fault: Fault,
    pub span: Span,
}

/// The kind under which a fault is reported.
pub open spec fn kind_of(fault: Fault) -> ErrorKind {
    match fault {
        Fault::SymbolNotAscii
        | Fault::PrecedenceOnNonTerminal
        | Fault::StartNotNonTerminal
        | Fault::FallbackNotToken
        | Fault::WildcardNotToken
        | Fault::TokenClassNotClass
        | Fault::TokenClassMemberNotToken
        | Fault::LhsNotNonTerminal
        | Fault::RhsInvalidToken
        | Fault::CompoundWithNonTerminal
        | Fault::PrecedenceSymbolNotTerminal => ErrorKind::BadIdentifier,
        Fault::TypeAlreadyDefined
        | Fault::PrecedenceAlreadyGiven
        | Fault::DefaultTypeAlreadyDefined
        | Fault::ExtraArgumentAlreadyDefined
        | Fault::ErrorTypeAlreadyDefined
        | Fault::StartAlreadyDefined
        | Fault::FallbackAlreadyAssigned
        | Fault::WildcardAlreadyDefined
        | Fault::TokenRedeclared => ErrorKind::DuplicateDirective,
        Fault::StartOnRhs => ErrorKind::StartOnRhs,
        Fault::NonterminalWithoutRules => ErrorKind::EmptyNonterminal,
        Fault::RuleNeverReduced => ErrorKind::UnreachableRule,
        Fault::ParsingConflicts => ErrorKind::Conflicts,
        Fault::WildcardHasType | Fault::WildcardHasAlias => ErrorKind::WildcardTyped,
        Fault::TokenEnumNotEmpty => ErrorKind::TokenEnumNonEmpty,
        Fault::FallbackTypeMismatch => ErrorKind::BadFallbackType,
        Fault::CompoundTypeMismatch => ErrorKind::CompoundTokenTypeMismatch,
        Fault::TablesTooLarge => ErrorKind::TooLarge,
    }
}

impl Error {
    /// A failure of the given sort at the given place.
    pub fn new(fault: Fault, span: Span) -> (e: Error)
        ensures
            e == (Error { fault, span }),
    {
        Error { fault, span }
    }

    /// The kind under which this failure is reported.
    pub fn kind(&self) -> (k: ErrorKind)
        ensures
            k == kind_of(self.fault),
    {
        match self.fault {
            Fault::SymbolNotAscii
            | Fault::PrecedenceOnNonTerminal
            | Fault::StartNotNonTerminal
            | Fault::FallbackNotToken
            | Fault::WildcardNotToken
            | Fault::TokenClassNotClass
            | Fault::TokenClassMemberNotToken
            | Fault::LhsNotNonTerminal
            | Fault::RhsInvalidToken
            | Fault::CompoundWithNonTerminal
            | Fault::PrecedenceSymbolNotTerminal => ErrorKind::BadIdentifier,
            Fault::TypeAlreadyDefined
            | Fault::PrecedenceAlreadyGiven
            | Fault::DefaultTypeAlreadyDefined
            | Fault::ExtraArgumentAlreadyDefined
            | Fault::ErrorTypeAlreadyDefined
            | Fault::StartAlreadyDefined
            | Fault::FallbackAlreadyAssigned
            | Fault::WildcardAlreadyDefined
            | Fault::TokenRedeclared => ErrorKind::DuplicateDirective,
            Fault::StartOnRhs => ErrorKind::StartOnRhs,
            Fault::NonterminalWithoutRules => ErrorKind::EmptyNonterminal,
            Fault::RuleNeverReduced => ErrorKind::UnreachableRule,
            Fault::ParsingConflicts => ErrorKind::Conflicts,
            Fault::WildcardHasType | Fault::WildcardHasAlias => ErrorKind::WildcardTyped,
            Fault::TokenEnumNotEmpty => ErrorKind::TokenEnumNonEmpty,
            Fault::FallbackTypeMismatch => ErrorKind::BadFallbackType,
            Fault::CompoundTypeMismatch => ErrorKind::CompoundTokenTypeMismatch,
            Fault::TablesTooLarge => ErrorKind::TooLarge,
        }
    }
}

} // verus!
