//! The errors of the calculator's commands.
use vstd::prelude::*;

verus! {

/// What can go wrong in a command. None of these is fatal: the session goes on.
#[derive(Debug, Clone, PartialEq, Eq)]
pub enum Error {
    /// An alias named in a definition is not registered.
    UnknownAlias(String),
    /// A unit or element definition names no alias at all.
    EmptyAliasList,
    /// A unit named in a conversion request is not registered.
    UnknownUnit(String),
    /// An element named in a chemical formula is not registered.
    UnknownElement(String),
    /// The text after `^` is not a signed decimal integer.
    InvalidExponent,
    /// A subscript in a chemical formula does not fit in sixteen bits.
    InvalidSubscript,
    /// A digit appears after the `:` of a request.
    NumberAfterPivot,
    /// A request has no `:`.
    MissingPivot,
    /// The two sides of a request differ in their number of numerator or
    /// denominator units.
    MismatchedQuantityShape,
    /// The conversion takes no step at all, and either some starting unit
    /// found no ending unit to convert to or the request names no unit.
    ImpossibleConversion,
    /// `ans` was used before any conversion succeeded.
    NoPreviousAnswer,
    /// A conversion definition lacks its `=` or its closing `;`.
    MalformedConversion,
    /// A conversion definition relates a unit to itself.
    SelfConversion,
}

} // verus!
