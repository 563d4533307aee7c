use vstd::prelude::*;

verus! {

/// Why one raw text field could not be read.
#[derive(Clone, Debug, PartialEq, Eq)]
pub enum ParseError {
    /// The unit suffix is not in the unit table; it carries the suffix.
    UnknownUnit(String),
    /// A percentage is not a decimal followed by `%`.
    MalformedPercent,
    /// The number in front of a size's unit is not decimal text.
    MalformedSize,
    /// A size pair does not split into exactly two parts around `" / "`.
    MalformedPair,
    /// A process count is not an unsigned integer.
    MalformedCount,
}

} // verus!
