//! The failures that a sketch operation can report.
use vstd::prelude::*;

verus! {

/// Why an operation on a sketch was refused.
#[derive(Clone, Copy, Debug, PartialEq, Eq, Structural)]
pub enum SketchError {
    /// A configuration parameter lies outside its permitted range.
    InvalidConfig,
    /// A byte buffer does not hold a well-formed sketch image.
    CorruptData,
}

} // verus!
