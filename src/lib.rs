//! Field extraction from delimited text: field specifications become
//! inclusion masks, and masks select the fields of each line.
use vstd::prelude::*;

pub mod cutter;
pub mod header;
pub mod laws;
pub mod mask;
pub mod project;
pub mod text;

verus! {

/// Why a run stops.
#[derive(Debug, Clone, Copy, PartialEq, Eq, Structural)]
pub enum CutError {
    /// A token of the field specification is neither a field number nor a
    /// range `start-end` / `start-` with a start of at least 1.
    InvalidFieldSpec,
    /// A line has fewer fields than the mask that is applied to it.
    FieldCountMismatch { fields: usize, mask: usize },
}

} // verus!
