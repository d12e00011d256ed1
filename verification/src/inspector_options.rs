//! Paths into the fields of a struct or an enum, as keys for per-field
//! options.

use vstd::prelude::*;

verus! {

/// Descriptor of a path into a struct/enum. Either a `Field` (`.foo`) or a
/// `VariantField` (`RGBA.r`)
#[derive(Hash, PartialEq, Eq, Clone, Copy, Debug, Structural)]
#[non_exhaustive]
pub enum InspectorTarget {
    Field(usize),
    VariantField { variant_index: usize, field_index: usize },
}

impl InspectorTarget {
    /// The position of the field within its struct or variant.
    pub fn field_index(&self) -> (i: usize)
        ensures
            i == match *self {
                InspectorTarget::Field(f) => f,
                InspectorTarget::VariantField { field_index, .. } => field_index,
            },
    {
        match *self {
            InspectorTarget::Field(f) => f,
            InspectorTarget::VariantField { field_index, .. } => field_index,
        }
    }
}

} // verus!
