//! Fallible construction of a range key from an explicit endpoint pair.
//!
//! A key type need not be able to represent every endpoint combination:
//! a half-open type, for instance, can hold only an included start with
//! an excluded end.  Cutting and merging build new endpoint pairs, so the
//! map asks the key type, through this trait, whether a pair can be
//! represented before it mutates anything.

use vstd::prelude::*;
use crate::bound_ord::Bnd;
use crate::range_bounds_map::{NiceRange, TryFromBoundsError};
use crate::utils::AnyRange;

verus! {

/// Fallible construction of `Self` from a start endpoint and an end
/// endpoint.
pub trait TryFromBounds: NiceRange {
    /// Which endpoint pairs this key type can represent.
    spec fn representable(start_bound: Bnd, end_bound: Bnd) -> bool;

    /// Builds the key holding exactly the given endpoints, or reports
    /// that the pair cannot be represented.
    fn try_from_bounds(start_bound: Bnd, end_bound: Bnd) -> (r: Result<Self, TryFromBoundsError>)
        ensures
            r is Ok <==> Self::representable(start_bound, end_bound),
            r matches Ok(k) ==> k.spec_start() == start_bound && k.spec_end() == end_bound,
    ;
}

impl TryFromBounds for AnyRange {
    open spec fn representable(start_bound: Bnd, end_bound: Bnd) -> bool {
        true
    }

    fn try_from_bounds(start_bound: Bnd, end_bound: Bnd) -> (r: Result<Self, TryFromBoundsError>) {
        Ok(AnyRange { start: start_bound, end: end_bound })
    }
}

} // verus!
