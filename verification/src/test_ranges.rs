//! Ready-made range shapes and short constructors for them.
//!
//! [`AnyRange`] can represent every endpoint pair; [`MultiBounds`] only
//! the doubly included and doubly excluded shapes; [`HalfOpen`] only an
//! included start with an excluded end.  The constructors are named by
//! their endpoints: `i` included, `e` excluded, `u` unbounded.

use vstd::prelude::*;
use crate::bound_ord::Bnd;
use crate::range_bounds_map::{NiceRange, TryFromBoundsError};
use crate::try_from_bounds::TryFromBounds;
use crate::utils::AnyRange;

verus! {

/// An included-to-excluded range.
pub fn ie(start: i64, end: i64) -> (r: AnyRange)
    ensures
        r == (AnyRange { start: Bnd::Included(start), end: Bnd::Excluded(end) }),
{
    AnyRange { start: Bnd::Included(start), end: Bnd::Excluded(end) }
}

/// An included-to-included range.
pub fn ii(start: i64, end: i64) -> (r: AnyRange)
    ensures
        r == (AnyRange { start: Bnd::Included(start), end: Bnd::Included(end) }),
{
    AnyRange { start: Bnd::Included(start), end: Bnd::Included(end) }
}

/// An excluded-to-included range.
pub fn ei(start: i64, end: i64) -> (r: AnyRange)
    ensures
        r == (AnyRange { start: Bnd::Excluded(start), end: Bnd::Included(end) }),
{
    AnyRange { start: Bnd::Excluded(start), end: Bnd::Included(end) }
}

/// An excluded-to-excluded range.
pub fn ee(start: i64, end: i64) -> (r: AnyRange)
    ensures
        r == (AnyRange { start: Bnd::Excluded(start), end: Bnd::Excluded(end) }),
{
    AnyRange { start: Bnd::Excluded(start), end: Bnd::Excluded(end) }
}

/// An included-to-unbounded range.
pub fn iu(start: i64) -> (r: AnyRange)
    ensures
        r == (AnyRange { start: Bnd::Included(start), end: Bnd::Unbounded }),
{
    AnyRange { start: Bnd::Included(start), end: Bnd::Unbounded }
}

/// An excluded-to-unbounded range.
pub fn eu(start: i64) -> (r: AnyRange)
    ensures
        r == (AnyRange { start: Bnd::Excluded(start), end: Bnd::Unbounded }),
{
    AnyRange { start: Bnd::Excluded(start), end: Bnd::Unbounded }
}

/// An unbounded-to-included range.
pub fn ui(end: i64) -> (r: AnyRange)
    ensures
        r == (AnyRange { start: Bnd::Unbounded, end: Bnd::Included(end) }),
{
    AnyRange { start: Bnd::Unbounded, end: Bnd::Included(end) }
}

/// An unbounded-to-excluded range.
pub fn ue(end: i64) -> (r: AnyRange)
    ensures
        r == (AnyRange { start: Bnd::Unbounded, end: Bnd::Excluded(end) }),
{
    AnyRange { start: Bnd::Unbounded, end: Bnd::Excluded(end) }
}

/// The range unbounded on both sides.
pub fn uu() -> (r: AnyRange)
    ensures
        r == (AnyRange { start: Bnd::Unbounded, end: Bnd::Unbounded }),
{
    AnyRange { start: Bnd::Unbounded, end: Bnd::Unbounded }
}

/// A bare unbounded endpoint.
pub fn u() -> (r: Bnd)
    ensures
        r == Bnd::Unbounded,
{
    Bnd::Unbounded
}

/// A range shape that can hold only a doubly included or a doubly
/// excluded pair of endpoints.
#[derive(Clone, Copy, PartialEq, Eq, Structural, Debug)]
pub enum MultiBounds {
    Inclusive(i64, i64),
    Exclusive(i64, i64),
}

/// A doubly included [`MultiBounds`] range.
pub fn mii(start: i64, end: i64) -> (r: MultiBounds)
    ensures
        r == MultiBounds::Inclusive(start, end),
{
    MultiBounds::Inclusive(start, end)
}

/// A doubly excluded [`MultiBounds`] range.
pub fn mee(start: i64, end: i64) -> (r: MultiBounds)
    ensures
        r == MultiBounds::Exclusive(start, end),
{
    MultiBounds::Exclusive(start, end)
}

impl NiceRange for MultiBounds {
    open spec fn spec_start(&self) -> Bnd {
        match *self {
            MultiBounds::Inclusive(s, _) => Bnd::Included(s),
            MultiBounds::Exclusive(s, _) => Bnd::Excluded(s),
        }
    }

    open spec fn spec_end(&self) -> Bnd {
        match *self {
            MultiBounds::Inclusive(_, e) => Bnd::Included(e),
            MultiBounds::Exclusive(_, e) => Bnd::Excluded(e),
        }
    }

    fn start(&self) -> (r: Bnd) {
        match *self {
            MultiBounds::Inclusive(s, _) => Bnd::Included(s),
            MultiBounds::Exclusive(s, _) => Bnd::Excluded(s),
        }
    }

    fn end(&self) -> (r: Bnd) {
        match *self {
            MultiBounds::Inclusive(_, e) => Bnd::Included(e),
            MultiBounds::Exclusive(_, e) => Bnd::Excluded(e),
        }
    }
}

impl TryFromBounds for MultiBounds {
    open spec fn representable(start_bound: Bnd, end_bound: Bnd) -> bool {
        match (start_bound, end_bound) {
            (Bnd::Included(_), Bnd::Included(_)) => true,
            (Bnd::Excluded(_), Bnd::Excluded(_)) => true,
            _ => false,
        }
    }

    fn try_from_bounds(start_bound: Bnd, end_bound: Bnd) -> (r: Result<
        Self,
        TryFromBoundsError,
    >) {
        match (start_bound, end_bound) {
            (Bnd::Included(a), Bnd::Included(b)) => Ok(MultiBounds::Inclusive(a, b)),
            (Bnd::Excluded(a), Bnd::Excluded(b)) => Ok(MultiBounds::Exclusive(a, b)),
            _ => Err(TryFromBoundsError),
        }
    }
}

/// A range shape that can hold only an included start with an excluded
/// end.
#[derive(Clone, Copy, PartialEq, Eq, Structural, Debug)]
pub struct HalfOpen {
    pub start: i64,
    pub end: i64,
}

/// An included-to-excluded range in the [`HalfOpen`] shape, which can
/// represent no other.
pub fn ie_strict(start: i64, end: i64) -> (r: HalfOpen)
    ensures
        r == (HalfOpen { start, end }),
{
    HalfOpen { start, end }
}

impl NiceRange for HalfOpen {
    open spec fn spec_start(&self) -> Bnd {
        Bnd::Included(self.start)
    }

    open spec fn spec_end(&self) -> Bnd {
        Bnd::Excluded(self.end)
    }

    fn start(&self) -> (r: Bnd) {
        Bnd::Included(self.start)
    }

    fn end(&self) -> (r: Bnd) {
        Bnd::Excluded(self.end)
    }
}

impl TryFromBounds for HalfOpen {
    open spec fn representable(start_bound: Bnd, end_bound: Bnd) -> bool {
        match (start_bound, end_bound) {
            (Bnd::Included(_), Bnd::Excluded(_)) => true,
            _ => false,
        }
    }

    fn try_from_bounds(start_bound: Bnd, end_bound: Bnd) -> (r: Result<
        Self,
        TryFromBoundsError,
    >) {
        match (start_bound, end_bound) {
            (Bnd::Included(a), Bnd::Excluded(b)) => Ok(HalfOpen { start: a, end: b }),
            _ => Err(TryFromBoundsError),
        }
    }
}

} // verus!
