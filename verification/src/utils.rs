//! Range primitives: validity, overlap, and the three-way split of a base
//! range by a cut range.

use vstd::prelude::*;
use crate::bound_ord::{
    end_pos, flip, flip_bound, pos_le, pos_le_bnd, pos_lt, pos_lt_bnd, start_pos, Bnd, Pos,
};
use crate::range_bounds_map::NiceRange;

verus! {

/// An explicit endpoint pair: the range shape that can represent every
/// combination of endpoints.  Cut pieces and gaps are reported in this
/// shape, because a piece may not be representable by the key type of the
/// map it was cut from.
#[derive(Clone, Copy, PartialEq, Eq, Structural, Debug)]
pub struct AnyRange {
    pub start: Bnd,
    pub end: Bnd,
}

impl NiceRange for AnyRange {
    open spec fn spec_start(&self) -> Bnd {
        self.start
    }

    open spec fn spec_end(&self) -> Bnd {
        self.end
    }

    fn start(&self) -> (r: Bnd) {
        self.start
    }

    fn end(&self) -> (r: Bnd) {
        self.end
    }
}

/// The start position of a range.
pub open spec fn r_start<K: NiceRange>(k: K) -> Pos {
    start_pos(k.spec_start())
}

/// The end position of a range.
pub open spec fn r_end<K: NiceRange>(k: K) -> Pos {
    end_pos(k.spec_end())
}

/// The endpoint pair of a range.
pub open spec fn pair_of<K: NiceRange>(k: K) -> AnyRange {
    AnyRange { start: k.spec_start(), end: k.spec_end() }
}

/// A range is valid when its start position does not lie after its end
/// position.  At a single point this admits only the doubly included
/// shape.
pub open spec fn valid_range<K: NiceRange>(k: K) -> bool {
    pos_le(r_start(k), r_end(k))
}

/// Two ranges overlap when they share at least one position.
pub open spec fn overlap<A: NiceRange, B: NiceRange>(a: A, b: B) -> bool {
    pos_le(r_start(a), r_end(b)) && pos_le(r_start(b), r_end(a))
}

/// Whether `range` is a valid range.
pub fn is_valid_range<K: NiceRange>(range: K) -> (r: bool)
    ensures
        r == valid_range(range),
{
    pos_le_bnd(range.start(), true, range.end(), false)
}

/// Whether `a` and `b` overlap.
pub fn overlaps<A: NiceRange, B: NiceRange>(a: A, b: B) -> (r: bool)
    ensures
        r == overlap(a, b),
{
    pos_le_bnd(a.start(), true, b.end(), false) && pos_le_bnd(b.start(), true, a.end(), false)
}

/// Of two start endpoints, the one at the higher position.
pub open spec fn max_start(a: Bnd, b: Bnd) -> Bnd {
    if pos_le(start_pos(a), start_pos(b)) {
        b
    } else {
        a
    }
}

/// Of two end endpoints, the one at the lower position.
pub open spec fn min_end(a: Bnd, b: Bnd) -> Bnd {
    if pos_le(end_pos(a), end_pos(b)) {
        a
    } else {
        b
    }
}

/// Exec counterpart of [`max_start`].
pub fn max_start_exec(a: Bnd, b: Bnd) -> (r: Bnd)
    ensures
        r == max_start(a, b),
{
    if pos_le_bnd(a, true, b, true) {
        b
    } else {
        a
    }
}

/// Exec counterpart of [`min_end`].
pub fn min_end_exec(a: Bnd, b: Bnd) -> (r: Bnd)
    ensures
        r == min_end(a, b),
{
    if pos_le_bnd(a, false, b, false) {
        a
    } else {
        b
    }
}

/// The part of `base` that lies inside `cut`, as a total function of the
/// endpoints.
pub open spec fn inside_cut_of<K: NiceRange, Q: NiceRange>(base: K, cut: Q) -> AnyRange {
    AnyRange {
        start: max_start(base.spec_start(), cut.spec_start()),
        end: min_end(base.spec_end(), cut.spec_end()),
    }
}

/// The part of `base` that lies strictly before `cut`, if any.
pub open spec fn spec_before_cut<K: NiceRange, Q: NiceRange>(base: K, cut: Q) -> Option<AnyRange> {
    if pos_lt(r_start(base), r_start(cut)) {
        Some(AnyRange { start: base.spec_start(), end: min_end(flip(cut.spec_start()), base.spec_end()) })
    } else {
        None
    }
}

/// The part of `base` that lies inside `cut`, if any.
pub open spec fn spec_inside_cut<K: NiceRange, Q: NiceRange>(base: K, cut: Q) -> Option<AnyRange> {
    if overlap(base, cut) {
        Some(
            AnyRange {
                start: max_start(base.spec_start(), cut.spec_start()),
                end: min_end(base.spec_end(), cut.spec_end()),
            },
        )
    } else {
        None
    }
}

/// The part of `base` that lies strictly after `cut`, if any.
pub open spec fn spec_after_cut<K: NiceRange, Q: NiceRange>(base: K, cut: Q) -> Option<AnyRange> {
    if pos_lt(r_end(cut), r_end(base)) {
        Some(AnyRange { start: max_start(flip(cut.spec_end()), base.spec_start()), end: base.spec_end() })
    } else {
        None
    }
}

/// The three-way split of a base range by a cut range.
#[derive(Clone, Copy, PartialEq, Eq, Structural, Debug)]
pub struct CutResult {
    pub before_cut: Option<AnyRange>,
    pub inside_cut: Option<AnyRange>,
    pub after_cut: Option<AnyRange>,
}

/// Splits `base` into the pieces before, inside and after `cut`.  Each
/// piece that is produced is a valid range, and together the pieces cover
/// exactly the positions of `base`, the inside piece holding those that
/// `cut` also holds.
pub fn cut_range<K: NiceRange, Q: NiceRange>(base: K, cut: Q) -> (r: CutResult)
    requires
        valid_range(base),
        valid_range(cut),
    ensures
        r.before_cut == spec_before_cut(base, cut),
        r.inside_cut == spec_inside_cut(base, cut),
        r.after_cut == spec_after_cut(base, cut),
        r.before_cut matches Some(p) ==> valid_range(p),
        r.inside_cut matches Some(p) ==> valid_range(p),
        r.after_cut matches Some(p) ==> valid_range(p),
{
    let before_cut: Option<AnyRange> = if pos_lt_bnd(base.start(), true, cut.start(), true) {
        let e = if pos_le_bnd(flip_bound(cut.start()), false, base.end(), false) {
            flip_bound(cut.start())
        } else {
            base.end()
        };
        Some(AnyRange { start: base.start(), end: e })
    } else {
        None
    };
    let inside_cut: Option<AnyRange> = if overlaps(base, cut) {
        let s = if pos_le_bnd(base.start(), true, cut.start(), true) {
            cut.start()
        } else {
            base.start()
        };
        let e = if pos_le_bnd(base.end(), false, cut.end(), false) {
            base.end()
        } else {
            cut.end()
        };
        Some(AnyRange { start: s, end: e })
    } else {
        None
    };
    let after_cut: Option<AnyRange> = if pos_lt_bnd(cut.end(), false, base.end(), false) {
        let s = if pos_le_bnd(flip_bound(cut.end()), true, base.start(), true) {
            base.start()
        } else {
            flip_bound(cut.end())
        };
        Some(AnyRange { start: s, end: base.end() })
    } else {
        None
    };
    CutResult { before_cut, inside_cut, after_cut }
}

} // verus!
