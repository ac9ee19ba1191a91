//! An ordered set of non-overlapping ranges: a thin projection of
//! [`RangeBoundsMap`] that stores the unit value with every range.

use vstd::prelude::*;
use crate::bound_ord::{pos_le, pos_lt, pos_pred, pos_succ, start_pos, end_pos, at_point, Bnd, Pos};
use crate::range_bounds_map::{
    covered_by, covers_range, cover_key, cut_ok_shape, cut_unrepresentable, in_range,
    in_some_gap, insert_index, merge_shape, overwrite_ok_shape, seq_has, touch_left_exists,
    touch_left_key, touch_right_exists, touch_right_key, wf_seq, NiceRange, OverlapError,
    OverlapOrTryFromBoundsError, RangeBoundsMap, TryFromBoundsError,
};
use crate::try_from_bounds::TryFromBounds;
use crate::utils::{overlap, r_end, r_start, valid_range, AnyRange};

verus! {

/// An ordered set of non-overlapping ranges.
#[derive(Clone, Debug, PartialEq)]
pub struct RangeBoundsSet<K> {
    inner: RangeBoundsMap<K, ()>,
}

impl<K> View for RangeBoundsSet<K> {
    type V = Seq<(K, ())>;

    closed spec fn view(&self) -> Seq<(K, ())> {
        self.inner@
    }
}

impl<K: NiceRange> RangeBoundsSet<K> {
    /// The invariants of the set: ranges are valid, sorted ascending by
    /// start endpoint, and no two share a position.
    pub open spec fn wf(&self) -> bool {
        wf_seq(self@)
    }

    /// Makes a new, empty set.
    pub fn new() -> (r: Self)
        ensures
            r@ == Seq::<(K, ())>::empty(),
            r.wf(),
    {
        RangeBoundsSet { inner: RangeBoundsMap::new() }
    }

    /// The number of ranges in the set.
    pub fn len(&self) -> (r: usize)
        ensures
            r == self@.len(),
    {
        self.inner.len()
    }

    /// Whether the set contains no ranges.
    pub fn is_empty(&self) -> (r: bool)
        ensures
            r == (self@.len() == 0),
    {
        self.inner.is_empty()
    }

    /// Whether the given range overlaps any range in the set.
    pub fn overlaps<Q: NiceRange>(&self, range: Q) -> (r: bool)
        requires
            self.wf(),
            valid_range(range),
        ensures
            r == exists|i: int|
                0 <= i < self@.len() && overlap((#[trigger] self@[i]).0, range),
    {
        self.inner.overlaps(range)
    }

    /// Returns every range in the set that overlaps the given one, in
    /// ascending start order.
    pub fn overlapping<Q: NiceRange>(&self, range: Q) -> (r: Vec<K>)
        requires
            self.wf(),
            valid_range(range),
        ensures
            r@ == self@.filter(|e: (K, ())| overlap(e.0, range)).map_values(|e: (K, ())| e.0),
    {
        let entries = self.inner.overlapping(range);
        keys_of(entries)
    }

    /// Whether the set contains a range holding the given point.
    pub fn contains_point(&self, point: i64) -> (r: bool)
        requires
            self.wf(),
        ensures
            r == covered_by(self@, at_point(point)),
    {
        self.inner.contains_point(point)
    }

    /// Every range of the set, in ascending start order.
    pub fn iter(&self) -> (r: Vec<K>)
        ensures
            r@ == self@.map_values(|e: (K, ())| e.0),
    {
        keys_of(self.inner.iter())
    }

    /// Removes and returns every range that overlaps the given one, in
    /// ascending order.
    pub fn remove_overlapping<Q: NiceRange>(&mut self, range: Q) -> (r: Vec<K>)
        requires
            old(self).wf(),
            valid_range(range),
        ensures
            final(self).wf(),
            r@ == old(self)@.filter(|e: (K, ())| overlap(e.0, range)).map_values(
                |e: (K, ())| e.0,
            ),
            final(self)@ == old(self)@.filter(|e: (K, ())| !overlap(e.0, range)),
    {
        keys_of(self.inner.remove_overlapping(range))
    }

    /// Cuts the given range out of the set and returns the removed
    /// slices, in ascending order; fails, changing nothing, when a
    /// remaining piece cannot be represented by `K`.
    pub fn cut<Q: NiceRange>(&mut self, range: Q) -> (r: Result<Vec<AnyRange>, TryFromBoundsError>)
        where K: TryFromBounds
        requires
            old(self).wf(),
            valid_range(range),
        ensures
            final(self).wf(),
            r is Err <==> cut_unrepresentable::<K, (), Q>(old(self)@, range),
            r is Err ==> final(self)@ == old(self)@,
            r matches Ok(slices) ==> exists|pieces: Seq<(AnyRange, ())>|
                #[trigger] cut_ok_shape(old(self)@, final(self)@, pieces, range) && slices@
                    == pieces.map_values(|e: (AnyRange, ())| e.0),
    {
        match self.inner.cut(range) {
            Err(e) => Err(e),
            Ok(pieces) => {
                let ghost piecesv = pieces@;
                let slices = keys_of(pieces);
                proof {
                    assert(slices@ == piecesv.map_values(|e: (AnyRange, ())| e.0));
                }
                Ok(slices)
            },
        }
    }

    /// Enumerates, in ascending order, the maximal ranges within
    /// `outer_range` that share no position with any range of the set.
    pub fn gaps<Q: NiceRange>(&self, outer_range: Q) -> (r: Vec<AnyRange>)
        requires
            self.wf(),
            valid_range(outer_range),
        ensures
            forall|g: int| 0 <= g < r@.len() ==> valid_range(#[trigger] r@[g]),
            forall|g: int|
                0 <= g < r@.len() ==> pos_le(r_start(outer_range), r_start(#[trigger] r@[g]))
                    && pos_le(r_end(#[trigger] r@[g]), r_end(outer_range)),
            forall|g: int, p: Pos|
                0 <= g < r@.len() && #[trigger] in_range(r@[g], p) ==> !covered_by(self@, p),
            forall|p: Pos|
                in_range(outer_range, p) && !covered_by(self@, p) ==> #[trigger] in_some_gap(
                    r@,
                    p,
                ),
            forall|g: int|
                0 < g < r@.len() ==> pos_lt(r_end(r@[g - 1]), r_start(#[trigger] r@[g])),
            forall|g: int|
                0 <= g < r@.len() ==> (r_start(#[trigger] r@[g]) == r_start(outer_range)
                    || covered_by(self@, pos_pred(r_start(r@[g])))),
            forall|g: int|
                0 <= g < r@.len() ==> (r_end(#[trigger] r@[g]) == r_end(outer_range)
                    || covered_by(self@, pos_succ(r_end(r@[g])))),
    {
        self.inner.gaps(outer_range)
    }

    /// Whether the set holds every position of the given range.
    pub fn contains_range<Q: NiceRange>(&self, range: Q) -> (r: bool)
        requires
            self.wf(),
            valid_range(range),
        ensures
            r == covers_range(self@, range),
    {
        self.inner.contains_range(range)
    }

    /// Adds a new range without touching any other; fails, changing
    /// nothing, when it overlaps a stored range.
    pub fn insert_strict(&mut self, range: K) -> (r: Result<(), OverlapError>)
        requires
            old(self).wf(),
            valid_range(range),
        ensures
            final(self).wf(),
            r is Err <==> exists|i: int|
                0 <= i < old(self)@.len() && overlap((#[trigger] old(self)@[i]).0, range),
            r is Err ==> final(self)@ == old(self)@,
            r is Ok ==> final(self)@ == old(self)@.insert(
                insert_index(old(self)@, range),
                (range, ()),
            ),
    {
        self.inner.insert_strict(range, ())
    }

    /// Adds a new range and merges it with the stored ranges that touch
    /// it.  Fails with an overlap error when the given range overlaps a
    /// stored one, and with a representability error when the merged
    /// endpoints cannot be represented by `K`; either way the set is
    /// unchanged.
    pub fn insert_merge_touching(&mut self, range: K) -> (r: Result<
        K,
        OverlapOrTryFromBoundsError,
    >)
        where K: TryFromBounds
        requires
            old(self).wf(),
            valid_range(range),
        ensures
            final(self).wf(),
            r == Err::<K, OverlapOrTryFromBoundsError>(
                OverlapOrTryFromBoundsError::Overlap(OverlapError),
            ) <==> exists|i: int|
                0 <= i < old(self)@.len() && overlap((#[trigger] old(self)@[i]).0, range),
            r is Err ==> final(self)@ == old(self)@,
            ({
                let ms = if touch_left_exists(old(self)@, range.spec_start()) {
                    touch_left_key(old(self)@, range.spec_start()).spec_start()
                } else {
                    range.spec_start()
                };
                let me = if touch_right_exists(old(self)@, range.spec_end()) {
                    touch_right_key(old(self)@, range.spec_end()).spec_end()
                } else {
                    range.spec_end()
                };
                &&& (!exists|i: int|
                    0 <= i < old(self)@.len() && overlap((#[trigger] old(self)@[i]).0, range))
                    ==> (r == Err::<K, OverlapOrTryFromBoundsError>(
                    OverlapOrTryFromBoundsError::TryFromBounds(TryFromBoundsError),
                ) <==> !K::representable(ms, me))
                &&& (r matches Ok(k) ==> k.spec_start() == ms && k.spec_end() == me
                    && merge_shape(old(self)@, final(self)@, k, ()))
            }),
    {
        self.inner.insert_merge_touching(range, ())
    }

    /// Adds a new range and merges it with the stored ranges that
    /// overlap it.  Fails, changing nothing, when the merged endpoints
    /// cannot be represented by `K`.
    pub fn insert_merge_overlapping(&mut self, range: K) -> (r: Result<K, TryFromBoundsError>)
        where K: TryFromBounds
        requires
            old(self).wf(),
            valid_range(range),
        ensures
            final(self).wf(),
            r is Err ==> final(self)@ == old(self)@,
            ({
                let ms = if covered_by(old(self)@, r_start(range)) {
                    cover_key(old(self)@, r_start(range)).spec_start()
                } else {
                    range.spec_start()
                };
                let me = if covered_by(old(self)@, r_end(range)) {
                    cover_key(old(self)@, r_end(range)).spec_end()
                } else {
                    range.spec_end()
                };
                &&& (r is Err <==> !K::representable(ms, me))
                &&& (r matches Ok(k) ==> k.spec_start() == ms && k.spec_end() == me
                    && merge_shape(old(self)@, final(self)@, k, ()))
            }),
    {
        self.inner.insert_merge_overlapping(range, ())
    }

    /// Adds a new range and merges it with the stored ranges that touch
    /// or overlap it.  Fails, changing nothing, when the merged
    /// endpoints cannot be represented by `K`.
    pub fn insert_merge_touching_or_overlapping(&mut self, range: K) -> (r: Result<
        K,
        TryFromBoundsError,
    >)
        where K: TryFromBounds
        requires
            old(self).wf(),
            valid_range(range),
        ensures
            final(self).wf(),
            r is Err ==> final(self)@ == old(self)@,
            ({
                let ms = if touch_left_exists(old(self)@, range.spec_start()) {
                    touch_left_key(old(self)@, range.spec_start()).spec_start()
                } else if covered_by(old(self)@, r_start(range)) {
                    cover_key(old(self)@, r_start(range)).spec_start()
                } else {
                    range.spec_start()
                };
                let me = if touch_right_exists(old(self)@, range.spec_end()) {
                    touch_right_key(old(self)@, range.spec_end()).spec_end()
                } else if covered_by(old(self)@, r_end(range)) {
                    cover_key(old(self)@, r_end(range)).spec_end()
                } else {
                    range.spec_end()
                };
                &&& (r is Err <==> !K::representable(ms, me))
                &&& (r matches Ok(k) ==> k.spec_start() == ms && k.spec_end() == me
                    && merge_shape(old(self)@, final(self)@, k, ()))
            }),
    {
        self.inner.insert_merge_touching_or_overlapping(range, ())
    }

    /// Adds a new range, overwriting the overlapped parts of stored
    /// ranges.
    pub fn insert_overwrite(&mut self, range: K) -> (r: Result<(), TryFromBoundsError>)
        where K: TryFromBounds
        requires
            old(self).wf(),
            valid_range(range),
        ensures
            final(self).wf(),
            r is Err <==> cut_unrepresentable::<K, (), K>(old(self)@, range),
            r is Err ==> final(self)@ == old(self)@,
            r is Ok ==> overwrite_ok_shape(old(self)@, final(self)@, range, ()),
    {
        self.inner.insert_overwrite(range, ())
    }

    /// The range with the least start endpoint, if any.
    pub fn first(&self) -> (r: Option<K>)
        ensures
            self@.len() == 0 ==> r is None,
            self@.len() > 0 ==> r == Some(self@[0].0),
    {
        match self.inner.first_entry() {
            Some(e) => Some(e.0),
            None => None,
        }
    }

    /// The range with the greatest start endpoint, if any.
    pub fn last(&self) -> (r: Option<K>)
        ensures
            self@.len() == 0 ==> r is None,
            self@.len() > 0 ==> r == Some(self@[self@.len() - 1].0),
    {
        match self.inner.last_entry() {
            Some(e) => Some(e.0),
            None => None,
        }
    }

    /// Builds a set from the given ranges via strict insertion, failing
    /// on the first overlap.
    pub fn from_slice_strict(slice: Vec<K>) -> (r: Result<RangeBoundsSet<K>, OverlapError>)
        requires
            forall|i: int| 0 <= i < slice@.len() ==> valid_range(#[trigger] slice@[i]),
        ensures
            r is Err <==> exists|i: int, j: int|
                0 <= i < j < slice@.len() && overlap(
                    #[trigger] slice@[i],
                    #[trigger] slice@[j],
                ),
            r matches Ok(s) ==> {
                &&& s.wf()
                &&& s@.len() == slice@.len()
                &&& (forall|j: int|
                    0 <= j < slice@.len() ==> seq_has(s@, ((#[trigger] slice@[j]), ())))
                &&& (forall|a: int| 0 <= a < s@.len() ==> seq_has(slice@, (#[trigger] s@[a]).0))
            },
    {
        let mut entries: Vec<(K, ())> = Vec::new();
        let n = slice.len();
        let mut i: usize = 0;
        while i < n
            invariant
                n == slice@.len(),
                0 <= i <= n,
                forall|j: int| 0 <= j < slice@.len() ==> valid_range(#[trigger] slice@[j]),
                entries@.len() == i as int,
                forall|j: int| 0 <= j < i ==> (#[trigger] entries@[j]) == (slice@[j], ()),
            decreases n - i,
        {
            entries.push((slice[i], ()));
            i = i + 1;
        }
        match RangeBoundsMap::from_slice_strict(entries) {
            Ok(m) => {
                proof {
                    assert forall|j: int| 0 <= j < slice@.len() implies seq_has(
                        m@,
                        ((#[trigger] slice@[j]), ()),
                    ) by {
                        assert(seq_has(m@, entries@[j]));
                        assert(entries@[j] == (slice@[j], ()));
                    }
                    assert forall|a: int| 0 <= a < m@.len() implies seq_has(
                        slice@,
                        (#[trigger] m@[a]).0,
                    ) by {
                        assert(seq_has(entries@, m@[a]));
                        let j = choose|j: int|
                            0 <= j < entries@.len() && (#[trigger] entries@[j]) == m@[a];
                        assert(slice@[j] == m@[a].0);
                    }
                    if exists|i2: int, j2: int|
                        0 <= i2 < j2 < slice@.len() && overlap(
                            #[trigger] slice@[i2],
                            #[trigger] slice@[j2],
                        ) {
                        let (a, b) = choose|a: int, b: int|
                            0 <= a < b < slice@.len() && overlap(
                                #[trigger] slice@[a],
                                #[trigger] slice@[b],
                            );
                        assert(overlap(entries@[a].0, entries@[b].0));
                        assert(false);
                    }
                }
                Ok(RangeBoundsSet { inner: m })
            },
            Err(e) => {
                proof {
                    let (a, b) = choose|a: int, b: int|
                        0 <= a < b < entries@.len() && overlap(
                            (#[trigger] entries@[a]).0,
                            (#[trigger] entries@[b]).0,
                        );
                    assert(overlap(slice@[a], slice@[b]));
                }
                Err(e)
            },
        }
    }
}

// Helper functions ==========================

/// The first component of a pair.
pub fn first<A, B>(pair: (A, B)) -> (r: A)
    ensures
        r == pair.0,
{
    pair.0
}

/// Projects the keys out of an entry list.
fn keys_of<A: Copy, B>(entries: Vec<(A, B)>) -> (r: Vec<A>)
    ensures
        r@ == entries@.map_values(|e: (A, B)| e.0),
{
    let n = entries.len();
    let mut out: Vec<A> = Vec::new();
    let mut i: usize = 0;
    while i < n
        invariant
            n == entries@.len(),
            0 <= i <= n,
            out@.len() == i as int,
            forall|j: int| 0 <= j < i ==> (#[trigger] out@[j]) == entries@[j].0,
        decreases n - i,
    {
        out.push(entries[i].0);
        i = i + 1;
    }
    proof {
        assert(out@ =~= entries@.map_values(|e: (A, B)| e.0));
    }
    out
}

} // verus!
