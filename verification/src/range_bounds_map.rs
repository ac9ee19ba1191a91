//! An ordered map of non-overlapping ranges.
//!
//! `K` is the range type used as the key, described to the map through
//! [`NiceRange`]; `V` is the value type.  The map keeps its entries in
//! ascending order of start endpoint, and no two stored ranges share a
//! position.

use vstd::prelude::*;
use core::cmp::Ordering;
use crate::bound_ord::{
    at_point, bnds_touch, cmp_pos, flip, flip_bound, lemma_touch_is_adjacency, pos_le,
    pos_le_bnd, pos_lt, pos_lt_bnd, pos_of, pos_pred, pos_succ, start_pos, end_pos, touch,
    Bnd, Pos,
};
use crate::utils::{
    inside_cut_of, max_start, max_start_exec, min_end, min_end_exec, overlap, r_end, r_start,
    valid_range, AnyRange,
};
use crate::try_from_bounds::TryFromBounds;

verus! {

/// The protocol by which the map reads a range key: a start endpoint and
/// an end endpoint, on a type that is cheap to copy.
pub trait NiceRange: Sized + Copy {
    /// The start endpoint, at the specification level.
    spec fn spec_start(&self) -> Bnd;

    /// The end endpoint, at the specification level.
    spec fn spec_end(&self) -> Bnd;

    /// The start endpoint of the range.
    fn start(&self) -> (r: Bnd)
        ensures
            r == self.spec_start(),
    ;

    /// The end endpoint of the range.
    fn end(&self) -> (r: Bnd)
        ensures
            r == self.spec_end(),
    ;
}

/// The protocol by which the map duplicates and compares stored values
/// where an operation splits an entry or merges by value equality.
pub trait StoredValue: Sized {
    /// An exact copy of the value.
    fn dup(&self) -> (r: Self)
        ensures
            r == *self,
    ;

    /// Whether two values are equal.
    fn same(&self, other: &Self) -> (r: bool)
        ensures
            r == (*self == *other),
    ;
}

impl StoredValue for bool {
    fn dup(&self) -> (r: bool)
        ensures
            r == *self,
    {
        *self
    }

    fn same(&self, other: &bool) -> (r: bool)
        ensures
            r == (*self == *other),
    {
        *self == *other
    }
}

impl StoredValue for () {
    fn dup(&self) -> (r: ())
        ensures
            r == *self,
    {
    }

    fn same(&self, other: &()) -> (r: bool)
        ensures
            r == (*self == *other),
    {
        true
    }
}

impl StoredValue for i64 {
    fn dup(&self) -> (r: i64)
        ensures
            r == *self,
    {
        *self
    }

    fn same(&self, other: &i64) -> (r: bool)
        ensures
            r == (*self == *other),
    {
        *self == *other
    }
}

impl StoredValue for u64 {
    fn dup(&self) -> (r: u64)
        ensures
            r == *self,
    {
        *self
    }

    fn same(&self, other: &u64) -> (r: bool)
        ensures
            r == (*self == *other),
    {
        *self == *other
    }
}

/// A range given to an insertion overlaps a range already in the map.
#[derive(Clone, Copy, PartialEq, Eq, Structural, Debug)]
pub struct OverlapError;

/// An endpoint pair produced during a cut or merge cannot be represented
/// by the key type `K`.
#[derive(Clone, Copy, PartialEq, Eq, Structural, Debug)]
pub struct TryFromBoundsError;

/// Either an [`OverlapError`] or a [`TryFromBoundsError`].
#[derive(Clone, Copy, PartialEq, Eq, Structural, Debug)]
pub enum OverlapOrTryFromBoundsError {
    Overlap(OverlapError),
    TryFromBounds(TryFromBoundsError),
}

/// Whether the range `k` holds the position `p`.
pub open spec fn in_range<K: NiceRange>(k: K, p: Pos) -> bool {
    pos_le(r_start(k), p) && pos_le(p, r_end(k))
}

/// The ordering discipline of the entry sequence: every stored range is
/// valid, and each entry ends strictly before the next one starts.
pub open spec fn wf_seq<K: NiceRange, V>(s: Seq<(K, V)>) -> bool {
    &&& forall|i: int| 0 <= i < s.len() ==> valid_range(#[trigger] s[i].0)
    &&& forall|i: int| 0 < i < s.len() ==> pos_lt(r_end(s[i - 1].0), r_start(#[trigger] s[i].0))
}

/// Whether some entry of `s` holds the position `p`.
pub open spec fn covered_by<K: NiceRange, V>(s: Seq<(K, V)>, p: Pos) -> bool {
    exists|i: int| 0 <= i < s.len() && in_range(#[trigger] s[i].0, p)
}

/// In a well-formed sequence, an earlier entry ends strictly before a
/// later entry starts.
pub proof fn lemma_entry_order<K: NiceRange, V>(s: Seq<(K, V)>, i: int, j: int)
    requires
        wf_seq(s),
        0 <= i < j < s.len(),
    ensures
        pos_lt(r_end(s[i].0), r_start(s[j].0)),
    decreases j - i,
{
    if j > i + 1 {
        lemma_entry_order(s, i, j - 1);
    }
}

/// In a well-formed sequence, at most one entry holds any given position.
pub proof fn lemma_cover_unique<K: NiceRange, V>(s: Seq<(K, V)>, i: int, j: int, p: Pos)
    requires
        wf_seq(s),
        0 <= i < s.len(),
        0 <= j < s.len(),
        in_range(s[i].0, p),
        in_range(s[j].0, p),
    ensures
        i == j,
{
    if i < j {
        lemma_entry_order(s, i, j);
    }
    if j < i {
        lemma_entry_order(s, j, i);
    }
}

/// `lo` and `hi` delimit the entries of `s` that overlap the query range
/// from `qs` to `qe`: every entry below `lo` ends before the query
/// starts, every entry from `hi` on starts after the query ends, and
/// every entry in between overlaps the query.
pub open spec fn span_props<K: NiceRange, V>(
    s: Seq<(K, V)>,
    qs: Bnd,
    qe: Bnd,
    lo: int,
    hi: int,
) -> bool {
    &&& 0 <= lo <= hi <= s.len()
    &&& forall|i: int| lo <= i < hi ==> overlap(#[trigger] s[i].0, AnyRange { start: qs, end: qe })
    &&& forall|i: int| 0 <= i < lo ==> pos_lt(r_end(#[trigger] s[i].0), start_pos(qs))
    &&& forall|i: int| hi <= i < s.len() ==> pos_lt(end_pos(qe), r_start(#[trigger] s[i].0))
}

/// The delimiters of the overlapping span are unique.
pub proof fn lemma_span_unique<K: NiceRange, V>(
    s: Seq<(K, V)>,
    qs: Bnd,
    qe: Bnd,
    lo1: int,
    hi1: int,
    lo2: int,
    hi2: int,
)
    requires
        wf_seq(s),
        pos_le(start_pos(qs), end_pos(qe)),
        span_props(s, qs, qe, lo1, hi1),
        span_props(s, qs, qe, lo2, hi2),
    ensures
        lo1 == lo2,
        hi1 == hi2,
{
    let q = AnyRange { start: qs, end: qe };
    if lo1 < lo2 {
        assert(pos_lt(r_end(s[lo1].0), start_pos(qs)));
        assert(lo1 < hi1 || hi1 <= lo1);
        if lo1 < hi1 {
            assert(overlap(s[lo1].0, q));
        } else {
            assert(hi1 <= lo1 < s.len());
            assert(pos_lt(end_pos(qe), r_start(s[lo1].0)));
            assert(valid_range(s[lo1].0));
        }
    }
    if lo2 < lo1 {
        if lo2 < hi2 {
            assert(overlap(s[lo2].0, q));
        } else {
            assert(pos_lt(end_pos(qe), r_start(s[lo2].0)));
            assert(valid_range(s[lo2].0));
        }
    }
    if hi1 < hi2 {
        if lo2 <= hi1 {
            assert(overlap(s[hi1].0, q));
        } else {
            assert(pos_lt(r_end(s[hi1].0), start_pos(qs)));
            assert(valid_range(s[hi1].0));
        }
    }
    if hi2 < hi1 {
        if lo1 <= hi2 {
            assert(overlap(s[hi2].0, q));
        } else {
            assert(pos_lt(r_end(s[hi2].0), start_pos(qs)));
            assert(valid_range(s[hi2].0));
        }
    }
}

/// An ordered map of non-overlapping ranges.
///
/// The entries sit in a vector kept sorted by start endpoint.  An
/// ordered tree navigated through caller-supplied comparator closures
/// could serve instead, but no checkable contract can say what such a
/// search returns without assuming the closure orders the stored keys
/// consistently; holding the ordering discipline as a proved invariant
/// of a plain vector keeps every search verified, at the price of
/// linear instead of logarithmic lookups.
#[derive(Clone, Debug, PartialEq)]
pub struct RangeBoundsMap<K, V> {
    inner: Vec<(K, V)>,
}

impl<K, V> View for RangeBoundsMap<K, V> {
    type V = Seq<(K, V)>;

    closed spec fn view(&self) -> Seq<(K, V)> {
        self.inner@
    }
}

impl<K: NiceRange, V> RangeBoundsMap<K, V> {
    /// The invariants of the map: entries hold valid ranges, are sorted
    /// ascending by start endpoint, and no two share a position.
    pub open spec fn wf(&self) -> bool {
        wf_seq(self@)
    }

    /// Makes a new, empty map.
    pub fn new() -> (r: Self)
        ensures
            r@ == Seq::<(K, V)>::empty(),
            r.wf(),
    {
        RangeBoundsMap { inner: Vec::new() }
    }

    /// The number of ranges in the map.
    pub fn len(&self) -> (r: usize)
        ensures
            r == self@.len(),
    {
        self.inner.len()
    }

    /// Whether the map contains no ranges.
    pub fn is_empty(&self) -> (r: bool)
        ensures
            r == (self@.len() == 0),
    {
        self.inner.len() == 0
    }

    /// Finds the delimiters of the run of entries overlapping the query
    /// range from `qs` to `qe`.
    #[verifier::rlimit(100)]
    fn span(&self, qs: Bnd, qe: Bnd) -> (r: (usize, usize))
        requires
            self.wf(),
            pos_le(start_pos(qs), end_pos(qe)),
        ensures
            span_props(self@, qs, qe, r.0 as int, r.1 as int),
    {
        let n = self.inner.len();
        let mut lo: usize = 0;
        while lo < n && pos_lt_bnd(self.inner[lo].0.end(), false, qs, true)
            invariant
                self.wf(),
                n == self@.len(),
                0 <= lo <= n,
                forall|i: int| 0 <= i < lo ==> pos_lt(r_end(#[trigger] self@[i].0), start_pos(qs)),
            decreases n - lo,
        {
            lo = lo + 1;
        }
        let mut hi: usize = lo;
        while hi < n && pos_le_bnd(self.inner[hi].0.start(), true, qe, false)
            invariant
                self.wf(),
                pos_le(start_pos(qs), end_pos(qe)),
                n == self@.len(),
                0 <= lo <= hi <= n,
                lo < n ==> pos_le(start_pos(qs), r_end(self@[lo as int].0)),
                forall|i: int|
                    lo <= i < hi ==> overlap(
                        #[trigger] self@[i].0,
                        AnyRange { start: qs, end: qe },
                    ),
            decreases n - hi,
        {
            proof {
                if hi > lo {
                    lemma_entry_order(self@, lo as int, hi as int);
                }
            }
            hi = hi + 1;
        }
        proof {
            assert forall|i: int| hi <= i < self@.len() implies pos_lt(
                end_pos(qe),
                r_start(#[trigger] self@[i].0),
            ) by {
                if hi < self@.len() && i > hi {
                    lemma_entry_order(self@, hi as int, i);
                }
            }
        }
        (lo, hi)
    }

    /// Whether the given range overlaps any range in the map.
    pub fn overlaps<Q: NiceRange>(&self, range: Q) -> (r: bool)
        requires
            self.wf(),
            valid_range(range),
        ensures
            r == exists|i: int|
                0 <= i < self@.len() && overlap(#[trigger] self@[i].0, range),
    {
        invalid_range_panic(range);
        let (lo, hi) = self.span(range.start(), range.end());
        proof {
            if lo < hi {
                assert(overlap(self@[lo as int].0, AnyRange {
                    start: range.spec_start(),
                    end: range.spec_end(),
                }));
                assert(overlap(self@[lo as int].0, range));
            }
        }
        lo < hi
    }
}

/// A predicate that holds exactly on a contiguous window of a sequence
/// filters to that window.
#[verifier::rlimit(100)]
proof fn lemma_filter_contiguous<T>(
    s: Seq<T>,
    pred: spec_fn(T) -> bool,
    npred: spec_fn(T) -> bool,
    lo: int,
    hi: int,
)
    requires
        0 <= lo <= hi <= s.len(),
        forall|x: T| #[trigger] npred(x) == !pred(x),
        forall|i: int| lo <= i < hi ==> pred(#[trigger] s[i]),
        forall|i: int| 0 <= i < lo ==> !pred(#[trigger] s[i]),
        forall|i: int| hi <= i < s.len() ==> !pred(#[trigger] s[i]),
    ensures
        s.filter(pred) == s.subrange(lo, hi),
        s.filter(npred) == s.subrange(0, lo) + s.subrange(hi, s.len() as int),
    decreases s.len(),
{
    reveal(Seq::filter);
    if s.len() == 0 {
        assert(s.filter(pred) =~= s.subrange(lo, hi));
        assert(s.filter(npred) =~= s.subrange(0, lo) + s.subrange(hi, s.len() as int));
    } else {
        let l = s.last();
        let d = s.drop_last();
        if hi == s.len() && lo < hi {
            lemma_filter_contiguous(d, pred, npred, lo, hi - 1);
            assert(s.filter(pred) == d.filter(pred).push(l));
            assert(s.subrange(lo, hi) =~= d.subrange(lo, hi - 1).push(l));
            assert(s.filter(npred) == d.filter(npred));
            assert(s.subrange(0, lo) + s.subrange(hi, s.len() as int) =~= d.subrange(0, lo)
                + d.subrange(hi - 1, d.len() as int));
        } else {
            let nl = if lo == s.len() { lo - 1 } else { lo };
            let nh = if hi == s.len() { hi - 1 } else { hi };
            lemma_filter_contiguous(d, pred, npred, nl, nh);
            assert(!pred(l));
            assert(s.filter(pred) == d.filter(pred));
            assert(s.subrange(lo, hi) =~= d.subrange(nl, nh));
            assert(s.filter(npred) == d.filter(npred).push(l));
            assert(s.subrange(0, lo) + s.subrange(hi, s.len() as int) =~= (d.subrange(0, nl)
                + d.subrange(nh, d.len() as int)).push(l));
        }
    }
}

/// Removing a window of entries from a well-formed sequence leaves a
/// well-formed sequence.
proof fn lemma_wf_remove_window<K: NiceRange, V>(orig: Seq<(K, V)>, lo: int, hi: int)
    requires
        wf_seq(orig),
        0 <= lo <= hi <= orig.len(),
    ensures
        wf_seq(orig.subrange(0, lo) + orig.subrange(hi, orig.len() as int)),
{
    let fin = orig.subrange(0, lo) + orig.subrange(hi, orig.len() as int);
    assert forall|i: int| 0 <= i < fin.len() implies valid_range(#[trigger] fin[i].0) by {
        if i < lo {
            assert(fin[i] == orig[i]);
        } else {
            assert(fin[i] == orig[i + (hi - lo)]);
        }
    }
    assert forall|i: int| 0 < i < fin.len() implies pos_lt(
        r_end(fin[i - 1].0),
        r_start(#[trigger] fin[i].0),
    ) by {
        if i < lo {
            assert(fin[i] == orig[i]);
            assert(fin[i - 1] == orig[i - 1]);
        } else if i == lo {
            assert(fin[i - 1] == orig[i - 1]);
            assert(fin[i] == orig[i + (hi - lo)]);
            lemma_entry_order(orig, i - 1, i + (hi - lo));
        } else {
            assert(fin[i] == orig[i + (hi - lo)]);
            assert(fin[i - 1] == orig[i - 1 + (hi - lo)]);
        }
    }
}

/// The index at which a range `k` that overlaps no entry of `s` sits in
/// the sorted entry sequence: the number of entries that end before `k`
/// starts.
pub open spec fn insert_index<K: NiceRange, V>(s: Seq<(K, V)>, k: K) -> int
    decreases s.len(),
{
    if s.len() == 0 {
        0
    } else if pos_lt(r_end(s[0].0), r_start(k)) {
        1 + insert_index(s.drop_first(), k)
    } else {
        0
    }
}

/// `insert_index` is the unique boundary between the entries that end
/// before `k` starts and the rest.
proof fn lemma_insert_index_char<K: NiceRange, V>(s: Seq<(K, V)>, k: K, m: int)
    requires
        0 <= m <= s.len(),
        forall|i: int| 0 <= i < m ==> pos_lt(r_end(#[trigger] s[i].0), r_start(k)),
        m < s.len() ==> !pos_lt(r_end(s[m].0), r_start(k)),
    ensures
        insert_index(s, k) == m,
    decreases s.len(),
{
    if s.len() > 0 {
        if m == 0 {
        } else {
            assert(pos_lt(r_end(s[0].0), r_start(k)));
            let d = s.drop_first();
            assert forall|i: int| 0 <= i < m - 1 implies pos_lt(
                r_end(#[trigger] d[i].0),
                r_start(k),
            ) by {
                assert(d[i] == s[i + 1]);
            }
            if m - 1 < d.len() {
                assert(d[m - 1] == s[m]);
            }
            lemma_insert_index_char(d, k, m - 1);
        }
    }
}

impl<K: NiceRange, V> RangeBoundsMap<K, V> {
    /// Inserts an entry that overlaps nothing in the map, at its sorted
    /// position.
    fn insert_unchecked(&mut self, range: K, value: V)
        requires
            old(self).wf(),
            valid_range(range),
            forall|i: int|
                0 <= i < old(self)@.len() ==> !overlap(#[trigger] old(self)@[i].0, range),
        ensures
            final(self).wf(),
            final(self)@ == old(self)@.insert(insert_index(old(self)@, range), (range, value)),
    {
        let ghost orig = self@;
        let n = self.inner.len();
        let mut j: usize = 0;
        while j < n && pos_lt_bnd(self.inner[j].0.end(), false, range.start(), true)
            invariant
                self.wf(),
                self@ == orig,
                n == self@.len(),
                0 <= j <= n,
                valid_range(range),
                forall|i: int| 0 <= i < j ==> pos_lt(r_end(#[trigger] self@[i].0), r_start(range)),
            decreases n - j,
        {
            j = j + 1;
        }
        proof {
            lemma_insert_index_char(orig, range, j as int);
        }
        self.inner.insert(j, (range, value));
        proof {
            let s = final(self)@;
            let jj = j as int;
            assert forall|i: int| 0 <= i < s.len() implies valid_range(#[trigger] s[i].0) by {
                if i < jj {
                    assert(s[i] == orig[i]);
                } else if i == jj {
                } else {
                    assert(s[i] == orig[i - 1]);
                }
            }
            assert forall|i: int| 0 < i < s.len() implies pos_lt(
                r_end(s[i - 1].0),
                r_start(#[trigger] s[i].0),
            ) by {
                if i < jj {
                    assert(s[i] == orig[i]);
                    assert(s[i - 1] == orig[i - 1]);
                } else if i == jj {
                    assert(s[i - 1] == orig[i - 1]);
                    assert(pos_lt(r_end(orig[i - 1].0), r_start(range)));
                } else if i == jj + 1 {
                    assert(s[i] == orig[i - 1]);
                    assert(!pos_lt(r_end(orig[i - 1].0), r_start(range)));
                    assert(!overlap(orig[i - 1].0, range));
                    assert(pos_lt(r_end(range), r_start(orig[i - 1].0)));
                } else {
                    assert(s[i] == orig[i - 1]);
                    assert(s[i - 1] == orig[i - 2]);
                }
            }
        }
    }

    /// Adds a new entry without touching any other.  If the given range
    /// overlaps a range already in the map, reports [`OverlapError`] and
    /// leaves the map unchanged.
    pub fn insert_strict(&mut self, range: K, value: V) -> (r: Result<(), OverlapError>)
        requires
            old(self).wf(),
            valid_range(range),
        ensures
            final(self).wf(),
            r is Err <==> exists|i: int|
                0 <= i < old(self)@.len() && overlap(#[trigger] old(self)@[i].0, range),
            r is Err ==> final(self)@ == old(self)@,
            r is Ok ==> final(self)@ == old(self)@.insert(
                insert_index(old(self)@, range),
                (range, value),
            ),
    {
        invalid_range_panic(range);
        if self.overlaps(range) {
            return Err(OverlapError);
        }
        self.insert_unchecked(range, value);
        Ok(())
    }

    /// Removes and returns every entry that overlaps the given range,
    /// in ascending order.
    #[verifier::rlimit(100)]
    pub fn remove_overlapping<Q: NiceRange>(&mut self, range: Q) -> (r: Vec<(K, V)>)
        requires
            old(self).wf(),
            valid_range(range),
        ensures
            final(self).wf(),
            r@ == old(self)@.filter(|e: (K, V)| overlap(e.0, range)),
            final(self)@ == old(self)@.filter(|e: (K, V)| !overlap(e.0, range)),
    {
        invalid_range_panic(range);
        let ghost orig = self@;
        let (lo, hi) = self.span(range.start(), range.end());
        let out = self.remove_span(lo, hi);
        proof {
            lemma_remove_overlapping_post(orig, range, lo as int, hi as int);
        }
        out
    }

    /// Removes and returns the window `[lo, hi)` of the entry sequence.
    fn remove_span(&mut self, lo: usize, hi: usize) -> (r: Vec<(K, V)>)
        requires
            lo <= hi <= old(self)@.len(),
        ensures
            final(self)@ == old(self)@.subrange(0, lo as int) + old(self)@.subrange(
                hi as int,
                old(self)@.len() as int,
            ),
            r@ == old(self)@.subrange(lo as int, hi as int),
    {
        let ghost orig = self@;
        let mut out: Vec<(K, V)> = Vec::new();
        let mut t: usize = 0;
        while t < hi - lo
            invariant
                0 <= lo <= hi <= orig.len(),
                0 <= t <= hi - lo,
                self@ == orig.subrange(0, lo as int) + orig.subrange(
                    lo + t,
                    orig.len() as int,
                ),
                out@ == orig.subrange(lo as int, lo + t),
            decreases hi - lo - t,
        {
            let e = self.inner.remove(lo);
            proof {
                assert(e == orig[lo + t]);
            }
            out.push(e);
            t = t + 1;
            proof {
                assert(self@ =~= orig.subrange(0, lo as int) + orig.subrange(
                    lo + t,
                    orig.len() as int,
                ));
                assert(out@ =~= orig.subrange(lo as int, lo + t));
            }
        }
        out
    }
}

/// The entries overlapping a query form the contiguous window that the
/// span delimits; dropping them leaves the complement, well-formed.
proof fn lemma_remove_overlapping_post<K: NiceRange, V, Q: NiceRange>(
    orig: Seq<(K, V)>,
    q: Q,
    lo: int,
    hi: int,
)
    requires
        wf_seq(orig),
        valid_range(q),
        span_props(orig, q.spec_start(), q.spec_end(), lo, hi),
    ensures
        orig.filter(|e: (K, V)| overlap(e.0, q)) == orig.subrange(lo, hi),
        orig.filter(|e: (K, V)| !overlap(e.0, q)) == orig.subrange(0, lo) + orig.subrange(
            hi,
            orig.len() as int,
        ),
        wf_seq(orig.subrange(0, lo) + orig.subrange(hi, orig.len() as int)),
{
    assert forall|j: int| lo <= j < hi implies (|e: (K, V)| overlap(e.0, q))(orig[j]) by {
        assert(overlap(orig[j].0, AnyRange { start: q.spec_start(), end: q.spec_end() }));
    }
    assert forall|j: int|
        (0 <= j < lo || hi <= j < orig.len()) implies !(|e: (K, V)| overlap(e.0, q))(orig[j]) by {
        assert(valid_range(orig[j].0));
    }
    lemma_filter_contiguous(
        orig,
        |e: (K, V)| overlap(e.0, q),
        |e: (K, V)| !overlap(e.0, q),
        lo,
        hi,
    );
    lemma_wf_remove_window(orig, lo, hi);
}

/// Whether some range of `gs` holds the position `p`.
pub open spec fn in_some_gap(gs: Seq<AnyRange>, p: Pos) -> bool {
    exists|g: int| 0 <= g < gs.len() && in_range(#[trigger] gs[g], p)
}

/// Appending a range to a gap list keeps every held position held, and
/// adds the positions of the new range.
proof fn lemma_in_some_gap_push(gs: Seq<AnyRange>, x: AnyRange)
    ensures
        forall|p: Pos| #[trigger] in_some_gap(gs, p) ==> in_some_gap(gs.push(x), p),
        forall|p: Pos| #[trigger] in_range(x, p) ==> in_some_gap(gs.push(x), p),
{
    assert forall|p: Pos| #[trigger] in_some_gap(gs, p) implies in_some_gap(gs.push(x), p) by {
        let g = choose|g: int| 0 <= g < gs.len() && in_range(#[trigger] gs[g], p);
        assert(in_range(gs.push(x)[g], p));
    }
    assert forall|p: Pos| #[trigger] in_range(x, p) implies in_some_gap(gs.push(x), p) by {
        assert(in_range(gs.push(x)[gs.len() as int], p));
    }
}

/// A candidate range that lies after every entry below `i0` and before
/// the entry at `i0` shares no position with any entry.
proof fn lemma_window_uncovered<K: NiceRange, V>(s: Seq<(K, V)>, i0: int, gap: AnyRange)
    requires
        wf_seq(s),
        0 <= i0 <= s.len(),
        forall|j: int| 0 <= j < i0 ==> pos_lt(r_end(#[trigger] s[j].0), r_start(gap)),
        i0 < s.len() ==> pos_lt(r_end(gap), r_start(s[i0].0)),
    ensures
        forall|p: Pos| #[trigger] in_range(gap, p) ==> !covered_by(s, p),
{
    assert forall|p: Pos| #[trigger] in_range(gap, p) implies !covered_by(s, p) by {
        if covered_by(s, p) {
            let j = choose|j: int| 0 <= j < s.len() && in_range(#[trigger] s[j].0, p);
            if j < i0 {
                assert(pos_lt(r_end(s[j].0), r_start(gap)));
            } else {
                if j > i0 {
                    lemma_entry_order(s, i0, j);
                    assert(valid_range(s[i0].0));
                }
                assert(pos_le(r_start(s[i0].0), r_start(s[j].0)));
            }
        }
    }
}

/// A candidate gap that lies after every entry of the span below `i` and
/// before the entry at `i` shares no position with any entry.
proof fn lemma_gap_uncovered<K: NiceRange, V>(
    s: Seq<(K, V)>,
    qs: Bnd,
    qe: Bnd,
    lo: int,
    i: int,
    hi: int,
    gap: AnyRange,
)
    requires
        wf_seq(s),
        span_props(s, qs, qe, lo, hi),
        lo <= i <= s.len(),
        pos_le(start_pos(qs), r_start(gap)),
        forall|j: int| lo <= j < i ==> pos_lt(r_end(#[trigger] s[j].0), r_start(gap)),
        i < s.len() ==> pos_lt(r_end(gap), r_start(s[i].0)),
    ensures
        forall|p: Pos| #[trigger] in_range(gap, p) ==> !covered_by(s, p),
{
    assert forall|j: int| 0 <= j < i implies pos_lt(r_end(#[trigger] s[j].0), r_start(gap)) by {
        if j < lo {
            assert(pos_lt(r_end(s[j].0), start_pos(qs)));
        }
    }
    lemma_window_uncovered(s, i, gap);
}

/// Whether the entries of `s` hold every position of the range `q`.
pub open spec fn covers_range<K: NiceRange, V, Q: NiceRange>(s: Seq<(K, V)>, q: Q) -> bool {
    forall|p: Pos| in_range(q, p) ==> covered_by(s, p)
}

impl<K: NiceRange, V> RangeBoundsMap<K, V> {
    /// Enumerates, in ascending order, the maximal ranges within
    /// `outer_range` that share no position with any entry of the map.
    #[verifier::rlimit(100)]
    pub fn gaps<Q: NiceRange>(&self, outer_range: Q) -> (r: Vec<AnyRange>)
        requires
            self.wf(),
            valid_range(outer_range),
        ensures
            forall|g: int| 0 <= g < r@.len() ==> valid_range(#[trigger] r@[g]),
            forall|g: int|
                0 <= g < r@.len() ==> pos_le(r_start(outer_range), r_start(#[trigger] r@[g]))
                    && pos_le(r_end(#[trigger] r@[g]), r_end(outer_range)),
            forall|g: int, p: Pos|
                0 <= g < r@.len() && #[trigger] in_range(r@[g], p) ==> !covered_by(self@, p),
            forall|p: Pos|
                in_range(outer_range, p) && !covered_by(self@, p) ==> #[trigger] in_some_gap(
                    r@,
                    p,
                ),
            forall|g: int|
                0 < g < r@.len() ==> pos_lt(r_end(r@[g - 1]), r_start(#[trigger] r@[g])),
            forall|g: int|
                0 <= g < r@.len() ==> (r_start(#[trigger] r@[g]) == r_start(outer_range)
                    || covered_by(self@, pos_pred(r_start(r@[g])))),
            forall|g: int|
                0 <= g < r@.len() ==> (r_end(#[trigger] r@[g]) == r_end(outer_range)
                    || covered_by(self@, pos_succ(r_end(r@[g])))),
    {
        invalid_range_panic(outer_range);
        let qsb = outer_range.start();
        let qeb = outer_range.end();
        let ghost s = self@;
        let (lo, hi) = self.span(qsb, qeb);
        let mut out: Vec<AnyRange> = Vec::new();
        let mut cur: Bnd = qsb;
        let mut exhausted: bool = false;
        let mut i: usize = lo;
        while i < hi
            invariant
                self.wf(),
                s == self@,
                valid_range(outer_range),
                qsb == outer_range.spec_start(),
                qeb == outer_range.spec_end(),
                span_props(s, qsb, qeb, lo as int, hi as int),
                0 <= lo <= i <= hi <= s.len(),
                exhausted ==> i == hi,
                exhausted ==> forall|p: Pos|
                    in_range(outer_range, p) && !covered_by(s, p) ==> #[trigger] in_some_gap(
                        out@,
                        p,
                    ),
                !exhausted ==> pos_le(start_pos(qsb), start_pos(cur)),
                !exhausted ==> ((i == lo && cur == qsb) || (i > lo && r_end(s[i - 1].0) is Fin
                    && start_pos(cur) == pos_succ(r_end(s[i - 1].0)))),
                !exhausted ==> forall|j: int|
                    lo <= j < i ==> pos_lt(r_end(#[trigger] s[j].0), start_pos(cur)),
                !exhausted ==> forall|p: Pos|
                    in_range(outer_range, p) && !covered_by(s, p) && pos_lt(p, start_pos(cur))
                        ==> #[trigger] in_some_gap(out@, p),
                !exhausted ==> forall|g: int|
                    0 <= g < out@.len() ==> pos_lt(r_end(#[trigger] out@[g]), start_pos(cur)),
                forall|g: int| 0 <= g < out@.len() ==> valid_range(#[trigger] out@[g]),
                forall|g: int|
                    0 <= g < out@.len() ==> pos_le(r_start(outer_range), r_start(
                        #[trigger] out@[g],
                    )) && pos_le(r_end(#[trigger] out@[g]), r_end(outer_range)),
                forall|g: int, p: Pos|
                    0 <= g < out@.len() && #[trigger] in_range(out@[g], p) ==> !covered_by(s, p),
                forall|g: int|
                    0 < g < out@.len() ==> pos_lt(r_end(out@[g - 1]), r_start(
                        #[trigger] out@[g],
                    )),
                forall|g: int|
                    0 <= g < out@.len() ==> (r_start(#[trigger] out@[g]) == r_start(outer_range)
                        || covered_by(s, pos_pred(r_start(out@[g])))),
                forall|g: int|
                    0 <= g < out@.len() ==> (r_end(#[trigger] out@[g]) == r_end(outer_range)
                        || covered_by(s, pos_succ(r_end(out@[g])))),
            decreases hi - i,
        {
            let k = self.inner[i].0;
            let ks = k.start();
            let ke = k.end();
            proof {
                assert(s[i as int].0 == k);
                assert(overlap(s[i as int].0, AnyRange { start: qsb, end: qeb }));
                assert(valid_range(k));
            }
            let ghost out_before = out@;
            let ghost cur_before = cur;
            let ghost gapg = AnyRange { start: cur, end: flip(ks) };
            let did_gap = pos_lt_bnd(cur, true, ks, true);
            if did_gap {
                let gap = AnyRange { start: cur, end: flip_bound(ks) };
                proof {
                    assert(gap == gapg);
                    assert(start_pos(ks) is Fin);
                    assert(valid_range(gap));
                    assert(pos_le(r_end(gap), r_end(outer_range)));
                    lemma_gap_uncovered(s, qsb, qeb, lo as int, i as int, hi as int, gap);
                    assert(covered_by(s, pos_succ(r_end(gap)))) by {
                        assert(in_range(s[i as int].0, start_pos(ks)));
                    }
                    if i > lo {
                        assert(covered_by(s, pos_pred(r_start(gap)))) by {
                            assert(in_range(s[i - 1].0, r_end(s[i - 1].0)));
                        }
                    }
                    lemma_in_some_gap_push(out_before, gap);
                }
                out.push(gap);
            }
            if matches!(ke, Bnd::Unbounded) {
                exhausted = true;
            } else {
                cur = flip_bound(ke);
            }
            proof {
                if exhausted {
                    assert(r_end(s[i as int].0) == Pos::PosInf);
                    if i + 1 < hi {
                        assert(pos_lt(r_end(s[i as int].0), r_start(s[i + 1].0)));
                        assert(false);
                    }
                } else {
                    assert(start_pos(cur) == pos_succ(r_end(s[i as int].0)));
                    assert forall|j: int| lo <= j < i + 1 implies pos_lt(
                        r_end(#[trigger] s[j].0),
                        start_pos(cur),
                    ) by {
                        if j < i {
                            assert(pos_lt(r_end(s[j].0), start_pos(cur_before)));
                        }
                        assert(valid_range(s[j].0));
                    }
                }
                assert forall|p: Pos|
                    in_range(outer_range, p) && !covered_by(s, p) && (exhausted || pos_lt(
                        p,
                        start_pos(cur),
                    )) implies #[trigger] in_some_gap(out@, p) by {
                    if pos_lt(p, start_pos(cur_before)) {
                        assert(in_some_gap(out_before, p));
                    } else if pos_lt(p, start_pos(ks)) {
                        assert(pos_le(start_pos(cur_before), p));
                        assert(in_range(gapg, p));
                    } else {
                        assert(pos_le(start_pos(ks), p));
                        assert(in_range(s[i as int].0, p));
                        assert(covered_by(s, p));
                    }
                }
            }
            i = i + 1;
        }
        if !exhausted && pos_le_bnd(cur, true, qeb, false) {
            let gap = AnyRange { start: cur, end: qeb };
            let ghost out_before = out@;
            proof {
                assert(valid_range(gap));
                lemma_gap_uncovered(s, qsb, qeb, lo as int, hi as int, hi as int, gap);
                if i > lo {
                    assert(covered_by(s, pos_pred(r_start(gap)))) by {
                        assert(in_range(s[i - 1].0, r_end(s[i - 1].0)));
                    }
                }
                lemma_in_some_gap_push(out_before, gap);
            }
            out.push(gap);
            proof {
                assert forall|p: Pos|
                    in_range(outer_range, p) && !covered_by(s, p) implies #[trigger] in_some_gap(
                    out@,
                    p,
                ) by {
                    if pos_lt(p, start_pos(cur)) {
                        assert(in_some_gap(out_before, p));
                    } else {
                        assert(in_range(gap, p));
                    }
                }
            }
        } else {
            proof {
                if !exhausted {
                    assert forall|p: Pos|
                        in_range(outer_range, p) && !covered_by(s, p) implies
                        #[trigger] in_some_gap(out@, p) by {
                        assert(pos_le(p, end_pos(qeb)));
                        assert(pos_lt(p, start_pos(cur)));
                    }
                }
            }
        }
        out
    }

    /// Whether the map holds every position of the given range.
    pub fn contains_range<Q: NiceRange>(&self, range: Q) -> (r: bool)
        requires
            self.wf(),
            valid_range(range),
        ensures
            r == covers_range(self@, range),
    {
        invalid_range_panic(range);
        let gs = self.gaps(range);
        let r = gs.len() == 0;
        proof {
            if r {
                assert forall|p: Pos| in_range(range, p) implies covered_by(self@, p) by {
                    if !covered_by(self@, p) {
                        assert(in_some_gap(gs@, p));
                    }
                }
            } else {
                let g0 = gs@[0];
                assert(valid_range(g0));
                assert(in_range(g0, r_start(g0)));
                assert(!covered_by(self@, r_start(g0)));
                assert(pos_le(r_start(range), r_start(g0)) && pos_le(r_end(g0), r_end(range)));
                assert(in_range(range, r_start(g0)));
            }
        }
        r
    }
}

/// A cut by `q` fails when a straddling entry would leave a piece that
/// the key type cannot represent: a before piece for an entry that
/// starts before `q`, or an after piece for one that ends after `q`.
pub open spec fn cut_unrepresentable<K: NiceRange + TryFromBounds, V, Q: NiceRange>(
    s: Seq<(K, V)>,
    q: Q,
) -> bool {
    exists|i: int|
        0 <= i < s.len() && #[trigger] overlap(s[i].0, q) && ((pos_lt(r_start(s[i].0), r_start(q))
            && !K::representable(s[i].0.spec_start(), flip(q.spec_start()))) || (pos_lt(
            r_end(q),
            r_end(s[i].0),
        ) && !K::representable(flip(q.spec_end()), s[i].0.spec_end())))
}

/// How a successful cut by `q` rewrites the entry sequence and what it
/// yields.  `lo` and `hi` delimit the overlapping span of the old
/// sequence; the span is removed, a before piece survives from a
/// left-straddling entry and an after piece from a right-straddling one,
/// and the yielded pieces are the inside slices of the removed entries,
/// in ascending order, with their values.
#[verifier::opaque]
pub open spec fn cut_shape<K: NiceRange, V, Q: NiceRange>(
    old_s: Seq<(K, V)>,
    new_s: Seq<(K, V)>,
    pieces: Seq<(AnyRange, V)>,
    q: Q,
    lo: int,
    hi: int,
) -> bool {
    let nb: int = if lo < hi && pos_lt(r_start(old_s[lo].0), r_start(q)) {
        1
    } else {
        0
    };
    let na: int = if lo < hi && pos_lt(r_end(q), r_end(old_s[hi - 1].0)) {
        1
    } else {
        0
    };
    &&& span_props(old_s, q.spec_start(), q.spec_end(), lo, hi)
    &&& pieces.len() == hi - lo
    &&& (forall|t: int|
        0 <= t < hi - lo ==> #[trigger] pieces[t] == (
            inside_cut_of(old_s[lo + t].0, q),
            old_s[lo + t].1,
        ))
    &&& new_s.len() == lo + nb + na + (old_s.len() - hi)
    &&& (forall|j: int| 0 <= j < lo ==> #[trigger] new_s[j] == old_s[j])
    &&& (forall|j: int|
        lo + nb + na <= j < new_s.len() ==> #[trigger] new_s[j] == old_s[j - (lo + nb + na)
            + hi])
    &&& (nb == 1 ==> new_s[lo].0.spec_start() == old_s[lo].0.spec_start()
        && new_s[lo].0.spec_end() == flip(q.spec_start()) && new_s[lo].1 == old_s[lo].1)
    &&& (na == 1 ==> new_s[lo + nb].0.spec_start() == flip(q.spec_end())
        && new_s[lo + nb].0.spec_end() == old_s[hi - 1].0.spec_end() && new_s[lo + nb].1
        == old_s[hi - 1].1)
}

/// Whether some entry of `s` ends touching the start endpoint `qs`.
pub open spec fn touch_left_exists<K: NiceRange, V>(s: Seq<(K, V)>, qs: Bnd) -> bool {
    exists|i: int| 0 <= i < s.len() && touch((#[trigger] s[i]).0.spec_end(), qs)
}

/// The key of the entry that ends touching `qs`.
pub open spec fn touch_left_key<K: NiceRange, V>(s: Seq<(K, V)>, qs: Bnd) -> K {
    s[choose|i: int| 0 <= i < s.len() && touch((#[trigger] s[i]).0.spec_end(), qs)].0
}

/// Whether some entry of `s` starts touching the end endpoint `qe`.
pub open spec fn touch_right_exists<K: NiceRange, V>(s: Seq<(K, V)>, qe: Bnd) -> bool {
    exists|i: int| 0 <= i < s.len() && touch(qe, (#[trigger] s[i]).0.spec_start())
}

/// The key of the entry that starts touching `qe`.
pub open spec fn touch_right_key<K: NiceRange, V>(s: Seq<(K, V)>, qe: Bnd) -> K {
    s[choose|i: int| 0 <= i < s.len() && touch(qe, (#[trigger] s[i]).0.spec_start())].0
}

/// The key of the entry that holds the position `p`.
pub open spec fn cover_key<K: NiceRange, V>(s: Seq<(K, V)>, p: Pos) -> K {
    s[choose|i: int| 0 <= i < s.len() && in_range((#[trigger] s[i]).0, p)].0
}

/// In a well-formed sequence, at most one entry ends touching `qs`, so
/// an entry that does is the one `touch_left_key` names.
pub proof fn lemma_touch_left_unique<K: NiceRange, V>(s: Seq<(K, V)>, qs: Bnd, i: int)
    requires
        wf_seq(s),
        0 <= i < s.len(),
        touch(s[i].0.spec_end(), qs),
    ensures
        touch_left_exists(s, qs),
        touch_left_key(s, qs) == s[i].0,
{
    assert(touch_left_exists(s, qs));
    let c = choose|c: int| 0 <= c < s.len() && touch((#[trigger] s[c]).0.spec_end(), qs);
    lemma_touch_is_adjacency(s[i].0.spec_end(), qs);
    lemma_touch_is_adjacency(s[c].0.spec_end(), qs);
    if c < i {
        lemma_entry_order(s, c, i);
        assert(valid_range(s[i].0));
    }
    if i < c {
        lemma_entry_order(s, i, c);
        assert(valid_range(s[c].0));
    }
}

/// In a well-formed sequence, at most one entry starts touching `qe`.
pub proof fn lemma_touch_right_unique<K: NiceRange, V>(s: Seq<(K, V)>, qe: Bnd, i: int)
    requires
        wf_seq(s),
        0 <= i < s.len(),
        touch(qe, s[i].0.spec_start()),
    ensures
        touch_right_exists(s, qe),
        touch_right_key(s, qe) == s[i].0,
{
    assert(touch_right_exists(s, qe));
    let c = choose|c: int| 0 <= c < s.len() && touch(qe, (#[trigger] s[c]).0.spec_start());
    lemma_touch_is_adjacency(qe, s[i].0.spec_start());
    lemma_touch_is_adjacency(qe, s[c].0.spec_start());
    if c < i {
        lemma_entry_order(s, c, i);
        assert(valid_range(s[c].0));
    }
    if i < c {
        lemma_entry_order(s, i, c);
        assert(valid_range(s[i].0));
    }
}

/// The entry holding a position is the one `cover_key` names.
pub proof fn lemma_cover_key<K: NiceRange, V>(s: Seq<(K, V)>, p: Pos, i: int)
    requires
        wf_seq(s),
        0 <= i < s.len(),
        in_range(s[i].0, p),
    ensures
        covered_by(s, p),
        cover_key(s, p) == s[i].0,
{
    assert(covered_by(s, p));
    let c = choose|c: int| 0 <= c < s.len() && in_range((#[trigger] s[c]).0, p);
    lemma_cover_unique(s, i, c, p);
}

/// A successful merging insertion rewrote `old_s` into `new_s`: the run
/// of entries overlapping the merged range `k` was removed and `(k, v)`
/// stands in its place.
#[verifier::opaque]
pub open spec fn merge_shape<K: NiceRange, V>(
    old_s: Seq<(K, V)>,
    new_s: Seq<(K, V)>,
    k: K,
    v: V,
) -> bool {
    exists|lo: int, hi: int|
        {
            &&& #[trigger] span_props(old_s, k.spec_start(), k.spec_end(), lo, hi)
            &&& new_s == old_s.subrange(0, lo) + seq![(k, v)] + old_s.subrange(
                hi,
                old_s.len() as int,
            )
        }
}

/// Replacing the overlapping run of a well-formed sequence by the entry
/// `(k, v)` itself keeps the sequence well-formed.
proof fn lemma_merge_rebuild<K: NiceRange, V>(
    orig: Seq<(K, V)>,
    s: Seq<(K, V)>,
    k: K,
    v: V,
    lo: int,
    hi: int,
)
    requires
        wf_seq(orig),
        valid_range(k),
        span_props(orig, k.spec_start(), k.spec_end(), lo, hi),
        s == orig.subrange(0, lo) + seq![(k, v)] + orig.subrange(hi, orig.len() as int),
    ensures
        wf_seq(s),
        merge_shape(orig, s, k, v),
{
    reveal(merge_shape);
    let nn = orig.len() as int;
    assert(s.len() == lo + 1 + (nn - hi));
    assert forall|x: int| 0 <= x < lo implies #[trigger] s[x] == orig[x] by {
        assert(s[x] == orig.subrange(0, lo)[x]);
    }
    assert(s[lo] == (k, v));
    assert forall|x: int| lo + 1 <= x < s.len() implies #[trigger] s[x] == orig[x - (lo + 1)
        + hi] by {
        assert(s[x] == orig.subrange(hi, nn)[x - (lo + 1)]);
    }
    assert forall|x: int| 0 <= x < s.len() implies valid_range(#[trigger] s[x].0) by {
        if x < lo {
            assert(s[x] == orig[x]);
        } else if x > lo {
            assert(s[x] == orig[x - (lo + 1) + hi]);
        }
    }
    assert forall|x: int| 0 < x < s.len() implies pos_lt(
        r_end(s[x - 1].0),
        r_start(#[trigger] s[x].0),
    ) by {
        if x < lo {
            assert(s[x] == orig[x]);
            assert(s[x - 1] == orig[x - 1]);
        } else if x == lo {
            assert(s[x - 1] == orig[x - 1]);
            assert(pos_lt(r_end(orig[x - 1].0), start_pos(k.spec_start())));
        } else if x == lo + 1 {
            assert(s[x] == orig[hi]);
            assert(pos_lt(end_pos(k.spec_end()), r_start(orig[hi].0)));
        } else {
            assert(s[x] == orig[x - (lo + 1) + hi]);
            assert(s[x - 1] == orig[x - 1 - (lo + 1) + hi]);
        }
    }
    assert(merge_shape(orig, s, k, v));
}

/// A successful cut by `q` rewrote `old_s` into `new_s` and yielded
/// `pieces`, for some delimiters of the overlapping span.
pub open spec fn cut_ok_shape<K: NiceRange, V, Q: NiceRange>(
    old_s: Seq<(K, V)>,
    new_s: Seq<(K, V)>,
    pieces: Seq<(AnyRange, V)>,
    q: Q,
) -> bool {
    exists|lo: int, hi: int| #[trigger] cut_shape(old_s, new_s, pieces, q, lo, hi)
}

impl<K: NiceRange + TryFromBounds, V: StoredValue> RangeBoundsMap<K, V> {
    /// Cuts the given range out of the map: removes every position of
    /// `range` from the stored coverage, trimming or splitting
    /// straddling entries, and returns the removed slices with their
    /// values, in ascending order.  If a piece that would remain in the
    /// map cannot be represented by `K`, fails with
    /// [`TryFromBoundsError`] and leaves the map unchanged.
    #[verifier::rlimit(100)]
    pub fn cut<Q: NiceRange>(&mut self, range: Q) -> (r: Result<
        Vec<(AnyRange, V)>,
        TryFromBoundsError,
    >)
        requires
            old(self).wf(),
            valid_range(range),
        ensures
            final(self).wf(),
            r is Err <==> cut_unrepresentable::<K, V, Q>(old(self)@, range),
            r is Err ==> final(self)@ == old(self)@,
            r matches Ok(pieces) ==> cut_ok_shape(old(self)@, final(self)@, pieces@, range),
    {
        invalid_range_panic(range);
        let qsb = range.start();
        let qeb = range.end();
        let ghost orig = self@;
        let n = self.inner.len();
        let (lo, hi) = self.span(qsb, qeb);
        if lo == hi {
            let empty_pieces: Vec<(AnyRange, V)> = Vec::new();
            proof {
                lemma_cut_noop(orig, range, lo as int);
                assert(empty_pieces@ =~= Seq::<(AnyRange, V)>::empty());
                assert(cut_shape(orig, self@, empty_pieces@, range, lo as int, lo as int));
                assert(cut_ok_shape(orig, self@, empty_pieces@, range));
            }
            return Ok(empty_pieces);
        }
        match self.cut_keys(range, lo, hi) {
            Err(e) => Err(e),
            Ok((before_key, after_key)) => {
                let pieces = self.cut_commit(range, lo, hi, before_key, after_key);
                proof {
                    assert(cut_shape(orig, self@, pieces@, range, lo as int, hi as int));
                    assert(cut_ok_shape(orig, self@, pieces@, range));
                }
                Ok(pieces)
            },
        }
    }

    /// Builds the keys for the pieces that a cut by `range` would leave
    /// behind, or reports that one of them cannot be represented.
    fn cut_keys<Q: NiceRange>(&self, range: Q, lo: usize, hi: usize) -> (r: Result<
        (Option<K>, Option<K>),
        TryFromBoundsError,
    >)
        requires
            self.wf(),
            valid_range(range),
            span_props(self@, range.spec_start(), range.spec_end(), lo as int, hi as int),
            lo < hi,
        ensures
            r is Err <==> cut_unrepresentable::<K, V, Q>(self@, range),
            r matches Ok(ks) ==> {
                &&& (ks.0 is Some) == pos_lt(r_start(self@[lo as int].0), r_start(range))
                &&& (ks.1 is Some) == pos_lt(r_end(range), r_end(self@[hi - 1].0))
                &&& (ks.0 matches Some(k) ==> k.spec_start() == self@[lo as int].0.spec_start()
                    && k.spec_end() == flip(range.spec_start()))
                &&& (ks.1 matches Some(k) ==> k.spec_start() == flip(range.spec_end())
                    && k.spec_end() == self@[hi - 1].0.spec_end())
            },
    {
        let qsb = range.start();
        let qeb = range.end();
        let ghost orig = self@;
        let left = self.inner[lo].0;
        let right = self.inner[hi - 1].0;
        proof {
            assert(left == orig[lo as int].0);
            assert(right == orig[hi - 1].0);
            assert(overlap(orig[lo as int].0, AnyRange { start: qsb, end: qeb }));
            assert(overlap(orig[hi - 1].0, AnyRange { start: qsb, end: qeb }));
            assert(overlap(orig[lo as int].0, range));
            assert(overlap(orig[hi - 1].0, range));
        }
        let has_before = pos_lt_bnd(left.start(), true, qsb, true);
        let has_after = pos_lt_bnd(qeb, false, right.end(), false);
        let mut before_key: Option<K> = None;
        if has_before {
            match K::try_from_bounds(left.start(), flip_bound(qsb)) {
                Ok(k) => {
                    before_key = Some(k);
                },
                Err(_) => {
                    proof {
                        assert(cut_unrepresentable::<K, V, Q>(orig, range));
                    }
                    return Err(TryFromBoundsError);
                },
            }
        }
        let mut after_key: Option<K> = None;
        if has_after {
            match K::try_from_bounds(flip_bound(qeb), right.end()) {
                Ok(k) => {
                    after_key = Some(k);
                },
                Err(_) => {
                    proof {
                        assert(cut_unrepresentable::<K, V, Q>(orig, range));
                    }
                    return Err(TryFromBoundsError);
                },
            }
        }
        proof {
            lemma_straddlers_representable(orig, range, lo as int, hi as int);
        }
        Ok((before_key, after_key))
    }

    /// Commits a cut whose straddling pieces are already known to be
    /// representable: removes the overlapping span, reinserts the
    /// straddling pieces, and returns the inside slices.
    #[verifier::rlimit(100)]
    fn cut_commit<Q: NiceRange>(
        &mut self,
        range: Q,
        lo: usize,
        hi: usize,
        before_key: Option<K>,
        after_key: Option<K>,
    ) -> (pieces: Vec<(AnyRange, V)>)
        requires
            old(self).wf(),
            valid_range(range),
            span_props(old(self)@, range.spec_start(), range.spec_end(), lo as int, hi as int),
            lo < hi,
            (before_key is Some) == pos_lt(r_start(old(self)@[lo as int].0), r_start(range)),
            (after_key is Some) == pos_lt(r_end(range), r_end(old(self)@[hi - 1].0)),
            before_key matches Some(k) ==> k.spec_start() == old(self)@[lo as int].0.spec_start()
                && k.spec_end() == flip(range.spec_start()),
            after_key matches Some(k) ==> k.spec_start() == flip(range.spec_end())
                && k.spec_end() == old(self)@[hi - 1].0.spec_end(),
        ensures
            final(self).wf(),
            cut_shape(old(self)@, final(self)@, pieces@, range, lo as int, hi as int),
    {
        let qsb = range.start();
        let qeb = range.end();
        let ghost orig = self@;
        let has_before = before_key.is_some();
        let has_after = after_key.is_some();
        let before_val: Option<V> = if has_before {
            Some(self.inner[lo].1.dup())
        } else {
            None
        };
        let after_val: Option<V> = if has_after {
            Some(self.inner[hi - 1].1.dup())
        } else {
            None
        };
        let ghost nb: int = if has_before {
            1
        } else {
            0
        };
        let ghost na: int = if has_after {
            1
        } else {
            0
        };
        let mut ins_entries: Vec<(K, V)> = Vec::new();
        if has_before {
            ins_entries.push((before_key.unwrap(), before_val.unwrap()));
        }
        if has_after {
            ins_entries.push((after_key.unwrap(), after_val.unwrap()));
        }
        let ghost insv = ins_entries@;
        let mut pieces: Vec<(AnyRange, V)> = Vec::new();
        let mut t: usize = 0;
        while t < hi - lo
            invariant
                self.wf(),
                self@ == orig,
                0 <= lo <= hi <= orig.len(),
                0 <= t <= hi - lo,
                valid_range(range),
                qsb == range.spec_start(),
                qeb == range.spec_end(),
                pieces@.len() == t as int,
                forall|x: int|
                    0 <= x < t ==> #[trigger] pieces@[x] == (
                        inside_cut_of(orig[lo + x].0, range),
                        orig[lo + x].1,
                    ),
            decreases hi - lo - t,
        {
            let e_k = self.inner[lo + t].0;
            let e_v = self.inner[lo + t].1.dup();
            let ins = AnyRange {
                start: max_start_exec(e_k.start(), qsb),
                end: min_end_exec(e_k.end(), qeb),
            };
            pieces.push((ins, e_v));
            t = t + 1;
        }
        self.splice(lo, hi, ins_entries);
        proof {
            let loi = lo as int;
            let hii = hi as int;
            let bseq: Seq<(K, V)> = if nb == 1 {
                seq![(before_key.unwrap(), orig[loi].1)]
            } else {
                Seq::<(K, V)>::empty()
            };
            let aseq: Seq<(K, V)> = if na == 1 {
                seq![(after_key.unwrap(), orig[hii - 1].1)]
            } else {
                Seq::<(K, V)>::empty()
            };
            assert(insv =~= bseq + aseq);
            assert(self@ =~= orig.subrange(0, loi) + bseq + aseq + orig.subrange(
                hii,
                orig.len() as int,
            ));
            lemma_cut_rebuild(orig, self@, pieces@, range, loi, hii, bseq, aseq);
        }
        pieces
    }

    /// Replaces the window `[lo, hi)` of the entry sequence by the given
    /// entries.
    fn splice(&mut self, lo: usize, hi: usize, ins: Vec<(K, V)>)
        requires
            lo <= hi <= old(self)@.len(),
        ensures
            final(self)@ == old(self)@.subrange(0, lo as int) + ins@ + old(self)@.subrange(
                hi as int,
                old(self)@.len() as int,
            ),
    {
        let ghost orig = self@;
        let ghost insv = ins@;
        let n = self.inner.len();
        let m = ins.len();
        let mut new_inner: Vec<(K, V)> = Vec::new();
        let mut j: usize = 0;
        while j < lo
            invariant
                self@ == orig,
                0 <= j <= lo <= orig.len(),
                new_inner@ == orig.subrange(0, j as int),
            decreases lo - j,
        {
            new_inner.push((self.inner[j].0, self.inner[j].1.dup()));
            proof {
                assert(new_inner@ =~= orig.subrange(0, j + 1));
            }
            j = j + 1;
        }
        proof {
            assert(new_inner@ =~= orig.subrange(0, lo as int) + insv.subrange(0, 0));
        }
        let mut t: usize = 0;
        while t < m
            invariant
                ins@ == insv,
                m == insv.len(),
                0 <= lo <= orig.len(),
                0 <= t <= m,
                new_inner@ == orig.subrange(0, lo as int) + insv.subrange(0, t as int),
            decreases m - t,
        {
            new_inner.push((ins[t].0, ins[t].1.dup()));
            proof {
                assert(new_inner@ =~= orig.subrange(0, lo as int) + insv.subrange(0, t + 1));
            }
            t = t + 1;
        }
        proof {
            assert(insv.subrange(0, m as int) =~= insv);
            assert(new_inner@ =~= orig.subrange(0, lo as int) + insv + orig.subrange(
                hi as int,
                hi as int,
            ));
        }
        let mut u: usize = hi;
        while u < n
            invariant
                self@ == orig,
                n == orig.len(),
                0 <= lo <= hi <= u <= n,
                new_inner@ == orig.subrange(0, lo as int) + insv + orig.subrange(
                    hi as int,
                    u as int,
                ),
            decreases n - u,
        {
            new_inner.push((self.inner[u].0, self.inner[u].1.dup()));
            proof {
                assert(new_inner@ =~= orig.subrange(0, lo as int) + insv + orig.subrange(
                    hi as int,
                    u + 1,
                ));
            }
            u = u + 1;
        }
        self.inner = new_inner;
    }
}

/// A cut whose query overlaps nothing changes nothing, yields nothing,
/// and cannot fail.
proof fn lemma_cut_noop<K: NiceRange + TryFromBounds, V, Q: NiceRange>(
    orig: Seq<(K, V)>,
    q: Q,
    lo: int,
)
    requires
        wf_seq(orig),
        valid_range(q),
        span_props(orig, q.spec_start(), q.spec_end(), lo, lo),
    ensures
        cut_shape(orig, orig, Seq::<(AnyRange, V)>::empty(), q, lo, lo),
        !cut_unrepresentable::<K, V, Q>(orig, q),
{
    reveal(cut_shape);
    assert(orig =~= orig.subrange(0, lo) + orig.subrange(lo, orig.len() as int));
    assert(cut_shape(orig, orig, Seq::<(AnyRange, V)>::empty(), q, lo, lo));
    if cut_unrepresentable::<K, V, Q>(orig, q) {
        let i = choose|i: int|
            0 <= i < orig.len() && #[trigger] overlap(orig[i].0, q) && ((pos_lt(
                r_start(orig[i].0),
                r_start(q),
            ) && !K::representable(orig[i].0.spec_start(), flip(q.spec_start()))) || (pos_lt(
                r_end(q),
                r_end(orig[i].0),
            ) && !K::representable(flip(q.spec_end()), orig[i].0.spec_end())));
        assert(valid_range(orig[i].0));
        assert(false);
    }
}

/// When both straddling pieces of the overlapping span are representable,
/// no entry at all witnesses an unrepresentable piece: the straddlers can
/// only be the first and the last entry of the span.
proof fn lemma_straddlers_representable<K: NiceRange + TryFromBounds, V, Q: NiceRange>(
    orig: Seq<(K, V)>,
    q: Q,
    lo: int,
    hi: int,
)
    requires
        wf_seq(orig),
        valid_range(q),
        span_props(orig, q.spec_start(), q.spec_end(), lo, hi),
        lo < hi,
        pos_lt(r_start(orig[lo].0), r_start(q)) ==> K::representable(
            orig[lo].0.spec_start(),
            flip(q.spec_start()),
        ),
        pos_lt(r_end(q), r_end(orig[hi - 1].0)) ==> K::representable(
            flip(q.spec_end()),
            orig[hi - 1].0.spec_end(),
        ),
    ensures
        !cut_unrepresentable::<K, V, Q>(orig, q),
{
    let qsb = q.spec_start();
    let qeb = q.spec_end();
    if cut_unrepresentable::<K, V, Q>(orig, q) {
        let i = choose|i: int|
            0 <= i < orig.len() && #[trigger] overlap(orig[i].0, q) && ((pos_lt(
                r_start(orig[i].0),
                r_start(q),
            ) && !K::representable(orig[i].0.spec_start(), flip(q.spec_start()))) || (pos_lt(
                r_end(q),
                r_end(orig[i].0),
            ) && !K::representable(flip(q.spec_end()), orig[i].0.spec_end())));
        assert(lo <= i < hi) by {
            assert(valid_range(orig[i].0));
        }
        if pos_lt(r_start(orig[i].0), r_start(q)) && !K::representable(
            orig[i].0.spec_start(),
            flip(q.spec_start()),
        ) {
            if i > lo {
                lemma_entry_order(orig, lo, i);
                assert(overlap(orig[lo].0, AnyRange { start: qsb, end: qeb }));
                assert(pos_le(start_pos(qsb), r_end(orig[lo].0)));
            }
            assert(i == lo);
        } else {
            if i < hi - 1 {
                lemma_entry_order(orig, i, hi - 1);
                assert(overlap(orig[hi - 1].0, AnyRange { start: qsb, end: qeb }));
                assert(pos_le(r_start(orig[hi - 1].0), end_pos(qeb)));
                assert(valid_range(orig[i].0));
            }
            assert(i == hi - 1);
        }
    }
}

/// Rebuilding the entry sequence after a cut keeps it well-formed, and
/// the rebuilt sequence together with the yielded pieces matches
/// [`cut_shape`].
#[verifier::rlimit(100)]
proof fn lemma_cut_rebuild<K: NiceRange, V, Q: NiceRange>(
    orig: Seq<(K, V)>,
    s: Seq<(K, V)>,
    pieces: Seq<(AnyRange, V)>,
    q: Q,
    lo: int,
    hi: int,
    bseq: Seq<(K, V)>,
    aseq: Seq<(K, V)>,
)
    requires
        wf_seq(orig),
        valid_range(q),
        span_props(orig, q.spec_start(), q.spec_end(), lo, hi),
        lo < hi,
        bseq.len() == if pos_lt(r_start(orig[lo].0), r_start(q)) {
            1int
        } else {
            0
        },
        aseq.len() == if pos_lt(r_end(q), r_end(orig[hi - 1].0)) {
            1int
        } else {
            0
        },
        bseq.len() == 1 ==> bseq[0].0.spec_start() == orig[lo].0.spec_start()
            && bseq[0].0.spec_end() == flip(q.spec_start()) && bseq[0].1 == orig[lo].1,
        aseq.len() == 1 ==> aseq[0].0.spec_start() == flip(q.spec_end())
            && aseq[0].0.spec_end() == orig[hi - 1].0.spec_end() && aseq[0].1 == orig[hi - 1].1,
        s == orig.subrange(0, lo) + bseq + aseq + orig.subrange(hi, orig.len() as int),
        pieces.len() == hi - lo,
        forall|t: int|
            0 <= t < hi - lo ==> #[trigger] pieces[t] == (
                inside_cut_of(orig[lo + t].0, q),
                orig[lo + t].1,
            ),
    ensures
        wf_seq(s),
        cut_shape(orig, s, pieces, q, lo, hi),
{
    reveal(cut_shape);
    let nb = bseq.len() as int;
    let na = aseq.len() as int;
    let nn = orig.len() as int;
    let qsb = q.spec_start();
    let qeb = q.spec_end();
    assert(overlap(orig[lo].0, AnyRange { start: qsb, end: qeb }));
    assert(overlap(orig[hi - 1].0, AnyRange { start: qsb, end: qeb }));
    assert(s.len() == lo + nb + na + (nn - hi));
    assert forall|x: int| 0 <= x < lo implies #[trigger] s[x] == orig[x] by {
        assert(s[x] == orig.subrange(0, lo)[x]);
    }
    assert forall|x: int| lo + nb + na <= x < s.len() implies #[trigger] s[x] == orig[x - (lo + nb
        + na) + hi] by {
        assert(s[x] == orig.subrange(hi, nn)[x - (lo + nb + na)]);
    }
    if nb == 1 {
        assert(s[lo] == bseq[0]);
    }
    if na == 1 {
        assert(s[lo + nb] == aseq[0]);
    }
    assert(cut_shape(orig, s, pieces, q, lo, hi));
    assert forall|x: int| 0 <= x < s.len() implies valid_range(#[trigger] s[x].0) by {
        if x < lo {
            assert(s[x] == orig[x]);
        } else if x >= lo + nb + na {
            assert(s[x] == orig[x - (lo + nb + na) + hi]);
        } else if nb == 1 && x == lo {
            assert(pos_lt(r_start(orig[lo].0), start_pos(qsb)));
            assert(start_pos(qsb) is Fin);
        } else {
            assert(na == 1 && x == lo + nb);
            assert(pos_lt(end_pos(qeb), r_end(orig[hi - 1].0)));
            assert(end_pos(qeb) is Fin);
        }
    }
    assert forall|x: int| 0 < x < s.len() implies pos_lt(
        r_end(s[x - 1].0),
        r_start(#[trigger] s[x].0),
    ) by {
        if x < lo {
            assert(s[x] == orig[x]);
            assert(s[x - 1] == orig[x - 1]);
        } else if x == lo {
            // the pair straddles the prefix boundary
            assert(s[x - 1] == orig[lo - 1]);
            assert(pos_lt(r_end(orig[lo - 1].0), start_pos(qsb)));
            if nb == 1 {
                assert(s[x].0.spec_start() == orig[lo].0.spec_start());
                assert(pos_lt(r_end(orig[lo - 1].0), r_start(orig[lo].0)));
            } else if na == 1 {
                assert(s[x].0.spec_start() == flip(qeb));
                assert(pos_le(start_pos(qsb), end_pos(qeb)));
            } else {
                assert(s[x] == orig[x + hi - lo]);
                assert(pos_lt(end_pos(qeb), r_start(orig[x + hi - lo].0)));
                assert(pos_le(start_pos(qsb), end_pos(qeb)));
            }
        } else if nb == 1 && x == lo + 1 {
            // the pair begins at the before piece
            assert(s[x - 1].0.spec_end() == flip(qsb));
            assert(pos_le(start_pos(qsb), end_pos(qeb)));
            if na == 1 {
                assert(s[x].0.spec_start() == flip(qeb));
            } else {
                assert(s[x] == orig[x - (lo + 1) + hi]);
                assert(pos_lt(end_pos(qeb), r_start(orig[x - (lo + 1) + hi].0)));
            }
        } else if na == 1 && x == lo + nb + na {
            // the pair begins at the after piece
            assert(s[x - 1].0.spec_end() == orig[hi - 1].0.spec_end());
            assert(s[x] == orig[hi]);
            assert(pos_lt(r_end(orig[hi - 1].0), r_start(orig[hi].0)));
        } else {
            // both sides sit in the suffix
            assert(s[x] == orig[x - (lo + nb + na) + hi]);
            assert(s[x - 1] == orig[x - 1 - (lo + nb + na) + hi]);
        }
    }
}

impl<K: NiceRange, V: StoredValue> RangeBoundsMap<K, V> {
    /// Returns every entry that overlaps the given range, in ascending
    /// start order.
    pub fn overlapping<Q: NiceRange>(&self, range: Q) -> (r: Vec<(K, V)>)
        requires
            self.wf(),
            valid_range(range),
        ensures
            r@ == self@.filter(|e: (K, V)| overlap(e.0, range)),
    {
        invalid_range_panic(range);
        let (lo, hi) = self.span(range.start(), range.end());
        let mut out: Vec<(K, V)> = Vec::new();
        let mut i: usize = lo;
        while i < hi
            invariant
                self.wf(),
                0 <= lo <= i <= hi <= self@.len(),
                out@ == self@.subrange(lo as int, i as int),
            decreases hi - i,
        {
            let k = self.inner[i].0;
            let v = self.inner[i].1.dup();
            out.push((k, v));
            proof {
                assert(out@ =~= self@.subrange(lo as int, i + 1));
            }
            i = i + 1;
        }
        proof {
            assert forall|j: int| lo <= j < hi implies (|e: (K, V)| overlap(e.0, range))(
                self@[j],
            ) by {
                assert(overlap(self@[j].0, AnyRange {
                    start: range.spec_start(),
                    end: range.spec_end(),
                }));
            }
            assert forall|j: int|
                (0 <= j < lo || hi <= j < self@.len()) implies !(|e: (K, V)| overlap(e.0, range))(
                self@[j],
            ) by {
                assert(valid_range(self@[j].0));
            }
            lemma_filter_contiguous(
                self@,
                |e: (K, V)| overlap(e.0, range),
                |e: (K, V)| !overlap(e.0, range),
                lo as int,
                hi as int,
            );
        }
        out
    }

    /// Returns the entry whose range holds the given point.  On a miss,
    /// returns the maximal range around the point that shares no
    /// position with any entry.
    #[verifier::rlimit(100)]
    pub fn get_entry_at_point(&self, point: i64) -> (r: Result<(K, V), AnyRange>)
        requires
            self.wf(),
        ensures
            r is Ok <==> covered_by(self@, at_point(point)),
            r matches Ok(e) ==> exists|i: int|
                0 <= i < self@.len() && self@[i] == e && in_range(
                    (#[trigger] self@[i]).0,
                    at_point(point),
                ),
            r matches Err(g) ==> {
                &&& valid_range(g)
                &&& in_range(g, at_point(point))
                &&& forall|p: Pos| in_range(g, p) ==> !covered_by(self@, p)
                &&& (g.start == Bnd::Unbounded || covered_by(self@, pos_pred(r_start(g))))
                &&& (g.end == Bnd::Unbounded || covered_by(self@, pos_succ(r_end(g))))
            },
    {
        let qb = Bnd::Included(point);
        let (lo, hi) = self.span(qb, qb);
        if lo < hi {
            let k = self.inner[lo].0;
            let v = self.inner[lo].1.dup();
            proof {
                assert(overlap(self@[lo as int].0, AnyRange { start: qb, end: qb }));
                assert(in_range(self@[lo as int].0, at_point(point)));
            }
            Ok((k, v))
        } else {
            let gs = if lo == 0 {
                Bnd::Unbounded
            } else {
                flip_bound(self.inner[lo - 1].0.end())
            };
            let ge = if lo == self.inner.len() {
                Bnd::Unbounded
            } else {
                flip_bound(self.inner[lo].0.start())
            };
            let g = AnyRange { start: gs, end: ge };
            proof {
                let s = self@;
                let p = at_point(point);
                assert(!covered_by(s, p)) by {
                    if covered_by(s, p) {
                        let j = choose|j: int| 0 <= j < s.len() && in_range(#[trigger] s[j].0, p);
                        assert(overlap(s[j].0, AnyRange { start: qb, end: qb }));
                    }
                }
                assert(in_range(g, p));
                assert forall|j: int| 0 <= j < lo implies pos_lt(
                    r_end(#[trigger] s[j].0),
                    r_start(g),
                ) by {
                    if j < lo - 1 {
                        lemma_entry_order(s, j, lo - 1);
                        assert(valid_range(s[lo - 1].0));
                    }
                }
                lemma_window_uncovered(s, lo as int, g);
                if lo > 0 {
                    assert(valid_range(s[lo - 1].0));
                    assert(in_range(s[lo - 1].0, pos_pred(r_start(g))));
                }
                if lo < s.len() {
                    assert(valid_range(s[lo as int].0));
                    assert(in_range(s[lo as int].0, pos_succ(r_end(g))));
                }
            }
            Err(g)
        }
    }

    /// Returns the value stored for the range holding the given point,
    /// if any.
    pub fn get_at_point(&self, point: i64) -> (r: Option<V>)
        requires
            self.wf(),
        ensures
            r is Some <==> covered_by(self@, at_point(point)),
            r matches Some(v) ==> exists|i: int|
                0 <= i < self@.len() && self@[i].1 == v && in_range(
                    (#[trigger] self@[i]).0,
                    at_point(point),
                ),
    {
        match self.get_entry_at_point(point) {
            Ok(e) => Some(e.1),
            Err(_) => None,
        }
    }

    /// Whether the map contains a range holding the given point.
    pub fn contains_point(&self, point: i64) -> (r: bool)
        requires
            self.wf(),
        ensures
            r == covered_by(self@, at_point(point)),
    {
        match self.get_entry_at_point(point) {
            Ok(_) => true,
            Err(_) => false,
        }
    }
}

impl<K: NiceRange, V> RangeBoundsMap<K, V> {
    /// Finds the entry whose end touches the start endpoint `qs`, if
    /// any.
    fn find_touching_start(&self, qs: Bnd) -> (r: Option<usize>)
        requires
            self.wf(),
        ensures
            r matches Some(i) ==> i < self@.len() && touch(self@[i as int].0.spec_end(), qs),
            r is None ==> forall|i: int|
                0 <= i < self@.len() ==> !touch((#[trigger] self@[i]).0.spec_end(), qs),
    {
        let n = self.inner.len();
        let mut i: usize = 0;
        while i < n
            invariant
                self.wf(),
                n == self@.len(),
                0 <= i <= n,
                forall|j: int| 0 <= j < i ==> !touch((#[trigger] self@[j]).0.spec_end(), qs),
            decreases n - i,
        {
            if bnds_touch(self.inner[i].0.end(), qs) {
                return Some(i);
            }
            i = i + 1;
        }
        None
    }

    /// Finds the entry whose start touches the end endpoint `qe`, if
    /// any.
    fn find_touching_end(&self, qe: Bnd) -> (r: Option<usize>)
        requires
            self.wf(),
        ensures
            r matches Some(i) ==> i < self@.len() && touch(qe, self@[i as int].0.spec_start()),
            r is None ==> forall|i: int|
                0 <= i < self@.len() ==> !touch(qe, (#[trigger] self@[i]).0.spec_start()),
    {
        let n = self.inner.len();
        let mut i: usize = 0;
        while i < n
            invariant
                self.wf(),
                n == self@.len(),
                0 <= i <= n,
                forall|j: int| 0 <= j < i ==> !touch(qe, (#[trigger] self@[j]).0.spec_start()),
            decreases n - i,
        {
            if bnds_touch(qe, self.inner[i].0.start()) {
                return Some(i);
            }
            i = i + 1;
        }
        None
    }

    /// Finds the entry holding the position of `b`, read on the side
    /// that `b_start` selects, if any.
    fn find_covering(&self, b: Bnd, b_start: bool) -> (r: Option<usize>)
        requires
            self.wf(),
        ensures
            r matches Some(i) ==> i < self@.len() && in_range(
                self@[i as int].0,
                pos_of(b, b_start),
            ),
            r is None ==> !covered_by(self@, pos_of(b, b_start)),
    {
        let n = self.inner.len();
        let mut i: usize = 0;
        while i < n
            invariant
                self.wf(),
                n == self@.len(),
                0 <= i <= n,
                forall|j: int| 0 <= j < i ==> !in_range((#[trigger] self@[j]).0, pos_of(b, b_start)),
            decreases n - i,
        {
            if pos_le_bnd(self.inner[i].0.start(), true, b, b_start) && pos_le_bnd(
                b,
                b_start,
                self.inner[i].0.end(),
                false,
            ) {
                return Some(i);
            }
            i = i + 1;
        }
        proof {
            assert forall|j: int| 0 <= j < self@.len() implies !in_range(
                (#[trigger] self@[j]).0,
                pos_of(b, b_start),
            ) by {}
            if covered_by(self@, pos_of(b, b_start)) {
                let j = choose|j: int|
                    0 <= j < self@.len() && in_range((#[trigger] self@[j]).0, pos_of(b, b_start));
                assert(false);
            }
        }
        None
    }
}

impl<K: NiceRange + TryFromBounds, V: StoredValue> RangeBoundsMap<K, V> {
    /// Builds the key spanning `ms` to `me`, removes every entry that
    /// overlaps it, and inserts it with the given value.
    fn merge_replace(&mut self, ms: Bnd, me: Bnd, value: V) -> (r: Result<K, TryFromBoundsError>)
        requires
            old(self).wf(),
            pos_le(start_pos(ms), end_pos(me)),
        ensures
            final(self).wf(),
            r is Ok <==> K::representable(ms, me),
            r is Err ==> final(self)@ == old(self)@ && r == Err::<K, TryFromBoundsError>(
                TryFromBoundsError,
            ),
            r matches Ok(k) ==> k.spec_start() == ms && k.spec_end() == me && merge_shape(
                old(self)@,
                final(self)@,
                k,
                value,
            ),
    {
        let ghost orig = self@;
        match K::try_from_bounds(ms, me) {
            Err(_) => Err(TryFromBoundsError),
            Ok(k) => {
                let (lo, hi) = self.span(ms, me);
                let mut ins: Vec<(K, V)> = Vec::new();
                ins.push((k, value));
                let ghost insv = ins@;
                self.splice(lo, hi, ins);
                proof {
                    assert(insv =~= seq![(k, insv[0].1)]);
                    assert(self@ == orig.subrange(0, lo as int) + insv + orig.subrange(
                        hi as int,
                        orig.len() as int,
                    ));
                    lemma_merge_rebuild(orig, self@, k, insv[0].1, lo as int, hi as int);
                }
                Ok(k)
            },
        }
    }

    /// Adds a new entry and merges it with the stored ranges that touch
    /// it; the merged range takes the inserted value.  Fails with an
    /// overlap error when the given range overlaps a stored one, and
    /// with a representability error when the merged endpoints cannot
    /// be represented by `K`; either way the map is unchanged.
    pub fn insert_merge_touching(&mut self, range: K, value: V) -> (r: Result<
        K,
        OverlapOrTryFromBoundsError,
    >)
        requires
            old(self).wf(),
            valid_range(range),
        ensures
            final(self).wf(),
            r == Err::<K, OverlapOrTryFromBoundsError>(
                OverlapOrTryFromBoundsError::Overlap(OverlapError),
            ) <==> exists|i: int|
                0 <= i < old(self)@.len() && overlap((#[trigger] old(self)@[i]).0, range),
            r is Err ==> final(self)@ == old(self)@,
            ({
                let ms = if touch_left_exists(old(self)@, range.spec_start()) {
                    touch_left_key(old(self)@, range.spec_start()).spec_start()
                } else {
                    range.spec_start()
                };
                let me = if touch_right_exists(old(self)@, range.spec_end()) {
                    touch_right_key(old(self)@, range.spec_end()).spec_end()
                } else {
                    range.spec_end()
                };
                &&& (!exists|i: int|
                    0 <= i < old(self)@.len() && overlap((#[trigger] old(self)@[i]).0, range))
                    ==> (r == Err::<K, OverlapOrTryFromBoundsError>(
                    OverlapOrTryFromBoundsError::TryFromBounds(TryFromBoundsError),
                ) <==> !K::representable(ms, me))
                &&& (r matches Ok(k) ==> k.spec_start() == ms && k.spec_end() == me
                    && merge_shape(old(self)@, final(self)@, k, value))
            }),
    {
        invalid_range_panic(range);
        if self.overlaps(range) {
            return Err(OverlapOrTryFromBoundsError::Overlap(OverlapError));
        }
        let qsb = range.start();
        let qeb = range.end();
        let ms = match self.find_touching_start(qsb) {
            Some(i) => {
                proof {
                    lemma_touch_left_unique(self@, qsb, i as int);
                }
                self.inner[i].0.start()
            },
            None => qsb,
        };
        let me = match self.find_touching_end(qeb) {
            Some(i) => {
                proof {
                    lemma_touch_right_unique(self@, qeb, i as int);
                }
                self.inner[i].0.end()
            },
            None => qeb,
        };
        proof {
            lemma_merged_bounds_valid(self@, range, ms, me);
        }
        match self.merge_replace(ms, me, value) {
            Ok(k) => Ok(k),
            Err(_) => Err(OverlapOrTryFromBoundsError::TryFromBounds(TryFromBoundsError)),
        }
    }

    /// Adds a new entry and merges it with the stored ranges that touch
    /// it and hold a value equal to the inserted one; the merged range
    /// takes the inserted value.
    pub fn insert_merge_touching_if_values_equal(&mut self, range: K, value: V) -> (r: Result<
        K,
        OverlapOrTryFromBoundsError,
    >)
        requires
            old(self).wf(),
            valid_range(range),
        ensures
            final(self).wf(),
            r == Err::<K, OverlapOrTryFromBoundsError>(
                OverlapOrTryFromBoundsError::Overlap(OverlapError),
            ) <==> exists|i: int|
                0 <= i < old(self)@.len() && overlap((#[trigger] old(self)@[i]).0, range),
            r is Err ==> final(self)@ == old(self)@,
            ({
                let ms = if touch_left_exists(old(self)@, range.spec_start()) && touch_left_value(
                    old(self)@,
                    range.spec_start(),
                ) == value {
                    touch_left_key(old(self)@, range.spec_start()).spec_start()
                } else {
                    range.spec_start()
                };
                let me = if touch_right_exists(old(self)@, range.spec_end())
                    && touch_right_value(old(self)@, range.spec_end()) == value {
                    touch_right_key(old(self)@, range.spec_end()).spec_end()
                } else {
                    range.spec_end()
                };
                &&& (!exists|i: int|
                    0 <= i < old(self)@.len() && overlap((#[trigger] old(self)@[i]).0, range))
                    ==> (r == Err::<K, OverlapOrTryFromBoundsError>(
                    OverlapOrTryFromBoundsError::TryFromBounds(TryFromBoundsError),
                ) <==> !K::representable(ms, me))
                &&& (r matches Ok(k) ==> k.spec_start() == ms && k.spec_end() == me
                    && merge_shape(old(self)@, final(self)@, k, value))
            }),
    {
        invalid_range_panic(range);
        if self.overlaps(range) {
            return Err(OverlapOrTryFromBoundsError::Overlap(OverlapError));
        }
        let qsb = range.start();
        let qeb = range.end();
        let ms = match self.find_touching_start(qsb) {
            Some(i) => {
                proof {
                    lemma_touch_left_unique(self@, qsb, i as int);
                    lemma_touch_left_value(self@, qsb, i as int);
                }
                if self.inner[i].1.same(&value) {
                    self.inner[i].0.start()
                } else {
                    qsb
                }
            },
            None => qsb,
        };
        let me = match self.find_touching_end(qeb) {
            Some(i) => {
                proof {
                    lemma_touch_right_unique(self@, qeb, i as int);
                    lemma_touch_right_value(self@, qeb, i as int);
                }
                if self.inner[i].1.same(&value) {
                    self.inner[i].0.end()
                } else {
                    qeb
                }
            },
            None => qeb,
        };
        proof {
            lemma_merged_bounds_valid(self@, range, ms, me);
        }
        match self.merge_replace(ms, me, value) {
            Ok(k) => Ok(k),
            Err(_) => Err(OverlapOrTryFromBoundsError::TryFromBounds(TryFromBoundsError)),
        }
    }

    /// Adds a new entry and merges it with the stored ranges that
    /// overlap it; the merged range takes the inserted value.
    pub fn insert_merge_overlapping(&mut self, range: K, value: V) -> (r: Result<
        K,
        TryFromBoundsError,
    >)
        requires
            old(self).wf(),
            valid_range(range),
        ensures
            final(self).wf(),
            r is Err ==> final(self)@ == old(self)@,
            ({
                let ms = if covered_by(old(self)@, r_start(range)) {
                    cover_key(old(self)@, r_start(range)).spec_start()
                } else {
                    range.spec_start()
                };
                let me = if covered_by(old(self)@, r_end(range)) {
                    cover_key(old(self)@, r_end(range)).spec_end()
                } else {
                    range.spec_end()
                };
                &&& (r is Err <==> !K::representable(ms, me))
                &&& (r matches Ok(k) ==> k.spec_start() == ms && k.spec_end() == me
                    && merge_shape(old(self)@, final(self)@, k, value))
            }),
    {
        invalid_range_panic(range);
        let qsb = range.start();
        let qeb = range.end();
        let ms = match self.find_covering(qsb, true) {
            Some(i) => {
                proof {
                    lemma_cover_key(self@, r_start(range), i as int);
                }
                self.inner[i].0.start()
            },
            None => qsb,
        };
        let me = match self.find_covering(qeb, false) {
            Some(i) => {
                proof {
                    lemma_cover_key(self@, r_end(range), i as int);
                }
                self.inner[i].0.end()
            },
            None => qeb,
        };
        proof {
            lemma_merged_bounds_valid(self@, range, ms, me);
        }
        self.merge_replace(ms, me, value)
    }

    /// Adds a new entry and merges it with the stored ranges that touch
    /// or overlap it; the merged range takes the inserted value.
    pub fn insert_merge_touching_or_overlapping(&mut self, range: K, value: V) -> (r: Result<
        K,
        TryFromBoundsError,
    >)
        requires
            old(self).wf(),
            valid_range(range),
        ensures
            final(self).wf(),
            r is Err ==> final(self)@ == old(self)@,
            ({
                let ms = if touch_left_exists(old(self)@, range.spec_start()) {
                    touch_left_key(old(self)@, range.spec_start()).spec_start()
                } else if covered_by(old(self)@, r_start(range)) {
                    cover_key(old(self)@, r_start(range)).spec_start()
                } else {
                    range.spec_start()
                };
                let me = if touch_right_exists(old(self)@, range.spec_end()) {
                    touch_right_key(old(self)@, range.spec_end()).spec_end()
                } else if covered_by(old(self)@, r_end(range)) {
                    cover_key(old(self)@, r_end(range)).spec_end()
                } else {
                    range.spec_end()
                };
                &&& (r is Err <==> !K::representable(ms, me))
                &&& (r matches Ok(k) ==> k.spec_start() == ms && k.spec_end() == me
                    && merge_shape(old(self)@, final(self)@, k, value))
            }),
    {
        invalid_range_panic(range);
        let qsb = range.start();
        let qeb = range.end();
        let ms = match self.find_touching_start(qsb) {
            Some(i) => {
                proof {
                    lemma_touch_left_unique(self@, qsb, i as int);
                }
                self.inner[i].0.start()
            },
            None => {
                match self.find_covering(qsb, true) {
                    Some(i) => {
                        proof {
                            lemma_cover_key(self@, r_start(range), i as int);
                        }
                        self.inner[i].0.start()
                    },
                    None => qsb,
                }
            },
        };
        let me = match self.find_touching_end(qeb) {
            Some(i) => {
                proof {
                    lemma_touch_right_unique(self@, qeb, i as int);
                }
                self.inner[i].0.end()
            },
            None => {
                match self.find_covering(qeb, false) {
                    Some(i) => {
                        proof {
                            lemma_cover_key(self@, r_end(range), i as int);
                        }
                        self.inner[i].0.end()
                    },
                    None => qeb,
                }
            },
        };
        proof {
            lemma_merged_bounds_valid(self@, range, ms, me);
        }
        self.merge_replace(ms, me, value)
    }
}

/// Whether `s` holds the element `x`.
pub open spec fn seq_has<T>(s: Seq<T>, x: T) -> bool {
    exists|a: int| 0 <= a < s.len() && (#[trigger] s[a]) == x
}

/// Whether the first `t` elements of `s` hold the element `x`.
pub open spec fn seq_has_in<T>(s: Seq<T>, x: T, t: int) -> bool {
    exists|j: int| 0 <= j < t && (#[trigger] s[j]) == x
}

/// How a successful overwrite rewrote the map: first the cut by
/// `range`, then the entry `(range, value)` inserted at its sorted
/// position in the intermediate sequence.
#[verifier::opaque]
pub open spec fn overwrite_ok_shape<K: NiceRange + TryFromBounds, V>(
    old_s: Seq<(K, V)>,
    new_s: Seq<(K, V)>,
    range: K,
    value: V,
) -> bool {
    exists|mid: Seq<(K, V)>, pieces: Seq<(AnyRange, V)>|
        {
            &&& #[trigger] cut_ok_shape(old_s, mid, pieces, range)
            &&& wf_seq(mid)
            &&& new_s == mid.insert(insert_index(mid, range), (range, value))
        }
}

/// After a cut by `q`, no remaining entry overlaps `q`.
pub proof fn lemma_cut_leaves_no_overlap<K: NiceRange, V, Q: NiceRange>(
    old_s: Seq<(K, V)>,
    new_s: Seq<(K, V)>,
    pieces: Seq<(AnyRange, V)>,
    q: Q,
)
    requires
        wf_seq(old_s),
        valid_range(q),
        cut_ok_shape(old_s, new_s, pieces, q),
    ensures
        forall|i: int| 0 <= i < new_s.len() ==> !overlap((#[trigger] new_s[i]).0, q),
{
    reveal(cut_shape);
    let (lo, hi) = choose|lo: int, hi: int| #[trigger] cut_shape(old_s, new_s, pieces, q, lo, hi);
    let nb: int = if lo < hi && pos_lt(r_start(old_s[lo].0), r_start(q)) {
        1
    } else {
        0
    };
    let na: int = if lo < hi && pos_lt(r_end(q), r_end(old_s[hi - 1].0)) {
        1
    } else {
        0
    };
    assert forall|i: int| 0 <= i < new_s.len() implies !overlap((#[trigger] new_s[i]).0, q) by {
        if i < lo {
            assert(new_s[i] == old_s[i]);
            assert(pos_lt(r_end(old_s[i].0), start_pos(q.spec_start())));
        } else if i >= lo + nb + na {
            assert(new_s[i] == old_s[i - (lo + nb + na) + hi]);
            assert(pos_lt(end_pos(q.spec_end()), r_start(old_s[i - (lo + nb + na) + hi].0)));
        } else if nb == 1 && i == lo {
            assert(new_s[i].0.spec_end() == flip(q.spec_start()));
        } else {
            assert(na == 1 && i == lo + nb);
            assert(new_s[i].0.spec_start() == flip(q.spec_end()));
        }
    }
}

impl<K: NiceRange + TryFromBounds, V: StoredValue> RangeBoundsMap<K, V> {
    /// Adds a new entry, overwriting the overlapped parts of existing
    /// entries: equivalent to cutting the given range out and then
    /// inserting it with the given value.  If a piece that the cut
    /// would leave behind cannot be represented by `K`, fails with
    /// [`TryFromBoundsError`] and leaves the map unchanged.
    pub fn insert_overwrite(&mut self, range: K, value: V) -> (r: Result<(), TryFromBoundsError>)
        requires
            old(self).wf(),
            valid_range(range),
        ensures
            final(self).wf(),
            r is Err <==> cut_unrepresentable::<K, V, K>(old(self)@, range),
            r is Err ==> final(self)@ == old(self)@ && r == Err::<(), TryFromBoundsError>(
                TryFromBoundsError,
            ),
            r is Ok ==> overwrite_ok_shape(old(self)@, final(self)@, range, value),
    {
        invalid_range_panic(range);
        let ghost orig = self@;
        match self.cut(range) {
            Err(_) => Err(TryFromBoundsError),
            Ok(pieces) => {
                let ghost mid = self@;
                let ghost piecesv = pieces@;
                proof {
                    lemma_cut_leaves_no_overlap(orig, mid, piecesv, range);
                }
                self.insert_unchecked(range, value);
                proof {
                    reveal(overwrite_ok_shape);
                    assert(overwrite_ok_shape(orig, self@, range, value));
                }
                Ok(())
            },
        }
    }
}

impl<K: NiceRange, V: StoredValue> RangeBoundsMap<K, V> {
    /// The entry with the least start endpoint, if any.
    pub fn first_entry(&self) -> (r: Option<(K, V)>)
        ensures
            self@.len() == 0 ==> r is None,
            self@.len() > 0 ==> r == Some(self@[0]),
    {
        if self.inner.len() == 0 {
            None
        } else {
            Some((self.inner[0].0, self.inner[0].1.dup()))
        }
    }

    /// The entry with the greatest start endpoint, if any.
    pub fn last_entry(&self) -> (r: Option<(K, V)>)
        ensures
            self@.len() == 0 ==> r is None,
            self@.len() > 0 ==> r == Some(self@[self@.len() - 1]),
    {
        let n = self.inner.len();
        if n == 0 {
            None
        } else {
            Some((self.inner[n - 1].0, self.inner[n - 1].1.dup()))
        }
    }

    /// Every entry of the map, in ascending start order.
    pub fn iter(&self) -> (r: Vec<(K, V)>)
        ensures
            r@ == self@,
    {
        let n = self.inner.len();
        let mut out: Vec<(K, V)> = Vec::new();
        let mut i: usize = 0;
        while i < n
            invariant
                n == self@.len(),
                0 <= i <= n,
                out@ == self@.subrange(0, i as int),
            decreases n - i,
        {
            out.push((self.inner[i].0, self.inner[i].1.dup()));
            proof {
                assert(out@ =~= self@.subrange(0, i + 1));
            }
            i = i + 1;
        }
        proof {
            assert(out@ =~= self@);
        }
        out
    }

    /// Builds a map from the given entries via strict insertion,
    /// failing on the first overlap.  Entries already in ascending,
    /// non-overlapping order are reproduced exactly.
    #[verifier::rlimit(100)]
    pub fn from_slice_strict(slice: Vec<(K, V)>) -> (r: Result<Self, OverlapError>)
        requires
            forall|i: int| 0 <= i < slice@.len() ==> valid_range((#[trigger] slice@[i]).0),
        ensures
            r is Err <==> exists|i: int, j: int|
                0 <= i < j < slice@.len() && overlap(
                    (#[trigger] slice@[i]).0,
                    (#[trigger] slice@[j]).0,
                ),
            r matches Ok(m) ==> {
                &&& m.wf()
                &&& m@.len() == slice@.len()
                &&& (forall|j: int| 0 <= j < slice@.len() ==> seq_has(m@, #[trigger] slice@[j]))
                &&& (forall|a: int| 0 <= a < m@.len() ==> seq_has(slice@, #[trigger] m@[a]))
            },
            wf_seq(slice@) ==> (r matches Ok(m) && m@ == slice@),
    {
        let mut map = Self::new();
        let n = slice.len();
        let mut t: usize = 0;
        while t < n
            invariant
                0 <= t <= n,
                n == slice@.len(),
                forall|i: int| 0 <= i < slice@.len() ==> valid_range((#[trigger] slice@[i]).0),
                map.wf(),
                map@.len() == t as int,
                forall|j: int| 0 <= j < t ==> seq_has(map@, #[trigger] slice@[j]),
                forall|a: int|
                    0 <= a < map@.len() ==> seq_has_in(slice@, #[trigger] map@[a], t as int),
                forall|i: int, j: int|
                    0 <= i < j < t ==> !overlap((#[trigger] slice@[i]).0, (#[trigger] slice@[j]).0),
                wf_seq(slice@) ==> map@ == slice@.subrange(0, t as int),
            decreases n - t,
        {
            let k = slice[t].0;
            let v = slice[t].1.dup();
            let ghost before = map@;
            match map.insert_strict(k, v) {
                Ok(_) => {
                    proof {
                        lemma_from_slice_step(slice@, before, map@, t as int, k, v);
                    }
                },
                Err(e) => {
                    proof {
                        lemma_from_slice_err(slice@, before, t as int, k);
                    }
                    return Err(e);
                },
            }
            t = t + 1;
        }
        proof {
            assert forall|j: int| 0 <= j < slice@.len() implies seq_has(
                map@,
                #[trigger] slice@[j],
            ) by {}
            assert forall|a: int| 0 <= a < map@.len() implies seq_has(
                slice@,
                #[trigger] map@[a],
            ) by {
                let j = choose|j: int| 0 <= j < n && (#[trigger] slice@[j]) == map@[a];
                assert(slice@[j] == map@[a]);
            }
            if wf_seq(slice@) {
                assert(map@ =~= slice@);
            }
        }
        Ok(map)
    }
}

/// `insert_index` always lies within the sequence.
proof fn lemma_insert_index_bounds<K: NiceRange, V>(s: Seq<(K, V)>, k: K)
    ensures
        0 <= insert_index(s, k) <= s.len(),
    decreases s.len(),
{
    if s.len() > 0 && pos_lt(r_end(s[0].0), r_start(k)) {
        lemma_insert_index_bounds(s.drop_first(), k);
    }
}

/// The entries below `insert_index` end before `k` starts, and the one
/// at it, if any, does not.
pub proof fn lemma_insert_index_props<K: NiceRange, V>(s: Seq<(K, V)>, k: K)
    ensures
        0 <= insert_index(s, k) <= s.len(),
        forall|j: int|
            0 <= j < insert_index(s, k) ==> pos_lt(r_end((#[trigger] s[j]).0), r_start(k)),
        insert_index(s, k) < s.len() ==> !pos_lt(r_end(s[insert_index(s, k)].0), r_start(k)),
    decreases s.len(),
{
    let m = insert_index(s, k);
    if s.len() > 0 && pos_lt(r_end(s[0].0), r_start(k)) {
        let d = s.drop_first();
        lemma_insert_index_props(d, k);
        assert forall|j: int| 0 <= j < m implies pos_lt(
            r_end((#[trigger] s[j]).0),
            r_start(k),
        ) by {
            if j > 0 {
                assert(d[j - 1] == s[j]);
                assert(pos_lt(r_end(d[j - 1].0), r_start(k)));
            }
        }
        if m < s.len() {
            assert(d[m - 1] == s[m]);
        }
    }
}

/// One successful step of the bulk construction keeps the containment,
/// disjointness and order bookkeeping.
proof fn lemma_from_slice_step<K: NiceRange, V>(
    slice: Seq<(K, V)>,
    before: Seq<(K, V)>,
    after: Seq<(K, V)>,
    t: int,
    k: K,
    v: V,
)
    requires
        0 <= t < slice.len(),
        slice[t].0 == k,
        slice[t].1 == v,
        before.len() == t,
        forall|j: int| 0 <= j < t ==> seq_has(before, #[trigger] slice[j]),
        forall|a: int| 0 <= a < before.len() ==> seq_has_in(slice, #[trigger] before[a], t),
        forall|a: int| 0 <= a < before.len() ==> !overlap((#[trigger] before[a]).0, k),
        forall|i: int, j: int|
            0 <= i < j < t ==> !overlap((#[trigger] slice[i]).0, (#[trigger] slice[j]).0),
        wf_seq(slice) ==> before == slice.subrange(0, t),
        after == before.insert(insert_index(before, k), (k, v)),
    ensures
        after.len() == t + 1,
        forall|j: int| 0 <= j < t + 1 ==> seq_has(after, #[trigger] slice[j]),
        forall|a: int| 0 <= a < after.len() ==> seq_has_in(slice, #[trigger] after[a], t + 1),
        forall|i: int, j: int|
            0 <= i < j < t + 1 ==> !overlap((#[trigger] slice[i]).0, (#[trigger] slice[j]).0),
        wf_seq(slice) ==> after == slice.subrange(0, t + 1),
{
    let m = insert_index(before, k);
    lemma_insert_index_bounds(before, k);
    before.insert_ensures(m, (k, v));
    assert forall|j: int| 0 <= j < t + 1 implies seq_has(after, #[trigger] slice[j]) by {
        if j < t {
            let a = choose|a: int| 0 <= a < before.len() && (#[trigger] before[a]) == slice[j];
            if a < m {
                assert(after[a] == slice[j]);
            } else {
                assert(after[a + 1] == slice[j]);
            }
        } else {
            assert(after[m] == (k, v));
            assert((k, v) == slice[t]);
        }
    }
    assert forall|a: int| 0 <= a < after.len() implies seq_has_in(
        slice,
        #[trigger] after[a],
        t + 1,
    ) by {
        if a < m {
            assert(after[a] == before[a]);
            assert(seq_has_in(slice, before[a], t));
            let j = choose|j: int| 0 <= j < t && (#[trigger] slice[j]) == before[a];
            assert(slice[j] == after[a]);
        } else if a == m {
            assert(after[a] == (k, v));
            assert(slice[t] == (k, v));
        } else {
            assert(after[a] == before[a - 1]);
            let j = choose|j: int| 0 <= j < t && (#[trigger] slice[j]) == before[a - 1];
            assert(slice[j] == after[a]);
        }
    }
    assert forall|i: int, j: int| 0 <= i < j < t + 1 implies !overlap(
        (#[trigger] slice[i]).0,
        (#[trigger] slice[j]).0,
    ) by {
        if j == t {
            let a = choose|a: int| 0 <= a < before.len() && (#[trigger] before[a]) == slice[i];
            assert(!overlap(before[a].0, k));
        }
    }
    if wf_seq(slice) {
        assert forall|j: int| 0 <= j < t implies pos_lt(
            r_end((#[trigger] before[j]).0),
            r_start(k),
        ) by {
            assert(before[j] == slice[j]);
            if j < t - 1 {
                lemma_entry_order(slice, j, t);
            }
        }
        lemma_insert_index_char(before, k, t);
        assert(after =~= slice.subrange(0, t + 1));
    }
}

/// A failing step of the bulk construction witnesses an overlapping
/// pair in the input, which also refutes sortedness.
proof fn lemma_from_slice_err<K: NiceRange, V>(slice: Seq<(K, V)>, before: Seq<(K, V)>, t: int, k: K)
    requires
        0 <= t < slice.len(),
        slice[t].0 == k,
        before.len() == t,
        forall|a: int| 0 <= a < before.len() ==> seq_has_in(slice, #[trigger] before[a], t),
        exists|a: int| 0 <= a < before.len() && overlap((#[trigger] before[a]).0, k),
        wf_seq(slice) ==> (forall|i: int|
            0 <= i < slice.len() ==> valid_range((#[trigger] slice[i]).0)),
    ensures
        exists|i: int, j: int|
            0 <= i < j < slice.len() && overlap((#[trigger] slice[i]).0, (#[trigger] slice[j]).0),
        !wf_seq(slice),
{
    let a = choose|a: int| 0 <= a < before.len() && overlap((#[trigger] before[a]).0, k);
    assert(seq_has_in(slice, before[a], t));
    let j = choose|j: int| 0 <= j < t && (#[trigger] slice[j]) == before[a];
    assert(overlap(slice[j].0, slice[t].0));
    if wf_seq(slice) {
        lemma_entry_order(slice, j, t);
        assert(valid_range(slice[j].0));
        assert(false);
    }
}

/// The value of the entry that ends touching `qs`.
pub open spec fn touch_left_value<K: NiceRange, V>(s: Seq<(K, V)>, qs: Bnd) -> V {
    s[choose|i: int| 0 <= i < s.len() && touch((#[trigger] s[i]).0.spec_end(), qs)].1
}

/// The value of the entry that starts touching `qe`.
pub open spec fn touch_right_value<K: NiceRange, V>(s: Seq<(K, V)>, qe: Bnd) -> V {
    s[choose|i: int| 0 <= i < s.len() && touch(qe, (#[trigger] s[i]).0.spec_start())].1
}

/// The entry that ends touching `qs` carries the value `touch_left_value`
/// names.
pub proof fn lemma_touch_left_value<K: NiceRange, V>(s: Seq<(K, V)>, qs: Bnd, i: int)
    requires
        wf_seq(s),
        0 <= i < s.len(),
        touch(s[i].0.spec_end(), qs),
    ensures
        touch_left_value(s, qs) == s[i].1,
{
    let c = choose|c: int| 0 <= c < s.len() && touch((#[trigger] s[c]).0.spec_end(), qs);
    lemma_touch_is_adjacency(s[i].0.spec_end(), qs);
    lemma_touch_is_adjacency(s[c].0.spec_end(), qs);
    if c < i {
        lemma_entry_order(s, c, i);
        assert(valid_range(s[i].0));
    }
    if i < c {
        lemma_entry_order(s, i, c);
        assert(valid_range(s[c].0));
    }
}

/// The entry that starts touching `qe` carries the value
/// `touch_right_value` names.
pub proof fn lemma_touch_right_value<K: NiceRange, V>(s: Seq<(K, V)>, qe: Bnd, i: int)
    requires
        wf_seq(s),
        0 <= i < s.len(),
        touch(qe, s[i].0.spec_start()),
    ensures
        touch_right_value(s, qe) == s[i].1,
{
    let c = choose|c: int| 0 <= c < s.len() && touch(qe, (#[trigger] s[c]).0.spec_start());
    lemma_touch_is_adjacency(qe, s[i].0.spec_start());
    lemma_touch_is_adjacency(qe, s[c].0.spec_start());
    if c < i {
        lemma_entry_order(s, c, i);
        assert(valid_range(s[c].0));
    }
    if i < c {
        lemma_entry_order(s, i, c);
        assert(valid_range(s[i].0));
    }
}

/// Merged endpoints taken from a touching or covering neighbour, or
/// from the query itself, always form a valid pair.
proof fn lemma_merged_bounds_valid<K: NiceRange, V, Q: NiceRange>(
    s: Seq<(K, V)>,
    range: Q,
    ms: Bnd,
    me: Bnd,
)
    requires
        valid_range(range),
        pos_le(start_pos(ms), start_pos(range.spec_start())),
        pos_le(end_pos(range.spec_end()), end_pos(me)),
    ensures
        pos_le(start_pos(ms), end_pos(me)),
{
}

// Helper functions ==========================

/// Every operation that takes a query range demands a valid one: an
/// invalid range is a caller bug, not a recoverable condition.  Verified
/// callers discharge the check statically, so nothing is left to test at
/// run time.
pub fn invalid_range_panic<Q: NiceRange>(range: Q)
    requires
        valid_range(range),
{
}

/// The insertion-order comparator: compares the start endpoint of a new
/// range against the start endpoint of a stored one.
pub fn double_comp<A: NiceRange, B: NiceRange>(new_range: &A, inner_range: &B) -> (r: Ordering)
    ensures
        r == Ordering::Less <==> pos_lt(r_start(*new_range), r_start(*inner_range)),
        r == Ordering::Equal <==> r_start(*new_range) == r_start(*inner_range),
        r == Ordering::Greater <==> pos_lt(r_start(*inner_range), r_start(*new_range)),
{
    cmp_pos(new_range.start(), true, inner_range.start(), true)
}

/// The point-search comparator for a query start endpoint: `Equal` when
/// the stored range holds the position of `start`, `Less` when the
/// stored range lies wholly below it, `Greater` when wholly above.
pub fn overlapping_start_comp<K: NiceRange>(start: Bnd, inner_range: &K) -> (r: Ordering)
    requires
        valid_range(*inner_range),
    ensures
        r == Ordering::Less <==> pos_lt(r_end(*inner_range), start_pos(start)),
        r == Ordering::Greater <==> pos_lt(start_pos(start), r_start(*inner_range)),
        r == Ordering::Equal <==> in_range(*inner_range, start_pos(start)),
{
    if pos_lt_bnd(inner_range.end(), false, start, true) {
        Ordering::Less
    } else if pos_lt_bnd(start, true, inner_range.start(), true) {
        Ordering::Greater
    } else {
        Ordering::Equal
    }
}

/// The point-search comparator for a query end endpoint: `Equal` when
/// the stored range holds the position of `end`, `Less` when the stored
/// range lies wholly below it, `Greater` when wholly above.
pub fn overlapping_end_comp<K: NiceRange>(end: Bnd, inner_range: &K) -> (r: Ordering)
    requires
        valid_range(*inner_range),
    ensures
        r == Ordering::Less <==> pos_lt(r_end(*inner_range), end_pos(end)),
        r == Ordering::Greater <==> pos_lt(end_pos(end), r_start(*inner_range)),
        r == Ordering::Equal <==> in_range(*inner_range, end_pos(end)),
{
    if pos_lt_bnd(inner_range.end(), false, end, false) {
        Ordering::Less
    } else if pos_lt_bnd(end, false, inner_range.start(), true) {
        Ordering::Greater
    } else {
        Ordering::Equal
    }
}

/// The neighbour-search comparator for a query start endpoint: `Equal`
/// exactly when the stored range's end touches `start`.  A stored range
/// that merely meets `start` at the same position with matching
/// inclusion is not touching and is reported `Greater`, so a search
/// skips past it without matching.
pub fn touching_start_comp<K: NiceRange>(start: Bnd, inner_range: &K) -> (r: Ordering)
    ensures
        r == Ordering::Equal <==> touch(inner_range.spec_end(), start),
        !touch(inner_range.spec_end(), start) ==> (r == Ordering::Less <==> pos_lt(
            r_end(*inner_range),
            start_pos(start),
        )),
        !touch(inner_range.spec_end(), start) ==> (r == Ordering::Greater <==> pos_le(
            start_pos(start),
            r_end(*inner_range),
        )),
{
    if bnds_touch(inner_range.end(), start) {
        Ordering::Equal
    } else if pos_lt_bnd(inner_range.end(), false, start, true) {
        Ordering::Less
    } else {
        Ordering::Greater
    }
}

/// The neighbour-search comparator for a query end endpoint: `Equal`
/// exactly when `end` touches the stored range's start.  A stored range
/// that merely meets `end` at the same position with matching inclusion
/// is not touching and is reported `Less`, so a search skips past it
/// without matching.
pub fn touching_end_comp<K: NiceRange>(end: Bnd, inner_range: &K) -> (r: Ordering)
    ensures
        r == Ordering::Equal <==> touch(end, inner_range.spec_start()),
        !touch(end, inner_range.spec_start()) ==> (r == Ordering::Less <==> pos_le(
            r_start(*inner_range),
            end_pos(end),
        )),
        !touch(end, inner_range.spec_start()) ==> (r == Ordering::Greater <==> pos_lt(
            end_pos(end),
            r_start(*inner_range),
        )),
{
    if bnds_touch(end, inner_range.start()) {
        Ordering::Equal
    } else if pos_le_bnd(inner_range.start(), true, end, false) {
        Ordering::Less
    } else {
        Ordering::Greater
    }
}

} // verus!
