//! What the rewriting operations do to the coverage of the map: which
//! positions are held after a cut or an overwrite, with which values,
//! and that overwriting twice with the same arguments is the same as
//! doing it once.

use vstd::prelude::*;
use crate::bound_ord::{end_pos, flip, pos_le, pos_lt, start_pos, Bnd, Pos};
use crate::range_bounds_map::{
    covered_by, cut_ok_shape, cut_shape, in_range, insert_index, lemma_cover_unique,
    lemma_cut_leaves_no_overlap, lemma_entry_order, lemma_insert_index_props, lemma_span_unique,
    overwrite_ok_shape, span_props, wf_seq, NiceRange,
};
use crate::try_from_bounds::TryFromBounds;
use crate::utils::{overlap, r_end, r_start, valid_range, AnyRange};

verus! {

/// The value stored for the position `p`, if any entry holds it.
pub open spec fn value_at<K: NiceRange, V>(s: Seq<(K, V)>, p: Pos) -> Option<V> {
    if covered_by(s, p) {
        Some(s[choose|i: int| 0 <= i < s.len() && in_range((#[trigger] s[i]).0, p)].1)
    } else {
        None
    }
}

/// An entry holding `p` pins `value_at` to its value.
pub proof fn lemma_value_at<K: NiceRange, V>(s: Seq<(K, V)>, p: Pos, i: int)
    requires
        wf_seq(s),
        0 <= i < s.len(),
        in_range(s[i].0, p),
    ensures
        value_at(s, p) == Some(s[i].1),
{
    assert(covered_by(s, p));
    let c = choose|c: int| 0 <= c < s.len() && in_range((#[trigger] s[c]).0, p);
    lemma_cover_unique(s, i, c, p);
}

/// Law of the cut: after a successful cut by `q`, a position is held
/// exactly when it was held before and does not lie in `q`, and a
/// position outside `q` keeps its stored value.
pub proof fn lemma_cut_coverage<K: NiceRange, V, Q: NiceRange>(
    old_s: Seq<(K, V)>,
    new_s: Seq<(K, V)>,
    pieces: Seq<(AnyRange, V)>,
    q: Q,
    p: Pos,
)
    requires
        wf_seq(old_s),
        wf_seq(new_s),
        valid_range(q),
        cut_ok_shape(old_s, new_s, pieces, q),
    ensures
        covered_by(new_s, p) <==> (covered_by(old_s, p) && !in_range(q, p)),
        !in_range(q, p) ==> value_at(new_s, p) == value_at(old_s, p),
{
    reveal(cut_shape);
    let (lo, hi) = choose|lo: int, hi: int| #[trigger] cut_shape(old_s, new_s, pieces, q, lo, hi);
    let nb: int = if lo < hi && pos_lt(r_start(old_s[lo].0), r_start(q)) {
        1
    } else {
        0
    };
    let na: int = if lo < hi && pos_lt(r_end(q), r_end(old_s[hi - 1].0)) {
        1
    } else {
        0
    };
    let qs = start_pos(q.spec_start());
    let qe = end_pos(q.spec_end());
    if covered_by(new_s, p) {
        let i = choose|i: int| 0 <= i < new_s.len() && in_range((#[trigger] new_s[i]).0, p);
        if i < lo {
            assert(new_s[i] == old_s[i]);
            assert(in_range(old_s[i].0, p));
            assert(pos_lt(r_end(old_s[i].0), qs));
            lemma_value_at(old_s, p, i);
            lemma_value_at(new_s, p, i);
        } else if i >= lo + nb + na {
            let j = i - (lo + nb + na) + hi;
            assert(new_s[i] == old_s[j]);
            assert(in_range(old_s[j].0, p));
            assert(pos_lt(qe, r_start(old_s[j].0)));
            lemma_value_at(old_s, p, j);
            lemma_value_at(new_s, p, i);
        } else if nb == 1 && i == lo {
            assert(new_s[i].0.spec_start() == old_s[lo].0.spec_start());
            assert(new_s[i].0.spec_end() == flip(q.spec_start()));
            assert(overlap(old_s[lo].0, AnyRange { start: q.spec_start(), end: q.spec_end() }));
            assert(pos_le(qs, r_end(old_s[lo].0)));
            assert(in_range(old_s[lo].0, p));
            assert(pos_lt(p, qs));
            lemma_value_at(old_s, p, lo);
            lemma_value_at(new_s, p, i);
        } else {
            assert(na == 1 && i == lo + nb);
            assert(new_s[i].0.spec_start() == flip(q.spec_end()));
            assert(new_s[i].0.spec_end() == old_s[hi - 1].0.spec_end());
            assert(overlap(old_s[hi - 1].0, AnyRange { start: q.spec_start(), end: q.spec_end() }));
            assert(pos_le(r_start(old_s[hi - 1].0), qe));
            assert(in_range(old_s[hi - 1].0, p));
            assert(pos_lt(qe, p));
            lemma_value_at(old_s, p, hi - 1);
            lemma_value_at(new_s, p, i);
        }
    }
    if covered_by(old_s, p) && !in_range(q, p) {
        let j = choose|j: int| 0 <= j < old_s.len() && in_range((#[trigger] old_s[j]).0, p);
        if j < lo {
            assert(new_s[j] == old_s[j]);
            assert(in_range(new_s[j].0, p));
        } else if j >= hi {
            let i = j - hi + (lo + nb + na);
            assert(new_s[i] == old_s[j]);
            assert(in_range(new_s[i].0, p));
        } else {
            assert(overlap(old_s[lo].0, AnyRange { start: q.spec_start(), end: q.spec_end() }));
            assert(overlap(old_s[hi - 1].0, AnyRange { start: q.spec_start(), end: q.spec_end() }));
            if pos_lt(p, qs) {
                if j > lo {
                    lemma_entry_order(old_s, lo, j);
                    assert(pos_le(qs, r_end(old_s[lo].0)));
                    assert(false);
                }
                assert(pos_le(r_start(old_s[lo].0), p));
                assert(nb == 1);
                assert(new_s[lo].0.spec_start() == old_s[lo].0.spec_start());
                assert(new_s[lo].0.spec_end() == flip(q.spec_start()));
                assert(in_range(new_s[lo].0, p));
            } else {
                assert(pos_lt(qe, p));
                if j < hi - 1 {
                    lemma_entry_order(old_s, j, hi - 1);
                    assert(pos_le(r_start(old_s[hi - 1].0), qe));
                    assert(false);
                }
                assert(pos_le(p, r_end(old_s[hi - 1].0)));
                assert(na == 1);
                assert(new_s[lo + nb].0.spec_start() == flip(q.spec_end()));
                assert(new_s[lo + nb].0.spec_end() == old_s[hi - 1].0.spec_end());
                assert(in_range(new_s[lo + nb].0, p));
            }
        }
    }
}

/// Inserting an entry that overlaps nothing, at its sorted position,
/// keeps the sequence well-formed.
pub proof fn lemma_insert_wf<K: NiceRange, V>(s: Seq<(K, V)>, k: K, v: V)
    requires
        wf_seq(s),
        valid_range(k),
        forall|i: int| 0 <= i < s.len() ==> !overlap((#[trigger] s[i]).0, k),
    ensures
        wf_seq(s.insert(insert_index(s, k), (k, v))),
{
    let m = insert_index(s, k);
    lemma_insert_index_props(s, k);
    s.insert_ensures(m, (k, v));
    let t = s.insert(m, (k, v));
    assert forall|i: int| 0 <= i < t.len() implies valid_range((#[trigger] t[i]).0) by {
        if i < m {
            assert(t[i] == s[i]);
        } else if i > m {
            assert(t[i] == s[i - 1]);
        }
    }
    assert forall|i: int| 0 < i < t.len() implies pos_lt(
        r_end(t[i - 1].0),
        r_start((#[trigger] t[i]).0),
    ) by {
        if i < m {
            assert(t[i] == s[i]);
            assert(t[i - 1] == s[i - 1]);
        } else if i == m {
            assert(t[i - 1] == s[i - 1]);
            assert(pos_lt(r_end(s[i - 1].0), r_start(k)));
        } else if i == m + 1 {
            assert(t[i] == s[i - 1]);
            assert(!pos_lt(r_end(s[i - 1].0), r_start(k)));
            assert(!overlap(s[i - 1].0, k));
            assert(pos_lt(r_end(k), r_start(s[i - 1].0)));
        } else {
            assert(t[i] == s[i - 1]);
            assert(t[i - 1] == s[i - 2]);
        }
    }
}

/// Law of the overwrite: after a successful overwriting insertion of
/// `(range, value)`, every position of `range` is held with `value`,
/// and every position outside `range` keeps its old coverage and value.
pub proof fn lemma_insert_overwrite_coverage<K: NiceRange + TryFromBounds, V>(
    old_s: Seq<(K, V)>,
    new_s: Seq<(K, V)>,
    range: K,
    value: V,
    p: Pos,
)
    requires
        wf_seq(old_s),
        valid_range(range),
        overwrite_ok_shape(old_s, new_s, range, value),
    ensures
        wf_seq(new_s),
        in_range(range, p) ==> value_at(new_s, p) == Some(value),
        !in_range(range, p) ==> value_at(new_s, p) == value_at(old_s, p),
        covered_by(new_s, p) <==> (covered_by(old_s, p) || in_range(range, p)),
{
    reveal(overwrite_ok_shape);
    let (mid, pieces) = choose|mid: Seq<(K, V)>, pieces: Seq<(AnyRange, V)>|
        {
            &&& #[trigger] cut_ok_shape(old_s, mid, pieces, range)
            &&& wf_seq(mid)
            &&& new_s == mid.insert(insert_index(mid, range), (range, value))
        };
    lemma_cut_leaves_no_overlap(old_s, mid, pieces, range);
    lemma_insert_wf(mid, range, value);
    let m = insert_index(mid, range);
    lemma_insert_index_props(mid, range);
    mid.insert_ensures(m, (range, value));
    lemma_cut_coverage(old_s, mid, pieces, range, p);
    if in_range(range, p) {
        assert(new_s[m] == (range, value));
        lemma_value_at(new_s, p, m);
    } else {
        if covered_by(mid, p) {
            let i = choose|i: int| 0 <= i < mid.len() && in_range((#[trigger] mid[i]).0, p);
            lemma_value_at(mid, p, i);
            if i < m {
                assert(new_s[i] == mid[i]);
                lemma_value_at(new_s, p, i);
            } else {
                assert(new_s[i + 1] == mid[i]);
                lemma_value_at(new_s, p, i + 1);
            }
        }
        if covered_by(new_s, p) {
            let i = choose|i: int| 0 <= i < new_s.len() && in_range((#[trigger] new_s[i]).0, p);
            if i < m {
                assert(new_s[i] == mid[i]);
                assert(covered_by(mid, p));
            } else if i == m {
                assert(new_s[i].0 == range);
                assert(false);
            } else {
                assert(new_s[i] == mid[i - 1]);
                assert(covered_by(mid, p));
            }
        }
        assert(value_at(new_s, p) == value_at(mid, p));
        assert(value_at(mid, p) == value_at(old_s, p));
    }
}

/// Law of idempotence: overwriting with the same range and value twice
/// leaves exactly the state that one overwrite leaves.
pub proof fn lemma_insert_overwrite_idempotent<K: NiceRange + TryFromBounds, V>(
    s0: Seq<(K, V)>,
    s1: Seq<(K, V)>,
    s2: Seq<(K, V)>,
    range: K,
    value: V,
)
    requires
        wf_seq(s0),
        valid_range(range),
        overwrite_ok_shape(s0, s1, range, value),
        overwrite_ok_shape(s1, s2, range, value),
    ensures
        s1 == s2,
{
    reveal(overwrite_ok_shape);
    reveal(cut_shape);
    let (mid1, pieces1) = choose|mid: Seq<(K, V)>, pieces: Seq<(AnyRange, V)>|
        {
            &&& #[trigger] cut_ok_shape(s0, mid, pieces, range)
            &&& wf_seq(mid)
            &&& s1 == mid.insert(insert_index(mid, range), (range, value))
        };
    let (mid2, pieces2) = choose|mid: Seq<(K, V)>, pieces: Seq<(AnyRange, V)>|
        {
            &&& #[trigger] cut_ok_shape(s1, mid, pieces, range)
            &&& wf_seq(mid)
            &&& s2 == mid.insert(insert_index(mid, range), (range, value))
        };
    lemma_cut_leaves_no_overlap(s0, mid1, pieces1, range);
    lemma_insert_wf(mid1, range, value);
    let m1 = insert_index(mid1, range);
    lemma_insert_index_props(mid1, range);
    mid1.insert_ensures(m1, (range, value));
    // The overlapping span of `range` in `s1` is exactly the entry
    // `(range, value)` at `m1`.
    assert(s1[m1] == (range, value));
    assert(valid_range(range));
    assert(span_props(s1, range.spec_start(), range.spec_end(), m1, m1 + 1)) by {
        assert(overlap(s1[m1].0, AnyRange {
            start: range.spec_start(),
            end: range.spec_end(),
        }));
        assert forall|j: int| 0 <= j < m1 implies pos_lt(
            r_end((#[trigger] s1[j]).0),
            start_pos(range.spec_start()),
        ) by {
            assert(s1[j] == mid1[j]);
            assert(pos_lt(r_end(mid1[j].0), r_start(range)));
        }
        assert forall|j: int| m1 + 1 <= j < s1.len() implies pos_lt(
            end_pos(range.spec_end()),
            r_start((#[trigger] s1[j]).0),
        ) by {
            assert(s1[j] == mid1[j - 1]);
            assert(!overlap(mid1[j - 1].0, range));
            assert(!pos_lt(r_end(mid1[m1].0), r_start(range)));
            if j - 1 > m1 {
                lemma_entry_order(mid1, m1, j - 1);
                assert(valid_range(mid1[m1].0));
            }
            assert(pos_le(r_start(range), r_end(mid1[j - 1].0)));
        }
    }
    let (lo2, hi2) = choose|lo: int, hi: int| #[trigger] cut_shape(s1, mid2, pieces2, range, lo, hi);
    lemma_span_unique(s1, range.spec_start(), range.spec_end(), lo2, hi2, m1, m1 + 1);
    // No straddling piece: the removed entry is `range` itself.
    assert(!pos_lt(r_start(s1[m1].0), r_start(range)));
    assert(!pos_lt(r_end(range), r_end(s1[m1].0)));
    assert(mid2 == s1.subrange(0, m1) + s1.subrange(m1 + 1, s1.len() as int)) by {
        assert(mid2.len() == s1.len() - 1);
        assert forall|j: int| 0 <= j < mid2.len() implies #[trigger] mid2[j] == (s1.subrange(
            0,
            m1,
        ) + s1.subrange(m1 + 1, s1.len() as int))[j] by {
            if j < m1 {
                assert(mid2[j] == s1[j]);
            } else {
                assert(mid2[j] == s1[j + 1]);
            }
        }
        assert(mid2 =~= s1.subrange(0, m1) + s1.subrange(m1 + 1, s1.len() as int));
    }
    assert(mid2 == mid1) by {
        assert(mid2.len() == mid1.len());
        assert forall|j: int| 0 <= j < mid2.len() implies #[trigger] mid2[j] == mid1[j] by {
            if j < m1 {
                assert(s1[j] == mid1[j]);
                assert(mid2[j] == s1[j]);
            } else {
                assert(s1[j + 1] == mid1[j]);
                assert(mid2[j] == s1[j + 1]);
            }
        }
        assert(mid2 =~= mid1);
    }
    assert(s2 == s1);
}

} // verus!
