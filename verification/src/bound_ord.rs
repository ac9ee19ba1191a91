//! The total order on range endpoints.
//!
//! An endpoint is a point with an inclusion flag, or an unbounded sentinel.
//! Whether an endpoint sits on the start side or the end side of a range
//! decides how an excluded point is read: an excluded end lies just before
//! its point, an excluded start just after it.  The order is captured by
//! mapping every endpoint to a `Pos`: a position on a discrete number line
//! that spreads each point `p` over three slots `3p - 1`, `3p`, `3p + 1`,
//! so that overlap, touching and gap arithmetic become plain comparisons
//! and successor steps.

use vstd::prelude::*;
use core::cmp::Ordering;

verus! {

/// One endpoint of a range: a point that is included, a point that is
/// excluded, or no bound at all on that side.
#[derive(Clone, Copy, PartialEq, Eq, Structural, Debug)]
pub enum Bnd {
    Included(i64),
    Excluded(i64),
    Unbounded,
}

/// The position of an endpoint on the discrete number line, with the two
/// unbounded sentinels below and above every finite position.
pub enum Pos {
    NegInf,
    Fin(int),
    PosInf,
}

/// The position of `b` read as the start endpoint of a range.
pub open spec fn start_pos(b: Bnd) -> Pos {
    match b {
        Bnd::Included(p) => Pos::Fin(3 * (p as int)),
        Bnd::Excluded(p) => Pos::Fin(3 * (p as int) + 1),
        Bnd::Unbounded => Pos::NegInf,
    }
}

/// The position of `b` read as the end endpoint of a range.
pub open spec fn end_pos(b: Bnd) -> Pos {
    match b {
        Bnd::Included(p) => Pos::Fin(3 * (p as int)),
        Bnd::Excluded(p) => Pos::Fin(3 * (p as int) - 1),
        Bnd::Unbounded => Pos::PosInf,
    }
}

/// The position of the bare point `p`.
pub open spec fn at_point(p: i64) -> Pos {
    Pos::Fin(3 * (p as int))
}

pub open spec fn pos_of(b: Bnd, is_start: bool) -> Pos {
    if is_start {
        start_pos(b)
    } else {
        end_pos(b)
    }
}

pub open spec fn pos_le(a: Pos, b: Pos) -> bool {
    match (a, b) {
        (Pos::NegInf, _) => true,
        (_, Pos::PosInf) => true,
        (Pos::Fin(x), Pos::Fin(y)) => x <= y,
        _ => false,
    }
}

pub open spec fn pos_lt(a: Pos, b: Pos) -> bool {
    !pos_le(b, a)
}

/// The next position up; the sentinels are fixed points.
pub open spec fn pos_succ(a: Pos) -> Pos {
    match a {
        Pos::Fin(x) => Pos::Fin(x + 1),
        _ => a,
    }
}

/// The next position down; the sentinels are fixed points.
pub open spec fn pos_pred(a: Pos) -> Pos {
    match a {
        Pos::Fin(x) => Pos::Fin(x - 1),
        _ => a,
    }
}

/// Swap included and excluded; unbounded is a fixed point.  Flipping turns
/// the end endpoint of a range into the start endpoint of the region that
/// begins immediately after it, and the other way round.
pub open spec fn flip(b: Bnd) -> Bnd {
    match b {
        Bnd::Included(p) => Bnd::Excluded(p),
        Bnd::Excluded(p) => Bnd::Included(p),
        Bnd::Unbounded => Bnd::Unbounded,
    }
}

/// An end endpoint `e` touches a start endpoint `s` when they sit at the
/// same point with opposite inclusion: nothing lies between them, yet they
/// share no position.
pub open spec fn touch(e: Bnd, s: Bnd) -> bool {
    match (e, s) {
        (Bnd::Included(p), Bnd::Excluded(q)) => p == q,
        (Bnd::Excluded(p), Bnd::Included(q)) => p == q,
        _ => false,
    }
}

/// Touching is exactly adjacency of positions: the start sits one slot
/// above the end.
pub proof fn lemma_touch_is_adjacency(e: Bnd, s: Bnd)
    ensures
        touch(e, s) <==> (end_pos(e) is Fin && start_pos(s) == pos_succ(end_pos(e))),
{
}

#[verifier::when_used_as_spec(flip)]
pub fn flip_bound(b: Bnd) -> (r: Bnd)
    ensures
        r == flip(b),
{
    match b {
        Bnd::Included(p) => Bnd::Excluded(p),
        Bnd::Excluded(p) => Bnd::Included(p),
        Bnd::Unbounded => Bnd::Unbounded,
    }
}

/// Three-way comparison of two endpoint positions, each read on the side
/// that `a_start` / `b_start` selects.
pub fn cmp_pos(a: Bnd, a_start: bool, b: Bnd, b_start: bool) -> (r: Ordering)
    ensures
        r == Ordering::Less <==> pos_lt(pos_of(a, a_start), pos_of(b, b_start)),
        r == Ordering::Equal <==> pos_of(a, a_start) == pos_of(b, b_start),
        r == Ordering::Greater <==> pos_lt(pos_of(b, b_start), pos_of(a, a_start)),
{
    match (a, b) {
        (Bnd::Unbounded, Bnd::Unbounded) => {
            if a_start == b_start {
                Ordering::Equal
            } else if a_start {
                Ordering::Less
            } else {
                Ordering::Greater
            }
        },
        (Bnd::Unbounded, _) => {
            if a_start {
                Ordering::Less
            } else {
                Ordering::Greater
            }
        },
        (_, Bnd::Unbounded) => {
            if b_start {
                Ordering::Greater
            } else {
                Ordering::Less
            }
        },
        _ => {
            let (pa, oa): (i64, i8) = match a {
                Bnd::Included(p) => (p, 0),
                Bnd::Excluded(p) => (p, if a_start { 1 } else { -1 }),
                Bnd::Unbounded => (0, 0),
            };
            let (pb, ob): (i64, i8) = match b {
                Bnd::Included(p) => (p, 0),
                Bnd::Excluded(p) => (p, if b_start { 1 } else { -1 }),
                Bnd::Unbounded => (0, 0),
            };
            if pa < pb {
                Ordering::Less
            } else if pb < pa {
                Ordering::Greater
            } else if oa < ob {
                Ordering::Less
            } else if ob < oa {
                Ordering::Greater
            } else {
                Ordering::Equal
            }
        },
    }
}

/// `pos_le` on the side-selected positions of two endpoints.
pub fn pos_le_bnd(a: Bnd, a_start: bool, b: Bnd, b_start: bool) -> (r: bool)
    ensures
        r == pos_le(pos_of(a, a_start), pos_of(b, b_start)),
{
    match cmp_pos(a, a_start, b, b_start) {
        Ordering::Greater => false,
        _ => true,
    }
}

/// `pos_lt` on the side-selected positions of two endpoints.
pub fn pos_lt_bnd(a: Bnd, a_start: bool, b: Bnd, b_start: bool) -> (r: bool)
    ensures
        r == pos_lt(pos_of(a, a_start), pos_of(b, b_start)),
{
    match cmp_pos(a, a_start, b, b_start) {
        Ordering::Less => true,
        _ => false,
    }
}

/// Whether the end endpoint `e` touches the start endpoint `s`.
pub fn bnds_touch(e: Bnd, s: Bnd) -> (r: bool)
    ensures
        r == touch(e, s),
{
    match (e, s) {
        (Bnd::Included(p), Bnd::Excluded(q)) => p == q,
        (Bnd::Excluded(p), Bnd::Included(q)) => p == q,
        _ => false,
    }
}

} // verus!
