use std::cmp::Ordering;

use range_bounds_map::bound_ord::Bnd;
use range_bounds_map::range_bounds_map::{
    overlapping_end_comp, overlapping_start_comp, touching_end_comp, touching_start_comp,
    OverlapError, RangeBoundsMap, TryFromBoundsError,
};
use range_bounds_map::range_bounds_set::RangeBoundsSet;
use range_bounds_map::test_ranges::{ee, ei, eu, ie, ie_strict, ii, iu, ue, ui, uu, HalfOpen};
use range_bounds_map::try_from_bounds::TryFromBounds;
use range_bounds_map::utils::{is_valid_range, overlaps, AnyRange};

#[test]
fn gap_fallback_at_point() {
    let map = RangeBoundsMap::from_slice_strict(vec![
        (ie(1, 4), false),
        (ie(4, 6), true),
        (ie(8, 100), false),
    ])
    .unwrap();

    assert_eq!(map.get_entry_at_point(3), Ok((ie(1, 4), false)));
    assert_eq!(map.get_entry_at_point(5), Ok((ie(4, 6), true)));
    assert_eq!(map.get_entry_at_point(7), Err(ie(6, 8)));
    assert_eq!(map.get_entry_at_point(101), Err(iu(100)));
}

#[test]
fn point_lookups() {
    let map = RangeBoundsMap::from_slice_strict(vec![
        (ie(1, 4), false),
        (ie(4, 8), true),
        (ie(8, 100), false),
    ])
    .unwrap();

    assert_eq!(map.get_at_point(3), Some(false));
    assert_eq!(map.get_at_point(4), Some(true));
    assert_eq!(map.get_at_point(101), None);
    assert!(map.contains_point(3));
    assert!(map.contains_point(4));
    assert!(!map.contains_point(101));
}

#[test]
fn cut_interior() {
    let mut map = RangeBoundsMap::from_slice_strict(vec![(ie(2, 8), false)]).unwrap();

    let pieces = map.cut(ie(4, 6)).unwrap();
    assert_eq!(pieces, vec![(ie(4, 6), false)]);
    assert_eq!(
        map,
        RangeBoundsMap::from_slice_strict(vec![(ie(2, 4), false), (ie(6, 8), false)]).unwrap()
    );
}

#[test]
fn cut_multi() {
    let mut map = RangeBoundsMap::from_slice_strict(vec![
        (ie(1, 4), false),
        (ie(4, 8), true),
        (ie(8, 100), false),
    ])
    .unwrap();

    let pieces = map.cut(ie(2, 40)).unwrap();
    assert_eq!(
        pieces,
        vec![(ie(2, 4), false), (ie(4, 8), true), (ie(8, 40), false)]
    );
    assert_eq!(
        map,
        RangeBoundsMap::from_slice_strict(vec![(ie(1, 2), false), (ie(40, 100), false)]).unwrap()
    );
}

#[test]
fn cut_unrepresentable_leaves_map_unchanged() {
    let mut map: RangeBoundsMap<HalfOpen, bool> =
        RangeBoundsMap::from_slice_strict(vec![(ie_strict(2, 8), true)]).unwrap();
    let clone = map.clone();

    // the right piece would need an excluded start, which HalfOpen
    // cannot represent
    assert_eq!(map.cut(ii(4, 6)), Err(TryFromBoundsError));
    assert_eq!(map, clone);
}

#[test]
fn touching_merge() {
    let mut map =
        RangeBoundsMap::from_slice_strict(vec![(ie(1, 4), false), (ie(6, 8), true)]).unwrap();

    assert_eq!(map.insert_merge_touching(ie(4, 6), true), Ok(ie(1, 8)));
    assert_eq!(
        map,
        RangeBoundsMap::from_slice_strict(vec![(ie(1, 8), true)]).unwrap()
    );
}

#[test]
fn overlap_gaps() {
    let map = RangeBoundsMap::from_slice_strict(vec![
        (ie(1, 3), false),
        (ie(5, 7), true),
        (ie(9, 100), false),
    ])
    .unwrap();

    assert_eq!(map.gaps(iu(2)), vec![ie(3, 5), ie(7, 9), iu(100)]);
}

#[test]
fn contains_range_examples() {
    let map = RangeBoundsMap::from_slice_strict(vec![
        (ie(1, 3), false),
        (ie(5, 8), true),
        (ie(8, 100), false),
    ])
    .unwrap();

    assert!(map.contains_range(ie(1, 3)));
    assert!(!map.contains_range(ie(2, 6)));
    assert!(map.contains_range(ie(6, 100)));
}

#[test]
fn overwrite_splits_straddling_entry() {
    let mut map = RangeBoundsMap::from_slice_strict(vec![(ie(2, 8), false)]).unwrap();

    assert_eq!(map.insert_overwrite(ie(4, 6), true), Ok(()));
    assert_eq!(
        map,
        RangeBoundsMap::from_slice_strict(vec![
            (ie(2, 4), false),
            (ie(4, 6), true),
            (ie(6, 8), false),
        ])
        .unwrap()
    );
}

#[test]
fn overwrite_is_idempotent() {
    let mut once = RangeBoundsMap::from_slice_strict(vec![(ie(2, 8), false), (ie(9, 12), true)])
        .unwrap();
    once.insert_overwrite(ie(4, 10), true).unwrap();

    let mut twice = RangeBoundsMap::from_slice_strict(vec![(ie(2, 8), false), (ie(9, 12), true)])
        .unwrap();
    twice.insert_overwrite(ie(4, 10), true).unwrap();
    twice.insert_overwrite(ie(4, 10), true).unwrap();

    assert_eq!(once, twice);
}

#[test]
fn entries_round_trip() {
    let map = RangeBoundsMap::from_slice_strict(vec![
        (ui(4), false),
        (ee(5, 7), true),
        (ii(7, 7), false),
        (ie(14, 16), true),
    ])
    .unwrap();

    let entries = map.iter();
    let rebuilt = RangeBoundsMap::from_slice_strict(entries).unwrap();
    assert_eq!(rebuilt, map);
}

#[test]
fn strict_insert_reports_first_overlap() {
    let mut map = RangeBoundsMap::new();
    assert_eq!(map.insert_strict(ie(5, 10), 9i64), Ok(()));
    assert_eq!(map.insert_strict(ie(5, 10), 2i64), Err(OverlapError));
    assert_eq!(map.len(), 1);
    assert!(!map.is_empty());
}

#[test]
fn first_and_last_entry() {
    let map = RangeBoundsMap::from_slice_strict(vec![
        (ie(1, 4), false),
        (ie(4, 8), true),
        (ie(8, 100), false),
    ])
    .unwrap();

    assert_eq!(map.first_entry(), Some((ie(1, 4), false)));
    assert_eq!(map.last_entry(), Some((ie(8, 100), false)));

    let empty: RangeBoundsMap<AnyRange, bool> = RangeBoundsMap::new();
    assert_eq!(empty.first_entry(), None);
    assert_eq!(empty.last_entry(), None);
}

#[test]
fn overlaps_method_examples() {
    let mut map = RangeBoundsMap::new();
    map.insert_strict(ie(5, 10), false).unwrap();

    assert!(!map.overlaps(ii(1, 3)));
    assert!(!map.overlaps(ie(4, 5)));
    assert!(map.overlaps(ii(4, 5)));
    assert!(map.overlaps(ie(4, 6)));
}

#[test]
fn validity_of_range_shapes() {
    assert!(is_valid_range(ii(4, 4)));
    assert!(!is_valid_range(ie(4, 4)));
    assert!(!is_valid_range(ei(4, 4)));
    assert!(!is_valid_range(ee(4, 4)));
    assert!(is_valid_range(ee(4, 5)));
    assert!(is_valid_range(uu()));
    assert!(!is_valid_range(ii(5, 4)));
}

#[test]
fn boundary_overlap_rules() {
    // shared point counts as overlap only when both sides include it
    assert!(overlaps(ii(1, 5), ii(5, 9)));
    assert!(!overlaps(ie(1, 5), ii(5, 9)));
    assert!(!overlaps(ii(1, 5), ei(5, 9)));
    assert!(!overlaps(ie(1, 5), ei(5, 9)));
}

#[test]
fn comparator_classification() {
    // point-search comparators report where the stored range lies
    assert_eq!(overlapping_start_comp(Bnd::Included(5), &ie(1, 4)), Ordering::Less);
    assert_eq!(overlapping_start_comp(Bnd::Included(5), &ie(4, 8)), Ordering::Equal);
    assert_eq!(overlapping_start_comp(Bnd::Included(5), &ie(6, 8)), Ordering::Greater);
    assert_eq!(overlapping_end_comp(Bnd::Excluded(5), &ie(1, 4)), Ordering::Less);
    assert_eq!(overlapping_end_comp(Bnd::Excluded(5), &ie(4, 8)), Ordering::Equal);

    // touching comparators match only opposite inclusions at one point
    assert_eq!(touching_start_comp(Bnd::Included(5), &ie(1, 5)), Ordering::Equal);
    assert_eq!(touching_start_comp(Bnd::Excluded(5), &ii(1, 5)), Ordering::Equal);
    assert_eq!(touching_start_comp(Bnd::Included(5), &ii(1, 5)), Ordering::Greater);
    assert_eq!(touching_start_comp(Bnd::Included(7), &ii(1, 5)), Ordering::Less);
    assert_eq!(touching_end_comp(Bnd::Excluded(5), &ie(5, 9)), Ordering::Equal);
    assert_eq!(touching_end_comp(Bnd::Included(5), &ei(5, 9)), Ordering::Equal);
    assert_eq!(touching_end_comp(Bnd::Included(5), &ie(5, 9)), Ordering::Less);
    assert_eq!(touching_end_comp(Bnd::Included(5), &ie(7, 9)), Ordering::Greater);
}

#[test]
fn half_open_try_from_bounds() {
    assert_eq!(
        HalfOpen::try_from_bounds(Bnd::Included(2), Bnd::Excluded(8)),
        Ok(ie_strict(2, 8))
    );
    assert_eq!(
        HalfOpen::try_from_bounds(Bnd::Included(2), Bnd::Included(8)),
        Err(TryFromBoundsError)
    );
    assert_eq!(
        HalfOpen::try_from_bounds(Bnd::Unbounded, Bnd::Excluded(8)),
        Err(TryFromBoundsError)
    );
}

#[test]
fn set_facade() {
    let mut set: RangeBoundsSet<AnyRange> = RangeBoundsSet::new();
    assert!(set.is_empty());

    set.insert_strict(ie(1, 4)).unwrap();
    set.insert_strict(ie(8, 100)).unwrap();
    assert_eq!(set.insert_strict(ie(2, 3)), Err(OverlapError));
    assert_eq!(set.len(), 2);

    assert!(set.contains_point(2));
    assert!(!set.contains_point(5));
    assert_eq!(set.overlapping(ie(0, 9)), vec![ie(1, 4), ie(8, 100)]);
    assert_eq!(set.iter(), vec![ie(1, 4), ie(8, 100)]);
    assert_eq!(set.gaps(uu()), vec![ue(1), ie(4, 8), iu(100)]);
    assert_eq!(set.first(), Some(ie(1, 4)));
    assert_eq!(set.last(), Some(ie(8, 100)));

    assert_eq!(set.insert_merge_touching(ie(4, 8)), Ok(ie(1, 100)));
    assert_eq!(set.iter(), vec![ie(1, 100)]);
}

#[test]
fn gaps_at_boundary_with_matching_exclusion() {
    // the outer range starts excluded exactly where an entry ends
    // excluded: the degenerate contact produces no gap there
    let map = RangeBoundsMap::from_slice_strict(vec![(ie(1, 5), false)]).unwrap();
    assert_eq!(map.gaps(eu(5)), vec![eu(5)]);
    assert_eq!(map.gaps(ee(0, 5)), vec![ee(0, 1)]);

    // both-included contact at the same point is covered, not a gap
    let map2 = RangeBoundsMap::from_slice_strict(vec![(ii(1, 5), false)]).unwrap();
    assert_eq!(map2.gaps(ii(5, 9)), vec![ei(5, 9)]);
}

#[test]
fn overwrite_unrepresentable_leaves_map_unchanged() {
    let mut map: RangeBoundsMap<HalfOpen, bool> =
        RangeBoundsMap::from_slice_strict(vec![(ie_strict(2, 8), true)]).unwrap();
    let clone = map.clone();

    assert_eq!(map.insert_overwrite(ie_strict(4, 6), false), Ok(()));
    assert_eq!(
        map,
        RangeBoundsMap::from_slice_strict(vec![
            (ie_strict(2, 4), true),
            (ie_strict(4, 6), false),
            (ie_strict(6, 8), true),
        ])
        .unwrap()
    );

    let mut map = clone.clone();
    // cutting [4, 6] out of [2, 8) would leave (6, 8), which HalfOpen
    // cannot represent
    assert!(RangeBoundsMap::cut(&mut map, ii(4, 6)).is_err());
    assert_eq!(map, clone);
}

#[test]
fn merge_variants_on_empty_map() {
    let mut map: RangeBoundsMap<AnyRange, bool> = RangeBoundsMap::new();
    assert_eq!(map.insert_merge_touching(ie(1, 4), true), Ok(ie(1, 4)));

    let mut map: RangeBoundsMap<AnyRange, bool> = RangeBoundsMap::new();
    assert_eq!(map.insert_merge_overlapping(ie(1, 4), true), Ok(ie(1, 4)));

    let mut map: RangeBoundsMap<AnyRange, bool> = RangeBoundsMap::new();
    assert_eq!(
        map.insert_merge_touching_or_overlapping(ie(1, 4), true),
        Ok(ie(1, 4))
    );
    assert_eq!(map.iter(), vec![(ie(1, 4), true)]);
}

#[test]
fn set_merge_variants() {
    let mut set: RangeBoundsSet<AnyRange> =
        RangeBoundsSet::from_slice_strict(vec![ie(1, 4), ie(6, 8)]).unwrap();
    assert_eq!(
        set.insert_merge_touching(ie(2, 3)),
        Err(range_bounds_map::range_bounds_map::OverlapOrTryFromBoundsError::Overlap(
            OverlapError
        ))
    );
    assert_eq!(set.insert_merge_touching(ie(4, 6)), Ok(ie(1, 8)));
    assert_eq!(set.iter(), vec![ie(1, 8)]);

    let mut set: RangeBoundsSet<AnyRange> =
        RangeBoundsSet::from_slice_strict(vec![ie(1, 4), ie(6, 8)]).unwrap();
    assert_eq!(set.insert_merge_overlapping(ii(3, 6)), Ok(ie(1, 8)));
    assert_eq!(set.iter(), vec![ie(1, 8)]);

    let mut set: RangeBoundsSet<HalfOpen> =
        RangeBoundsSet::from_slice_strict(vec![ie_strict(1, 4)]).unwrap();
    assert_eq!(
        set.insert_merge_touching_or_overlapping(ie_strict(0, 1)),
        Ok(ie_strict(0, 4))
    );
    assert_eq!(set.iter(), vec![ie_strict(0, 4)]);

    assert!(RangeBoundsSet::<AnyRange>::from_slice_strict(vec![ie(1, 4), ie(3, 6)]).is_err());
}
