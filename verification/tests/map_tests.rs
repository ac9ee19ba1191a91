use std::cmp::Ordering;

use range_bounds_map::bound_ord::Bnd;
use range_bounds_map::range_bounds_map::{
    double_comp, NiceRange, OverlapError, OverlapOrTryFromBoundsError, RangeBoundsMap,
    TryFromBoundsError,
};
use range_bounds_map::test_ranges::{
    ee, ei, ie, ii, iu, mee, mii, u, ue, ui, uu, MultiBounds,
};
use range_bounds_map::try_from_bounds::TryFromBounds;
use range_bounds_map::utils::{cut_range, is_valid_range, overlaps, AnyRange, CutResult};

// only every other number to allow mathematical_overlapping_definition
// to test between bounds in finite using smaller intervalled finite
const NUMBERS: &[i64] = &[2, 4, 6, 8, 10];
// go a bit around on either side to compensate for Unbounded
const NUMBERS_DOMAIN: &[i64] = &[0, 1, 2, 3, 4, 5, 6, 7, 8, 9, 10, 11];

fn basic() -> RangeBoundsMap<AnyRange, bool> {
    RangeBoundsMap::from_slice_strict(vec![
        (ui(4), false),
        (ee(5, 7), true),
        (ii(7, 7), false),
        (ie(14, 16), true),
    ])
    .unwrap()
}

fn special() -> RangeBoundsMap<MultiBounds, bool> {
    RangeBoundsMap::from_slice_strict(vec![
        (mii(4, 6), false),
        (mee(7, 8), true),
        (mii(8, 12), false),
    ])
    .unwrap()
}

#[test]
fn insert_strict_tests() {
    assert_insert_strict(basic(), (ii(0, 4), false), Err(OverlapError), None);
    assert_insert_strict(basic(), (ii(5, 6), false), Err(OverlapError), None);
    assert_insert_strict(
        basic(),
        (ee(7, 8), false),
        Ok(()),
        Some(vec![
            (ui(4), false),
            (ee(5, 7), true),
            (ii(7, 7), false),
            (ee(7, 8), false),
            (ie(14, 16), true),
        ]),
    );
    assert_insert_strict(basic(), (ii(4, 5), true), Err(OverlapError), None);
    assert_insert_strict(
        basic(),
        (ei(4, 5), true),
        Ok(()),
        Some(vec![
            (ui(4), false),
            (ei(4, 5), true),
            (ee(5, 7), true),
            (ii(7, 7), false),
            (ie(14, 16), true),
        ]),
    );
}

fn assert_insert_strict(
    mut before: RangeBoundsMap<AnyRange, bool>,
    to_insert: (AnyRange, bool),
    result: Result<(), OverlapError>,
    after: Option<Vec<(AnyRange, bool)>>,
) {
    let clone = before.clone();
    assert_eq!(before.insert_strict(to_insert.0, to_insert.1), result);
    match after {
        Some(after) => {
            assert_eq!(before, RangeBoundsMap::from_slice_strict(after).unwrap())
        }
        None => assert_eq!(before, clone),
    }
}

#[test]
fn overlapping_tests() {
    //case zero
    for overlap_range in all_valid_test_bounds() {
        //you can't overlap nothing
        assert!(RangeBoundsMap::<AnyRange, ()>::new()
            .overlapping(overlap_range)
            .is_empty());
    }

    //case one
    for overlap_range in all_valid_test_bounds() {
        for inside_range in all_valid_test_bounds() {
            let mut map = RangeBoundsMap::new();
            map.insert_strict(inside_range, ()).unwrap();

            let mut expected_overlapping = Vec::new();
            if overlaps(overlap_range, inside_range) {
                expected_overlapping.push(inside_range);
            }

            let overlapping = map
                .overlapping(overlap_range)
                .into_iter()
                .map(|(key, _)| key)
                .collect::<Vec<_>>();

            if overlapping != expected_overlapping {
                println!("{:?}", (overlap_range, inside_range));
                println!("{:?}", (overlapping, expected_overlapping));
                panic!("Discrepency in .overlapping() with single inside range detected!");
            }
        }
    }

    //case two
    for overlap_range in all_valid_test_bounds() {
        for (inside_range1, inside_range2) in all_non_overlapping_test_bound_entries() {
            let mut map = RangeBoundsMap::new();
            map.insert_strict(inside_range1, ()).unwrap();
            map.insert_strict(inside_range2, ()).unwrap();

            let mut expected_overlapping = Vec::new();
            if overlaps(overlap_range, inside_range1) {
                expected_overlapping.push(inside_range1);
            }
            if overlaps(overlap_range, inside_range2) {
                expected_overlapping.push(inside_range2);
            }
            //make our expected_overlapping the correct order
            if expected_overlapping.len() > 1 {
                if double_comp(&expected_overlapping[0], &expected_overlapping[1])
                    == Ordering::Greater
                {
                    expected_overlapping.swap(0, 1);
                }
            }

            let overlapping = map
                .overlapping(overlap_range)
                .into_iter()
                .map(|(key, _)| key)
                .collect::<Vec<_>>();

            if overlapping != expected_overlapping {
                println!("{:?}", (overlap_range, inside_range1, inside_range2));
                println!("{:?}", (overlapping, expected_overlapping));
                panic!("Discrepency in .overlapping() with two inside ranges detected!");
            }
        }
    }
}

#[test]
fn remove_overlapping_tests() {
    assert_remove_overlapping(basic(), ii(5, 5), vec![], None);
    assert_remove_overlapping(
        basic(),
        uu(),
        vec![
            (ui(4), false),
            (ee(5, 7), true),
            (ii(7, 7), false),
            (ie(14, 16), true),
        ],
        Some(vec![]),
    );
    assert_remove_overlapping(
        basic(),
        ii(6, 7),
        vec![(ee(5, 7), true), (ii(7, 7), false)],
        Some(vec![(ui(4), false), (ie(14, 16), true)]),
    );
    assert_remove_overlapping(
        basic(),
        iu(6),
        vec![(ee(5, 7), true), (ii(7, 7), false), (ie(14, 16), true)],
        Some(vec![(ui(4), false)]),
    );
}

fn assert_remove_overlapping(
    mut before: RangeBoundsMap<AnyRange, bool>,
    to_remove: AnyRange,
    result: Vec<(AnyRange, bool)>,
    after: Option<Vec<(AnyRange, bool)>>,
) {
    let clone = before.clone();
    assert_eq!(before.remove_overlapping(to_remove), result);
    match after {
        Some(after) => {
            assert_eq!(before, RangeBoundsMap::from_slice_strict(after).unwrap())
        }
        None => assert_eq!(before, clone),
    }
}

#[test]
fn cut_tests() {
    assert_cut(basic(), ii(50, 60), Ok(vec![]), None);
    assert_cut(
        basic(),
        uu(),
        Ok(vec![
            (ui(4), false),
            (ee(5, 7), true),
            (ii(7, 7), false),
            (ie(14, 16), true),
        ]),
        Some(vec![]),
    );
    assert_cut(
        basic(),
        ui(6),
        Ok(vec![(ui(4), false), (ei(5, 6), true)]),
        Some(vec![(ee(6, 7), true), (ii(7, 7), false), (ie(14, 16), true)]),
    );
    assert_cut(
        basic(),
        iu(6),
        Ok(vec![(ie(6, 7), true), (ii(7, 7), false), (ie(14, 16), true)]),
        Some(vec![(ui(4), false), (ee(5, 6), true)]),
    );

    assert_cut(
        special(),
        mee(5, 7),
        Ok(vec![(ei(5, 6), false)]),
        Some(vec![(mii(4, 5), false), (mee(7, 8), true), (mii(8, 12), false)]),
    );
    assert_cut(special(), mee(6, 7), Ok(vec![]), None);
    assert_cut(special(), mii(5, 6), Err(TryFromBoundsError), None);
    assert_cut(special(), mii(6, 7), Err(TryFromBoundsError), None);
    assert_cut(
        special(),
        ie(7, 8),
        Ok(vec![(ee(7, 8), true)]),
        Some(vec![(mii(4, 6), false), (mii(8, 12), false)]),
    );
    assert_cut(special(), mii(7, 10), Err(TryFromBoundsError), None);
    assert_cut(
        special(),
        mee(4, 6),
        Ok(vec![(ee(4, 6), false)]),
        Some(vec![
            (mii(4, 4), false),
            (mii(6, 6), false),
            (mee(7, 8), true),
            (mii(8, 12), false),
        ]),
    );
}

fn assert_cut<K, Q>(
    mut before: RangeBoundsMap<K, bool>,
    to_cut: Q,
    result: Result<Vec<(AnyRange, bool)>, TryFromBoundsError>,
    after: Option<Vec<(K, bool)>>,
) where
    K: NiceRange + TryFromBounds + PartialEq + std::fmt::Debug,
    Q: NiceRange,
{
    let clone = before.clone();
    match before.cut(to_cut) {
        Ok(pieces) => {
            assert_eq!(pieces, result.unwrap());
        }
        Err(x) => {
            assert_eq!(x, result.unwrap_err());
        }
    }
    match after {
        Some(after) => {
            assert_eq!(before, RangeBoundsMap::from_slice_strict(after).unwrap())
        }
        None => assert_eq!(before, clone),
    }
}

#[test]
fn gaps_tests() {
    assert_gaps(basic(), ii(50, 60), vec![ii(50, 60)]);
    assert_gaps(basic(), iu(50), vec![iu(50)]);
    assert_gaps(basic(), ee(3, 16), vec![ei(4, 5), ee(7, 14)]);
    assert_gaps(basic(), ei(3, 16), vec![ei(4, 5), ee(7, 14), ii(16, 16)]);
    assert_gaps(basic(), ue(5), vec![ee(4, 5)]);
    assert_gaps(basic(), ui(3), vec![]);
    assert_gaps(basic(), ii(5, 5), vec![ii(5, 5)]);
    assert_gaps(basic(), ii(6, 6), vec![]);
    assert_gaps(basic(), ii(7, 7), vec![]);
    assert_gaps(basic(), ii(8, 8), vec![ii(8, 8)]);
}

fn assert_gaps(map: RangeBoundsMap<AnyRange, bool>, outer_range: AnyRange, result: Vec<AnyRange>) {
    assert_eq!(map.gaps(outer_range), result);
}

#[test]
fn insert_merge_touching_tests() {
    assert_insert_merge_touching(
        basic(),
        (ii(0, 4), false),
        Err(OverlapOrTryFromBoundsError::Overlap(OverlapError)),
        None,
    );
    assert_insert_merge_touching(
        basic(),
        (ee(7, 10), false),
        Ok(ie(7, 10)),
        Some(vec![
            (ui(4), false),
            (ee(5, 7), true),
            (ie(7, 10), false),
            (ie(14, 16), true),
        ]),
    );
    assert_insert_merge_touching(
        basic(),
        (ee(7, 11), true),
        Ok(ie(7, 11)),
        Some(vec![
            (ui(4), false),
            (ee(5, 7), true),
            (ie(7, 11), true),
            (ie(14, 16), true),
        ]),
    );
    assert_insert_merge_touching(
        basic(),
        (ee(12, 13), true),
        Ok(ee(12, 13)),
        Some(vec![
            (ui(4), false),
            (ee(5, 7), true),
            (ii(7, 7), false),
            (ee(12, 13), true),
            (ie(14, 16), true),
        ]),
    );
    assert_insert_merge_touching(
        basic(),
        (ee(13, 14), false),
        Ok(ee(13, 16)),
        Some(vec![
            (ui(4), false),
            (ee(5, 7), true),
            (ii(7, 7), false),
            (ee(13, 16), false),
        ]),
    );
    assert_insert_merge_touching(
        basic(),
        (ee(7, 14), false),
        Ok(ie(7, 16)),
        Some(vec![(ui(4), false), (ee(5, 7), true), (ie(7, 16), false)]),
    );

    assert_insert_merge_touching(
        special(),
        (mee(6, 7), true),
        Err(OverlapOrTryFromBoundsError::TryFromBounds(TryFromBoundsError)),
        None,
    );
    assert_insert_merge_touching(
        special(),
        (mii(6, 7), true),
        Err(OverlapOrTryFromBoundsError::Overlap(OverlapError)),
        None,
    );
    assert_insert_merge_touching(
        special(),
        (mee(12, 15), true),
        Err(OverlapOrTryFromBoundsError::TryFromBounds(TryFromBoundsError)),
        None,
    );
    assert_insert_merge_touching(
        special(),
        (mii(12, 15), true),
        Err(OverlapOrTryFromBoundsError::Overlap(OverlapError)),
        None,
    );
}

fn assert_insert_merge_touching<K>(
    mut before: RangeBoundsMap<K, bool>,
    to_insert: (K, bool),
    result: Result<K, OverlapOrTryFromBoundsError>,
    after: Option<Vec<(K, bool)>>,
) where
    K: NiceRange + TryFromBounds + PartialEq + std::fmt::Debug,
{
    let clone = before.clone();
    assert_eq!(before.insert_merge_touching(to_insert.0, to_insert.1), result);
    match after {
        Some(after) => {
            assert_eq!(before, RangeBoundsMap::from_slice_strict(after).unwrap())
        }
        None => assert_eq!(before, clone),
    }
}

#[test]
fn insert_merge_touching_if_values_equal_tests() {
    assert_insert_merge_touching_if_values_equal(
        basic(),
        (ii(0, 4), false),
        Err(OverlapOrTryFromBoundsError::Overlap(OverlapError)),
        None,
    );
    assert_insert_merge_touching_if_values_equal(
        basic(),
        (ee(7, 10), false),
        Ok(ie(7, 10)),
        Some(vec![
            (ui(4), false),
            (ee(5, 7), true),
            (ie(7, 10), false),
            (ie(14, 16), true),
        ]),
    );
    assert_insert_merge_touching_if_values_equal(
        basic(),
        (ee(7, 11), true),
        Ok(ee(7, 11)),
        Some(vec![
            (ui(4), false),
            (ee(5, 7), true),
            (ii(7, 7), false),
            (ee(7, 11), true),
            (ie(14, 16), true),
        ]),
    );
    assert_insert_merge_touching_if_values_equal(
        basic(),
        (ee(12, 13), true),
        Ok(ee(12, 13)),
        Some(vec![
            (ui(4), false),
            (ee(5, 7), true),
            (ii(7, 7), false),
            (ee(12, 13), true),
            (ie(14, 16), true),
        ]),
    );
    assert_insert_merge_touching_if_values_equal(
        basic(),
        (ee(13, 14), true),
        Ok(ee(13, 16)),
        Some(vec![
            (ui(4), false),
            (ee(5, 7), true),
            (ii(7, 7), false),
            (ee(13, 16), true),
        ]),
    );
    assert_insert_merge_touching_if_values_equal(
        basic(),
        (ee(7, 14), false),
        Ok(ie(7, 14)),
        Some(vec![
            (ui(4), false),
            (ee(5, 7), true),
            (ie(7, 14), false),
            (ie(14, 16), true),
        ]),
    );

    assert_insert_merge_touching_if_values_equal(
        special(),
        (mee(6, 7), true),
        Ok(mee(6, 7)),
        Some(vec![
            (mii(4, 6), false),
            (mee(6, 7), true),
            (mee(7, 8), true),
            (mii(8, 12), false),
        ]),
    );
    assert_insert_merge_touching_if_values_equal(
        special(),
        (mii(6, 7), true),
        Err(OverlapOrTryFromBoundsError::Overlap(OverlapError)),
        None,
    );
    assert_insert_merge_touching_if_values_equal(
        special(),
        (mee(12, 15), false),
        Err(OverlapOrTryFromBoundsError::TryFromBounds(TryFromBoundsError)),
        None,
    );
    assert_insert_merge_touching_if_values_equal(
        special(),
        (mii(12, 15), true),
        Err(OverlapOrTryFromBoundsError::Overlap(OverlapError)),
        None,
    );
}

fn assert_insert_merge_touching_if_values_equal<K>(
    mut before: RangeBoundsMap<K, bool>,
    to_insert: (K, bool),
    result: Result<K, OverlapOrTryFromBoundsError>,
    after: Option<Vec<(K, bool)>>,
) where
    K: NiceRange + TryFromBounds + PartialEq + std::fmt::Debug,
{
    let clone = before.clone();
    assert_eq!(
        before.insert_merge_touching_if_values_equal(to_insert.0, to_insert.1),
        result
    );
    match after {
        Some(after) => {
            assert_eq!(before, RangeBoundsMap::from_slice_strict(after).unwrap())
        }
        None => assert_eq!(before, clone),
    }
}

#[test]
fn insert_merge_overlapping_tests() {
    assert_insert_merge_overlapping(
        basic(),
        (ii(0, 2), true),
        Ok(ui(4)),
        Some(vec![
            (ui(4), true),
            (ee(5, 7), true),
            (ii(7, 7), false),
            (ie(14, 16), true),
        ]),
    );
    assert_insert_merge_overlapping(
        basic(),
        (ie(14, 16), false),
        Ok(ie(14, 16)),
        Some(vec![
            (ui(4), false),
            (ee(5, 7), true),
            (ii(7, 7), false),
            (ie(14, 16), false),
        ]),
    );
    assert_insert_merge_overlapping(
        basic(),
        (ii(6, 11), false),
        Ok(ei(5, 11)),
        Some(vec![(ui(4), false), (ei(5, 11), false), (ie(14, 16), true)]),
    );
    assert_insert_merge_overlapping(
        basic(),
        (ii(15, 18), true),
        Ok(ii(14, 18)),
        Some(vec![
            (ui(4), false),
            (ee(5, 7), true),
            (ii(7, 7), false),
            (ii(14, 18), true),
        ]),
    );
    assert_insert_merge_overlapping(
        basic(),
        (uu(), false),
        Ok(uu()),
        Some(vec![(uu(), false)]),
    );

    assert_insert_merge_overlapping(
        special(),
        (mii(10, 18), true),
        Ok(mii(8, 18)),
        Some(vec![(mii(4, 6), false), (mee(7, 8), true), (mii(8, 18), true)]),
    );
    assert_insert_merge_overlapping(special(), (mee(10, 18), true), Err(TryFromBoundsError), None);
    assert_insert_merge_overlapping(
        special(),
        (mee(8, 12), true),
        Ok(mii(8, 12)),
        Some(vec![(mii(4, 6), false), (mee(7, 8), true), (mii(8, 12), true)]),
    );
    assert_insert_merge_overlapping(
        special(),
        (mee(7, 8), false),
        Ok(mee(7, 8)),
        Some(vec![(mii(4, 6), false), (mee(7, 8), false), (mii(8, 12), false)]),
    );
    assert_insert_merge_overlapping(
        special(),
        (mii(7, 8), false),
        Ok(mii(7, 12)),
        Some(vec![(mii(4, 6), false), (mii(7, 12), false)]),
    );
}

fn assert_insert_merge_overlapping<K>(
    mut before: RangeBoundsMap<K, bool>,
    to_insert: (K, bool),
    result: Result<K, TryFromBoundsError>,
    after: Option<Vec<(K, bool)>>,
) where
    K: NiceRange + TryFromBounds + PartialEq + std::fmt::Debug,
{
    let clone = before.clone();
    assert_eq!(before.insert_merge_overlapping(to_insert.0, to_insert.1), result);
    match after {
        Some(after) => {
            assert_eq!(before, RangeBoundsMap::from_slice_strict(after).unwrap())
        }
        None => assert_eq!(before, clone),
    }
}

#[test]
fn insert_merge_touching_or_overlapping_tests() {
    assert_insert_merge_touching_or_overlapping(
        RangeBoundsMap::from_slice_strict(vec![(ie(1, 4), false)]).unwrap(),
        (ie(0, 1), true),
        Ok(ie(0, 4)),
        Some(vec![(ie(0, 4), true)]),
    );

    //copied from insert_merge_overlapping_tests
    assert_insert_merge_touching_or_overlapping(
        basic(),
        (ii(0, 2), true),
        Ok(ui(4)),
        Some(vec![
            (ui(4), true),
            (ee(5, 7), true),
            (ii(7, 7), false),
            (ie(14, 16), true),
        ]),
    );
    assert_insert_merge_touching_or_overlapping(
        basic(),
        (ie(14, 16), false),
        Ok(ie(14, 16)),
        Some(vec![
            (ui(4), false),
            (ee(5, 7), true),
            (ii(7, 7), false),
            (ie(14, 16), false),
        ]),
    );
    assert_insert_merge_touching_or_overlapping(
        basic(),
        (ii(6, 11), false),
        Ok(ei(5, 11)),
        Some(vec![(ui(4), false), (ei(5, 11), false), (ie(14, 16), true)]),
    );
    assert_insert_merge_touching_or_overlapping(
        basic(),
        (ii(15, 18), true),
        Ok(ii(14, 18)),
        Some(vec![
            (ui(4), false),
            (ee(5, 7), true),
            (ii(7, 7), false),
            (ii(14, 18), true),
        ]),
    );
    assert_insert_merge_touching_or_overlapping(
        basic(),
        (uu(), false),
        Ok(uu()),
        Some(vec![(uu(), false)]),
    );
    //the only difference from the insert_merge_overlapping
    assert_insert_merge_touching_or_overlapping(
        basic(),
        (ii(7, 14), false),
        Ok(ee(5, 16)),
        Some(vec![(ui(4), false), (ee(5, 16), false)]),
    );

    //copied from insert_merge_overlapping_tests
    assert_insert_merge_touching_or_overlapping(
        special(),
        (mii(10, 18), true),
        Ok(mii(8, 18)),
        Some(vec![(mii(4, 6), false), (mee(7, 8), true), (mii(8, 18), true)]),
    );
    assert_insert_merge_touching_or_overlapping(
        special(),
        (mee(10, 18), true),
        Err(TryFromBoundsError),
        None,
    );
    assert_insert_merge_touching_or_overlapping(
        special(),
        (mee(8, 12), true),
        Ok(mii(8, 12)),
        Some(vec![(mii(4, 6), false), (mee(7, 8), true), (mii(8, 12), true)]),
    );
    assert_insert_merge_touching_or_overlapping(
        special(),
        (mee(7, 8), false),
        Err(TryFromBoundsError),
        None,
    );
    assert_insert_merge_touching_or_overlapping(
        special(),
        (mii(7, 8), false),
        Ok(mii(7, 12)),
        Some(vec![(mii(4, 6), false), (mii(7, 12), false)]),
    );
    //copied from insert_merge_touching_tests
    assert_insert_merge_touching_or_overlapping(
        special(),
        (mee(6, 7), true),
        Err(TryFromBoundsError),
        None,
    );
    assert_insert_merge_touching_or_overlapping(
        special(),
        (mee(12, 15), true),
        Err(TryFromBoundsError),
        None,
    );
}

fn assert_insert_merge_touching_or_overlapping<K>(
    mut before: RangeBoundsMap<K, bool>,
    to_insert: (K, bool),
    result: Result<K, TryFromBoundsError>,
    after: Option<Vec<(K, bool)>>,
) where
    K: NiceRange + TryFromBounds + PartialEq + std::fmt::Debug,
{
    let clone = before.clone();
    assert_eq!(
        before.insert_merge_touching_or_overlapping(to_insert.0, to_insert.1),
        result
    );
    match after {
        Some(after) => {
            assert_eq!(before, RangeBoundsMap::from_slice_strict(after).unwrap())
        }
        None => assert_eq!(before, clone),
    }
}

#[test]
fn overlaps_tests() {
    for range1 in all_valid_test_bounds() {
        for range2 in all_valid_test_bounds() {
            let our_answer = overlaps(range1, range2);

            let mathematical_definition_of_overlap = NUMBERS_DOMAIN
                .iter()
                .any(|x| contains(range1, *x) && contains(range2, *x));

            if our_answer != mathematical_definition_of_overlap {
                println!("{:?}", (range1, range2));
                println!("{:?}", (mathematical_definition_of_overlap, our_answer));
                panic!("Discrepency in overlaps() detected!");
            }
        }
    }
}

#[test]
fn cut_range_tests() {
    for base in all_valid_test_bounds() {
        for cut in all_valid_test_bounds() {
            let cut_result @ CutResult {
                before_cut: b,
                inside_cut: i,
                after_cut: a,
            } = cut_range(base, cut);

            let mut on_left = true;

            // The definition of a cut is: A && NOT B
            for x in NUMBERS_DOMAIN {
                let base_contains = contains(base, *x);
                let cut_contains = contains(cut, *x);

                if cut_contains {
                    on_left = false;
                }

                let invariant = match (base_contains, cut_contains) {
                    (false, _) => !con(b, x) && !con(i, x) && !con(a, x),
                    (true, false) => {
                        if on_left {
                            con(b, x) && !con(i, x) && !con(a, x)
                        } else {
                            !con(b, x) && !con(i, x) && con(a, x)
                        }
                    }
                    (true, true) => !con(b, x) && con(i, x) && !con(a, x),
                };

                if !invariant {
                    println!("{:?}", (base_contains));
                    println!("{:?}", (cut_contains));

                    println!("{:?}", (on_left));

                    println!("{:?}", (base));
                    println!("{:?}", (cut));
                    println!("{:?}", (cut_result));

                    println!("{:?}", (x));

                    panic!("Invariant Broken!");
                }
            }
        }
    }
}

fn con(x: Option<AnyRange>, point: &i64) -> bool {
    match x {
        Some(y) => contains(y, *point),
        None => false,
    }
}

#[test]
fn cut_range_bounds_should_return_valid_ranges() {
    let result: CutResult = cut_range(ie(3, 8), ie(5, 8));
    if let Some(x) = result.before_cut {
        assert!(is_valid_range(x));
    }
    if let Some(x) = result.inside_cut {
        assert!(is_valid_range(x));
    }
    if let Some(x) = result.after_cut {
        assert!(is_valid_range(x));
    }

    let result = cut_range(ie(3, 8), ie(3, 5));
    if let Some(x) = result.before_cut {
        assert!(is_valid_range(x));
    }
    if let Some(x) = result.inside_cut {
        assert!(is_valid_range(x));
    }
    if let Some(x) = result.after_cut {
        assert!(is_valid_range(x));
    }
}

// Test Helper Functions
//======================

fn contains(range: AnyRange, point: i64) -> bool {
    let start_ok = match range.start {
        Bnd::Included(s) => s <= point,
        Bnd::Excluded(s) => s < point,
        Bnd::Unbounded => true,
    };
    let end_ok = match range.end {
        Bnd::Included(e) => point <= e,
        Bnd::Excluded(e) => point < e,
        Bnd::Unbounded => true,
    };
    start_ok && end_ok
}

fn all_non_overlapping_test_bound_entries() -> Vec<(AnyRange, AnyRange)> {
    let mut output = Vec::new();
    for test_bounds1 in all_valid_test_bounds() {
        for test_bounds2 in all_valid_test_bounds() {
            if !overlaps(test_bounds1, test_bounds2) {
                output.push((test_bounds1, test_bounds2));
            }
        }
    }

    output
}

fn all_valid_test_bounds() -> Vec<AnyRange> {
    let mut output = Vec::new();

    //bounded-bounded
    output.append(&mut all_finite_bounded_entries());
    //bounded-unbounded
    for start_bound in all_finite_bounded() {
        output.push(AnyRange { start: start_bound, end: u() });
    }
    //unbounded-bounded
    for end_bound in all_finite_bounded() {
        output.push(AnyRange { start: u(), end: end_bound });
    }
    //unbounded-unbounded
    output.push(uu());

    output
}

fn all_finite_bounded_entries() -> Vec<AnyRange> {
    let mut output = Vec::new();
    for i in NUMBERS {
        for j in NUMBERS {
            for i_ex in [false, true] {
                for j_ex in [false, true] {
                    if j > i || (j == i && !i_ex && !j_ex) {
                        output.push(AnyRange {
                            start: finite_bound(*i, i_ex),
                            end: finite_bound(*j, j_ex),
                        });
                    }
                }
            }
        }
    }
    output
}

fn all_finite_bounded() -> Vec<Bnd> {
    let mut output = Vec::new();
    for i in NUMBERS {
        for j in 0..=1 {
            output.push(finite_bound(*i, j == 1));
        }
    }
    output
}

fn finite_bound(x: i64, included: bool) -> Bnd {
    match included {
        false => Bnd::Included(x),
        true => Bnd::Excluded(x),
    }
}
