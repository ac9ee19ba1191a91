//! An ordered map whose keys are non-overlapping ranges over a totally
//! ordered point type, with point lookup, overlap queries, gap
//! enumeration, cutting, and several merging insertion variants.

pub mod bound_ord;
pub mod coverage;
pub mod range_bounds_map;
pub mod range_bounds_set;
pub mod test_ranges;
pub mod try_from_bounds;
pub mod utils;
