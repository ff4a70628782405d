use core::ops::Bound;
use std::collections::{BTreeMap, BTreeSet};
use std::sync::Arc;

use fs2db::input::bin::mem::btree::{
    mem_src_bin_new, replace_keys, ComputeDiff, ComputeNearest, Nearest, Range, RangeII,
};
use fs2db::input::bin::mem::key::IntKey;
use fs2db::input::join::mem::btree::MemSource;
use tonic::{Code, Status};

struct NoRows {}

impl MemSource for NoRows {
    type Bucket = String;
    type K = i64;
    type V = f64;

    fn get_all_by_bucket(&self, _b: Self::Bucket) -> Result<BTreeMap<Self::K, Self::V>, Status> {
        Ok(BTreeMap::new())
    }
}

struct UnusedNearest {}

impl Nearest for UnusedNearest {
    type K = i64;

    fn get_nearest(&self, _k: &Self::K, _m: &BTreeSet<Self::K>) -> Result<Self::K, Status> {
        Err(Status::unimplemented("no key must reach this method"))
    }
}

#[test]
fn ensure_empty() {
    let msrc = NoRows {};
    let near = UnusedNearest {};

    let neo = mem_src_bin_new(msrc, near);
    let bkt = (Arc::new(BTreeSet::new()), "".into());
    let got: BTreeMap<i64, f64> = neo.get_all_by_bucket(bkt).unwrap();
    assert_eq!(0, got.len());
}

struct TwoRows {}

impl MemSource for TwoRows {
    type Bucket = String;
    type K = i64;
    type V = f64;

    fn get_all_by_bucket(&self, _b: Self::Bucket) -> Result<BTreeMap<i64, f64>, Status> {
        Ok(BTreeMap::from_iter(vec![(333, 599.0), (634, 3776.0)]))
    }
}

struct FirstWithin {
    lbi_offset: i64,
    ubi_offset: i64,
}

impl Nearest for FirstWithin {
    type K = i64;

    fn get_nearest(&self, k: &i64, m: &BTreeSet<i64>) -> Result<Self::K, Status> {
        let lbi: i64 = k - self.lbi_offset;
        let ubi: i64 = k + self.ubi_offset;
        let mut found = m.range((Bound::Included(&lbi), Bound::Included(&ubi)));
        found.next().copied().ok_or_else(|| {
            Status::not_found(format!("no key found. key={k}, lbi={lbi}, ubi={ubi}"))
        })
    }
}

#[test]
fn simple() {
    let msrc = TwoRows {};
    let near = FirstWithin { lbi_offset: 100, ubi_offset: 100 };

    let neo = mem_src_bin_new(msrc, near);

    let bkt = (Arc::new(BTreeSet::from_iter(vec![300, 600])), "".into());
    let got: BTreeMap<i64, f64> = neo.get_all_by_bucket(bkt).unwrap();
    assert_eq!(2, got.len());
    assert_eq!(&599.0, got.get(&300).unwrap());
    assert_eq!(&3776.0, got.get(&600).unwrap());
}

#[test]
fn range_ii_ensure_empty() {
    let r = RangeII { lbi_offset: 100, ubi_offset: 100 };

    let set: BTreeSet<i32> = BTreeSet::new();
    let rslt = r.get_nearest(&0, &set);
    assert_eq!(true, rslt.is_err());
}

#[test]
fn range_ii_nearest() {
    let r = RangeII { lbi_offset: 100, ubi_offset: 100 };

    let set: BTreeSet<i32> = BTreeSet::from_iter(vec![99, 500]);

    let got: i32 = r.get_nearest(&50, &set).unwrap();
    assert_eq!(99, got);

    let got: i32 = r.get_nearest(&150, &set).unwrap();
    assert_eq!(99, got);

    let got: i32 = r.get_nearest(&450, &set).unwrap();
    assert_eq!(500, got);

    let got: i32 = r.get_nearest(&550, &set).unwrap();
    assert_eq!(500, got);

    let rslt = r.get_nearest(&1000, &set);
    assert_eq!(true, rslt.is_err());

    let rslt = r.get_nearest(&-100, &set);
    assert_eq!(true, rslt.is_err());
}

#[test]
fn no_candidate_is_the_error_empty_pairs() {
    let r = RangeII { lbi_offset: 100i32, ubi_offset: 100 };
    let set: BTreeSet<i32> = BTreeSet::from_iter(vec![99, 500]);
    let e = r.get_nearest(&1000, &set).unwrap_err();
    assert_eq!(e.code(), Code::InvalidArgument);
    assert_eq!(e.message(), "empty pairs");
}

#[test]
fn the_bounds_of_the_range_are_included() {
    let r = RangeII { lbi_offset: 100i32, ubi_offset: 100 };
    let set: BTreeSet<i32> = BTreeSet::from_iter(vec![200]);
    assert_eq!(r.get_nearest(&100, &set).unwrap(), 200);
    assert_eq!(r.get_nearest(&300, &set).unwrap(), 200);
    assert!(r.get_nearest(&99, &set).is_err());
    assert!(r.get_nearest(&301, &set).is_err());
}

#[test]
fn of_two_candidates_equally_near_the_greater_wins() {
    let r = RangeII { lbi_offset: 100i64, ubi_offset: 100 };
    let set: BTreeSet<i64> = BTreeSet::from_iter(vec![40, 60]);
    assert_eq!(r.get_nearest(&50, &set).unwrap(), 60);
    let set: BTreeSet<i64> = BTreeSet::from_iter(vec![-100, 0, 100]);
    assert_eq!(r.get_nearest(&0, &set).unwrap(), 0);
    assert_eq!(r.get_nearest(&50, &set).unwrap(), 100);
    assert_eq!(r.get_nearest(&-50, &set).unwrap(), 0);
}

#[test]
fn the_range_saturates_at_the_limits_of_the_type() {
    let r = RangeII { lbi_offset: 100u8, ubi_offset: 100 };
    let low = r.range(&50);
    assert_eq!((*low.start(), *low.end()), (0, 150));
    let high = r.range(&200);
    assert_eq!((*high.start(), *high.end()), (100, 255));

    let r = RangeII { lbi_offset: 100i8, ubi_offset: 100 };
    let low = r.range(&-100);
    assert_eq!((*low.start(), *low.end()), (-128, 0));
    let high = r.range(&100);
    assert_eq!((*high.start(), *high.end()), (0, 127));

    let r = RangeII { lbi_offset: i128::MAX, ubi_offset: i128::MAX };
    let all = r.range(&-5);
    assert_eq!((*all.start(), *all.end()), (i128::MIN, i128::MAX - 5));

    let r = RangeII { lbi_offset: -10i64, ubi_offset: -10 };
    let odd = r.range(&i64::MAX);
    assert_eq!((*odd.start(), *odd.end()), (i64::MAX, i64::MAX - 10));
}

#[test]
fn the_score_is_the_distance() {
    let r = RangeII { lbi_offset: 0i32, ubi_offset: 0 };
    assert_eq!(r.compute_score(&-3, &4), 7u32);
    assert_eq!(r.compute_score(&4, &-3), 7u32);
    assert_eq!(r.compute_score(&i32::MIN, &i32::MAX), u32::MAX);
    let r = RangeII { lbi_offset: 0u16, ubi_offset: 0 };
    assert_eq!(r.compute_score(&3, &40000), 39997u16);
}

#[test]
fn distances_of_every_key_type() {
    assert_eq!(3u8.distance(250), 247u8);
    assert_eq!(3u16.distance(1), 2u16);
    assert_eq!(u32::MAX.distance(0), u32::MAX);
    assert_eq!(7u64.distance(7), 0u64);
    assert_eq!(0u128.distance(u128::MAX), u128::MAX);
    assert_eq!(9usize.distance(4), 5usize);
    assert_eq!((-128i8).distance(127), 255u8);
    assert_eq!(i16::MIN.distance(i16::MAX), u16::MAX);
    assert_eq!((-1i32).distance(1), 2u32);
    assert_eq!(i64::MAX.distance(i64::MIN), u64::MAX);
    assert_eq!(i128::MIN.distance(i128::MAX), u128::MAX);
    assert_eq!(i128::MAX.distance(i128::MIN), u128::MAX);
    assert_eq!((-7i128).distance(-2), 5u128);
    assert_eq!(5i128.distance(-5), 10u128);
    assert_eq!(isize::MIN.distance(isize::MAX), usize::MAX);
}

#[test]
fn saturating_offsets_of_every_key_type() {
    assert_eq!(5u8.sub_saturating(6), 0);
    assert_eq!(250u8.add_saturating(6), 255);
    assert_eq!(5u64.sub_saturating(5), 0);
    assert_eq!(u128::MAX.add_saturating(1), u128::MAX);
    assert_eq!((-100i8).sub_saturating(100), -128);
    assert_eq!((-100i8).sub_saturating(-100), 0);
    assert_eq!(100i8.add_saturating(100), 127);
    assert_eq!(i64::MIN.sub_saturating(1), i64::MIN);
    assert_eq!(i64::MIN.sub_saturating(-1), i64::MIN + 1);
    assert_eq!(i128::MAX.add_saturating(1), i128::MAX);
    assert_eq!(i128::MIN.add_saturating(-1), i128::MIN);
    assert_eq!(i128::MIN.sub_saturating(i128::MIN), 0);
    assert_eq!(0i128.sub_saturating(i128::MIN), i128::MAX);
    assert_eq!(isize::MAX.add_saturating(isize::MAX), isize::MAX);
}

#[test]
fn nearest_of_pairs_lets_the_later_win_a_tie() {
    let r = RangeII { lbi_offset: 0i32, ubi_offset: 0 };
    assert_eq!(r.nearest(vec![(5u32, 1), (3, 2), (3, 3), (4, 4)]).unwrap(), 3);
    assert_eq!(r.nearest(vec![(3u32, 9)]).unwrap(), 9);
    let e = r.nearest(vec![]).unwrap_err();
    assert_eq!(e.message(), "empty pairs");
}

#[test]
fn keys_are_replaced_and_values_kept() {
    let near = RangeII { lbi_offset: 100i64, ubi_offset: 100 };
    let keys: BTreeSet<i64> = BTreeSet::from_iter(vec![300, 600]);
    let original: BTreeMap<i64, &str> = BTreeMap::from_iter(vec![(333, "a"), (634, "b")]);
    let got = replace_keys(&near, &keys, original).unwrap();
    assert_eq!(got, BTreeMap::from_iter(vec![(300, "a"), (600, "b")]));
}

#[test]
fn of_two_keys_replaced_by_the_same_the_greater_keeps_its_value() {
    let near = RangeII { lbi_offset: 100i64, ubi_offset: 100 };
    let keys: BTreeSet<i64> = BTreeSet::from_iter(vec![300]);
    let original: BTreeMap<i64, &str> =
        BTreeMap::from_iter(vec![(340, "late"), (290, "early")]);
    let got = replace_keys(&near, &keys, original).unwrap();
    assert_eq!(got, BTreeMap::from_iter(vec![(300, "late")]));
}

#[test]
fn a_key_without_a_candidate_fails_the_whole_map() {
    let near = RangeII { lbi_offset: 10i64, ubi_offset: 10 };
    let keys: BTreeSet<i64> = BTreeSet::from_iter(vec![300]);
    let original: BTreeMap<i64, &str> = BTreeMap::from_iter(vec![(295, "a"), (634, "b")]);
    let e = replace_keys(&near, &keys, original).unwrap_err();
    assert_eq!(e.code(), Code::InvalidArgument);
}

#[test]
fn a_range_is_cloned_with_its_offsets() {
    let r = RangeII { lbi_offset: 3u32, ubi_offset: 4 };
    let c = r.clone();
    assert_eq!((c.lbi_offset, c.ubi_offset), (3, 4));
}
