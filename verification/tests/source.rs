use std::collections::BTreeMap;
use std::sync::Arc;

use fs2db::input::join::mem::btree::{drain_rows, into_entries};
use fs2db::input::source::{
    bkt_src_merged_new, join_row, map_rows, mapd_bkt_src_new, BucketSource, Mapper, Merge,
};
use tonic::{Code, Status};

struct Rows<K, V> {
    rows: Vec<(K, V)>,
}

impl<K: Clone, V: Clone> BucketSource for Rows<K, V> {
    type Bucket = ();
    type K = K;
    type V = V;

    fn get_all_by_bucket(&self, _b: ()) -> Result<Vec<Result<(K, V), Status>>, Status> {
        Ok(self.rows.iter().cloned().map(Ok).collect())
    }
}

struct Concat {}

impl Merge for Concat {
    type A = String;
    type B = String;
    type T = String;

    fn merge(&self, a: String, b: String) -> Result<String, Status> {
        Ok(format!("{a}{b}"))
    }
}

#[test]
fn merge_join_broadcasts_and_marks_the_missing_key() {
    let sa = Rows { rows: vec![(1, "x".to_string()), (2, "y".to_string())] };
    let sb = Rows {
        rows: vec![(1, "p".to_string()), (2, "q".to_string()), (3, "r".to_string())],
    };
    let joined = bkt_src_merged_new(sa, sb, Concat {});
    let out = joined.get_all_by_bucket(()).unwrap();
    assert_eq!(out.len(), 3);
    assert_eq!(out[0].as_ref().unwrap(), &(1, "xp".to_string()));
    assert_eq!(out[1].as_ref().unwrap(), &(2, "yq".to_string()));
    let e = out[2].as_ref().unwrap_err();
    assert_eq!(e.code(), Code::InvalidArgument);
    assert_eq!(e.message(), "no val found");
}

#[test]
fn merge_join_is_one_to_many_and_keeps_the_order_of_the_streamed_side() {
    let sa = Rows { rows: vec![(1, "x".to_string()), (2, "y".to_string())] };
    let sb = Rows {
        rows: vec![(2, "a".to_string()), (1, "b".to_string()), (2, "c".to_string())],
    };
    let joined = bkt_src_merged_new(sa, sb, Concat {});
    let out: Vec<(i32, String)> =
        joined.get_all_by_bucket(()).unwrap().into_iter().map(|r| r.unwrap()).collect();
    assert_eq!(
        out,
        vec![(2, "ya".to_string()), (1, "xb".to_string()), (2, "yc".to_string())]
    );
}

struct Failing {}

impl BucketSource for Failing {
    type Bucket = ();
    type K = i32;
    type V = String;

    fn get_all_by_bucket(&self, _b: ()) -> Result<Vec<Result<(i32, String), Status>>, Status> {
        Ok(vec![
            Ok((1, "x".to_string())),
            Err(Status::data_loss("row lost")),
            Ok((2, "y".to_string())),
            Err(Status::internal("later")),
        ])
    }
}

#[test]
fn merge_join_fails_fast_on_the_drained_side() {
    let sb = Rows { rows: vec![(1, "p".to_string())] };
    let joined = bkt_src_merged_new(Failing {}, sb, Concat {});
    let e = joined.get_all_by_bucket(()).unwrap_err();
    assert_eq!(e.code(), Code::DataLoss);
    assert_eq!(e.message(), "row lost");
}

#[test]
fn to_map_takes_the_last_value_of_a_key() {
    let sa = Rows { rows: vec![(1, "old".to_string()), (2, "y".to_string()), (1, "new".to_string())] };
    let sb = Rows { rows: vec![(1, "p".to_string())] };
    let joined = bkt_src_merged_new(sa, sb, Concat {});
    let m = joined.to_map(()).unwrap();
    assert_eq!(m.len(), 2);
    assert_eq!(m.get(&1).unwrap(), "new");
}

#[test]
fn join_row_passes_an_error_through() {
    let am: BTreeMap<i32, String> = BTreeMap::new();
    let out = join_row(&am, &Concat {}, Err(Status::aborted("upstream")));
    let e = out.unwrap_err();
    assert_eq!(e.code(), Code::Aborted);
    assert_eq!(e.message(), "upstream");
}

#[test]
fn drain_stops_at_the_first_error() {
    let rows: Vec<Result<(u8, u8), Status>> = vec![
        Ok((1, 1)),
        Err(Status::not_found("first")),
        Err(Status::internal("second")),
    ];
    let e = drain_rows(rows).unwrap_err();
    assert_eq!(e.code(), Code::NotFound);
    assert_eq!(e.message(), "first");
}

#[test]
fn drain_of_pairs_is_last_write_wins() {
    let rows: Vec<Result<(u8, &str), Status>> =
        vec![Ok((2, "a")), Ok((1, "b")), Ok((2, "c"))];
    let m = drain_rows(rows).unwrap();
    assert_eq!(m.len(), 2);
    assert_eq!(m[&1], "b");
    assert_eq!(m[&2], "c");
}

#[test]
fn entries_come_out_in_ascending_order() {
    let mut m: BTreeMap<i32, &str> = BTreeMap::new();
    m.insert(5, "five");
    m.insert(-3, "minus three");
    m.insert(4, "four");
    let entries = into_entries(m);
    assert_eq!(entries, vec![(-3, "minus three"), (4, "four"), (5, "five")]);
}

struct Halve {}

impl Mapper for Halve {
    type IK = u32;
    type IV = u32;
    type OK = String;
    type OV = u32;

    fn convert(&self, key: u32, val: u32) -> Result<(String, u32), Status> {
        if val % 2 == 0 {
            Ok((format!("k{key}"), val / 2))
        } else {
            Err(Status::invalid_argument("odd"))
        }
    }
}

#[test]
fn mapping_fails_row_by_row() {
    let rows = vec![Ok((1, 10)), Ok((2, 7)), Err(Status::internal("lost")), Ok((3, 4))];
    let out = map_rows(&Halve {}, rows);
    assert_eq!(out.len(), 4);
    assert_eq!(out[0].as_ref().unwrap(), &("k1".to_string(), 5));
    assert_eq!(out[1].as_ref().unwrap_err().message(), "odd");
    assert_eq!(out[2].as_ref().unwrap_err().message(), "lost");
    assert_eq!(out[3].as_ref().unwrap(), &("k3".to_string(), 2));
}

#[test]
fn mapped_source_maps_the_rows_of_the_original() {
    let original = Rows { rows: vec![(1u32, 8u32), (2, 6)] };
    let mapped = mapd_bkt_src_new(Halve {}, original);
    let out: Vec<(String, u32)> =
        mapped.get_all_by_bucket(()).unwrap().into_iter().map(|r| r.unwrap()).collect();
    assert_eq!(out, vec![("k1".to_string(), 4), ("k2".to_string(), 3)]);
}

#[test]
fn a_shared_source_answers_as_the_source_does() {
    let shared = Arc::new(Rows { rows: vec![(1u8, 2u8)] });
    let out = shared.get_all_by_bucket(()).unwrap();
    assert_eq!(out.len(), 1);
    assert_eq!(out[0].as_ref().unwrap(), &(1, 2));
}
