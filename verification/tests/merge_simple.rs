use fs2db::input::merge::simple::{merge_item, source_new_merged};
use fs2db::input::merge::svc::{Merge, MergeSource};
use fs2db::input::source::Source;
use std::collections::BTreeMap;
use tonic::{Code, Status};

#[derive(Clone)]
struct Planes {}

impl MergeSource for Planes {
    type K = u32;
    type V = &'static str;

    fn all(&self) -> Result<Vec<Result<(u32, &'static str), Status>>, Status> {
        Ok(vec![Ok((1, "plane 1")), Ok((2, "plane 2")), Ok((3, "plane 3"))])
    }
}

#[derive(Clone)]
struct Prices {}

impl MergeSource for Prices {
    type K = u32;
    type V = u32;

    fn all(&self) -> Result<Vec<Result<(u32, u32), Status>>, Status> {
        Ok(vec![
            Ok((1, 10)),
            Ok((1, 11)),
            Ok((2, 12)),
            Err(Status::data_loss("torn row")),
            Ok((7, 13)),
            Ok((2, 13)),
        ])
    }
}

#[derive(Clone)]
struct Priced {}

impl Merge for Priced {
    type A = &'static str;
    type B = u32;
    type T = String;

    fn merge(&self, a: &'static str, b: u32) -> Result<String, Status> {
        if b == 12 {
            return Err(Status::failed_precondition("no price"));
        }
        Ok(format!("{a} at {b}"))
    }
}

#[test]
fn merged_source_broadcasts_the_drained_side() {
    let merged = source_new_merged(Planes {}, Prices {}, Priced {});
    let out = merged.all().unwrap();
    assert_eq!(out.len(), 6);
    assert_eq!(out[0].as_ref().unwrap(), "plane 1 at 10");
    assert_eq!(out[1].as_ref().unwrap(), "plane 1 at 11");
    assert_eq!(out[2].as_ref().unwrap_err().message(), "no price");
    assert_eq!(out[3].as_ref().unwrap_err().code(), Code::DataLoss);
    let missing = out[4].as_ref().unwrap_err();
    assert_eq!(missing.code(), Code::InvalidArgument);
    assert_eq!(missing.message(), "no value found for key 7");
    assert_eq!(out[5].as_ref().unwrap(), "plane 2 at 13");
}

#[test]
fn merge_of_the_source_is_the_merge_of_the_merger() {
    let merged = source_new_merged(Planes {}, Prices {}, Priced {});
    assert_eq!(merged.merge("x", 5).unwrap(), "x at 5");
    assert_eq!(merged.merge("x", 12).unwrap_err().code(), Code::FailedPrecondition);
}

#[derive(Clone)]
struct Torn {}

impl MergeSource for Torn {
    type K = u32;
    type V = &'static str;

    fn all(&self) -> Result<Vec<Result<(u32, &'static str), Status>>, Status> {
        Ok(vec![Ok((1, "a")), Err(Status::unavailable("gone")), Ok((2, "b"))])
    }
}

#[test]
fn an_error_on_the_drained_side_fails_the_whole() {
    let merged = source_new_merged(Torn {}, Prices {}, Priced {});
    let e = merged.all().unwrap_err();
    assert_eq!(e.code(), Code::Unavailable);
}

struct Pair {}

impl Merge for Pair {
    type A = u8;
    type B = u8;
    type T = (u8, u8);

    fn merge(&self, a: u8, b: u8) -> Result<(u8, u8), Status> {
        Ok((a, b))
    }
}

#[test]
fn the_missing_key_is_named_as_it_is_debugged() {
    let am: BTreeMap<(u8, String), u8> = BTreeMap::new();
    let e = merge_item(&am, &Pair {}, Ok(((1, "a".to_string()), 2))).unwrap_err();
    assert_eq!(e.code(), Code::InvalidArgument);
    assert_eq!(e.message(), "no value found for key (\n    1,\n    \"a\",\n)");
}
