use fs2db::input::group::paste::{
    buckets2stream, streams2stream, PasteAction, PasteStream, Paster,
};
use fs2db::input::source::BucketSource;
use tonic::Status;

#[test]
fn paste_stops_with_the_shortest() {
    let streams = vec![vec![1, 2, 3], vec![10, 20], vec![100, 200, 300]];
    let out = streams2stream(streams, |row: &[i32]| row.iter().sum::<i32>());
    assert_eq!(out, vec![111, 222]);
}

#[test]
fn paste_keeps_the_order_of_the_streams_in_a_row() {
    let streams = vec![vec!["a", "b"], vec!["x", "y"]];
    let out = streams2stream(streams, |row: &[&str]| row.concat());
    assert_eq!(out, vec!["ax".to_string(), "by".to_string()]);
}

#[test]
fn paste_of_one_empty_stream_is_empty() {
    let streams: Vec<Vec<u8>> = vec![vec![1, 2], vec![], vec![3]];
    let out = streams2stream(streams, |row: &[u8]| row.len());
    assert_eq!(out.len(), 0);
}

#[test]
fn paste_of_a_single_stream_merges_each_item() {
    let out = streams2stream(vec![vec![1u8, 2, 3]], |row: &[u8]| row[0] * 2);
    assert_eq!(out, vec![2, 4, 6]);
}

#[test]
fn paste_stream_pastes_as_the_function_does() {
    let p = PasteStream::new(vec![vec![1, 2, 3, 4], vec![5, 6, 7]]);
    let out = p.into_pasted(|row: &[i32]| row[0] * row[1]);
    assert_eq!(out, vec![5, 12, 21]);
}

#[test]
fn paster_asks_for_each_stream_in_turn() {
    let mut p: Paster<u8> = Paster::new(3);
    assert!(matches!(p.start(), PasteAction::Pull(0)));
    assert!(matches!(p.pulled(Some(1)), PasteAction::Pull(1)));
    assert!(matches!(p.pulled(Some(2)), PasteAction::Pull(2)));
    match p.pulled(Some(3)) {
        PasteAction::Send(row) => assert_eq!(row, vec![1, 2, 3]),
        _ => panic!("the row is complete"),
    }
    assert!(matches!(p.sent(true), PasteAction::Pull(0)));
    assert!(matches!(p.pulled(Some(4)), PasteAction::Pull(1)));
    assert!(matches!(p.pulled(None), PasteAction::Stop));
}

#[test]
fn paster_stops_when_nobody_takes_the_row() {
    let mut p: Paster<u8> = Paster::new(1);
    assert!(matches!(p.pulled(Some(1)), PasteAction::Send(_)));
    assert!(matches!(p.sent(false), PasteAction::Stop));
}

#[test]
fn paster_over_no_streams_has_its_row_at_once() {
    let p: Paster<u8> = Paster::new(0);
    match p.start() {
        PasteAction::Send(row) => assert_eq!(row.len(), 0),
        _ => panic!("a row of no items is complete"),
    }
}

struct Counted {}

impl BucketSource for Counted {
    type Bucket = u32;
    type K = u32;
    type V = u32;

    fn get_all_by_bucket(&self, b: u32) -> Result<Vec<Result<(u32, u32), Status>>, Status> {
        if b == 0 {
            return Err(Status::not_found("no such bucket"));
        }
        Ok((0..b).map(|i| Ok((i, b * 10 + i))).collect())
    }
}

fn sum_of_values(row: &[Result<(u32, u32), Status>]) -> u32 {
    row.iter().map(|r| r.as_ref().unwrap().1).sum()
}

#[test]
fn buckets_are_pasted_by_row() {
    let out = buckets2stream(vec![3, 2], sum_of_values, &Counted {}).unwrap();
    assert_eq!(out, vec![30 + 20, 31 + 21]);
}

#[test]
fn a_bucket_that_cannot_be_had_pastes_nothing() {
    let out = buckets2stream(vec![3, 0, 2], sum_of_values, &Counted {});
    assert!(out.is_none());
}

#[test]
fn no_bucket_pastes_nothing() {
    let out = buckets2stream(vec![], sum_of_values, &Counted {});
    assert!(out.is_none());
}
