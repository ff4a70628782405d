use std::cell::RefCell;

use fs2db::conv::rpc::mem::{same_bytes, MemTable};
use fs2db::conv::rpc::src2tgt::{
    drop_all_if_verified, drop_requests, upsert_requests, upsert_selected, DropSource,
    SelectSource, SelectTarget, UpsertTarget,
};
use fs2db::conv::s2t;
use fs2db::input::rpc::all_request;
use fs2db::input::select::Select;
use fs2db::output::upsert::Upsert;
use fs2db::rpc::source;
use fs2db::rpc::source::{CheckedRequest, CheckedResponse, InputBucket};
use fs2db::rpc::target;
use fs2db::rpc::target::{ManyRequest, ManyResponse, OutputBucket};
use tonic::{Code, Status};

struct Store {
    table: RefCell<MemTable>,
    torn: bool,
}

fn store(bucket: &str, rows: &[(&str, &str)]) -> Store {
    let mut table = MemTable::new();
    for (k, v) in rows {
        table.upsert(bucket.as_bytes().to_vec(), k.as_bytes().to_vec(), v.as_bytes().to_vec());
    }
    Store { table: RefCell::new(table), torn: false }
}

impl Store {
    fn select(&self, bucket: Option<Vec<u8>>) -> Result<Vec<(Vec<u8>, Vec<u8>)>, Status> {
        let bucket = bucket.ok_or_else(|| Status::invalid_argument("no bucket"))?;
        let rows = self.table.borrow().select_all(&bucket);
        if rows.is_empty() {
            return Err(Status::not_found("no such bucket"));
        }
        Ok(rows)
    }
}

impl SelectSource for Store {
    fn all(
        &self,
        req: source::AllRequest,
    ) -> Result<Vec<Result<source::AllResponse, Status>>, Status> {
        let rows = self.select(req.bkt.map(|b| b.bucket))?;
        let mut out: Vec<Result<source::AllResponse, Status>> =
            rows.into_iter().map(|(key, val)| Ok(source::AllResponse { key, val })).collect();
        if self.torn {
            out.insert(1, Err(Status::data_loss("torn row")));
        }
        Ok(out)
    }
}

impl SelectTarget for Store {
    fn all(
        &self,
        req: target::AllRequest,
    ) -> Result<Vec<Result<target::AllResponse, Status>>, Status> {
        let rows = self.select(req.bkt.map(|b| b.bucket))?;
        Ok(rows.into_iter().map(|(key, check)| Ok(target::AllResponse { key, check })).collect())
    }
}

impl UpsertTarget for Store {
    fn many(&self, reqs: Vec<ManyRequest>) -> Result<ManyResponse, Status> {
        Ok(ManyResponse { upserted: self.table.borrow_mut().upsert_many(reqs) })
    }
}

impl DropSource for Store {
    fn checked(&self, reqs: Vec<CheckedRequest>) -> Result<CheckedResponse, Status> {
        Ok(CheckedResponse { keys_count: self.table.borrow_mut().drop_checked(reqs) })
    }
}

fn rows(s: &Store, bucket: &str) -> Vec<(String, String)> {
    let mut rows: Vec<(String, String)> = s
        .table
        .borrow()
        .select_all(&bucket.as_bytes().to_vec())
        .into_iter()
        .map(|(k, v)| (String::from_utf8(k).unwrap(), String::from_utf8(v).unwrap()))
        .collect();
    rows.sort();
    rows
}

fn pairs(rows: &[(&str, &str)]) -> Vec<(String, String)> {
    rows.iter().map(|(k, v)| (k.to_string(), v.to_string())).collect()
}

fn input() -> InputBucket {
    InputBucket { bucket: b"in".to_vec() }
}

fn output() -> OutputBucket {
    OutputBucket { bucket: b"out".to_vec() }
}

#[test]
fn only_what_the_target_proves_to_hold_is_dropped() {
    let target = store("out", &[("k1", "a"), ("k2", "b")]);
    let source = store("in", &[("k1", "a"), ("k2", "x"), ("k3", "a")]);
    let dropped = drop_all_if_verified(&target, &source, input(), output());
    assert_eq!(dropped.unwrap(), 1);
    assert_eq!(rows(&source, "in"), pairs(&[("k2", "x"), ("k3", "a")]));
    assert_eq!(rows(&target, "out"), pairs(&[("k1", "a"), ("k2", "b")]));
}

#[test]
fn a_migration_upserts_every_row_of_the_bucket() {
    let source = store("in", &[("k1", "a"), ("k2", "b"), ("k3", "c")]);
    let target = store("out", &[("k2", "old")]);
    assert_eq!(upsert_selected(&target, &source, input(), output()).unwrap(), 3);
    assert_eq!(rows(&target, "out"), pairs(&[("k1", "a"), ("k2", "b"), ("k3", "c")]));
}

#[test]
fn a_migration_run_again_counts_the_same_and_changes_nothing() {
    let source = store("in", &[("k1", "a"), ("k2", "b")]);
    let target = store("out", &[]);
    assert_eq!(upsert_selected(&target, &source, input(), output()).unwrap(), 2);
    let after_first = rows(&target, "out");
    assert_eq!(after_first, pairs(&[("k1", "a"), ("k2", "b")]));
    assert_eq!(upsert_selected(&target, &source, input(), output()).unwrap(), 2);
    assert_eq!(rows(&target, "out"), after_first);
}

#[test]
fn migrate_then_drop_empties_the_source() {
    let source = store("in", &[("k1", "a"), ("k2", "b")]);
    let target = store("out", &[]);
    assert_eq!(upsert_selected(&target, &source, input(), output()).unwrap(), 2);
    assert_eq!(drop_all_if_verified(&target, &source, input(), output()).unwrap(), 2);
    assert_eq!(rows(&source, "in").len(), 0);
    assert_eq!(rows(&target, "out"), pairs(&[("k1", "a"), ("k2", "b")]));
}

#[test]
fn a_row_that_could_not_be_selected_is_neither_sent_nor_counted() {
    let mut source = store("in", &[("k1", "a"), ("k2", "b")]);
    source.torn = true;
    let target = store("out", &[]);
    assert_eq!(upsert_selected(&target, &source, input(), output()).unwrap(), 2);
    assert_eq!(rows(&target, "out"), pairs(&[("k1", "a"), ("k2", "b")]));
}

#[test]
fn a_bucket_that_is_not_there_fails_the_workflow_before_anything_is_sent() {
    let source = store("in", &[("k1", "a")]);
    let target = store("elsewhere", &[("k1", "a")]);
    let e = drop_all_if_verified(&target, &source, input(), output()).unwrap_err();
    assert_eq!(e.code(), Code::NotFound);
    assert_eq!(rows(&source, "in"), pairs(&[("k1", "a")]));
    let nowhere = store("other", &[]);
    let e = upsert_selected(&target, &nowhere, input(), output()).unwrap_err();
    assert_eq!(e.code(), Code::NotFound);
}

#[test]
fn upserts_carry_the_bucket_of_the_target() {
    let rows = vec![
        Ok(source::AllResponse { key: b"k1".to_vec(), val: b"a".to_vec() }),
        Err(Status::internal("lost")),
        Ok(source::AllResponse { key: b"k2".to_vec(), val: b"b".to_vec() }),
    ];
    let reqs = upsert_requests(rows, &output());
    assert_eq!(
        reqs,
        vec![
            ManyRequest { bkt: Some(output()), key: b"k1".to_vec(), val: b"a".to_vec() },
            ManyRequest { bkt: Some(output()), key: b"k2".to_vec(), val: b"b".to_vec() },
        ]
    );
}

#[test]
fn drops_carry_the_bucket_of_the_source_and_the_token_of_the_target() {
    let rows = vec![
        Err(Status::internal("lost")),
        Ok(target::AllResponse { key: b"k1".to_vec(), check: b"a".to_vec() }),
    ];
    let reqs = drop_requests(rows, &input());
    assert_eq!(
        reqs,
        vec![CheckedRequest { bkt: Some(input()), key: b"k1".to_vec(), check: b"a".to_vec() }]
    );
}

struct Numbers {}

impl Select for Numbers {
    type Bucket = u8;
    type Row = i32;

    fn all(&self, b: u8) -> Result<Vec<Result<i32, Status>>, Status> {
        if b == 0 {
            return Err(Status::not_found("no such bucket"));
        }
        Ok(vec![Ok(1), Err(Status::data_loss("torn")), Ok(-2), Ok(3)])
    }
}

struct Sink {
    got: RefCell<Vec<(String, Vec<Result<u32, Code>>)>>,
}

impl Upsert for Sink {
    type Row = u32;
    type Bucket = String;

    fn upsert(&self, bucket: String, rows: Vec<Result<u32, Status>>) -> Result<u64, Status> {
        let n = rows.iter().filter(|r| r.is_ok()).count() as u64;
        let rows = rows.into_iter().map(|r| r.map_err(|e| e.code())).collect();
        self.got.borrow_mut().push((bucket, rows));
        Ok(n)
    }
}

fn unsigned(row: i32) -> Result<u32, Status> {
    u32::try_from(row).map_err(|_| Status::out_of_range("negative"))
}

#[test]
fn selected_rows_are_converted_and_upserted() {
    let sink = Sink { got: RefCell::new(vec![]) };
    let n = s2t::upsert_selected(1, "out".to_string(), &Numbers {}, &sink, &unsigned).unwrap();
    assert_eq!(n, 2);
    assert_eq!(
        *sink.got.borrow(),
        vec![(
            "out".to_string(),
            vec![Ok(1), Err(Code::DataLoss), Err(Code::OutOfRange), Ok(3)]
        )]
    );
}

#[test]
fn a_failed_selection_upserts_nothing() {
    let sink = Sink { got: RefCell::new(vec![]) };
    let e = s2t::upsert_selected(0, "out".to_string(), &Numbers {}, &sink, &unsigned).unwrap_err();
    assert_eq!(e.code(), Code::NotFound);
    assert_eq!(sink.got.borrow().len(), 0);
}

#[test]
fn a_table_drops_only_under_the_token_that_it_holds() {
    let mut t = MemTable::new();
    t.upsert(b"b".to_vec(), b"k1".to_vec(), b"a".to_vec());
    t.upsert(b"b".to_vec(), b"k2".to_vec(), b"x".to_vec());
    assert!(!t.drop_one(&b"b".to_vec(), &b"k2".to_vec(), &b"b".to_vec()));
    assert!(!t.drop_one(&b"c".to_vec(), &b"k1".to_vec(), &b"a".to_vec()));
    assert!(!t.drop_one(&b"b".to_vec(), &b"k9".to_vec(), &b"a".to_vec()));
    assert!(t.drop_one(&b"b".to_vec(), &b"k1".to_vec(), &b"a".to_vec()));
    assert!(!t.drop_one(&b"b".to_vec(), &b"k1".to_vec(), &b"a".to_vec()));
    assert_eq!(t.select_all(&b"b".to_vec()), vec![(b"k2".to_vec(), b"x".to_vec())]);
}

#[test]
fn a_table_holds_the_last_value_written_under_a_key() {
    let mut t = MemTable::new();
    t.upsert(b"b".to_vec(), b"k".to_vec(), b"old".to_vec());
    t.upsert(b"c".to_vec(), b"k".to_vec(), b"other".to_vec());
    t.upsert(b"b".to_vec(), b"k".to_vec(), b"new".to_vec());
    assert_eq!(t.select_all(&b"b".to_vec()), vec![(b"k".to_vec(), b"new".to_vec())]);
    assert_eq!(t.select_all(&b"c".to_vec()), vec![(b"k".to_vec(), b"other".to_vec())]);
    assert_eq!(t.select_all(&b"d".to_vec()).len(), 0);
}

#[test]
fn a_drop_of_a_key_dropped_before_counts_nothing() {
    let mut t = MemTable::new();
    t.upsert(b"in".to_vec(), b"k".to_vec(), b"a".to_vec());
    let twice = vec![
        CheckedRequest { bkt: Some(input()), key: b"k".to_vec(), check: b"a".to_vec() },
        CheckedRequest { bkt: Some(input()), key: b"k".to_vec(), check: b"a".to_vec() },
    ];
    assert_eq!(t.drop_checked(twice), 1);
}

#[test]
fn bytes_are_the_same_when_each_is() {
    assert!(same_bytes(&vec![], &vec![]));
    assert!(same_bytes(&vec![1, 2], &vec![1, 2]));
    assert!(!same_bytes(&vec![1, 2], &vec![1, 3]));
    assert!(!same_bytes(&vec![1, 2], &vec![1]));
}

#[test]
fn a_select_client_asks_for_the_bucket_by_name() {
    let req = all_request(b"in".to_vec());
    assert_eq!(req, source::AllRequest { bkt: Some(input()) });
}
