use fs2db::input::conv::source::{conv_source_new, Converter};
use fs2db::input::source::BucketSource;
use tonic::Status;

struct UnusedConv {}

impl Converter for UnusedConv {
    type Input = ((), ());
    type Output = ();

    fn convert(&self, _i: Self::Input) -> Result<Self::Output, Status> {
        Err(Status::unimplemented("empty stream must not call this method"))
    }
}

struct EmptySource {}

impl BucketSource for EmptySource {
    type Bucket = ();
    type K = ();
    type V = ();

    fn get_all_by_bucket(&self, _b: Self::Bucket) -> Result<Vec<Result<((), ()), Status>>, Status> {
        Ok(vec![])
    }
}

#[test]
fn empty() {
    let bs = EmptySource {};
    let conv = UnusedConv {};
    let neo = conv_source_new(bs, conv);
    let cst = neo.get_all_by_bucket(()).unwrap();
    let cnt: usize = cst.len();
    assert_eq!(0, cnt);
}

struct Double {}

impl Converter for Double {
    type Input = ((), u32);
    type Output = u64;

    fn convert(&self, i: Self::Input) -> Result<Self::Output, Status> {
        let (_, v) = i;
        let u6: u64 = v.into();
        Ok(2 * u6)
    }
}

struct SimpleSource {}

impl BucketSource for SimpleSource {
    type Bucket = ();
    type K = ();
    type V = u32;

    fn get_all_by_bucket(&self, _b: Self::Bucket) -> Result<Vec<Result<((), u32), Status>>, Status> {
        Ok(vec![Ok(((), 42))])
    }
}

#[test]
fn doubled() {
    let bs = SimpleSource {};
    let conv = Double {};
    let neo = conv_source_new(bs, conv);
    let cst = neo.get_all_by_bucket(()).unwrap();
    let mut rows = cst.into_iter();
    let nex: u64 = rows.next().unwrap().unwrap().1;
    assert_eq!(nex, 84);
}
