use fs2db::input::conv::gzip::gz_tokio::{decode, read_decoded, read_src_gzip_decoded_new};
use fs2db::input::conv::lines::{bytes_src_new, number_lines, split_lines, ReadSource};
use fs2db::input::lines::json::sync::{from_slices, from_strings};
use fs2db::input::source::BucketSource;
use tonic::{Code, Status};

#[test]
fn lines_are_split_at_line_feeds() {
    assert_eq!(split_lines(b"a\nbc\n"), vec![b"a".to_vec(), b"bc".to_vec()]);
    assert_eq!(split_lines(b"a\nbc"), vec![b"a".to_vec(), b"bc".to_vec()]);
    assert_eq!(split_lines(b"a\n\nb"), vec![b"a".to_vec(), b"".to_vec(), b"b".to_vec()]);
    assert_eq!(split_lines(b"\n"), vec![b"".to_vec()]);
    assert_eq!(split_lines(b"\n\n"), vec![b"".to_vec(), b"".to_vec()]);
    assert_eq!(split_lines(b"no line feed"), vec![b"no line feed".to_vec()]);
    assert_eq!(split_lines(b"").len(), 0);
}

#[test]
fn lines_are_numbered_over_all_of_them() {
    let lines = vec![
        Ok(b"zero".to_vec()),
        Err(std::io::Error::new(std::io::ErrorKind::UnexpectedEof, "cut off")),
        Ok(b"two".to_vec()),
    ];
    let rows = number_lines(lines);
    assert_eq!(rows.len(), 3);
    assert_eq!(rows[0].as_ref().unwrap(), &(0, b"zero".to_vec()));
    let e = rows[1].as_ref().unwrap_err();
    assert_eq!(e.code(), Code::Internal);
    assert_eq!(e.message(), "unable to get a line: cut off");
    assert_eq!(rows[2].as_ref().unwrap(), &(2, b"two".to_vec()));
}

const GZIPPED: [u8; 37] = [
    31, 139, 8, 0, 0, 0, 0, 0, 2, 255, 75, 204, 41, 200, 72, 228, 74, 74, 45, 73, 228, 226, 74, 79,
    204, 205, 77, 4, 0, 195, 26, 183, 170, 17, 0, 0, 0,
];

struct Files {}

impl ReadSource for Files {
    type Bucket = &'static str;

    fn get_src_read_by_bucket(&self, b: &'static str) -> Result<Vec<u8>, Status> {
        match b {
            "plain" => Ok(b"alpha\nbeta\n\ngamma".to_vec()),
            "gzipped" => Ok(GZIPPED.to_vec()),
            _ => Err(Status::not_found(format!("no such file: {b}"))),
        }
    }
}

#[test]
fn a_source_of_bytes_gives_rows_of_lines() {
    let src = bytes_src_new(Files {});
    let rows: Vec<(usize, Vec<u8>)> =
        src.get_all_by_bucket("plain").unwrap().into_iter().map(|r| r.unwrap()).collect();
    assert_eq!(
        rows,
        vec![
            (0, b"alpha".to_vec()),
            (1, b"beta".to_vec()),
            (2, b"".to_vec()),
            (3, b"gamma".to_vec()),
        ]
    );
    assert_eq!(src.get_all_by_bucket("none").unwrap_err().code(), Code::NotFound);
}

#[test]
fn gzipped_bytes_are_decoded() {
    assert_eq!(decode(&GZIPPED).unwrap(), b"alpha\nbeta\n\ngamma".to_vec());
}

#[test]
fn bytes_that_are_no_gzip_are_an_internal_error() {
    let e = decode(b"alpha\nbeta\n\ngamma").unwrap_err();
    assert_eq!(e.code(), Code::Internal);
    assert!(e.message().starts_with("unable to get a line: "));
    let cut = decode(&GZIPPED[..20]).unwrap_err();
    assert_eq!(cut.code(), Code::Internal);
}

#[test]
fn a_failed_read_names_its_cause() {
    let failed = Err(std::io::Error::new(std::io::ErrorKind::InvalidData, "bad header"));
    let e = read_decoded(failed).unwrap_err();
    assert_eq!(e.message(), "unable to get a line: bad header");
    assert_eq!(read_decoded(Ok(vec![1, 2])).unwrap(), vec![1, 2]);
}

#[test]
fn a_gzipped_source_gives_the_rows_of_the_decoded_lines() {
    let src = bytes_src_new(read_src_gzip_decoded_new(Files {}));
    let rows: Vec<(usize, Vec<u8>)> =
        src.get_all_by_bucket("gzipped").unwrap().into_iter().map(|r| r.unwrap()).collect();
    assert_eq!(rows.len(), 4);
    assert_eq!(rows[3], (3, b"gamma".to_vec()));
    assert_eq!(src.get_all_by_bucket("plain").unwrap_err().code(), Code::Internal);
    assert_eq!(src.get_all_by_bucket("none").unwrap_err().code(), Code::NotFound);
}

fn number_of(line: Result<String, std::io::Error>) -> Result<i64, serde_json::Error> {
    let text = line.map_err(serde_json::Error::io)?;
    serde_json::from_str(&text)
}

#[test]
fn strings_are_decoded_line_by_line() {
    let strings = vec![
        Ok("42".to_string()),
        Ok("forty-two".to_string()),
        Err(std::io::Error::new(std::io::ErrorKind::Other, "lost")),
        Ok("-7".to_string()),
    ];
    let out = from_strings(strings, number_of);
    assert_eq!(out.len(), 4);
    assert_eq!(*out[0].as_ref().unwrap(), 42);
    assert!(out[1].as_ref().unwrap_err().is_syntax());
    assert!(out[2].as_ref().unwrap_err().is_io());
    assert_eq!(*out[3].as_ref().unwrap(), -7);
}

#[test]
fn slices_are_decoded_line_by_line() {
    let slices = vec![Ok(b"[1,2]".to_vec()), Ok(b"[".to_vec())];
    let out = from_slices(slices, |line: Result<Vec<u8>, std::io::Error>| {
        let bytes = line.map_err(serde_json::Error::io)?;
        serde_json::from_slice::<Vec<u8>>(&bytes)
    });
    assert_eq!(out[0].as_ref().unwrap(), &vec![1, 2]);
    assert!(out[1].as_ref().unwrap_err().is_eof());
}
