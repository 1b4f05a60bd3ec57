use macos_fseventsd::fsevents::{DISKLOGGERV1, DISKLOGGERV2};
use macos_fseventsd::parser::{
    fseventsd, get_fseventsd, get_fseventsd_legacy, parse_fsevents, parse_fseventsd_data,
    FsEventsFile,
};
use macos_fseventsd::size::get_file_size;
use std::io::Write;

fn le32(v: u32) -> Vec<u8> {
    v.to_le_bytes().to_vec()
}

fn le64(v: u64) -> Vec<u8> {
    v.to_le_bytes().to_vec()
}

fn header(sig: u32, pad: u32, size: u32) -> Vec<u8> {
    let mut v = le32(sig);
    v.extend(le32(pad));
    v.extend(le32(size));
    v
}

fn record(path: &[u8], event_id: u64, flags: u32, node: Option<u64>) -> Vec<u8> {
    let mut v = path.to_vec();
    v.push(0);
    v.extend(le64(event_id));
    v.extend(le32(flags));
    if let Some(n) = node {
        v.extend(le64(n));
    }
    v
}

fn block(sig: u32, records: &[Vec<u8>]) -> Vec<u8> {
    let mut body: Vec<u8> = Vec::new();
    for r in records {
        body.extend(r.iter().copied());
    }
    let mut v = header(sig, 0, (12 + body.len()) as u32);
    v.extend(body);
    v
}

fn gzip(data: &[u8]) -> Vec<u8> {
    let mut encoder = flate2::write::GzEncoder::new(Vec::new(), flate2::Compression::default());
    encoder.write_all(data).unwrap();
    encoder.finish().unwrap()
}

fn journal_file(buffer: &[u8]) -> FsEventsFile {
    let data = gzip(buffer);
    FsEventsFile { size: data.len() as u64, data }
}

#[test]
fn test_get_fseventsd() {
    let path = get_fseventsd();
    assert!(path == "/System/Volumes/Data/.fseventsd/");
}

#[test]
fn test_get_fseventsd_legacy() {
    let path = get_fseventsd_legacy();
    assert!(path == "/.fseventsd");
}

#[test]
fn test_fseventsd() {
    let entries = vec![
        String::from("0000000000027d79"),
        String::from("fseventsd-uuid"),
        String::from("0000000000027d7a"),
    ];
    let files = fseventsd(&entries);
    assert!(files.len() == 2);
    assert_eq!(files, vec!["0000000000027d79", "0000000000027d7a"]);
}

#[test]
fn test_parse_fsevents() {
    let mut records: Vec<Vec<u8>> = Vec::new();
    for i in 0..736u64 {
        records.push(record(b"Users/shared/file", i, 0x01, Some(i)));
    }
    let buffer = block(DISKLOGGERV2, &records);
    let results = parse_fsevents(&buffer).unwrap();
    assert!(results.len() == 736);
}

#[test]
fn test_parse_fsevents_version1() {
    let records = vec![
        record(b".fseventsd/sl-compat", 163194, 0x1000000, None),
        record(b".fseventsd", 163195, 0x1000000, None),
    ];
    let buffer = block(DISKLOGGERV1, &records);
    let results = parse_fsevents(&buffer).unwrap();

    assert!(results.len() == 2);
    assert!(results[0].path == "/.fseventsd/sl-compat");
    assert!(results[0].event_id == 163194);
    assert!(results[0].flags == "IsDirectory");
    assert!(results[0].node == 0);
}

#[test]
fn fseventd_system_filelist_test() {
    let directory = get_fseventsd();
    assert_eq!(directory, "/System/Volumes/Data/.fseventsd/");
}

#[test]
#[should_panic]
fn test_malformed() {
    // a record truncated mid-field is a parse error; unwrap panics
    let mut buffer = header(DISKLOGGERV1, 0, 12 + 3);
    buffer.extend(b"a\0\x01");
    let _results = parse_fsevents(&buffer).unwrap();
}

#[test]
fn test_parse_fseventsd_data() {
    let mut records: Vec<Vec<u8>> = Vec::new();
    for i in 0..150u64 {
        records.push(record(b"private/var/db", 1000 + i, 0x10, Some(i)));
    }
    let buffer = block(DISKLOGGERV2, &records);
    let files = vec![journal_file(&buffer)];
    let results = parse_fseventsd_data(&files);
    assert!(results.records.len() > 100);
    assert_eq!(results.records.len(), 150);
    assert_eq!(results.skipped, 0);
    assert_eq!(results.failed, 0);
    assert_eq!(results.records[0].path, "/private/var/db");
    assert_eq!(results.records[0].event_id, 1000);
}

#[test]
fn test_batch_failed_file_isolated() {
    let good_one = block(DISKLOGGERV2, &[record(b"first", 1, 0x01, Some(1))]);
    let mut truncated = header(DISKLOGGERV1, 0, 12 + 3);
    truncated.extend(b"a\0\x01");
    let good_two = block(DISKLOGGERV1, &[record(b"second", 2, 0x02, None)]);

    let files = vec![
        journal_file(&good_one),
        journal_file(&truncated),
        journal_file(&good_two),
    ];
    let results = parse_fseventsd_data(&files);
    assert_eq!(results.failed, 1);
    assert_eq!(results.skipped, 0);
    assert_eq!(results.records.len(), 2);
    assert_eq!(results.records[0].path, "/first");
    assert_eq!(results.records[1].path, "/second");
}

#[test]
fn test_batch_multi_member_gzip() {
    // a journal file may be several gzip members back to back; all are inflated
    let first = block(DISKLOGGERV2, &[record(b"member/one", 1, 0x01, Some(1))]);
    let second = block(DISKLOGGERV1, &[record(b"member/two", 2, 0x02, None)]);
    let mut data = gzip(&first);
    data.extend(gzip(&second));
    let files = vec![FsEventsFile { size: data.len() as u64, data }];
    let results = parse_fseventsd_data(&files);
    assert_eq!(results.failed, 0);
    assert_eq!(results.records.len(), 2);
    assert_eq!(results.records[0].path, "/member/one");
    assert_eq!(results.records[1].path, "/member/two");
}

#[test]
fn test_batch_bad_gzip_fails() {
    let files = vec![FsEventsFile { size: 3, data: vec![1, 2, 3] }];
    let results = parse_fseventsd_data(&files);
    assert_eq!(results.failed, 1);
    assert!(results.records.is_empty());
}

#[test]
fn test_batch_oversize_file_skipped() {
    let good = block(DISKLOGGERV2, &[record(b"kept", 9, 0x01, Some(3))]);
    let oversize = FsEventsFile { size: 2147483648, data: gzip(&good) };
    let files = vec![oversize, journal_file(&good)];
    let results = parse_fseventsd_data(&files);
    assert_eq!(results.skipped, 1);
    assert_eq!(results.failed, 0);
    assert_eq!(results.records.len(), 1);
    assert_eq!(results.records[0].path, "/kept");
}

#[test]
fn test_batch_empty_decompressed_buffer() {
    // a file that inflates to nothing holds no records and is no failure
    let files = vec![journal_file(&[])];
    let results = parse_fseventsd_data(&files);
    assert_eq!(results.failed, 0);
    assert_eq!(results.skipped, 0);
    assert!(results.records.is_empty());
}

#[test]
fn test_get_file_size() {
    assert_eq!(get_file_size(142136), true);
}

#[test]
fn test_get_file_size_at_ceiling() {
    assert_eq!(get_file_size(2147483648), false);
    assert_eq!(get_file_size(2147483647), true);
    assert_eq!(get_file_size(u64::MAX), false);
}
