use spacetime_storage::commitlog::repo::fs::{
    create_segment, existing_offsets, resume_segment, segment_file_name, segment_offset,
    size_on_disk, CreateStep, SegmentStats, SizeOnDisk, Stat,
};
use spacetime_storage::io::{ByteReader, Error, ErrorKind};
use spacetime_storage::text::{parse_u64, with_number, with_numbers};

#[test]
fn segment_names() {
    assert_eq!(segment_file_name(0), "00000000000000000000.stdb.log");
    assert_eq!(segment_file_name(1234), "00000000000000001234.stdb.log");
    assert_eq!(segment_file_name(u64::MAX), "18446744073709551615.stdb.log");
    for n in [0, 7, 1234, u64::MAX] {
        assert_eq!(segment_offset(&segment_file_name(n)), Some(n));
    }
    assert_eq!(segment_offset("12.stdb.ofs"), None);
    assert_eq!(segment_offset(".stdb.log"), None);
    assert_eq!(segment_offset("x1.stdb.log"), None);
    assert_eq!(segment_offset("+1.stdb.log"), Some(1));
    assert_eq!(segment_offset("log"), None);
}

#[test]
fn segments_are_sorted() {
    let names: Vec<String> = ["30.stdb.log", "README", "5.stdb.log", "100.stdb.log", "5.stdb.ofs", "0.stdb.log"]
        .iter()
        .map(|s| s.to_string())
        .collect();
    assert_eq!(existing_offsets(&names), vec![0, 5, 30, 100]);
}

#[test]
fn sizes_add_up() {
    let stat = |len, blocks| Stat { len, blocks };
    let error = |kind, text| Err(Error::from_text(kind, text));
    let size = size_on_disk(vec![
        SegmentStats { segment: Ok(stat(100, 8)), index: Ok(stat(10, 1)) },
        SegmentStats { segment: Ok(stat(50, 4)), index: error(ErrorKind::NotFound, "none") },
    ])
    .unwrap();
    assert_eq!((size.total_bytes, size.total_blocks), (160, 13));
    let denied = size_on_disk(vec![
        SegmentStats { segment: Ok(stat(1, 1)), index: error(ErrorKind::Other, "denied") },
        SegmentStats { segment: error(ErrorKind::Other, "later"), index: Ok(stat(1, 1)) },
    ]);
    assert_eq!(denied.unwrap_err().message, "denied");
    let gone = size_on_disk(vec![SegmentStats {
        segment: error(ErrorKind::NotFound, "gone"),
        index: Ok(stat(1, 1)),
    }]);
    assert_eq!(gone.unwrap_err().kind, ErrorKind::NotFound);
    let mut sum = SizeOnDisk::default();
    sum.add(stat(3, 4));
    sum.add(stat(30, 40));
    assert_eq!((sum.total_bytes, sum.total_blocks), (33, 44));
}

#[test]
fn blocks_are_estimated_by_pages() {
    let mut sum = SizeOnDisk::default();
    sum.add_len(0);
    assert_eq!((sum.total_bytes, sum.total_blocks), (0, 0));
    sum.add_len(1);
    assert_eq!((sum.total_bytes, sum.total_blocks), (1, 8));
    sum.add_len(4095);
    assert_eq!((sum.total_bytes, sum.total_blocks), (4096, 8));
    sum.add_len(1);
    assert_eq!((sum.total_bytes, sum.total_blocks), (4097, 16));
    sum.add_len(u64::MAX - 4097);
    assert_eq!(sum.total_blocks, 1 << 55);
}

#[test]
fn creating_a_segment() {
    assert!(matches!(create_segment(Ok(())), CreateStep::Created));
    let exists = Error::from_text(ErrorKind::AlreadyExists, "file exists");
    assert!(matches!(create_segment(Err(exists)), CreateStep::Reopen));
    let denied = Error::from_text(ErrorKind::Other, "denied");
    assert!(matches!(create_segment(Err(denied)), CreateStep::Failed(e) if e.message == "denied"));
    assert!(resume_segment("/log", 7, 0).is_ok());
    let e = resume_segment("/log", 7, 1).unwrap_err();
    assert_eq!(e.kind, ErrorKind::AlreadyExists);
    assert_eq!(e.message, "repo /log: segment 7 already exists and is non-empty");
}

#[test]
fn numbers_in_text() {
    assert_eq!(with_number("n=", 0), "n=0");
    assert_eq!(with_numbers("a", 10, "b", u64::MAX), "a10b18446744073709551615");
    assert_eq!(parse_u64("18446744073709551615"), Some(u64::MAX));
    assert_eq!(parse_u64("18446744073709551616"), None);
    assert_eq!(parse_u64("99999999999999999999"), None);
    assert_eq!(parse_u64("000"), Some(0));
    assert_eq!(parse_u64("+"), None);
    assert_eq!(parse_u64(""), None);
    assert_eq!(parse_u64("1 "), None);
}

#[test]
fn reading_bytes() {
    let mut reader = ByteReader::new(vec![1, 2, 3, 4, 5]);
    assert_eq!(reader.read_exact(2).unwrap(), [1, 2]);
    assert_eq!(reader.stream_position(), 2);
    assert_eq!(reader.read_exact(4).unwrap_err().kind, ErrorKind::UnexpectedEof);
    assert_eq!(reader.stream_position(), 5);
    reader.seek(4);
    assert_eq!(reader.read_exact(1).unwrap(), [5]);
    reader.seek(1 << 60);
    assert!(reader.read_exact(1).is_err());
    assert!(reader.read_exact(0).unwrap().is_empty());
    assert_eq!(reader.stream_position(), 1 << 60);
}
