use spacetime_storage::commitlog::commit::{Commit, Header as CommitHeader, StoredCommit};
use spacetime_storage::commitlog::index::{IndexError, TxOffsetIndex, TxOffsetIndexMut};
use spacetime_storage::commitlog::payload::{ArrayDecoder, Decoder, Encode};
use spacetime_storage::commitlog::repo;
use spacetime_storage::commitlog::repo::mem::{Segment, PAGE_SIZE};
use spacetime_storage::commitlog::repo::SegmentWriter;
use spacetime_storage::commitlog::segment::metadata::SegmentMetadata;
use spacetime_storage::commitlog::segment::writer::CommitError;
use spacetime_storage::commitlog::segment::{
    seek_to_offset, validate_commit_header, Header, Metadata, OffsetIndexWriter, Reader,
    Transaction, Writer, WriterParams, CHECKSUM_LEN, DEFAULT_CHECKSUM_ALGORITHM,
    DEFAULT_LOG_FORMAT_VERSION, MAGIC,
};
use spacetime_storage::commitlog::Options;
use spacetime_storage::io::{ByteReader, Error, ErrorKind};

fn txs<const N: usize>(pairs: &[(u64, [u8; N])]) -> Vec<Transaction<[u8; N]>> {
    pairs.iter().map(|&pair| pair.into()).collect()
}

fn create_segment_writer() -> Writer<Segment> {
    repo::create_segment_writer(Segment::unlimited(), None, Commit::DEFAULT_EPOCH, 0, 4096).unwrap()
}

fn open_segment_reader(writer: Writer<Segment>) -> Reader {
    let bytes = writer.into_inner().as_slice().to_vec();
    Reader::new(DEFAULT_LOG_FORMAT_VERSION, 0, ByteReader::new(bytes)).unwrap()
}

fn crc32c(data: &[u8]) -> u32 {
    let mut crc = !0u32;
    for &b in data {
        crc ^= b as u32;
        for _ in 0..8 {
            crc = if crc & 1 == 1 { (crc >> 1) ^ 0x82f6_3b78 } else { crc >> 1 };
        }
    }
    !crc
}

#[test]
fn header_roundtrip() {
    let hdr = Header {
        log_format_version: 42,
        checksum_algorithm: 7,
    };

    let mut buf = Vec::new();
    hdr.write(&mut buf).unwrap();
    assert_eq!(buf.len(), Header::LEN);
    let h2 = Header::decode(&mut ByteReader::new(buf)).unwrap();

    assert_eq!(hdr, h2);
}

#[test]
fn write_read_roundtrip() {
    let mut writer = create_segment_writer();
    writer.commit(txs(&[(0, [0; 32]), (1, [1; 32]), (2, [2; 32])])).unwrap();
    writer.flush().unwrap();

    let reader = open_segment_reader(writer);
    let header = reader.header;
    let commit = reader
        .commits()
        .next()
        .expect("expected one commit")
        .expect("unexpected IO");

    assert_eq!(
        header,
        Header {
            log_format_version: DEFAULT_LOG_FORMAT_VERSION,
            checksum_algorithm: DEFAULT_CHECKSUM_ALGORITHM
        }
    );
    assert_eq!(commit.min_tx_offset, 0);
    assert_eq!(commit.records, [[0; 32], [1; 32], [2; 32]].concat());
}

#[test]
fn metadata() {
    let mut writer = create_segment_writer();
    // Commit 0..2
    writer.commit(txs(&[(0, [0; 32]), (1, [0; 32])])).unwrap();
    // Commit 2..3
    writer.commit(txs(&[(2, [1; 32])])).unwrap();
    // Commit 3..5
    writer.commit(txs(&[(3, [2; 32]), (4, [2; 32])])).unwrap();

    writer.flush().unwrap();

    let reader = open_segment_reader(writer);
    let Metadata {
        header,
        tx_range,
        size_in_bytes,
        max_epoch,
        max_commit_offset,
        max_commit,
    } = reader.metadata().unwrap();

    assert_eq!(
        (
            header,
            tx_range,
            size_in_bytes,
            max_epoch,
            max_commit_offset,
            max_commit.is_some_and(|meta| meta.tx_range == (3..5))
        ),
        (
            Header::default(),
            0..5,
            // header + 5 txs + 3 commits
            (Header::LEN + (5 * 32) + (3 * Commit::FRAMING_LEN)) as u64,
            Commit::DEFAULT_EPOCH,
            3,
            true
        )
    );
}

#[test]
fn commits() {
    let commits = vec![
        vec![(0, [1; 32]), (1, [2; 32])],
        vec![(2, [3; 32])],
        vec![(3, [4; 32]), (4, [5; 32])],
    ];

    let mut writer = create_segment_writer();

    for commit in &commits {
        writer.commit(txs(commit)).unwrap();
    }

    writer.flush().unwrap();

    let reader = open_segment_reader(writer);
    let mut commits1 = Vec::with_capacity(commits.len());
    let mut min_tx_offset: u64 = 0;
    for txs in commits {
        let n = txs.len();
        commits1.push(Commit {
            min_tx_offset,
            n: n as u16,
            records: txs.into_iter().flat_map(|(_, payload)| payload.to_vec()).collect(),
            epoch: 0,
        });
        min_tx_offset += n as u64;
    }
    let mut commits2 = Vec::new();
    let mut stored = reader.commits();
    while let Some(commit) = stored.next() {
        commits2.push(commit.unwrap().into_commit());
    }
    assert_eq!(commits1, commits2);
}

#[test]
fn transactions() {
    let commits: Vec<Vec<(u64, [u8; 32])>> = vec![
        vec![(0, [1; 32]), (1, [2; 32])],
        vec![(2, [3; 32])],
        vec![(3, [4; 32]), (4, [5; 32])],
    ];

    let mut writer = create_segment_writer();
    for commit in &commits {
        writer.commit(txs(commit)).unwrap();
    }

    writer.flush().unwrap();

    let reader = open_segment_reader(writer);
    let txs = reader.transactions(&ArrayDecoder::<32>).unwrap();
    assert_eq!(
        txs,
        commits
            .into_iter()
            .flatten()
            .map(Into::into)
            .collect::<Vec<_>>()
    );
}

#[test]
fn next_tx_offset() {
    let mut writer = Writer::new(Segment::new(PAGE_SIZE as u64), None, WriterParams::default());

    assert_eq!(0, writer.next_tx_offset());
    writer.commit(txs(&[(0, [0; 16])])).unwrap();
    assert_eq!(1, writer.next_tx_offset());
    writer.commit(txs(&[(1, [1; 16])])).unwrap();
    writer.commit(txs(&[(2, [1; 16])])).unwrap();
    assert_eq!(3, writer.next_tx_offset());
}

#[test]
fn offset_index_writer_truncates_to_offset() {
    let mut writer = OffsetIndexWriter::new(
        TxOffsetIndexMut::new(100),
        Options {
            // Ensure we're writing every index entry.
            offset_index_interval_bytes: 127,
            offset_index_require_segment_fsync: false,
        },
    );

    for i in 1..=10 {
        assert!(writer.append_after_commit(i, i * 128, 128).unwrap());
        writer.flushed(Ok(())).unwrap();
    }
    // Ensure all entries have been written.
    for i in 1..=10 {
        assert_eq!(writer.head().key_lookup(i).unwrap(), (i, i * 128));
    }

    // Truncating to any offset in the written range or larger
    // retains that offset - 1, or the max offset written.
    for truncate_to in (2..=10u64).rev() {
        let retained_key = truncate_to.saturating_sub(1).min(10);
        let retained_val = retained_key * 128;
        let retained = (retained_key, retained_val);

        writer.truncate(truncate_to);
        assert!(
            matches!(writer.head().key_lookup(truncate_to), Ok(x) if x == retained),
            "truncate to {truncate_to} should retain {retained:?}"
        );
        // Make sure this also holds after reopen.
        let index = TxOffsetIndex::from_bytes(&writer.head().to_bytes());
        assert!(
            matches!(index.key_lookup(truncate_to), Ok(x) if x == retained),
            "truncate to {truncate_to} should retain {retained:?} after reopen"
        );
    }

    // Truncating to 1 leaves no entries in the index
    writer.truncate(1);
    assert!(matches!(writer.head().key_lookup(1), Err(IndexError::KeyNotFound)));
}

#[test]
fn header_bytes() {
    let mut buf = Vec::new();
    Header::default().write(&mut buf).unwrap();
    assert_eq!(buf, b"(ds)^2\x01\x00\x00\x00");
    assert_eq!(&MAGIC, b"(ds)^2");
    assert_eq!(CHECKSUM_LEN[DEFAULT_CHECKSUM_ALGORITHM as usize], 4);
    let mut bytes = bytes::BytesMut::new();
    Header::default().encode(&mut bytes);
    Header::default().encode(&mut bytes);
    assert_eq!(&bytes[..], [&buf[..], &buf[..]].concat());
}

#[test]
fn header_errors() {
    let short = Header::decode(&mut ByteReader::new(b"(ds)^2\x01".to_vec())).unwrap_err();
    assert_eq!(short.kind, ErrorKind::UnexpectedEof);
    let bad = Header::decode(&mut ByteReader::new(b"(dx)^2\x01\x00\x00\x00".to_vec())).unwrap_err();
    assert_eq!(bad.kind, ErrorKind::InvalidData);
    assert_eq!(bad.message, "segment header does not start with magic");

    let header = Header { log_format_version: 12, checksum_algorithm: 3 };
    assert_eq!(header.ensure_compatible(11, 3).unwrap_err(), "unsupported log format version: 12");
    assert_eq!(header.ensure_compatible(12, 0).unwrap_err(), "unsupported checksum algorithm: 3");
    assert!(header.ensure_compatible(12, 3).is_ok());

    let mut buf = Vec::new();
    header.write(&mut buf).unwrap();
    let e = Reader::new(1, 0, ByteReader::new(buf)).unwrap_err();
    assert_eq!((e.kind, e.message.as_str()), (ErrorKind::InvalidData, "unsupported log format version: 12"));
}

#[test]
fn commit_bytes() {
    let commit = Commit { min_tx_offset: 3, epoch: 0x0102, n: 2, records: b"abc".to_vec() };
    let mut buf = bytes::BytesMut::new();
    let checksum = commit.encode(&mut buf);
    assert_eq!(commit.encoded_len(), buf.len());
    assert_eq!(&buf[..22], b"\x03\0\0\0\0\0\0\0\x02\x01\0\0\0\0\0\0\x02\0\x03\0\0\0");
    assert_eq!(&buf[22..25], b"abc");
    assert_eq!(checksum, crc32c(&buf[..25]));
    assert_eq!(&buf[25..], checksum.to_le_bytes());
    assert_eq!(commit.tx_range(), 3..5);
}

#[test]
fn decoding_a_commit() {
    let commit = Commit { min_tx_offset: 3, epoch: 1, n: 2, records: b"abc".to_vec() };
    let mut buf = bytes::BytesMut::new();
    let checksum = commit.encode(&mut buf);

    let mut reader = ByteReader::new(buf.to_vec());
    let stored = StoredCommit::decode(&mut reader).unwrap().unwrap();
    assert_eq!((stored.min_tx_offset, stored.epoch, stored.n), (3, 1, 2));
    assert_eq!((stored.records.as_slice(), stored.checksum), (&b"abc"[..], checksum));
    assert_eq!(stored.tx_range(), 3..5);
    assert!(StoredCommit::decode(&mut reader).unwrap().is_none());

    for n in 22..buf.len() {
        let e = StoredCommit::decode(&mut ByteReader::new(buf[..n].to_vec())).unwrap_err();
        assert_eq!(e.kind, ErrorKind::UnexpectedEof);
    }
    for n in 0..22 {
        assert!(StoredCommit::decode(&mut ByteReader::new(buf[..n].to_vec())).unwrap().is_none());
    }
    assert!(StoredCommit::decode(&mut ByteReader::new(vec![0; 100])).unwrap().is_none());
    let mut bad = buf.to_vec();
    bad[23] ^= 1;
    let e = StoredCommit::decode(&mut ByteReader::new(bad)).unwrap_err();
    assert_eq!(e.kind, ErrorKind::InvalidData);
}

#[test]
fn the_first_log_format_has_no_epoch() {
    let mut bytes = b"\x07\0\0\0\0\0\0\0\x01\0\x02\0\0\0hi".to_vec();
    let crc = crc32c(&bytes);
    bytes.extend_from_slice(&crc.to_le_bytes());
    let stored = StoredCommit::decode_internal(&mut ByteReader::new(bytes), 0).unwrap().unwrap();
    assert_eq!((stored.min_tx_offset, stored.epoch, stored.n, stored.records), (7, 0, 1, b"hi".to_vec()));
}

#[test]
fn commit_outcomes() {
    let mut writer = create_segment_writer();
    assert!(writer.commit(Vec::<Transaction<Vec<u8>>>::new()).unwrap().is_none());
    let committed = writer.commit(txs(&[(0, [9; 4]), (1, [8; 4])])).unwrap().unwrap();
    assert_eq!(committed.tx_range, 0..2);

    match writer.commit(txs(&[(2, [1; 4]), (4, [1; 4])])) {
        Err(CommitError::Offset(e)) => {
            assert_eq!(e.kind, ErrorKind::InvalidInput);
            assert_eq!(e.message, "invalid transaction offset 4, expected 3");
        }
        _ => panic!("expected an error"),
    }
    assert_eq!(writer.next_tx_offset(), 2);
    let again = writer.commit(txs(&[(2, [1; 4])])).unwrap().unwrap();
    assert_eq!(again.tx_range, 2..3);
    assert!(writer.is_empty());
    writer.flush().unwrap();
    assert!(!writer.is_empty());
    assert_eq!(writer.len(), 10 + 26 + 8 + 26 + 4);
    let reader = open_segment_reader(writer);
    assert_eq!(reader.commits().next().unwrap().unwrap().checksum, committed.checksum);
}

#[test]
fn the_epoch_is_part_of_a_commit() {
    let mut writer = create_segment_writer();
    writer.commit(txs(&[(0, [0; 1])])).unwrap();
    writer.set_epoch(42);
    assert_eq!(writer.epoch(), 42);
    assert_eq!(writer.min_tx_offset(), 0);
    writer.commit(txs(&[(1, [0; 1])])).unwrap();
    writer.flush().unwrap();
    writer.sync_data().unwrap();
    let meta = open_segment_reader(writer).metadata().unwrap();
    assert_eq!((meta.max_epoch, meta.tx_range), (42, 0..2));
}

#[test]
fn the_buffer_is_written_when_it_is_full() {
    let index = OffsetIndexWriter::new(TxOffsetIndexMut::new(10), Options {
        offset_index_interval_bytes: 100,
        offset_index_require_segment_fsync: false,
    });
    let mut writer = repo::create_segment_writer(Segment::unlimited(), Some(index), 0, 5, 60).unwrap();
    writer.commit(txs(&[(5, [0; 10])])).unwrap();
    assert_eq!(writer.len(), 10);
    writer.commit(txs(&[(6, [0; 10])])).unwrap();
    assert_eq!(writer.len(), 10 + 72);
    assert!(!writer.index_appended());
    writer.commit(txs(&[(7, [0; 74])])).unwrap();
    assert_eq!(writer.len(), 10 + 72 + 100);
    assert!(writer.index_appended());
    let entry = writer.offset_index().unwrap().head().key_lookup(u64::MAX).unwrap();
    // The buffer that was written with the commit starts there.
    assert_eq!(entry, (6, 10));
    writer.index_flushed(Ok(())).unwrap();
    assert!(!writer.index_appended());

    let index = TxOffsetIndex::from_bytes(&writer.offset_index().unwrap().head().to_bytes());
    let bytes = writer.into_inner().as_slice().to_vec();
    let mut reader = ByteReader::new(bytes.clone());
    let e = Metadata::find_valid_indexed_commit(5, Header::default(), &mut reader, &index).unwrap_err();
    assert_eq!(e.message, "No valid commit found in index up to key: 5");
    assert_eq!(
        Metadata::extract(5, ByteReader::new(bytes.clone()), Some(&index)).unwrap(),
        Metadata::extract(5, ByteReader::new(bytes), None).unwrap()
    );
}

#[test]
fn the_index_leads_to_commits_that_are_written_one_by_one() {
    let index = OffsetIndexWriter::new(TxOffsetIndexMut::new(10), Options {
        offset_index_interval_bytes: 1,
        offset_index_require_segment_fsync: false,
    });
    let mut writer = repo::create_segment_writer(Segment::unlimited(), Some(index), 0, 5, 1).unwrap();
    for offset in 5..8 {
        writer.commit(txs(&[(offset, [offset as u8; 10])])).unwrap();
        assert!(writer.index_appended());
        writer.index_flushed(Ok(())).unwrap();
    }
    let index = TxOffsetIndex::from_bytes(&writer.offset_index().unwrap().head().to_bytes());
    for (offset, position) in [(5, 10), (6, 46), (7, 82)] {
        assert_eq!(index.key_lookup(offset).unwrap(), (offset, position));
    }
    let bytes = writer.into_inner().as_slice().to_vec();
    let mut reader = ByteReader::new(bytes.clone());
    let meta = Metadata::find_valid_indexed_commit(5, Header::default(), &mut reader, &index).unwrap();
    assert_eq!((meta.tx_range, meta.size_in_bytes), (5..8, 118));
    // What is read after seeking are the commit that was asked for and those
    // behind it.
    let mut reader = Reader::new(1, 5, ByteReader::new(bytes)).unwrap();
    assert_eq!(reader.seek_to_offset(&index, 6).unwrap(), 46);
    let read = reader.transactions(&ArrayDecoder::<10>).unwrap();
    assert_eq!(read, txs(&[(6, [6; 10]), (7, [7; 10])]));
}

#[test]
fn the_largest_epoch_is_found_with_and_without_an_index() {
    let mut writer = create_segment_writer();
    writer.set_epoch(5);
    writer.commit(txs(&[(0, [0; 4])])).unwrap();
    writer.set_epoch(3);
    writer.commit(txs(&[(1, [0; 4])])).unwrap();
    writer.commit(txs(&[(2, [0; 4])])).unwrap();
    writer.flush().unwrap();
    let bytes = writer.into_inner().as_slice().to_vec();
    assert_eq!(Metadata::max_epoch_before(&mut ByteReader::new(bytes.clone()), 40), 5);
    assert_eq!(Metadata::max_epoch_before(&mut ByteReader::new(bytes.clone()), 10), 0);
    let plain = Metadata::extract(0, ByteReader::new(bytes.clone()), None).unwrap();
    assert_eq!(plain.max_epoch, 5);
    for index in [index_of(&[(1, 40)]), index_of(&[(1, 40), (2, 70)]), index_of(&[(1, 40), (2, 41)])] {
        let indexed = Metadata::extract(0, ByteReader::new(bytes.clone()), Some(&index)).unwrap();
        assert_eq!(indexed, plain);
    }

    // The epoch of a commit that cannot be read does not count.
    let mut damaged = bytes;
    damaged[35] ^= 1;
    assert_eq!(Metadata::max_epoch_before(&mut ByteReader::new(damaged.clone()), 40), 0);
    let indexed = Metadata::extract(0, ByteReader::new(damaged), Some(&index_of(&[(1, 40)]))).unwrap();
    assert_eq!((indexed.max_epoch, indexed.tx_range), (3, 0..3));
}

#[test]
fn a_full_segment_loses_the_buffer() {
    let mut writer = Writer::new(Segment::new(40), None, WriterParams { flush_buffer: 1, ..Default::default() });
    writer.commit(txs(&[(0, [0; 10])])).unwrap();
    match writer.commit(txs(&[(1, [0; 10])])) {
        Err(CommitError::Flush(e)) => assert_eq!(e.kind, ErrorKind::StorageFull),
        _ => panic!("expected a full segment"),
    }
    assert_eq!(writer.len(), 36);
    assert_eq!(writer.next_tx_offset(), 2);
    writer.flush().unwrap();
    assert_eq!(writer.len(), 36);
}

#[test]
fn index_entries_wait_for_the_flush_to_succeed() {
    let mut writer = OffsetIndexWriter::new(TxOffsetIndexMut::new(2), Options {
        offset_index_interval_bytes: 100,
        offset_index_require_segment_fsync: true,
    });
    assert!(!writer.append_after_commit(3, 30, 200).unwrap());
    assert!(!writer.append_after_commit(4, 230, 200).unwrap());
    assert!(writer.flush());
    assert_eq!(writer.head().key_lookup(9).unwrap(), (3, 30));
    let failed = writer.flushed(Err(Error::from_text(ErrorKind::Other, "disk")));
    assert!(matches!(failed, Err(IndexError::Io(e)) if e.message == "disk"));
    // The candidate is still there, and is refused now.
    assert!(!writer.flush());
    writer.flushed(Ok(())).unwrap();
    assert!(!writer.flush());
    writer.append_after_commit(8, 80, 100).unwrap();
    assert!(writer.flush());
    writer.flushed(Ok(())).unwrap();
    writer.append_after_commit(9, 90, 100).unwrap();
    assert!(!writer.flush());
}

#[test]
fn index_errors() {
    let mut index = TxOffsetIndexMut::new(2);
    assert!(matches!(index.append(0, 1), Err(IndexError::InvalidInput { last: 0, key: 0 })));
    index.append(5, 50).unwrap();
    assert!(matches!(index.append(5, 51), Err(IndexError::InvalidInput { last: 5, key: 5 })));
    index.append(9, 90).unwrap();
    assert!(matches!(index.append(10, 100), Err(IndexError::OutOfMemory)));
    assert!(matches!(index.key_lookup(4), Err(IndexError::KeyNotFound)));
    assert_eq!(index.key_lookup(8).unwrap(), (5, 50));
    assert!(matches!(index.truncate(4), Err(IndexError::KeyNotFound)));
    assert_eq!(index.key_lookup(9).unwrap(), (9, 90));
    index.truncate(7).unwrap();
    assert_eq!(index.key_lookup(9).unwrap(), (5, 50));
    let bytes = index.to_bytes();
    assert_eq!(bytes.len(), 32);
    assert_eq!(&bytes[..16], &[5, 0, 0, 0, 0, 0, 0, 0, 50, 0, 0, 0, 0, 0, 0, 0]);
    let mut reopened = TxOffsetIndexMut::from_bytes(&bytes);
    reopened.append(6, 60).unwrap();
    assert_eq!(TxOffsetIndex::from_bytes(&reopened.to_bytes()).key_lookup(100).unwrap(), (6, 60));
}

fn three_commits() -> Vec<u8> {
    let mut writer = create_segment_writer();
    writer.commit(txs(&[(0, [1; 4]), (1, [1; 4])])).unwrap();
    writer.commit(txs(&[(2, [2; 4])])).unwrap();
    writer.commit(txs(&[(3, [3; 4])])).unwrap();
    writer.flush().unwrap();
    writer.into_inner().as_slice().to_vec()
}

fn index_of(entries: &[(u64, u64)]) -> TxOffsetIndex {
    let mut index = TxOffsetIndexMut::new(entries.len() as u64);
    for &(key, value) in entries {
        index.append(key, value).unwrap();
    }
    TxOffsetIndex::from_bytes(&index.to_bytes())
}

#[test]
fn seeking_by_the_index() {
    let mut reader = ByteReader::new(three_commits());
    let index = index_of(&[(2, 44), (3, 74)]);
    assert_eq!(seek_to_offset(&mut reader, &index, 2).unwrap(), 44);
    assert_eq!(reader.stream_position(), 44);
    assert_eq!(seek_to_offset(&mut reader, &index, 100).unwrap(), 74);
    assert!(matches!(seek_to_offset(&mut reader, &index, 1), Err(IndexError::KeyNotFound)));
    assert_eq!(reader.stream_position(), 74);

    let wrong = index_of(&[(1, 44)]);
    match seek_to_offset(&mut reader, &wrong, 5) {
        Err(IndexError::Io(e)) => assert_eq!(e.message, "mismatched key in offset index file"),
        _ => panic!("expected a mismatch"),
    }
    let beyond = index_of(&[(1, 1 << 40)]);
    match seek_to_offset(&mut reader, &beyond, 5) {
        Err(IndexError::Io(e)) => assert_eq!((e.kind, e.message.as_str()), (ErrorKind::UnexpectedEof, "unexpected EOF")),
        _ => panic!("expected an end of file"),
    }
    assert_eq!(reader.stream_position(), 74);
    let header = validate_commit_header(&mut reader, 44).unwrap();
    assert_eq!(header, CommitHeader { min_tx_offset: 2, epoch: 0, n: 1, len: 4 });
}

#[test]
fn a_reader_seeks_too() {
    let mut reader = Reader::new(1, 0, ByteReader::new(three_commits())).unwrap();
    assert_eq!(reader.seek_to_offset(&index_of(&[(2, 44)]), 3).unwrap(), 44);
    let mut commits = reader.commits().with_log_format_version();
    let (version, commit) = commits.next().unwrap().unwrap();
    assert_eq!((version, commit.min_tx_offset), (1, 2));
    assert_eq!(commits.next().unwrap().unwrap().1.min_tx_offset, 3);
    assert!(commits.next().is_none());
}

#[test]
fn the_index_does_not_change_the_metadata() {
    let plain = Metadata::extract(0, ByteReader::new(three_commits()), None).unwrap();
    let index = index_of(&[(2, 44), (3, 74), (90, 7)]);
    let indexed = Metadata::extract(0, ByteReader::new(three_commits()), Some(&index)).unwrap();
    assert_eq!(plain.tx_range, 0..4);
    assert_eq!(plain.size_in_bytes, 104);
    assert_eq!(indexed, plain);
    assert_eq!(indexed, indexed.clone());
}

#[test]
fn zeros_end_a_segment() {
    let mut bytes = three_commits();
    bytes.extend_from_slice(&[0; 1000]);
    let meta = Metadata::extract(0, ByteReader::new(bytes), None).unwrap();
    assert_eq!((meta.tx_range, meta.size_in_bytes), (0..4, 104));
}

#[test]
fn metadata_errors() {
    let mut bytes = three_commits();
    bytes[80] ^= 1;
    match Metadata::extract(0, ByteReader::new(bytes), None) {
        Err(SegmentMetadata::InvalidCommit { sofar, source }) => {
            assert_eq!((sofar.tx_range, sofar.size_in_bytes), (0..3, 74));
            assert_eq!(source.kind, ErrorKind::InvalidData);
        }
        _ => panic!("expected an invalid commit"),
    }
    let bytes = three_commits();
    match Metadata::extract(0, ByteReader::new(bytes[..100].to_vec()), None) {
        Err(SegmentMetadata::InvalidCommit { sofar, source }) => {
            assert_eq!(sofar.tx_range, 0..3);
            assert_eq!(source.kind, ErrorKind::UnexpectedEof);
        }
        _ => panic!("expected an invalid commit"),
    }
    match Metadata::extract(1, ByteReader::new(three_commits()), None) {
        Err(SegmentMetadata::Io(e)) => assert_eq!(e.message, "out-of-order offset: expected=1 actual=0"),
        _ => panic!("expected an error"),
    }
    match Metadata::extract(0, ByteReader::new(Vec::new()), None) {
        Err(SegmentMetadata::Io(e)) => assert_eq!(e.kind, ErrorKind::UnexpectedEof),
        _ => panic!("expected an error"),
    }
    let sofar = Metadata::extract(0, ByteReader::new(three_commits()), None).unwrap();
    assert!(matches!(
        Metadata::unreadable(&sofar, Error::from_text(ErrorKind::Other, "disk")),
        SegmentMetadata::Io(_)
    ));
}

#[test]
fn looking_for_an_indexed_commit() {
    let mut reader = ByteReader::new(three_commits());
    let index = index_of(&[(2, 44), (7, 44), (9, 3)]);
    let meta = Metadata::find_valid_indexed_commit(0, Header::default(), &mut reader, &index).unwrap();
    assert_eq!((meta.tx_range, meta.size_in_bytes, meta.max_commit_offset), (0..3, 74, 2));

    // The header is to be replaced by the caller.
    let other = Header { log_format_version: 0, checksum_algorithm: 9 };
    let meta = Metadata::find_valid_indexed_commit(0, other, &mut reader, &index).unwrap();
    assert_eq!(meta.header, Header::default());
    let meta = Metadata::with_header(0, other, ByteReader::new(three_commits()), Some(&index)).unwrap();
    assert_eq!((meta.header, meta.tx_range), (other, 0..4));

    let e = Metadata::find_valid_indexed_commit(0, Header::default(), &mut reader, &index_of(&[(7, 44)])).unwrap_err();
    assert_eq!(e.message, "No valid commit found in index up to key: 6");

    let e = Metadata::validate_commit_at_offset(&mut reader, 7, 44).unwrap_err();
    assert_eq!(e.message, "mismatch key in index offset file: expected=7 actual=2");
    let e = Metadata::validate_commit_at_offset(&mut reader, 7, 104).unwrap_err();
    assert_eq!(e.message, "failed to decode commit");
}

#[test]
fn truncated_records_are_no_transactions() {
    let reader = Reader::new(1, 0, ByteReader::new(three_commits())).unwrap();
    assert_eq!(reader.transactions(&ArrayDecoder::<5>).unwrap_err().kind, ErrorKind::UnexpectedEof);
    let reader = Reader::new(1, 0, ByteReader::new(three_commits())).unwrap();
    assert_eq!(reader.transactions(&ArrayDecoder::<3>).unwrap().len(), 4);
}

/// Payloads whose first byte says how many bytes follow.
struct Prefixed;

impl Decoder for Prefixed {
    type Record = Vec<u8>;

    fn decode_record(&self, version: u8, tx_offset: u64, reader: &mut ByteReader) -> Result<Vec<u8>, Error> {
        let len = reader.read_exact(1)?[0];
        if len == 0xff {
            return Err(Error::new(ErrorKind::InvalidData, format!("{version} {tx_offset}")));
        }
        reader.read_exact(len as usize)
    }
}

#[test]
fn payloads_of_different_lengths() {
    let commit = |records: &[(u64, &[u8])]| -> Vec<Transaction<Vec<u8>>> {
        records.iter().map(|&(offset, txdata)| Transaction { offset, txdata: txdata.to_vec() }).collect()
    };
    let mut writer = create_segment_writer();
    writer.commit(commit(&[(0, b"\x02ab"), (1, b"\x00")])).unwrap();
    writer.commit(commit(&[(2, b"\x03xyz")])).unwrap();
    writer.flush().unwrap();
    let txs = open_segment_reader(writer).transactions(&Prefixed).unwrap();
    let txs: Vec<(u64, Vec<u8>)> = txs.into_iter().map(|tx| (tx.offset, tx.txdata)).collect();
    assert_eq!(txs, [(0, b"ab".to_vec()), (1, vec![]), (2, b"xyz".to_vec())]);

    let mut writer = create_segment_writer();
    writer.commit(commit(&[(0, b"\x01a"), (1, b"\xff")])).unwrap();
    writer.flush().unwrap();
    let e = open_segment_reader(writer).transactions(&Prefixed).unwrap_err();
    assert_eq!((e.kind, e.message.as_str()), (ErrorKind::InvalidData, "1 1"));
}

#[test]
fn payloads_append_their_bytes() {
    let mut buf = vec![1u8];
    [2u8, 3].encode_record(&mut buf);
    vec![4u8].encode_record(&mut buf);
    assert_eq!(buf, [1, 2, 3, 4]);
}

#[test]
fn segments_in_memory() {
    let mut segment = Segment::new(8);
    segment.pwrite_all(b"ab", 3).unwrap();
    assert_eq!(segment.as_slice(), b"\0\0\0ab");
    segment.pwrite_all(b"xyz", 1).unwrap();
    assert_eq!(segment.as_slice(), b"\0xyzb");
    segment.pwrite_all(b"", 100).unwrap();
    assert_eq!(segment.pwrite_all(b"12345", 4).unwrap_err().kind, ErrorKind::StorageFull);
    assert_eq!(segment.as_slice(), b"\0xyzb");
    segment.pwrite_all(b"1234", 4).unwrap();
    assert_eq!(segment.as_slice(), b"\0xyz1234");
    segment.fdatasync().unwrap();
}

#[test]
fn room_is_limited() {
    let writer = Writer::new(
        Segment::unlimited(),
        None,
        WriterParams { bytes_written: u64::MAX - 100, ..Default::default() },
    );
    assert!(writer.has_room(100));
    assert!(!writer.has_room(101));

    let mut index = OffsetIndexWriter::new(TxOffsetIndexMut::new(1), Options {
        offset_index_interval_bytes: u64::MAX,
        offset_index_require_segment_fsync: false,
    });
    assert!(!index.append_after_commit(1, 10, u64::MAX - 100).unwrap());
    assert_eq!(index.bytes_since_last_index(), u64::MAX - 100);
    let writer = Writer::new(Segment::unlimited(), Some(index), WriterParams::default());
    assert!(writer.has_room(100));
    assert!(!writer.has_room(101));
}

#[test]
fn a_segment_is_created_if_its_header_can_be_written() {
    let writer = repo::create_segment_writer(Segment::new(10), None, 3, 7, 4096).unwrap();
    assert_eq!((writer.epoch(), writer.min_tx_offset(), writer.next_tx_offset(), writer.len()), (3, 7, 7, 10));
    assert_eq!(writer.into_inner().as_slice(), b"(ds)^2\x01\x00\x00\x00");
    let e = repo::create_segment_writer(Segment::new(9), None, 3, 7, 4096).unwrap_err();
    assert_eq!(e.kind, ErrorKind::StorageFull);

    let broken = Err(Error::from_text(ErrorKind::Other, "disk"));
    let e = repo::header_written(Segment::unlimited(), broken, None, 0, 0, 1).unwrap_err();
    assert_eq!(e.message, "disk");
}
