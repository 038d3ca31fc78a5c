use pagecache::snapshot_file::{
    decode_snapshot, encode_snapshot, is_superseded, newest, seal, snapshot_path,
    snapshot_path_in_motion, ByteOrder, SnapshotFileError,
};

const LOW: ByteOrder = ByteOrder::LowestFirst;

fn sum(bytes: &Vec<u8>) -> u64 {
    let mut h: u64 = 1;
    for b in bytes {
        h = h.wrapping_mul(31).wrapping_add(*b as u64);
    }
    h
}

#[test]
fn a_file_is_the_bytes_and_their_checksum() {
    let crc = |_: &Vec<u8>| 0x0102030405060708;
    let file = encode_snapshot(vec![7, 8], false, ByteOrder::LowestFirst, crc).unwrap();
    assert_eq!(file, vec![7, 8, 8, 7, 6, 5, 4, 3, 2, 1]);
    let file = encode_snapshot(vec![7, 8], false, ByteOrder::HighestFirst, crc).unwrap();
    assert_eq!(file, vec![7, 8, 1, 2, 3, 4, 5, 6, 7, 8]);
}

#[test]
fn bytes_that_could_not_be_made_are_not_sealed() {
    let file = seal(Ok(vec![9, 9]), ByteOrder::HighestFirst, |_: &Vec<u8>| 258).unwrap();
    assert_eq!(file, vec![9, 9, 0, 0, 0, 0, 0, 0, 1, 2]);
    let failed = std::io::Error::new(std::io::ErrorKind::Other, "out of memory");
    let r = seal(Err(failed), LOW, sum);
    assert!(matches!(r, Err(SnapshotFileError::Compression)));
}

#[test]
fn what_is_written_is_read_back() {
    let raw: Vec<u8> = (0..200).collect();
    let file = encode_snapshot(raw.clone(), false, LOW, sum).unwrap();
    assert_eq!(file.len(), 208);
    assert_eq!(decode_snapshot(file, false, 1000, LOW, sum).unwrap(), raw);
    let empty = encode_snapshot(vec![], false, LOW, sum).unwrap();
    assert_eq!(empty, vec![1, 0, 0, 0, 0, 0, 0, 0]);
    assert_eq!(decode_snapshot(empty, false, 1000, LOW, sum).unwrap(), Vec::<u8>::new());
}

#[test]
fn compression_is_undone() {
    let raw = vec![5u8; 5000];
    let file = encode_snapshot(raw.clone(), true, LOW, sum).unwrap();
    assert!(file.len() < 100);
    assert_eq!(decode_snapshot(file.clone(), true, 10000, LOW, sum).unwrap(), raw);
    // Without decompression the compressed bytes come out.
    let stored = decode_snapshot(file.clone(), false, 10000, LOW, sum).unwrap();
    assert_eq!(stored.len(), file.len() - 8);
    assert_ne!(stored, raw);
}

#[test]
fn the_byte_order_must_be_the_same() {
    let raw: Vec<u8> = vec![3, 1, 4, 1, 5];
    let high = ByteOrder::HighestFirst;
    let file = encode_snapshot(raw.clone(), false, high, sum).unwrap();
    assert_eq!(decode_snapshot(file.clone(), false, 1000, high, sum).unwrap(), raw);
    let r = decode_snapshot(file, false, 1000, LOW, sum);
    assert!(matches!(r, Err(SnapshotFileError::CrcMismatch)));
}

#[test]
fn compressed_snapshots_that_fit_are_read_back() {
    let raw: Vec<u8> = (0..3000u32).map(|i| (i * i % 251) as u8).collect();
    let file = encode_snapshot(raw.clone(), true, LOW, sum).unwrap();
    assert_eq!(decode_snapshot(file.clone(), true, 3000, LOW, sum).unwrap(), raw);
    // With less room there may be an error, but never other bytes.
    match decode_snapshot(file, true, 2999, LOW, sum) {
        Ok(bytes) => assert_eq!(bytes, raw),
        Err(e) => assert_eq!(e, SnapshotFileError::Compression),
    }
    let empty = encode_snapshot(vec![], true, LOW, sum).unwrap();
    assert_eq!(decode_snapshot(empty, true, 0, LOW, sum).unwrap(), Vec::<u8>::new());
}

#[test]
fn short_files_are_refused() {
    let r = decode_snapshot(vec![1, 2, 3, 4, 5, 6, 7], false, 1000, LOW, sum);
    assert!(matches!(r, Err(SnapshotFileError::TooShort)));
}

#[test]
fn damaged_files_are_refused() {
    let mut file = encode_snapshot(vec![1, 2, 3], false, LOW, sum).unwrap();
    file[1] = 9;
    let r = decode_snapshot(file, false, 1000, LOW, sum);
    assert!(matches!(r, Err(SnapshotFileError::CrcMismatch)));
}

#[test]
fn what_is_not_compressed_cannot_be_decompressed() {
    let file = encode_snapshot(vec![1, 2, 3], false, LOW, sum).unwrap();
    let r = decode_snapshot(file, true, 1000, LOW, sum);
    assert!(matches!(r, Err(SnapshotFileError::Compression)));
}

#[test]
fn paths_end_in_the_sequence_number() {
    assert_eq!(snapshot_path("db.snap", 0), "db.snap.0");
    assert_eq!(snapshot_path("db.snap", 9), "db.snap.9");
    assert_eq!(snapshot_path("db.snap", 10), "db.snap.10");
    assert_eq!(snapshot_path("", u64::MAX), ".18446744073709551615");
    assert_eq!(snapshot_path_in_motion("a/b", 1234567890), "a/b.1234567890.in___motion");
}

#[test]
fn older_files_are_superseded() {
    assert!(!is_superseded("dir/db.snap.20", "db.snap.20"));
    assert!(is_superseded("dir/db.snap.20", "db.snap.10"));
    assert!(is_superseded("a", "long name"));
    assert!(!is_superseded("a", ""));
}

#[test]
fn the_newest_file_is_read() {
    assert_eq!(newest(&vec![]), None);
    assert_eq!(newest(&vec![4]), Some(0));
    assert_eq!(newest(&vec![4, 9, 2]), Some(1));
    assert_eq!(newest(&vec![9, 4, 9, 2]), Some(2));
    assert_eq!(newest(&vec![-7, -3, -9]), Some(1));
}
