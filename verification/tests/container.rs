//! The snapshot container.

use sha2::Digest;
use vprogs::text::decimal_text;
use vprogs::snapshot::container::{
    frame_body, io_message, read_container, read_sealed, write_container, Record, SnapshotError, FORMAT_VERSION, MAGIC,
};

fn rec(b: u8, v: &[u8]) -> Record {
    Record { resource_id: [b; 32], value: v.to_vec() }
}

/// Appends the digest of `body` to it.
fn seal(body: Vec<u8>) -> Vec<u8> {
    let digest = sha2::Sha256::digest(&body);
    let mut all = body;
    all.extend_from_slice(&digest);
    all
}

#[test]
fn container_roundtrips_header_and_records() {
    let header = b"opaque-header-bytes".to_vec();
    let records = vec![rec(1, b"alpha"), rec(2, b""), rec(3, b"gamma-value")];

    let mut buf = Vec::new();
    write_container(&mut buf, &header, records.len() as u64, records.clone()).unwrap();

    let (got_header, got_records) = read_container(&mut buf.as_slice()).unwrap();
    assert_eq!(got_header, header);
    assert_eq!(got_records, records);
}

#[test]
fn corrupted_digest_is_rejected() {
    let mut buf = Vec::new();
    write_container(&mut buf, b"h", 1, vec![rec(9, b"x")]).unwrap();
    let last = buf.len() - 1;
    buf[last] ^= 0xff; // flip a digest byte
    assert!(matches!(read_container(&mut buf.as_slice()), Err(SnapshotError::DigestMismatch)));
}

#[test]
fn bad_magic_is_rejected() {
    let buf = vec![0u8; 8];
    assert!(matches!(read_container(&mut buf.as_slice()), Err(SnapshotError::BadMagic)));
}

#[test]
fn container_layout_is_exact() {
    let mut buf = vec![0xee];
    write_container(&mut buf, b"hd", 1, vec![rec(7, b"xyz")]).unwrap();

    let mut body = b"VPSNAP01".to_vec();
    body.extend_from_slice(&[1, 0]);
    body.extend_from_slice(&[2, 0, 0, 0]);
    body.extend_from_slice(b"hd");
    body.extend_from_slice(&[1, 0, 0, 0, 0, 0, 0, 0]);
    body.extend_from_slice(&[7; 32]);
    body.extend_from_slice(&[3, 0, 0, 0]);
    body.extend_from_slice(b"xyz");
    let mut expected = vec![0xee];
    expected.extend_from_slice(&seal(body));
    assert_eq!(buf, expected);
    assert_eq!(&MAGIC, b"VPSNAP01");
    assert_eq!(FORMAT_VERSION, 1);
}

#[test]
fn sealed_reading_takes_the_digest_as_given() {
    let records = vec![rec(7, b"xyz"), rec(8, b"")];
    let mut all = frame_body(b"hd", &records);
    all.extend_from_slice(&[0x5a; 32]);
    let (header, got) = read_sealed(&all, &[0x5a; 32]).unwrap();
    assert_eq!(header, b"hd");
    assert_eq!(got, records);
    assert!(matches!(read_sealed(&all, &[0x5b; 32]), Err(SnapshotError::DigestMismatch)));
    assert!(matches!(read_container(&mut all.as_slice()), Err(SnapshotError::DigestMismatch)));
}

#[test]
fn reader_is_consumed() {
    let mut buf = Vec::new();
    write_container(&mut buf, b"", 0, vec![]).unwrap();
    let mut r = buf.as_slice();
    let (header, records) = read_container(&mut r).unwrap();
    assert!(header.is_empty());
    assert!(records.is_empty());
    assert!(r.is_empty());
}

#[test]
fn corrupted_body_is_rejected() {
    let mut buf = Vec::new();
    write_container(&mut buf, b"header", 1, vec![rec(9, b"value")]).unwrap();
    for at in 8..buf.len() {
        let mut bad = buf.clone();
        bad[at] ^= 0x01;
        assert!(matches!(read_container(&mut bad.as_slice()), Err(SnapshotError::DigestMismatch)));
    }
}

#[test]
fn short_inputs_are_truncated() {
    assert!(matches!(read_container(&mut [].as_slice()), Err(SnapshotError::Truncated)));
    assert!(matches!(read_container(&mut b"VPSNAP0".as_slice()), Err(SnapshotError::Truncated)));
    let mut buf = b"VPSNAP01".to_vec();
    buf.resize(41, 0);
    assert!(matches!(read_container(&mut buf.as_slice()), Err(SnapshotError::Truncated)));
}

#[test]
fn other_versions_are_unsupported() {
    let mut body = b"VPSNAP01".to_vec();
    body.extend_from_slice(&[0x02, 0x01]);
    let all = seal(body);
    assert!(matches!(
        read_container(&mut all.as_slice()),
        Err(SnapshotError::UnsupportedVersion(0x0102))
    ));
}

#[test]
fn sealed_but_incomplete_bodies_are_truncated() {
    let mut body = b"VPSNAP01".to_vec();
    body.extend_from_slice(&[1, 0]);
    // No header length.
    assert!(matches!(
        read_container(&mut seal(body.clone()).as_slice()),
        Err(SnapshotError::Truncated)
    ));
    // A header longer than the body.
    body.extend_from_slice(&[9, 0, 0, 0]);
    assert!(matches!(
        read_container(&mut seal(body.clone()).as_slice()),
        Err(SnapshotError::Truncated)
    ));
    // A record count without records, as large as it gets.
    let mut body = b"VPSNAP01".to_vec();
    body.extend_from_slice(&[1, 0, 0, 0, 0, 0]);
    body.extend_from_slice(&[0xff; 8]);
    assert!(matches!(read_container(&mut seal(body).as_slice()), Err(SnapshotError::Truncated)));
}

#[test]
fn bytes_after_the_last_record_are_passed_over() {
    let mut body = b"VPSNAP01".to_vec();
    body.extend_from_slice(&[1, 0, 1, 0, 0, 0]);
    body.extend_from_slice(b"H");
    body.extend_from_slice(&[0; 8]);
    body.extend_from_slice(b"rest");
    let (header, records) = read_container(&mut seal(body).as_slice()).unwrap();
    assert_eq!(header, b"H");
    assert!(records.is_empty());
}

#[test]
fn io_errors_are_worded_with_their_text() {
    assert_eq!(io_message("disk on fire"), "snapshot io error: disk on fire");
    assert_eq!(io_message(""), "snapshot io error: ");
}

#[test]
fn numbers_in_decimal() {
    assert_eq!(decimal_text(0), "0");
    assert_eq!(decimal_text(1234567890), "1234567890");
    assert_eq!(decimal_text(u64::MAX), "18446744073709551615");
}

#[test]
fn error_messages() {
    assert_eq!(SnapshotError::BadMagic.message(), "not a vprogs snapshot (bad magic)");
    assert_eq!(
        SnapshotError::UnsupportedVersion(0).message(),
        "unsupported snapshot format version 0"
    );
    assert_eq!(
        SnapshotError::UnsupportedVersion(65_530).message(),
        "unsupported snapshot format version 65530"
    );
    assert_eq!(
        SnapshotError::DigestMismatch.message(),
        "snapshot digest mismatch (corrupt or tampered)"
    );
    assert_eq!(SnapshotError::Truncated.message(), "snapshot truncated");
    let io = std::io::Error::new(std::io::ErrorKind::Other, "disk on fire");
    assert_eq!(SnapshotError::from(io).message(), "snapshot io error: disk on fire");
}
