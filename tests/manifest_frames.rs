use mini_lsm::manifest::{decode_frames, encode_frame, ManifestError};

fn records() -> Vec<Vec<u8>> {
    vec![
        br#"{"NewMemtable":1}"#.to_vec(),
        br#"{"Flush":1}"#.to_vec(),
        br#"{"NewMemtable":2}"#.to_vec(),
    ]
}

fn log_of(records: &[Vec<u8>]) -> Vec<u8> {
    let mut buf = Vec::new();
    for r in records {
        buf.extend(encode_frame(r));
    }
    buf
}

#[test]
fn frame_layout_is_length_bytes_checksum() {
    assert_eq!(encode_frame(b"{}"), vec![0, 0, 0, 2, b'{', b'}', 163, 166, 191, 67]);
    let f = encode_frame(br#"{"Flush":1}"#);
    assert_eq!(&f[..4], &[0, 0, 0, 11]);
    assert_eq!(&f[f.len() - 4..], &[134, 106, 201, 96]);
}

#[test]
fn frames_round_trip_in_order() {
    let rs = records();
    assert_eq!(decode_frames(&log_of(&rs)), Ok(rs));
}

#[test]
fn empty_log_has_no_records() {
    assert_eq!(decode_frames(&[]), Ok(vec![]));
}

#[test]
fn flipped_payload_byte_fails_with_checksum_mismatch() {
    let rs = records();
    let log = log_of(&rs);
    let second_start = 4 + rs[0].len() + 4;
    for k in 0..rs[1].len() {
        let mut bad = log.clone();
        bad[second_start + 4 + k] ^= 0x01;
        assert_eq!(decode_frames(&bad), Err(ManifestError::ChecksumMismatch));
    }
}

#[test]
fn flipped_checksum_byte_fails() {
    let rs = records();
    let mut log = log_of(&rs);
    let last = log.len() - 1;
    log[last] ^= 0x80;
    assert_eq!(decode_frames(&log), Err(ManifestError::ChecksumMismatch));
}

#[test]
fn truncated_log_fails() {
    let log = log_of(&records());
    assert_eq!(decode_frames(&log[..log.len() - 1]), Err(ManifestError::Truncated));
    assert_eq!(decode_frames(&log[..3]), Err(ManifestError::Truncated));
    assert_eq!(decode_frames(&[0, 0, 0, 9, 1, 2]), Err(ManifestError::Truncated));
}
