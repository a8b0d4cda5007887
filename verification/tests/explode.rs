use stix_unpacker::explode::{explode, DclError};

const SAMPLE: &[u8] = &[0x00, 0x04, 0x82, 0x24, 0x25, 0x8f, 0x80, 0x7f];

#[test]
fn known_dcl_vector_and_overlapping_copy() {
    let mut output = Vec::new();
    assert_eq!(explode(SAMPLE, &mut output, 13).unwrap(), 8);
    assert_eq!(output, b"AIAIAIAIAIAIA");
}

#[test]
fn rejects_truncation_and_wrong_size() {
    for length in 0..SAMPLE.len() {
        assert!(explode(&SAMPLE[..length], &mut Vec::new(), 13).is_err());
    }
    for size in [0, 12, 14] {
        assert!(explode(SAMPLE, &mut Vec::new(), size).is_err());
    }
    assert!(explode(&[2, 4][..], &mut Vec::new(), 0).is_err());
    assert!(explode(&[0, 7][..], &mut Vec::new(), 0).is_err());
}

#[test]
fn coded_literals_and_empty_stream() {
    let coded = [
        0x01, 0x04, 0x50, 0x6c, 0xd3, 0xd4, 0xf1, 0x3d, 0xbc, 0xae, 0x99, 0x74, 0x50, 0x06,
        0xfc, 0x03,
    ];
    let mut output = Vec::new();
    explode(&coded[..], &mut output, 13).unwrap();
    assert_eq!(output, b"Hello, world!");
    for dictionary in 4..=6 {
        assert_eq!(
            explode(&[0, dictionary, 1, 255][..], &mut Vec::new(), 0).unwrap(),
            4
        );
    }
    assert!(explode(&[0, 4, 0x1f, 0][..], &mut Vec::new(), 3).is_err());
}

#[test]
fn back_reference_crosses_multiple_window_flushes() {
    let mut stream = vec![0, 6, 0x82];
    for _ in 0..20 {
        stream.extend_from_slice(&[2, 0xfc, 7]);
    }
    stream.extend_from_slice(&[2, 0xfe, 1]);
    let mut output = Vec::new();
    explode(&stream[..], &mut output, 10361).unwrap();
    assert_eq!(output, vec![b'A'; 10361]);
}

#[test]
fn explode_reports_each_error_kind() {
    assert_eq!(explode(&[], &mut Vec::new(), 0), Err(DclError::Truncated));
    assert_eq!(explode(&[2, 4], &mut Vec::new(), 0), Err(DclError::InvalidLiteralMode));
    assert_eq!(explode(&[0], &mut Vec::new(), 0), Err(DclError::Truncated));
    assert_eq!(explode(&[0, 3], &mut Vec::new(), 0), Err(DclError::InvalidDictionarySize));
    assert_eq!(explode(&[0, 7], &mut Vec::new(), 0), Err(DclError::InvalidDictionarySize));
    assert_eq!(
        explode(SAMPLE, &mut Vec::new(), 14),
        Err(DclError::SizeMismatch { expected: 14, got: 13 })
    );
    assert_eq!(explode(SAMPLE, &mut Vec::new(), 12), Err(DclError::ExceedsAdvertisedSize));
    // A copy as the first token has nothing to copy from.
    assert_eq!(explode(&[0, 4, 0x1f, 0], &mut Vec::new(), 3), Err(DclError::BackReferenceBeforeStart));
}

#[test]
fn explode_appends_after_existing_output() {
    let mut output = b"xyz".to_vec();
    assert_eq!(explode(SAMPLE, &mut output, 13), Ok(8));
    assert_eq!(output, b"xyzAIAIAIAIAIAIA");
}

#[test]
fn failed_stream_keeps_only_whole_windows() {
    // 10361 bytes decode; announcing one byte fewer fails on the last copy,
    // after two whole 4096-byte windows have been produced.
    let mut stream = vec![0, 6, 0x82];
    for _ in 0..20 {
        stream.extend_from_slice(&[2, 0xfc, 7]);
    }
    stream.extend_from_slice(&[2, 0xfe, 1]);
    let mut output = Vec::new();
    assert_eq!(
        explode(&stream[..], &mut output, 10360),
        Err(DclError::ExceedsAdvertisedSize)
    );
    assert_eq!(output, vec![b'A'; 8192]);
    let mut short = Vec::new();
    assert_eq!(explode(&SAMPLE[..5], &mut short, 13), Err(DclError::Truncated));
    assert!(short.is_empty());
}

#[test]
fn bytes_after_the_end_marker_are_not_read() {
    let mut longer = SAMPLE.to_vec();
    longer.extend_from_slice(&[0xff, 0x00, 0x12]);
    let mut output = Vec::new();
    assert_eq!(explode(&longer, &mut output, 13).unwrap(), 8);
    assert_eq!(output, b"AIAIAIAIAIAIA");
}

#[test]
fn a_stream_decodes_for_one_size_only() {
    assert!(explode(SAMPLE, &mut Vec::new(), 13).is_ok());
    for size in [0u64, 1, 12, 14, 4096, u64::MAX] {
        assert!(explode(SAMPLE, &mut Vec::new(), size).is_err(), "{size}");
    }
}
