use jpeg_segments::marker::{InvalidMarkerError, Marker};
use jpeg_segments::segment::{InvalidSegmentError, Segment};
use jpeg_segments::stream::{ParseToSegmentsError, MAX_STREAM_LEN};

fn encode(segment: &Segment) -> Vec<u8> {
    let code = match segment.marker {
        Marker::DefineHuffmanTable => 0xc4,
        Marker::StartOfImage => 0xd8,
        Marker::EndOfImage => 0xd9,
        Marker::StartOfScan => 0xda,
        Marker::DefineQuantizationTable => 0xdb,
        Marker::Comment => 0xfe,
    };
    let mut bytes = vec![0xff, code];
    if let Some(payload) = &segment.data {
        let length = payload.len() + 2;
        bytes.push((length / 256) as u8);
        bytes.push((length % 256) as u8);
        bytes.extend_from_slice(payload);
    }
    bytes
}

fn sample_segments() -> Vec<Segment> {
    vec![
        Segment { marker: Marker::StartOfImage, data: None },
        Segment { marker: Marker::Comment, data: Some(vec![b'h', b'i']) },
        Segment { marker: Marker::DefineQuantizationTable, data: Some(vec![3; 65]) },
        Segment { marker: Marker::DefineHuffmanTable, data: Some(vec![]) },
        Segment { marker: Marker::StartOfScan, data: Some(vec![0xff, 0xd9, 0xff, 0xd8]) },
        Segment { marker: Marker::Comment, data: Some(vec![9; 300]) },
        Segment { marker: Marker::EndOfImage, data: None },
    ]
}

#[test]
fn start_of_image_alone() {
    assert_eq!(
        Segment::parse_bytes_to_segments(&[0xff, 0xd8]),
        Ok(vec![Segment { marker: Marker::StartOfImage, data: None }])
    );
}

#[test]
fn comment_alone() {
    assert_eq!(
        Segment::parse_bytes_to_segments(&[0xff, 0xfe, 0x00, 0x05, 0x01, 0x23, 0x45]),
        Ok(vec![Segment { marker: Marker::Comment, data: Some(vec![0x01, 0x23, 0x45]) }])
    );
}

#[test]
fn start_of_image_then_comment() {
    assert_eq!(
        Segment::parse_bytes_to_segments(&[0xff, 0xd8, 0xff, 0xfe, 0x00, 0x05, 0x01, 0x23, 0x45]),
        Ok(vec![
            Segment { marker: Marker::StartOfImage, data: None },
            Segment { marker: Marker::Comment, data: Some(vec![0x01, 0x23, 0x45]) },
        ])
    );
}

#[test]
fn truncated_comment_after_start_of_image() {
    assert_eq!(
        Segment::parse_bytes_to_segments(&[0xff, 0xd8, 0xff, 0xfe, 0x00, 0x05, 0x01, 0x23]),
        Err(ParseToSegmentsError {
            bytes_parsed: 2,
            segments_parsed: 1,
            cause: InvalidSegmentError::TooFewDataBytes { expected: 3, actual: 2 },
        })
    );
}

#[test]
fn unknown_marker_at_the_start() {
    assert_eq!(
        Segment::parse_bytes_to_segments(&[0x00, 0x00]),
        Err(ParseToSegmentsError {
            bytes_parsed: 0,
            segments_parsed: 0,
            cause: InvalidSegmentError::InvalidMarker(InvalidMarkerError::UnknownCode(0x00, 0x00)),
        })
    );
}

#[test]
fn length_of_one_at_the_start() {
    assert_eq!(
        Segment::parse_bytes_to_segments(&[0xff, 0xfe, 0x00, 0x01]),
        Err(ParseToSegmentsError {
            bytes_parsed: 0,
            segments_parsed: 0,
            cause: InvalidSegmentError::LengthLessThanTwo(1),
        })
    );
}

#[test]
fn empty_buffer_is_an_empty_stream() {
    assert_eq!(Segment::parse_bytes_to_segments(&[]), Ok(vec![]));
}

#[test]
fn concatenated_segments_come_back_in_order() {
    let segments = sample_segments();
    let mut bytes = Vec::new();
    for segment in &segments {
        bytes.extend_from_slice(&encode(segment));
    }
    assert_eq!(Segment::parse_bytes_to_segments(&bytes), Ok(segments));
}

#[test]
fn every_prefix_of_segments_parses() {
    let segments = sample_segments();
    for n in 0..=segments.len() {
        let mut bytes = Vec::new();
        for segment in &segments[..n] {
            bytes.extend_from_slice(&encode(segment));
        }
        let parsed = Segment::parse_bytes_to_segments(&bytes).unwrap();
        assert_eq!(parsed.len(), n);
        assert_eq!(&parsed[..], &segments[..n]);
    }
}

#[test]
fn failure_reports_the_valid_prefix() {
    let segments = sample_segments();
    let bad_tails: Vec<(Vec<u8>, InvalidSegmentError)> = vec![
        (vec![0xff], InvalidSegmentError::TooFewBytes(1)),
        (
            vec![0x12, 0x34, 0x56],
            InvalidSegmentError::InvalidMarker(InvalidMarkerError::UnknownCode(0x12, 0x34)),
        ),
        (vec![0xff, 0xfe, 0x00], InvalidSegmentError::NoLengthBytes),
        (vec![0xff, 0xfe, 0x00, 0x00, 0x01], InvalidSegmentError::LengthLessThanTwo(0)),
        (
            vec![0xff, 0xdb, 0x00, 0x43, 0x00],
            InvalidSegmentError::TooFewDataBytes { expected: 65, actual: 1 },
        ),
    ];
    for n in 0..=segments.len() {
        let mut prefix = Vec::new();
        for segment in &segments[..n] {
            prefix.extend_from_slice(&encode(segment));
        }
        for (tail, cause) in &bad_tails {
            let mut bytes = prefix.clone();
            bytes.extend_from_slice(tail);
            assert_eq!(
                Segment::parse_bytes_to_segments(&bytes),
                Err(ParseToSegmentsError {
                    bytes_parsed: prefix.len(),
                    segments_parsed: n as u32,
                    cause: *cause,
                })
            );
        }
    }
}

#[test]
fn nothing_is_skipped_after_a_failure() {
    // A good segment behind a bad one is never reached.
    let bytes = [0xff, 0xd8, 0x00, 0xff, 0xd9];
    assert_eq!(
        Segment::parse_bytes_to_segments(&bytes),
        Err(ParseToSegmentsError {
            bytes_parsed: 2,
            segments_parsed: 1,
            cause: InvalidSegmentError::InvalidMarker(InvalidMarkerError::UnknownCode(0x00, 0xff)),
        })
    );
}

#[test]
fn trailing_byte_fails_the_stream() {
    assert_eq!(
        Segment::parse_bytes_to_segments(&[0xff, 0xd8, 0xff, 0xd9, 0x00]),
        Err(ParseToSegmentsError {
            bytes_parsed: 4,
            segments_parsed: 2,
            cause: InvalidSegmentError::TooFewBytes(1),
        })
    );
}

#[test]
fn same_input_same_outcome() {
    let bytes = [0xff, 0xd8, 0xff, 0xfe, 0x00, 0x05, 0x01, 0x23];
    assert_eq!(
        Segment::parse_bytes_to_segments(&bytes),
        Segment::parse_bytes_to_segments(&bytes)
    );
}

#[test]
fn stream_error_description() {
    assert_eq!(
        ParseToSegmentsError::new(2, 1, InvalidSegmentError::too_few_data_bytes(3, 2))
            .description(),
        "After successfully parsing 2 bytes into 1 segments, got error: \
         Segment wants 3 data bytes, but there are only 2 bytes remaining in the slice."
    );
    assert_eq!(
        ParseToSegmentsError::new(4096, 4294967295, InvalidSegmentError::no_length_bytes())
            .description(),
        "After successfully parsing 4096 bytes into 4294967295 segments, got error: \
         Marker requires length bytes, but have fewer than two byes left in the input."
    );
}

#[test]
fn stream_length_limit() {
    assert_eq!(MAX_STREAM_LEN, 2 * (u32::MAX as u64));
}
