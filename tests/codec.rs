use cal::codec::{decode_frame, encode_frame, payload_length, FrameError};

#[test]
fn frame_of_typical_payload() {
    let payload = br#"{"daemon":false,"entries":[]}"#.to_vec();
    let bytes = encode_frame(&payload).unwrap();
    assert_eq!(&bytes[..4], &[0, 0, 0, payload.len() as u8]);
    assert_eq!(&bytes[4..], &payload[..]);
    assert_eq!(decode_frame(&bytes), Ok((payload.clone(), 4 + payload.len())));
}

#[test]
fn frame_of_empty_payload() {
    let bytes = encode_frame(&Vec::new()).unwrap();
    assert_eq!(bytes, vec![0, 0, 0, 0]);
    assert_eq!(decode_frame(&bytes), Ok((Vec::new(), 4)));
}

#[test]
fn frame_of_large_payload() {
    let payload: Vec<u8> = (0..70_000u32).map(|i| (i % 251) as u8).collect();
    let bytes = encode_frame(&payload).unwrap();
    assert_eq!(&bytes[..4], &[0, 1, 0x11, 0x70]);
    assert_eq!(decode_frame(&bytes), Ok((payload, 70_004)));
}

#[test]
fn frames_share_a_stream() {
    let mut stream = encode_frame(&b"first".to_vec()).unwrap();
    stream.extend(encode_frame(&b"second".to_vec()).unwrap());
    let (p1, used) = decode_frame(&stream).unwrap();
    assert_eq!(p1, b"first");
    let (p2, used2) = decode_frame(&stream[used..].to_vec()).unwrap();
    assert_eq!(p2, b"second");
    assert_eq!(used + used2, stream.len());
}

#[test]
fn truncated_frame_is_incomplete() {
    let bytes = encode_frame(&b"payload".to_vec()).unwrap();
    assert_eq!(decode_frame(&bytes[..bytes.len() - 1].to_vec()), Err(FrameError::Incomplete));
    assert_eq!(decode_frame(&vec![0, 0]), Err(FrameError::Incomplete));
    assert_eq!(decode_frame(&Vec::new()), Err(FrameError::Incomplete));
}

#[test]
fn header_is_big_endian() {
    assert_eq!(payload_length([0x01, 0x02, 0x03, 0x04]), 0x0102_0304);
    assert_eq!(payload_length([0xff, 0xff, 0xff, 0xff]), u32::MAX);
    assert_eq!(payload_length([0, 0, 0, 0]), 0);
}
