use peermux::error::ProtoError;
use peermux::frame::{with_delimiter, FrameReader};
use peermux::varint::{varint_decode, varint_encode};

#[test]
fn varint_small_values_are_single_bytes() {
    assert_eq!(varint_encode(0), vec![0u8]);
    assert_eq!(varint_encode(1), vec![1u8]);
    assert_eq!(varint_encode(127), vec![127u8]);
}

#[test]
fn varint_continuation_encoding() {
    assert_eq!(varint_encode(128), vec![0x80, 0x01]);
    assert_eq!(varint_encode(300), vec![0xAC, 0x02]);
    assert_eq!(varint_encode(65535), vec![0xFF, 0xFF, 0x03]);
}

#[test]
fn varint_decode_inverts_encode() {
    for n in [0u64, 1, 127, 128, 300, 16383, 16384, 65535, 70000, u64::MAX] {
        let enc = varint_encode(n);
        let (v, used) = varint_decode(&enc, 0).unwrap();
        assert_eq!(v, n);
        assert_eq!(used, enc.len());
    }
}

#[test]
fn varint_decode_with_offset_and_tail() {
    let mut buf = vec![0xFFu8];
    buf.extend_from_slice(&varint_encode(300));
    buf.push(0x55);
    let (v, used) = varint_decode(&buf, 1).unwrap();
    assert_eq!(v, 300);
    assert_eq!(used, 2);
}

#[test]
fn varint_decode_rejects_truncated_input() {
    assert_eq!(varint_decode(&[], 0), Err(ProtoError::DecodeError));
    assert_eq!(varint_decode(&[0x80], 0), Err(ProtoError::DecodeError));
    assert_eq!(varint_decode(&[0x80, 0x80], 0), Err(ProtoError::DecodeError));
}

#[test]
fn varint_decode_rejects_u64_overflow() {
    // Eleven continuation groups overflow a u64.
    let buf = [0xFFu8, 0xFF, 0xFF, 0xFF, 0xFF, 0xFF, 0xFF, 0xFF, 0xFF, 0xFF, 0x01];
    assert_eq!(varint_decode(&buf, 0), Err(ProtoError::DecodeError));
}

#[test]
fn delimited_frame_layout() {
    assert_eq!(with_delimiter(&[9, 8, 7]), vec![3u8, 9, 8, 7]);
    let framed = with_delimiter(&[0x42; 300]);
    assert_eq!(&framed[..2], &[0xAC, 0x02]);
    assert_eq!(framed.len(), 302);
}

#[test]
fn frame_reader_roundtrip() {
    let mut r = FrameReader::new();
    let framed = with_delimiter(&[1, 2, 3]);
    let frames = r.feed(&framed).unwrap();
    assert_eq!(frames, vec![vec![1u8, 2, 3]]);
}

#[test]
fn frame_reader_reassembles_across_feeds() {
    let mut r = FrameReader::new();
    let framed = with_delimiter(&[5; 300]);
    let (head, tail) = framed.split_at(100);
    assert_eq!(r.feed(head).unwrap(), Vec::<Vec<u8>>::new());
    assert_eq!(r.feed(tail).unwrap(), vec![vec![5u8; 300]]);
}

#[test]
fn frame_reader_skips_keepalive_pings() {
    let mut r = FrameReader::new();
    let mut stream = vec![0u8, 0, 0];
    stream.extend_from_slice(&with_delimiter(&[7, 7]));
    stream.push(0);
    stream.extend_from_slice(&with_delimiter(&[8]));
    let frames = r.feed(&stream).unwrap();
    assert_eq!(frames, vec![vec![7u8, 7], vec![8u8]]);
}

#[test]
fn frame_reader_keeps_zero_bytes_inside_payloads() {
    let mut r = FrameReader::new();
    let framed = with_delimiter(&[0, 0, 9]);
    let frames = r.feed(&framed).unwrap();
    assert_eq!(frames, vec![vec![0u8, 0, 9]]);
}

#[test]
fn frame_reader_rejects_oversized_prefix_before_payload() {
    let mut r = FrameReader::new();
    // varint(70000) followed by bytes that must never be read as payload.
    let mut stream = varint_encode(70000);
    stream.extend_from_slice(&[1, 2, 3]);
    assert_eq!(r.feed(&stream), Err(ProtoError::Oversized));
}

#[test]
fn frame_reader_accepts_max_sized_frame() {
    let mut r = FrameReader::new();
    let framed = with_delimiter(&[3; 65535]);
    let frames = r.feed(&framed).unwrap();
    assert_eq!(frames.len(), 1);
    assert_eq!(frames[0].len(), 65535);
}

#[test]
fn protocol_constants() {
    assert_eq!(peermux::MAX_MESSAGE_SIZE, 65535);
    assert_eq!(peermux::DEFAULT_KEEPALIVE, 25);
}
