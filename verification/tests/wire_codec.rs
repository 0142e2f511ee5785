use peermux::error::ProtoError;
use peermux::wire::{decode_nonce_msg, encode_nonce_msg, Close, Message, Open, WireMessage};

#[test]
fn open_encodes_as_two_length_delimited_fields() {
    let open = Open { discovery_key: vec![0xAA; 32], capability: Some(vec![0xBB; 32]) };
    let enc = open.encode();
    assert_eq!(enc[0], 0x0A);
    assert_eq!(enc[1], 32);
    assert_eq!(&enc[2..34], &[0xAA; 32][..]);
    assert_eq!(enc[34], 0x12);
    assert_eq!(enc[35], 32);
    assert_eq!(&enc[36..68], &[0xBB; 32][..]);
    assert_eq!(enc.len(), 68);
}

#[test]
fn open_roundtrips() {
    let open = Open { discovery_key: vec![0xAA; 32], capability: Some(vec![0xBB; 32]) };
    assert_eq!(Open::decode(&open.encode()).unwrap(), open);
    let no_cap = Open { discovery_key: vec![1, 2, 3], capability: None };
    assert_eq!(Open::decode(&no_cap.encode()).unwrap(), no_cap);
}

#[test]
fn close_roundtrips() {
    let close = Close { discovery_key: Some(vec![0xCC; 32]) };
    assert_eq!(Close::decode(&close.encode()).unwrap(), close);
    let anonymous = Close { discovery_key: None };
    assert_eq!(anonymous.encode(), Vec::<u8>::new());
    assert_eq!(Close::decode(&anonymous.encode()).unwrap(), anonymous);
}

#[test]
fn decode_skips_unknown_varint_field() {
    // Field 3, wire type 0, value 5, then field 1 with the key bytes.
    let buf = vec![0x18, 0x05, 0x0A, 0x02, 0x61, 0x62];
    let open = Open::decode(&buf).unwrap();
    assert_eq!(open.discovery_key, vec![0x61, 0x62]);
    assert_eq!(open.capability, None);
}

#[test]
fn decode_rejects_truncated_field() {
    // Field 1 claims four bytes but carries two.
    let buf = vec![0x0A, 0x04, 0x61, 0x62];
    assert_eq!(Open::decode(&buf), Err(ProtoError::DecodeError));
}

#[test]
fn nonce_payload_roundtrips() {
    let nonce = vec![7u8; 24];
    let enc = encode_nonce_msg(&nonce);
    assert_eq!(enc[0], 0x0A);
    assert_eq!(enc[1], 24);
    assert_eq!(decode_nonce_msg(&enc).unwrap(), nonce);
}

#[test]
fn envelope_packs_channel_and_type() {
    let w = WireMessage { channel: 3, typ: 2, message: vec![0xEE] };
    let enc = w.encode().unwrap();
    // 3 << 4 | 2 == 50, a single varint byte.
    assert_eq!(enc, vec![50u8, 0xEE]);
    let back = WireMessage::from_buf(&enc).unwrap();
    assert_eq!(back, w);
}

#[test]
fn envelope_rejects_wide_type() {
    let w = WireMessage { channel: 0, typ: 16, message: vec![] };
    assert_eq!(w.encode(), Err(ProtoError::DecodeError));
}

#[test]
fn message_encode_rejects_control_tags_on_application_traffic() {
    for typ in [0u64, 1, 15, 16, 99] {
        let m = Message::Application { typ, bytes: vec![1] };
        assert_eq!(m.encode(4), Err(ProtoError::DecodeError));
    }
}

#[test]
fn message_roundtrips_through_envelope() {
    let cases = vec![
        Message::Open(Open { discovery_key: vec![9; 32], capability: Some(vec![8; 32]) }),
        Message::Close(Close { discovery_key: Some(vec![9; 32]) }),
        Message::Close(Close { discovery_key: None }),
        Message::Application { typ: 2, bytes: b"hi".to_vec() },
        Message::Application { typ: 14, bytes: vec![] },
        Message::Extension(vec![1, 2, 3]),
    ];
    for m in cases {
        let enc = m.encode(7).unwrap();
        let w = WireMessage::from_buf(&enc).unwrap();
        assert_eq!(w.channel, 7);
        let back = Message::decode(w.typ, w.message).unwrap();
        assert_eq!(back, m);
    }
}
