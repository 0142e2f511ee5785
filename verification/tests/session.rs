use peermux::crypto::discovery_key;
use peermux::error::ProtoError;
use peermux::frame::with_delimiter;
use peermux::protocol::{Event, Protocol, ProtocolBuilder};
use peermux::wire::{Close, Message, Open};

/// Shuttle outbound bytes between the two engines until both are idle.
fn pump(a: &mut Protocol, b: &mut Protocol) {
    loop {
        let ab = a.take_outbound();
        let ba = b.take_outbound();
        if ab.is_empty() && ba.is_empty() {
            break;
        }
        if !ab.is_empty() {
            b.on_input(&ab).unwrap();
        }
        if !ba.is_empty() {
            a.on_input(&ba).unwrap();
        }
    }
}

fn handshaken_pair(encrypted: bool) -> (Protocol, Protocol) {
    let mut a = ProtocolBuilder::initiator().set_encrypted(encrypted).build();
    let mut b = ProtocolBuilder::responder().set_encrypted(encrypted).build();
    a.init().unwrap();
    b.init().unwrap();
    pump(&mut a, &mut b);
    match a.poll_event() {
        Some(Event::Handshake(k)) => assert_eq!(k.len(), 32),
        other => panic!("initiator expected a handshake event, got {:?}", other),
    }
    match b.poll_event() {
        Some(Event::Handshake(k)) => assert_eq!(k.len(), 32),
        other => panic!("responder expected a handshake event, got {:?}", other),
    }
    assert!(a.remote_key().is_some());
    assert!(b.remote_key().is_some());
    (a, b)
}

/// Open the same key on both sides, the initiator first, and return the two
/// local channel ids.
fn open_both(a: &mut Protocol, b: &mut Protocol, key: &[u8]) -> (u64, u64) {
    let dkey = discovery_key(key);
    a.open(key.to_vec()).unwrap();
    pump(a, b);
    match b.poll_event() {
        Some(Event::DiscoveryKey(d)) => assert_eq!(d, dkey),
        other => panic!("expected the discovery key first, got {:?}", other),
    }
    b.open(key.to_vec()).unwrap();
    pump(a, b);
    let bid = match b.poll_event() {
        Some(Event::Channel(c)) => {
            assert_eq!(c.discovery_key(), &dkey[..]);
            c.local_id()
        },
        other => panic!("responder expected a channel event, got {:?}", other),
    };
    let aid = match a.poll_event() {
        Some(Event::Channel(c)) => {
            assert_eq!(c.discovery_key(), &dkey[..]);
            c.local_id()
        },
        other => panic!("initiator expected a channel event, got {:?}", other),
    };
    (aid, bid)
}

#[test]
fn handshake_then_echo() {
    let (mut a, mut b) = handshaken_pair(true);
    let key = vec![0x01u8; 32];
    let (aid, _bid) = open_both(&mut a, &mut b, &key);
    a.send(aid, Message::Application { typ: 2, bytes: b"hi".to_vec() }).unwrap();
    pump(&mut a, &mut b);
    let got = b.take_inbound();
    assert_eq!(got.len(), 1);
    assert_eq!(got[0].1, Message::Application { typ: 2, bytes: b"hi".to_vec() });
}

#[test]
fn echo_works_without_transport_encryption() {
    let (mut a, mut b) = handshaken_pair(false);
    let key = vec![0x05u8; 32];
    let (_aid, bid) = open_both(&mut a, &mut b, &key);
    b.send(bid, Message::Application { typ: 3, bytes: b"pong".to_vec() }).unwrap();
    pump(&mut a, &mut b);
    let got = a.take_inbound();
    assert_eq!(got.len(), 1);
    assert_eq!(got[0].1, Message::Application { typ: 3, bytes: b"pong".to_vec() });
}

#[test]
fn plaintext_session_without_noise() {
    let mut a = ProtocolBuilder::initiator().set_noise(false).set_encrypted(false).build();
    let mut b = ProtocolBuilder::responder().set_noise(false).set_encrypted(false).build();
    a.init().unwrap();
    b.init().unwrap();
    let key = vec![0x09u8; 32];
    let (aid, _bid) = open_both(&mut a, &mut b, &key);
    a.send(aid, Message::Application { typ: 2, bytes: b"clear".to_vec() }).unwrap();
    pump(&mut a, &mut b);
    let got = b.take_inbound();
    assert_eq!(got.len(), 1);
    assert_eq!(got[0].1, Message::Application { typ: 2, bytes: b"clear".to_vec() });
}

#[test]
fn remote_first_open() {
    let (mut a, mut b) = handshaken_pair(true);
    let key = vec![0x02u8; 32];
    let dkey = discovery_key(&key);
    b.open(key.clone()).unwrap();
    pump(&mut a, &mut b);
    match a.poll_event() {
        Some(Event::DiscoveryKey(d)) => assert_eq!(d, dkey),
        other => panic!("expected a discovery key event, got {:?}", other),
    }
    a.open(key.clone()).unwrap();
    pump(&mut a, &mut b);
    match a.poll_event() {
        Some(Event::Channel(c)) => assert_eq!(c.discovery_key(), &dkey[..]),
        other => panic!("initiator expected a channel event, got {:?}", other),
    }
    match b.poll_event() {
        Some(Event::Channel(c)) => assert_eq!(c.discovery_key(), &dkey[..]),
        other => panic!("responder expected a channel event, got {:?}", other),
    }
}

#[test]
fn bad_capability_fails_the_session() {
    // A plaintext-but-authenticated pair, so a forged frame can be injected.
    let (mut a, mut b) = handshaken_pair(false);
    let key = vec![0x03u8; 32];
    a.open(key.clone()).unwrap();
    b.take_outbound();
    a.take_outbound();
    // A hostile peer announces the right discovery key with a junk
    // capability.
    let forged = Message::Open(Open {
        discovery_key: discovery_key(&key),
        capability: Some(vec![0x42u8; 32]),
    });
    let frame = with_delimiter(&forged.encode(0).unwrap());
    assert_eq!(a.on_input(&frame), Err(ProtoError::PermissionDenied));
    assert_eq!(a.failure(), Some(ProtoError::PermissionDenied));
    // The error is sticky.
    assert_eq!(a.on_input(&[0]), Err(ProtoError::PermissionDenied));
    drop(b);
}

#[test]
fn keepalive_is_a_single_zero_byte_on_a_plaintext_wire() {
    let mut a = ProtocolBuilder::initiator().set_noise(false).set_encrypted(false).build();
    a.init().unwrap();
    a.ping().unwrap();
    assert_eq!(a.take_outbound(), vec![0u8]);
}

#[test]
fn keepalive_raises_no_event_at_the_peer() {
    let (mut a, mut b) = handshaken_pair(true);
    a.ping().unwrap();
    let wire = a.take_outbound();
    assert_eq!(wire.len(), 1);
    b.on_input(&wire).unwrap();
    assert!(b.poll_event().is_none());
    assert!(b.take_inbound().is_empty());
    assert!(b.failure().is_none());
}

#[test]
fn close_by_id_removes_the_record() {
    let (mut a, mut b) = handshaken_pair(true);
    let key = vec![0x01u8; 32];
    let dkey = discovery_key(&key);
    let (_aid, bid) = open_both(&mut a, &mut b, &key);
    b.send(bid, Message::Close(Close { discovery_key: None })).unwrap();
    pump(&mut a, &mut b);
    let closed = a.take_closed();
    assert_eq!(closed, vec![dkey]);
}

#[test]
fn close_by_discovery_key_removes_the_record() {
    let (mut a, mut b) = handshaken_pair(true);
    let key = vec![0x04u8; 32];
    let dkey = discovery_key(&key);
    let (aid, _bid) = open_both(&mut a, &mut b, &key);
    a.send(aid, Message::Close(Close { discovery_key: Some(dkey.clone()) })).unwrap();
    pump(&mut a, &mut b);
    assert_eq!(b.take_closed(), vec![dkey]);
}

#[test]
fn oversized_frame_fails_before_the_payload() {
    let mut a = ProtocolBuilder::initiator().set_noise(false).set_encrypted(false).build();
    a.init().unwrap();
    // varint(70000) followed by garbage that must never be read.
    let mut wire = vec![0xF0u8, 0xA2, 0x04];
    wire.extend_from_slice(&[0xAB; 16]);
    assert_eq!(a.on_input(&wire), Err(ProtoError::Oversized));
    assert_eq!(a.failure(), Some(ProtoError::Oversized));
    assert_eq!(a.on_input(&[1, 2, 3]), Err(ProtoError::Oversized));
    assert!(a.poll_event().is_none());
}

#[test]
fn channel_ids_differ_across_channels() {
    let (mut a, mut b) = handshaken_pair(true);
    let (aid1, bid1) = open_both(&mut a, &mut b, &vec![0x11u8; 32]);
    let (aid2, bid2) = open_both(&mut a, &mut b, &vec![0x12u8; 32]);
    assert_ne!(aid1, aid2);
    assert_ne!(bid1, bid2);
}

#[test]
fn messages_arrive_in_order() {
    let (mut a, mut b) = handshaken_pair(true);
    let key = vec![0x06u8; 32];
    let (aid, _bid) = open_both(&mut a, &mut b, &key);
    for i in 0..10u8 {
        a.send(aid, Message::Application { typ: 2, bytes: vec![i] }).unwrap();
    }
    pump(&mut a, &mut b);
    let got = b.take_inbound();
    assert_eq!(got.len(), 10);
    for (i, (_, m)) in got.into_iter().enumerate() {
        assert_eq!(m, Message::Application { typ: 2, bytes: vec![i as u8] });
    }
}

#[test]
fn bad_stored_capability_fails_local_open() {
    let (mut a, mut b) = handshaken_pair(false);
    let key = vec![0x07u8; 32];
    // A hostile announcement arrives before this side holds the key.
    let forged = Message::Open(Open {
        discovery_key: discovery_key(&key),
        capability: Some(vec![0x55u8; 32]),
    });
    let frame = with_delimiter(&forged.encode(0).unwrap());
    a.on_input(&frame).unwrap();
    match a.poll_event() {
        Some(Event::DiscoveryKey(d)) => assert_eq!(d, discovery_key(&key)),
        other => panic!("expected a discovery key event, got {:?}", other),
    }
    // Opening the key locally verifies the stored capability and fails for
    // good.
    assert_eq!(a.open(key), Err(ProtoError::PermissionDenied));
    assert_eq!(a.failure(), Some(ProtoError::PermissionDenied));
    assert!(a.poll_event().is_none());
    drop(b);
}
