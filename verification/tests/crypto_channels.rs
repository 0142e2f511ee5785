use peermux::bytes_eq;
use peermux::channels::Channelizer;
use peermux::crypto::{discovery_key, Cipher};
use peermux::error::ProtoError;

#[test]
fn bytes_eq_compares_contents() {
    assert!(bytes_eq(&[], &[]));
    assert!(bytes_eq(&[1, 2], &[1, 2]));
    assert!(!bytes_eq(&[1, 2], &[1, 3]));
    assert!(!bytes_eq(&[1, 2], &[1, 2, 3]));
}

#[test]
fn discovery_key_is_deterministic_and_hides_the_key() {
    let key = vec![1u8; 32];
    let d1 = discovery_key(&key);
    let d2 = discovery_key(&key);
    assert_eq!(d1, d2);
    assert_eq!(d1.len(), 32);
    assert_ne!(d1, key);
    let other = discovery_key(&vec![2u8; 32]);
    assert_ne!(d1, other);
}

#[test]
fn cipher_changes_bytes_and_peer_restores_them() {
    let key = vec![3u8; 32];
    let iv = vec![4u8; 24];
    let plain = b"the quick brown fox jumps over the lazy dog".to_vec();
    let mut tx = Cipher::new(key.clone(), iv.clone());
    let mut sealed = plain.clone();
    tx.apply(&mut sealed).unwrap();
    assert_ne!(sealed, plain);
    let mut rx = Cipher::new(key, iv);
    let mut opened = sealed;
    rx.apply(&mut opened).unwrap();
    assert_eq!(opened, plain);
}

#[test]
fn cipher_keystream_position_spans_messages() {
    let key = vec![5u8; 32];
    let iv = vec![6u8; 24];
    let mut one = Cipher::new(key.clone(), iv.clone());
    let mut a = vec![0u8; 10];
    let mut b = vec![0u8; 10];
    one.apply(&mut a).unwrap();
    one.apply(&mut b).unwrap();
    let mut whole = Cipher::new(key, iv);
    let mut ab = vec![0u8; 20];
    whole.apply(&mut ab).unwrap();
    assert_eq!(&ab[..10], &a[..]);
    assert_eq!(&ab[10..], &b[..]);
    assert_ne!(a, b);
}

#[test]
fn attach_local_assigns_and_keeps_ids() {
    let mut c = Channelizer::new();
    let key1 = vec![1u8; 32];
    let key2 = vec![2u8; 32];
    let id1 = c.attach_local(&key1).unwrap();
    let id2 = c.attach_local(&key2).unwrap();
    assert_eq!(id1, 0);
    assert_eq!(id2, 1);
    assert_eq!(c.attach_local(&key1).unwrap(), id1);
    assert_eq!(c.len(), 2);
}

#[test]
fn attach_remote_then_local_pairs_the_record() {
    let mut c = Channelizer::new();
    let key = vec![9u8; 32];
    let dkey = discovery_key(&key);
    c.attach_remote(dkey.clone(), 5, Some(vec![7u8; 32])).unwrap();
    let id = c.attach_local(&key).unwrap();
    let info = c.get(&dkey).unwrap();
    assert_eq!(info.local_id, Some(id));
    assert_eq!(info.remote_id, Some(5));
    assert_eq!(info.remote_capability, Some(vec![7u8; 32]));
    assert_eq!(info.key, Some(key.clone()));
    assert_eq!(c.get_key(&dkey), Some(key));
}

#[test]
fn attach_remote_rejects_a_reused_id() {
    let mut c = Channelizer::new();
    c.attach_remote(vec![1u8; 32], 5, None).unwrap();
    assert_eq!(c.attach_remote(vec![2u8; 32], 5, None), Err(ProtoError::DecodeError));
    // The same channel may re-announce under its id.
    c.attach_remote(vec![1u8; 32], 5, Some(vec![3u8; 4])).unwrap();
    assert_eq!(c.attach_remote(vec![1u8; 32], 6, None), Err(ProtoError::DecodeError));
}

#[test]
fn forward_requires_an_open_paired_channel() {
    let mut c = Channelizer::new();
    let key = vec![4u8; 32];
    let dkey = discovery_key(&key);
    assert_eq!(c.forward(5), Err(ProtoError::BrokenPipe));
    c.attach_remote(dkey.clone(), 5, None).unwrap();
    assert_eq!(c.forward(5), Err(ProtoError::BrokenPipe));
    let id = c.attach_local(&key).unwrap();
    assert_eq!(c.forward(5), Err(ProtoError::BrokenPipe));
    c.open(&dkey).unwrap();
    assert_eq!(c.forward(5), Ok(id));
}

#[test]
fn remove_drops_every_index_entry() {
    let mut c = Channelizer::new();
    let key = vec![8u8; 32];
    let dkey = discovery_key(&key);
    c.attach_remote(dkey.clone(), 3, None).unwrap();
    c.attach_local(&key).unwrap();
    assert!(c.get(&dkey).is_some());
    assert!(c.get_remote(3).is_some());
    c.remove(&dkey);
    assert!(c.get(&dkey).is_none());
    assert!(c.get_remote(3).is_none());
    assert_eq!(c.forward(3), Err(ProtoError::BrokenPipe));
    assert_eq!(c.len(), 0);
}
