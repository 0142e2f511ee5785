use vstd::prelude::*;

use crate::error::ProtoError;
use chacha20::cipher::{KeyIvInit, StreamCipher, StreamCipherSeek};

verus! {

/// What keyed BLAKE2b with a 32-byte output returns: a function of the key
/// and the data alone.
pub uninterp spec fn mac_of(key: Seq<u8>, data: Seq<u8>) -> Seq<u8>;

/// Relies on blake2::Blake2bMac (keyed BLAKE2b, 32-byte output): the result
/// depends on key and data alone and is 32 bytes long; construction fails
/// only for keys longer than 64 bytes.
#[verifier::external_body]
pub(crate) fn blake2b_mac(key: &[u8], data: &[u8]) -> (r: Vec<u8>)
    requires
        1 <= key@.len() <= 64,
    ensures
        r@ == mac_of(key@, data@),
        r@.len() == 32,
{
    let mut m: blake2::Blake2bMac<blake2::digest::consts::U32> =
        blake2::digest::Mac::new_from_slice(key).unwrap();
    blake2::digest::Mac::update(&mut m, data);
    blake2::digest::Mac::finalize(m).into_bytes().to_vec()
}

/// The tag a discovery key is derived under.
pub open spec fn dkey_tag() -> Seq<u8> {
    seq![104u8, 121u8, 112u8, 101u8, 114u8, 99u8, 111u8, 114u8, 101u8]
}

pub open spec fn dkey_spec(key: Seq<u8>) -> Seq<u8> {
    mac_of(key, dkey_tag())
}

/// The discovery key of a channel key: keyed BLAKE2b of a fixed tag. Both
/// holders of `key` compute the same value; it does not reveal `key`.
pub fn discovery_key(key: &[u8]) -> (r: Vec<u8>)
    requires
        1 <= key@.len() <= 64,
    ensures
        r@ == dkey_spec(key@),
        r@.len() == 32,
{
    let tag: Vec<u8> = vec![104u8, 121u8, 112u8, 101u8, 114u8, 99u8, 111u8, 114u8, 101u8];
    assert(tag@ =~= dkey_tag());
    blake2b_mac(key, tag.as_slice())
}

/// One byte of the XChaCha20 keystream for `key` and `iv` at stream position
/// `pos`: a function of the three alone.
pub uninterp spec fn keystream_byte(key: Seq<u8>, iv: Seq<u8>, pos: int) -> u8;

/// `data` XORed with the keystream starting at `pos`.
pub open spec fn keystream_xor(key: Seq<u8>, iv: Seq<u8>, pos: nat, data: Seq<u8>) -> Seq<u8> {
    Seq::new(data.len(), |i: int| data[i] ^ keystream_byte(key, iv, pos + i))
}

/// Relies on chacha20::XChaCha20 with cipher::StreamCipherSeek: XORs `data`
/// with the keystream of (`key`, `iv`) starting at position `pos`. Fails,
/// leaving `data` unchanged, only when the seek or the remaining keystream
/// is exhausted.
#[verifier::external_body]
fn xchacha20_xor(key: &[u8], iv: &[u8], pos: u64, data: &mut Vec<u8>) -> (r: Result<(), ProtoError>)
    requires
        key@.len() == 32,
        iv@.len() == 24,
    ensures
        match r {
            Ok(()) => {
                &&& final(data)@.len() == old(data)@.len()
                &&& forall|i: int|
                    0 <= i < old(data)@.len() ==> final(data)@[i] == old(data)@[i] ^ keystream_byte(
                        key@,
                        iv@,
                        pos + i,
                    )
            },
            Err(e) => e == ProtoError::TransportError && final(data)@ == old(data)@,
        },
{
    let mut c = chacha20::XChaCha20::new(key.into(), iv.into());
    if c.try_seek(pos).is_err() {
        return Err(ProtoError::TransportError);
    }
    match c.try_apply_keystream(data.as_mut_slice()) {
        Ok(()) => Ok(()),
        Err(_) => Err(ProtoError::TransportError),
    }
}

/// One direction of the post-handshake transport encryption: streaming
/// XChaCha20 whose keystream position advances byte-for-byte with the
/// stream, across frame boundaries.
pub struct Cipher {
    key: Vec<u8>,
    iv: Vec<u8>,
    pos: u64,
}

impl Cipher {
    pub closed spec fn wf(&self) -> bool {
        self.key@.len() == 32 && self.iv@.len() == 24
    }

    pub closed spec fn key_spec(&self) -> Seq<u8> {
        self.key@
    }

    pub closed spec fn iv_spec(&self) -> Seq<u8> {
        self.iv@
    }

    pub closed spec fn pos_spec(&self) -> nat {
        self.pos as nat
    }

    pub fn new(key: Vec<u8>, iv: Vec<u8>) -> (r: Cipher)
        requires
            key@.len() == 32,
            iv@.len() == 24,
        ensures
            r.wf(),
            r.key_spec() == key@,
            r.iv_spec() == iv@,
            r.pos_spec() == 0,
    {
        Cipher { key, iv, pos: 0 }
    }

    /// XOR the keystream at the current position into `data` and advance.
    pub fn apply(&mut self, data: &mut Vec<u8>) -> (r: Result<(), ProtoError>)
        requires
            old(self).wf(),
        ensures
            final(self).wf(),
            final(self).key_spec() == old(self).key_spec(),
            final(self).iv_spec() == old(self).iv_spec(),
            match r {
                Ok(()) => {
                    &&& final(data)@ == keystream_xor(
                        old(self).key_spec(),
                        old(self).iv_spec(),
                        old(self).pos_spec(),
                        old(data)@,
                    )
                    &&& final(self).pos_spec() == old(self).pos_spec() + old(data)@.len()
                },
                Err(e) => {
                    &&& e == ProtoError::TransportError
                    &&& final(data)@ == old(data)@
                    &&& final(self).pos_spec() == old(self).pos_spec()
                },
            },
    {
        if data.len() as u64 > u64::MAX - self.pos {
            return Err(ProtoError::TransportError);
        }
        match xchacha20_xor(self.key.as_slice(), self.iv.as_slice(), self.pos, data) {
            Ok(()) => {
                let ghost k = self.key@;
                let ghost iv = self.iv@;
                let ghost p = self.pos as nat;
                self.pos = self.pos + data.len() as u64;
                proof {
                    assert(data@ =~= keystream_xor(k, iv, p, old(data)@));
                }
                Ok(())
            },
            Err(e) => Err(e),
        }
    }
}

/// XOR with the same keystream twice gives the data back: decryption with
/// the peer's matching cipher state is transparent.
pub proof fn lemma_keystream_transparent(key: Seq<u8>, iv: Seq<u8>, pos: nat, data: Seq<u8>)
    ensures
        keystream_xor(key, iv, pos, keystream_xor(key, iv, pos, data)) == data,
{
    let once = keystream_xor(key, iv, pos, data);
    let twice = keystream_xor(key, iv, pos, once);
    assert forall|i: int| 0 <= i < data.len() implies twice[i] == data[i] by {
        let k = keystream_byte(key, iv, pos + i);
        let d = data[i];
        assert((d ^ k) ^ k == d) by (bit_vector);
    }
    assert(twice =~= data);
}

} // verus!
