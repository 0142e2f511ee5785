use vstd::prelude::*;

use crate::bytes_eq;
use crate::crypto::{blake2b_mac, mac_of};
use crate::error::ProtoError;
use crate::noise::{
    build_handshake_state, generate_nonce, hs_handshake_hash, hs_raw_split, hs_read_message,
    hs_remote_static, hs_write_message,
};
use crate::wire::{decode_nonce_msg, encode_nonce_msg};

verus! {

/// Everything the session keeps of a finished handshake: the peer identity,
/// the channel-binding hash, and the material for the transport ciphers.
pub struct HandshakeResult {
    pub is_initiator: bool,
    pub remote_pubkey: Vec<u8>,
    pub handshake_hash: Vec<u8>,
    pub local_nonce: Vec<u8>,
    pub remote_nonce: Vec<u8>,
    pub split_tx: Vec<u8>,
    pub split_rx: Vec<u8>,
}

impl HandshakeResult {
    pub open spec fn wf(&self) -> bool {
        &&& self.remote_pubkey@.len() == 32
        &&& 32 <= self.handshake_hash@.len() <= 64
        &&& self.local_nonce@.len() == 24
        &&& self.remote_nonce@.len() == 24
        &&& self.split_tx@.len() == 32
        &&& self.split_rx@.len() == 32
    }

    /// The capability this session announces for a channel key: a MAC of the
    /// key under the handshake hash, so it proves possession of the key to a
    /// peer of this very session and to nobody else.
    pub fn capability(&self, key: &[u8]) -> (r: Option<Vec<u8>>)
        requires
            self.wf(),
        ensures
            match r {
                Some(c) => c@ == mac_of(self.handshake_hash@, key@) && c@.len() == 32,
                None => false,
            },
    {
        Some(blake2b_mac(self.handshake_hash.as_slice(), key))
    }

    /// Accept exactly the capability that this session's handshake hash and
    /// the shared key produce; anything else is `PermissionDenied`.
    pub fn verify_remote_capability(&self, capability: Option<Vec<u8>>, key: &[u8]) -> (r: Result<
        (),
        ProtoError,
    >)
        requires
            self.wf(),
        ensures
            r is Ok <==> (capability matches Some(c) && c@ == mac_of(self.handshake_hash@, key@)),
            r is Err ==> r == Err::<(), ProtoError>(ProtoError::PermissionDenied),
    {
        let expected = blake2b_mac(self.handshake_hash.as_slice(), key);
        match capability {
            Some(c) => {
                if bytes_eq(c.as_slice(), expected.as_slice()) {
                    Ok(())
                } else {
                    Err(ProtoError::PermissionDenied)
                }
            },
            None => Err(ProtoError::PermissionDenied),
        }
    }
}

/// Drives Noise XX through its three flights. `stage` counts the handshake
/// messages this side has sent or processed; the exchange is complete at
/// three.
pub struct Handshake {
    state: snow::HandshakeState,
    is_initiator: bool,
    local_nonce: Vec<u8>,
    remote_nonce: Option<Vec<u8>>,
    turn: u8,
}

impl Handshake {
    pub closed spec fn wf(&self) -> bool {
        &&& self.local_nonce@.len() == 24
        &&& self.turn <= 3
        &&& match self.remote_nonce {
            Some(n) => n@.len() == 24,
            None => true,
        }
    }

    pub closed spec fn initiator(&self) -> bool {
        self.is_initiator
    }

    pub closed spec fn stage(&self) -> nat {
        self.turn as nat
    }

    pub open spec fn complete_spec(&self) -> bool {
        self.stage() == 3
    }

    pub closed spec fn local_nonce_spec(&self) -> Seq<u8> {
        self.local_nonce@
    }

    pub fn new(is_initiator: bool) -> (r: Result<Handshake, ProtoError>)
        ensures
            match r {
                Ok(h) => h.wf() && h.initiator() == is_initiator && h.stage() == 0,
                Err(e) => e == ProtoError::HandshakeError,
            },
    {
        let state = match build_handshake_state(is_initiator) {
            Ok(s) => s,
            Err(e) => {
                return Err(e);
            },
        };
        let local_nonce = generate_nonce();
        Ok(Handshake { state, is_initiator, local_nonce, remote_nonce: None, turn: 0 })
    }

    pub fn complete(&self) -> (r: bool)
        ensures
            r == self.complete_spec(),
    {
        self.turn == 3
    }

    /// The opening flight. Only the initiator produces output here; it
    /// already carries the nonce payload.
    pub fn start(&mut self) -> (r: Result<Option<Vec<u8>>, ProtoError>)
        requires
            old(self).wf(),
            old(self).stage() == 0,
        ensures
            final(self).wf(),
            final(self).initiator() == old(self).initiator(),
            final(self).local_nonce_spec() == old(self).local_nonce_spec(),
            match r {
                Ok(out) => {
                    &&& (out is Some <==> old(self).initiator())
                    &&& final(self).stage() == if old(self).initiator() {
                        1nat
                    } else {
                        0nat
                    }
                    &&& match out {
                        Some(v) => v@.len() <= 65535,
                        None => true,
                    }
                },
                Err(e) => e == ProtoError::HandshakeError,
            },
    {
        if !self.is_initiator {
            return Ok(None);
        }
        let payload = encode_nonce_msg(self.local_nonce.as_slice());
        match hs_write_message(&mut self.state, payload.as_slice()) {
            Ok(buf) => {
                self.turn = 1;
                Ok(Some(buf))
            },
            Err(_) => Err(ProtoError::HandshakeError),
        }
    }

    /// Remember the peer's nonce from the first non-empty decrypted payload.
    fn note_remote_payload(&mut self, payload: Vec<u8>) -> (r: Result<(), ProtoError>)
        requires
            old(self).wf(),
        ensures
            final(self).wf(),
            final(self).initiator() == old(self).initiator(),
            final(self).stage() == old(self).stage(),
            final(self).local_nonce_spec() == old(self).local_nonce_spec(),
            r is Err ==> r == Err::<(), ProtoError>(ProtoError::HandshakeError),
    {
        if payload.len() == 0 {
            return Ok(());
        }
        match &self.remote_nonce {
            Some(_) => Ok(()),
            None => {
                match decode_nonce_msg(payload.as_slice()) {
                    Ok(nonce) => {
                        if nonce.len() == 24 {
                            self.remote_nonce = Some(nonce);
                            Ok(())
                        } else {
                            Err(ProtoError::HandshakeError)
                        }
                    },
                    Err(_) => Err(ProtoError::HandshakeError),
                }
            },
        }
    }

    /// Process one inbound handshake message; the reply to send back, if this
    /// side owes one, comes back as `Some`. The initiator reads only the
    /// second flight; the responder reads the first and the third.
    pub fn read(&mut self, msg: &[u8]) -> (r: Result<Option<Vec<u8>>, ProtoError>)
        requires
            old(self).wf(),
            old(self).initiator() ==> old(self).stage() == 1,
            !old(self).initiator() ==> old(self).stage() == 0 || old(self).stage() == 2,
        ensures
            final(self).wf(),
            final(self).initiator() == old(self).initiator(),
            final(self).local_nonce_spec() == old(self).local_nonce_spec(),
            match r {
                Ok(out) => {
                    &&& (out is Some <==> old(self).stage() < 2)
                    &&& (final(self).complete_spec() <==> (old(self).initiator() || old(
                        self,
                    ).stage() == 2))
                    &&& final(self).stage() == if old(self).initiator() {
                        3nat
                    } else if old(self).stage() == 0 {
                        2nat
                    } else {
                        3nat
                    }
                    &&& match out {
                        Some(v) => v@.len() <= 65535,
                        None => true,
                    }
                },
                Err(e) => e == ProtoError::HandshakeError,
            },
    {
        let payload = match hs_read_message(&mut self.state, msg) {
            Ok(p) => p,
            Err(_) => {
                return Err(ProtoError::HandshakeError);
            },
        };
        match self.note_remote_payload(payload) {
            Ok(()) => {},
            Err(e) => {
                return Err(e);
            },
        }
        if self.is_initiator {
            // Second flight processed; answer with the third and finish.
            let payload = encode_nonce_msg(self.local_nonce.as_slice());
            match hs_write_message(&mut self.state, payload.as_slice()) {
                Ok(buf) => {
                    self.turn = 3;
                    Ok(Some(buf))
                },
                Err(_) => Err(ProtoError::HandshakeError),
            }
        } else if self.turn == 0 {
            // First flight processed; answer with the second.
            let payload = encode_nonce_msg(self.local_nonce.as_slice());
            match hs_write_message(&mut self.state, payload.as_slice()) {
                Ok(buf) => {
                    self.turn = 2;
                    Ok(Some(buf))
                },
                Err(_) => Err(ProtoError::HandshakeError),
            }
        } else {
            // Third flight processed; the exchange is complete.
            self.turn = 3;
            Ok(None)
        }
    }

    /// Finish the exchange: the peer's static key, the handshake hash, the
    /// exchanged nonces, and the split transport keys, the initiator sending
    /// under the first half and the responder under the second.
    pub fn into_result(self) -> (r: Result<HandshakeResult, ProtoError>)
        requires
            self.wf(),
            self.complete_spec(),
        ensures
            match r {
                Ok(hr) => {
                    &&& hr.wf()
                    &&& hr.is_initiator == self.initiator()
                    &&& hr.local_nonce@ == self.local_nonce_spec()
                },
                Err(e) => e == ProtoError::HandshakeError,
            },
    {
        let Handshake { mut state, is_initiator, local_nonce, remote_nonce, turn: _ } = self;
        let remote_pubkey = match hs_remote_static(&state) {
            Some(k) => k,
            None => {
                return Err(ProtoError::HandshakeError);
            },
        };
        if remote_pubkey.len() != 32 {
            // A Curve25519 static key is 32 bytes; anything else is a
            // broken exchange.
            return Err(ProtoError::HandshakeError);
        }
        let handshake_hash = hs_handshake_hash(&state);
        let remote_nonce = match remote_nonce {
            Some(n) => n,
            None => {
                return Err(ProtoError::HandshakeError);
            },
        };
        let (first, second) = hs_raw_split(&mut state);
        let (split_tx, split_rx) = if is_initiator {
            (first, second)
        } else {
            (second, first)
        };
        Ok(
            HandshakeResult {
                is_initiator,
                remote_pubkey,
                handshake_hash,
                local_nonce,
                remote_nonce,
                split_tx,
                split_rx,
            },
        )
    }
}

} // verus!
