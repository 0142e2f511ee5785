use vstd::prelude::*;

use crate::error::ProtoError;

verus! {

/// The Noise pattern this protocol runs.
pub const NOISE_PATTERN: &'static str = "Noise_XX_25519_XChaChaPoly_BLAKE2b";

#[verifier::external_type_specification]
#[verifier::external_body]
pub struct ExHandshakeState(snow::HandshakeState);

#[verifier::external_type_specification]
#[verifier::external_body]
pub struct ExSnowError(snow::Error);

/// Relies on snow's Builder: parses the pattern, generates a fresh static
/// keypair and builds a handshake state for the given role.
#[verifier::external_body]
fn new_noise_state(pattern: &str, is_initiator: bool) -> (r: Result<
    snow::HandshakeState,
    snow::Error,
>)
{
    let params: snow::params::NoiseParams = match pattern.parse() {
        Ok(p) => p,
        Err(e) => {
            return Err(e);
        },
    };
    let builder = snow::Builder::new(params);
    let key_pair = builder.generate_keypair()?;
    let builder = builder.local_private_key(&key_pair.private);
    if is_initiator {
        builder.build_initiator()
    } else {
        builder.build_responder()
    }
}

/// Build the Noise XX handshake state for one side of a session.
pub fn build_handshake_state(is_initiator: bool) -> (r: Result<snow::HandshakeState, ProtoError>)
    ensures
        r is Err ==> r == Err::<snow::HandshakeState, ProtoError>(ProtoError::HandshakeError),
{
    match new_noise_state(NOISE_PATTERN, is_initiator) {
        Ok(s) => Ok(s),
        Err(_) => Err(ProtoError::HandshakeError),
    }
}

/// Relies on snow::HandshakeState::write_message: the next handshake message
/// carrying `payload`, at most 65535 bytes long.
#[verifier::external_body]
pub(crate) fn hs_write_message(state: &mut snow::HandshakeState, payload: &[u8]) -> (r: Result<
    Vec<u8>,
    snow::Error,
>)
    ensures
        match r {
            Ok(v) => v@.len() <= 65535,
            Err(_) => true,
        },
{
    let mut buf = vec![0u8; 65535];
    match state.write_message(payload, &mut buf) {
        Ok(n) => {
            buf.truncate(n);
            Ok(buf)
        },
        Err(e) => Err(e),
    }
}

/// Relies on snow::HandshakeState::read_message: processes one handshake
/// message and returns its decrypted payload, at most 65535 bytes long.
#[verifier::external_body]
pub(crate) fn hs_read_message(state: &mut snow::HandshakeState, message: &[u8]) -> (r: Result<
    Vec<u8>,
    snow::Error,
>)
    ensures
        match r {
            Ok(v) => v@.len() <= 65535,
            Err(_) => true,
        },
{
    let mut buf = vec![0u8; 65535];
    match state.read_message(message, &mut buf) {
        Ok(n) => {
            buf.truncate(n);
            Ok(buf)
        },
        Err(e) => Err(e),
    }
}

/// Relies on snow::HandshakeState::get_remote_static: the remote static
/// public key, once a handshake message carrying it was processed.
#[verifier::external_body]
pub(crate) fn hs_remote_static(state: &snow::HandshakeState) -> (r: Option<Vec<u8>>)
{
    state.get_remote_static().map(|s| s.to_vec())
}

/// Relies on snow::HandshakeState::get_handshake_hash: the channel-binding
/// hash; its length is the hash function's output length, between 32 and 64
/// bytes.
#[verifier::external_body]
pub(crate) fn hs_handshake_hash(state: &snow::HandshakeState) -> (r: Vec<u8>)
    ensures
        32 <= r@.len() <= 64,
{
    state.get_handshake_hash().to_vec()
}

/// Relies on snow::HandshakeState::dangerously_get_raw_split: the two 32-byte
/// halves of the Noise split, the initiator-to-responder key first.
#[verifier::external_body]
pub(crate) fn hs_raw_split(state: &mut snow::HandshakeState) -> (r: (Vec<u8>, Vec<u8>))
    ensures
        r.0@.len() == 32,
        r.1@.len() == 32,
{
    let (tx, rx) = state.dangerously_get_raw_split();
    (tx.to_vec(), rx.to_vec())
}

/// Relies on rand::thread_rng with rand::Rng::gen: 24 fresh random bytes.
#[verifier::external_body]
pub(crate) fn generate_nonce() -> (r: Vec<u8>)
    ensures
        r@.len() == 24,
{
    let bytes: [u8; 24] = rand::Rng::gen(&mut rand::thread_rng());
    bytes.to_vec()
}

} // verus!
