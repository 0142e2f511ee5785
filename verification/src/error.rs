use vstd::prelude::*;

verus! {

/// The error kinds a session can fail with.
///
/// Frame-layer and handshake errors are fatal to the session; a closed
/// per-channel queue (`BrokenPipe`) is local to that channel.
#[derive(Clone, Copy, PartialEq, Eq, Structural, Debug)]
pub enum ProtoError {
    /// The underlying byte transport failed.
    TransportError,
    /// A frame's length prefix exceeds `MAX_MESSAGE_SIZE`.
    Oversized,
    /// Malformed message bytes or an unknown message type.
    DecodeError,
    /// The Noise handshake failed.
    HandshakeError,
    /// Capability verification failed, or a capability was missing when required.
    PermissionDenied,
    /// An internal queue was closed.
    BrokenPipe,
}

} // verus!
