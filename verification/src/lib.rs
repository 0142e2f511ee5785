use vstd::prelude::*;

pub mod channels;
pub mod crypto;
pub mod error;
pub mod frame;
pub mod handshake;
pub mod noise;
pub mod protocol;
pub mod varint;
pub mod wire;

verus! {

/// Largest payload a single frame may carry, in bytes.
pub const MAX_MESSAGE_SIZE: u64 = 65535;

/// Seconds of outbound silence after which a keepalive ping is due.
pub const DEFAULT_KEEPALIVE: u64 = 25;

/// Byte-for-byte equality of two slices.
pub fn bytes_eq(a: &[u8], b: &[u8]) -> (r: bool)
    ensures
        r <==> a@ == b@,
{
    if a.len() != b.len() {
        return false;
    }
    let mut i: usize = 0;
    while i < a.len()
        invariant
            i <= a@.len(),
            a@.len() == b@.len(),
            forall|j: int| 0 <= j < i ==> a@[j] == b@[j],
        decreases a@.len() - i,
    {
        if a[i] != b[i] {
            return false;
        }
        i = i + 1;
    }
    proof {
        assert(a@ =~= b@);
    }
    true
}

} // verus!
