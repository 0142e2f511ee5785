use vstd::prelude::*;

use crate::error::ProtoError;

verus! {

/// Unsigned LEB128: seven low-order value bits per byte, least significant
/// group first, continuation bit (0x80) set on every byte but the last.
pub open spec fn varint_enc(n: nat) -> Seq<u8>
    decreases n,
{
    if n < 128 {
        seq![n as u8]
    } else {
        seq![((n % 128) + 128) as u8] + varint_enc(n / 128)
    }
}

/// Decode a varint from the front of `s`: the value and the number of bytes
/// consumed, or `None` if `s` ends before the final (continuation-free) byte.
pub open spec fn varint_dec(s: Seq<u8>) -> Option<(nat, nat)>
    decreases s.len(),
{
    if s.len() == 0 {
        None
    } else if s[0] < 128 {
        Some((s[0] as nat, 1 as nat))
    } else {
        match varint_dec(s.skip(1)) {
            Some(p) => Some((((s[0] - 128) + 128 * p.0) as nat, (p.1 + 1) as nat)),
            None => None,
        }
    }
}

pub proof fn lemma_varint_enc_len(n: nat)
    ensures
        1 <= varint_enc(n).len(),
        n < 128 ==> varint_enc(n).len() == 1,
        n < 16384 ==> varint_enc(n).len() <= 2,
        n <= 65535 ==> varint_enc(n).len() <= 3,
        n <= u64::MAX ==> varint_enc(n).len() <= 10,
    decreases n,
{
    if n >= 128 {
        lemma_varint_enc_len(n / 128);
        if n <= u64::MAX {
            assert(varint_enc(n).len() <= 10) by {
                reveal_with_fuel(pow128, 11);
                assert(pow128(10) == 0x40_0000_0000_0000_0000);
                lemma_varint_len_bound(n, 10);
            }
        }
    }
}

/// If `n < 128^k`, its encoding takes at most `k` bytes.
pub proof fn lemma_varint_len_bound(n: nat, k: nat)
    requires
        k >= 1,
        n < pow128(k),
    ensures
        varint_enc(n).len() <= k,
    decreases n,
{
    if n >= 128 {
        assert(pow128(k) == 128 * pow128((k - 1) as nat));
        assert(n / 128 < pow128((k - 1) as nat)) by (nonlinear_arith)
            requires
                n < 128 * pow128((k - 1) as nat),
        ;
        assert(k >= 2) by {
            if k == 1 {
                assert(pow128(1nat) == 128 * pow128(0nat));
            }
        }
        lemma_varint_len_bound(n / 128, (k - 1) as nat);
    }
}

pub open spec fn pow128(k: nat) -> nat
    decreases k,
{
    if k == 0 {
        1
    } else {
        128 * pow128((k - 1) as nat)
    }
}

/// A successful decode consumes at least one and at most all of the bytes.
pub proof fn lemma_varint_dec_bounds(s: Seq<u8>)
    ensures
        match varint_dec(s) {
            Some(p) => 1 <= p.1 <= s.len(),
            None => true,
        },
    decreases s.len(),
{
    if s.len() > 0 && s[0] >= 128 {
        lemma_varint_dec_bounds(s.skip(1));
    }
}

/// Decoding inverts encoding, whatever bytes follow the varint.
pub proof fn lemma_varint_roundtrip(n: nat, rest: Seq<u8>)
    ensures
        varint_dec(varint_enc(n) + rest) == Some((n, varint_enc(n).len() as nat)),
    decreases n,
{
    let s = varint_enc(n) + rest;
    if n < 128 {
        assert(s[0] == n as u8);
    } else {
        assert(s[0] == ((n % 128) + 128) as u8);
        assert(s[0] >= 128);
        assert(s.skip(1) =~= varint_enc(n / 128) + rest);
        lemma_varint_roundtrip(n / 128, rest);
        vstd::arithmetic::div_mod::lemma_fundamental_div_mod(n as int, 128);
        assert((s[0] - 128) + 128 * (n / 128) == n);
    }
}

/// Encode `n` as a varint.
pub fn varint_encode(n: u64) -> (r: Vec<u8>)
    ensures
        r@ == varint_enc(n as nat),
{
    let mut out: Vec<u8> = Vec::new();
    let mut m: u64 = n;
    while m >= 128
        invariant
            varint_enc(n as nat) =~= out@ + varint_enc(m as nat),
        decreases m,
    {
        out.push((m % 128 + 128) as u8);
        assert(out@ + varint_enc((m / 128) as nat) =~= out@.drop_last() + varint_enc(m as nat));
        m = m / 128;
    }
    out.push(m as u8);
    proof {
        assert(varint_enc(n as nat) =~= out@);
    }
    out
}

/// Decode a varint that starts at `buf[from]`.
///
/// Fails with `DecodeError` when the buffer ends inside the varint or the
/// value does not fit in a `u64`.
pub fn varint_decode(buf: &[u8], from: usize) -> (r: Result<(u64, usize), ProtoError>)
    requires
        from <= buf@.len(),
    ensures
        match r {
            Ok(p) => {
                &&& varint_dec(buf@.skip(from as int)) == Some((p.0 as nat, p.1 as nat))
                &&& from + p.1 <= buf@.len()
                &&& p.1 >= 1
            },
            Err(e) => {
                &&& e == ProtoError::DecodeError
                &&& match varint_dec(buf@.skip(from as int)) {
                    Some(p) => p.0 > u64::MAX,
                    None => true,
                }
            },
        },
    decreases buf@.len() - from,
{
    if from >= buf.len() {
        assert(buf@.skip(from as int).len() == 0);
        return Err(ProtoError::DecodeError);
    }
    let b = buf[from];
    let ghost s = buf@.skip(from as int);
    assert(s[0] == b);
    if b < 128 {
        Ok((b as u64, 1))
    } else {
        proof {
            assert(s.skip(1) =~= buf@.skip(from as int + 1));
        }
        match varint_decode(buf, from + 1) {
            Ok((v, c)) => {
                if v <= u64::MAX / 128 {
                    let low = (b - 128) as u64;
                    assert(low + 128 * v <= u64::MAX) by (nonlinear_arith)
                        requires
                            low < 128,
                            v <= u64::MAX / 128,
                    ;
                    Ok((low + 128 * v, c + 1))
                } else {
                    proof {
                        assert((s[0] - 128) + 128 * (v as nat) > u64::MAX) by (nonlinear_arith)
                            requires
                                v > u64::MAX / 128,
                                s[0] >= 128,
                        ;
                    }
                    Err(ProtoError::DecodeError)
                }
            },
            Err(e) => Err(e),
        }
    }
}

} // verus!
