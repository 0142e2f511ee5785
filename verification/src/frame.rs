use vstd::prelude::*;

use crate::error::ProtoError;
use crate::varint::{pow128, varint_enc, varint_encode};

verus! {

/// A frame on the wire is a varint length prefix followed by that many
/// payload bytes. A single zero byte where a frame would start is a
/// keepalive ping and is skipped.
pub open spec fn frame_enc(p: Seq<u8>) -> Seq<u8> {
    varint_enc(p.len()) + p
}

/// Abstract state of the incremental frame decoder.
pub enum DecodeState {
    /// Reading the length prefix: `value` is the part accumulated so far,
    /// `count` the number of prefix bytes consumed.
    Header { value: nat, count: nat },
    /// Reading the payload: `got` holds the bytes collected out of `need`.
    Body { need: nat, got: Seq<u8> },
}

pub open spec fn init_state() -> DecodeState {
    DecodeState::Header { value: 0, count: 0 }
}

/// One byte of input: the next state and the frame completed by this byte,
/// if any. Fails with `Oversized` as soon as the length prefix exceeds
/// `MAX_MESSAGE_SIZE`, before any payload byte is read, and with
/// `DecodeError` on a length prefix of more than ten bytes.
pub open spec fn frame_step(s: DecodeState, b: u8) -> Result<(DecodeState, Option<Seq<u8>>), ProtoError> {
    match s {
        DecodeState::Header { value, count } => {
            if count == 0 && b == 0 {
                Ok((s, None))
            } else {
                let v2 = value + ((b % 128) as nat) * pow128(count);
                if v2 > 65535 {
                    Err(ProtoError::Oversized)
                } else if b >= 128 {
                    if count >= 9 {
                        Err(ProtoError::DecodeError)
                    } else {
                        Ok((DecodeState::Header { value: v2, count: count + 1 }, None))
                    }
                } else if v2 == 0 {
                    Ok((init_state(), Some(Seq::empty())))
                } else {
                    Ok((DecodeState::Body { need: v2, got: Seq::empty() }, None))
                }
            }
        },
        DecodeState::Body { need, got } => {
            let got2 = got.push(b);
            if got2.len() == need {
                Ok((init_state(), Some(got2)))
            } else {
                Ok((DecodeState::Body { need, got: got2 }, None))
            }
        },
    }
}

/// Run `frame_step` over a whole byte sequence, collecting completed frames.
pub open spec fn frame_feed(s: DecodeState, bytes: Seq<u8>) -> Result<(DecodeState, Seq<Seq<u8>>), ProtoError>
    decreases bytes.len(),
{
    if bytes.len() == 0 {
        Ok((s, Seq::empty()))
    } else {
        match frame_step(s, bytes[0]) {
            Err(e) => Err(e),
            Ok((s1, out)) => match frame_feed(s1, bytes.skip(1)) {
                Err(e) => Err(e),
                Ok((s2, outs)) => Ok(
                    (s2, match out {
                        Some(f) => seq![f] + outs,
                        None => outs,
                    }),
                ),
            },
        }
    }
}

/// Feeding a concatenation feeds the two halves in turn.
pub proof fn lemma_feed_append(s: DecodeState, a: Seq<u8>, b: Seq<u8>)
    ensures
        frame_feed(s, a + b) == match frame_feed(s, a) {
            Err(e) => Err::<(DecodeState, Seq<Seq<u8>>), ProtoError>(e),
            Ok((s1, outs1)) => match frame_feed(s1, b) {
                Err(e) => Err(e),
                Ok((s2, outs2)) => Ok((s2, outs1 + outs2)),
            },
        },
    decreases a.len(),
{
    if a.len() == 0 {
        assert(a + b =~= b);
        match frame_feed(s, b) {
            Err(_) => {},
            Ok((s2, outs2)) => {
                assert(Seq::<Seq<u8>>::empty() + outs2 =~= outs2);
            },
        }
    } else {
        let ab = a + b;
        assert(ab[0] == a[0]);
        assert(ab.skip(1) =~= a.skip(1) + b);
        match frame_step(s, a[0]) {
            Err(_) => {},
            Ok((s1, out)) => {
                lemma_feed_append(s1, a.skip(1), b);
                match frame_feed(s1, a.skip(1)) {
                    Err(_) => {},
                    Ok((sa, outsa)) => {
                        match frame_feed(sa, b) {
                            Err(_) => {},
                            Ok((s2, outs2)) => {
                                match out {
                                    Some(f) => {
                                        assert(seq![f] + (outsa + outs2) =~= (seq![f] + outsa) + outs2);
                                    },
                                    None => {},
                                }
                            },
                        }
                    },
                }
            },
        }
    }
}

pub open spec fn zeros(k: nat) -> Seq<u8> {
    Seq::new(k, |i: int| 0u8)
}

/// Keepalive pings ahead of a frame boundary are invisible to the decoder.
pub proof fn lemma_feed_keepalive(k: nat, rest: Seq<u8>)
    ensures
        frame_feed(init_state(), zeros(k) + rest) == frame_feed(init_state(), rest),
    decreases k,
{
    if k == 0 {
        assert(zeros(0) + rest =~= rest);
    } else {
        let s = zeros(k) + rest;
        assert(s[0] == 0);
        assert(frame_step(init_state(), 0) == Ok::<_, ProtoError>((init_state(), None::<Seq<u8>>)));
        assert(s.skip(1) =~= zeros((k - 1) as nat) + rest);
        lemma_feed_keepalive((k - 1) as nat, rest);
    }
}

/// Feeding the varint prefix of a frame of `m` more payload bytes moves the
/// decoder from an intermediate header state to the payload state.
proof fn lemma_feed_varint(value: nat, count: nat, m: nat, rest: Seq<u8>)
    requires
        m >= 1,
        value + m * pow128(count) <= 65535,
    ensures
        frame_feed(DecodeState::Header { value, count }, varint_enc(m) + rest)
            == frame_feed(DecodeState::Body { need: value + m * pow128(count), got: Seq::empty() }, rest),
    decreases m,
{
    let s = varint_enc(m) + rest;
    let st = DecodeState::Header { value, count };
    assert(m * pow128(count) >= 1 * pow128(count)) by (nonlinear_arith)
        requires
            m >= 1,
            pow128(count) >= 0,
    ;
    assert(pow128(count) >= 1) by {
        lemma_pow128_pos(count);
    }
    if m < 128 {
        assert(s[0] == m as u8);
        assert(s[0] % 128 == m);
        let v2 = value + m * pow128(count);
        assert(v2 >= 1);
        assert(frame_step(st, s[0]) == Ok::<_, ProtoError>(
            (DecodeState::Body { need: v2, got: Seq::empty() }, None::<Seq<u8>>),
        ));
        assert(s.skip(1) =~= rest);
    } else {
        assert(s[0] == ((m % 128) + 128) as u8);
        assert(s[0] >= 128);
        assert(s[0] % 128 == m % 128);
        let low = (m % 128) as nat;
        let v2 = value + low * pow128(count);
        assert(low * pow128(count) <= m * pow128(count)) by (nonlinear_arith)
            requires
                low <= m,
                pow128(count) >= 0,
        ;
        assert(v2 <= 65535);
        // A prefix that still continues below 65536 uses at most three bytes.
        assert(count < 9) by {
            lemma_pow128_pos(count);
            if count >= 3 {
                lemma_pow128_mono(3, count);
                reveal_with_fuel(pow128, 4);
                assert(pow128(3) == 2097152);
            }
        }
        assert(frame_step(st, s[0]) == Ok::<_, ProtoError>(
            (DecodeState::Header { value: v2, count: count + 1 }, None::<Seq<u8>>),
        ));
        assert(s.skip(1) =~= varint_enc(m / 128) + rest);
        assert(v2 + (m / 128) * pow128(count + 1) == value + m * pow128(count)) by (nonlinear_arith)
            requires
                m >= 128,
                v2 == value + (m % 128) * pow128(count),
                pow128(count + 1) == 128 * pow128(count),
        ;
        assert(m / 128 >= 1);
        assert(v2 + (m / 128) * pow128(count + 1) <= 65535);
        lemma_feed_varint(v2, count + 1, m / 128, rest);
    }
}

proof fn lemma_pow128_pos(k: nat)
    ensures
        pow128(k) >= 1,
    decreases k,
{
    if k > 0 {
        lemma_pow128_pos((k - 1) as nat);
    }
}

proof fn lemma_pow128_mono(j: nat, k: nat)
    requires
        j <= k,
    ensures
        pow128(j) <= pow128(k),
    decreases k,
{
    if j < k {
        lemma_pow128_mono(j, (k - 1) as nat);
        lemma_pow128_pos((k - 1) as nat);
    }
}

/// Feeding the remaining payload bytes completes the frame and returns the
/// decoder to its initial state.
proof fn lemma_feed_body(need: nat, got: Seq<u8>, data: Seq<u8>, rest: Seq<u8>)
    requires
        got.len() + data.len() == need,
        data.len() >= 1,
    ensures
        frame_feed(DecodeState::Body { need, got }, data + rest) == match frame_feed(init_state(), rest) {
            Err(e) => Err::<(DecodeState, Seq<Seq<u8>>), ProtoError>(e),
            Ok((s2, outs)) => Ok((s2, seq![got + data] + outs)),
        },
    decreases data.len(),
{
    let s = data + rest;
    let b = data[0];
    let got2 = got.push(b);
    assert(s[0] == b);
    if data.len() == 1 {
        assert(got2.len() == need);
        assert(got2 =~= got + data);
        assert(s.skip(1) =~= rest);
    } else {
        assert(got2.len() < need);
        assert(s.skip(1) =~= data.skip(1) + rest);
        lemma_feed_body(need, got2, data.skip(1), rest);
        assert(got2 + data.skip(1) =~= got + data);
    }
}

/// Framing round-trip: a frame carrying `p` decodes to exactly `p`, whatever
/// follows on the stream. An empty payload is excluded: its one-byte frame is
/// a single zero byte, which receivers skip as a keepalive.
pub proof fn lemma_frame_roundtrip(p: Seq<u8>, rest: Seq<u8>)
    requires
        1 <= p.len() <= 65535,
    ensures
        frame_feed(init_state(), frame_enc(p) + rest) == match frame_feed(init_state(), rest) {
            Err(e) => Err::<(DecodeState, Seq<Seq<u8>>), ProtoError>(e),
            Ok((s2, outs)) => Ok((s2, seq![p] + outs)),
        },
{
    assert(frame_enc(p) + rest =~= varint_enc(p.len()) + (p + rest));
    assert(p.len() * pow128(0) == p.len()) by (nonlinear_arith)
        requires
            pow128(0) == 1,
    ;
    lemma_feed_varint(0, 0, p.len(), p + rest);
    lemma_feed_body(p.len(), Seq::empty(), p, rest);
    assert(Seq::<u8>::empty() + p =~= p);
}

/// A single complete frame decodes to its payload and nothing else.
pub proof fn lemma_frame_roundtrip_single(p: Seq<u8>)
    requires
        1 <= p.len() <= 65535,
    ensures
        frame_feed(init_state(), frame_enc(p)) == Ok::<_, ProtoError>((init_state(), seq![p])),
{
    assert(frame_enc(p) + Seq::<u8>::empty() =~= frame_enc(p));
    lemma_frame_roundtrip(p, Seq::empty());
    assert(seq![p] + Seq::<Seq<u8>>::empty() =~= seq![p]);
}

/// A sequence of frames, each preceded by any number of keepalive pings and
/// with any number of trailing pings.
pub open spec fn stream_enc(frames: Seq<Seq<u8>>, gaps: Seq<nat>) -> Seq<u8>
    decreases frames.len(),
{
    if frames.len() == 0 {
        zeros(gaps[0])
    } else {
        zeros(gaps[0]) + frame_enc(frames[0]) + stream_enc(frames.skip(1), gaps.skip(1))
    }
}

/// Keepalive transparency and order preservation on the transport: however
/// zero-byte pings are interleaved at frame boundaries, the receiver observes
/// exactly the sent frames, in order.
pub proof fn lemma_keepalive_transparency(frames: Seq<Seq<u8>>, gaps: Seq<nat>)
    requires
        gaps.len() == frames.len() + 1,
        forall|i: int| 0 <= i < frames.len() ==> 1 <= #[trigger] frames[i].len() <= 65535,
    ensures
        frame_feed(init_state(), stream_enc(frames, gaps)) == Ok::<_, ProtoError>((init_state(), frames)),
    decreases frames.len(),
{
    if frames.len() == 0 {
        assert(zeros(gaps[0]) + Seq::<u8>::empty() =~= zeros(gaps[0]));
        lemma_feed_keepalive(gaps[0], Seq::empty());
        assert(frames =~= Seq::<Seq<u8>>::empty());
    } else {
        let tail = stream_enc(frames.skip(1), gaps.skip(1));
        assert(zeros(gaps[0]) + frame_enc(frames[0]) + tail
            =~= zeros(gaps[0]) + (frame_enc(frames[0]) + tail));
        lemma_feed_keepalive(gaps[0], frame_enc(frames[0]) + tail);
        lemma_frame_roundtrip(frames[0], tail);
        lemma_keepalive_transparency(frames.skip(1), gaps.skip(1));
        assert(seq![frames[0]] + frames.skip(1) =~= frames);
    }
}

/// Incremental decoder for the frame layer; the executable counterpart of
/// `frame_step`.
pub struct FrameReader {
    in_body: bool,
    value: u64,
    count: u64,
    buf: Vec<u8>,
}

impl View for FrameReader {
    type V = DecodeState;

    closed spec fn view(&self) -> DecodeState {
        if self.in_body {
            DecodeState::Body { need: self.value as nat, got: self.buf@ }
        } else {
            DecodeState::Header { value: self.value as nat, count: self.count as nat }
        }
    }
}

impl FrameReader {
    pub closed spec fn wf(&self) -> bool {
        &&& if self.in_body {
            &&& 1 <= self.value <= 65535
            &&& self.buf@.len() < self.value
        } else {
            &&& self.value <= 65535
            &&& self.count <= 9
            &&& self.buf@.len() == 0
        }
    }

    pub fn new() -> (r: FrameReader)
        ensures
            r@ == init_state(),
            r.wf(),
    {
        FrameReader { in_body: false, value: 0, count: 0, buf: Vec::new() }
    }

    /// Feed one byte; a completed frame comes back as `Some`.
    pub fn push_byte(&mut self, b: u8) -> (r: Result<Option<Vec<u8>>, ProtoError>)
        requires
            old(self).wf(),
        ensures
            final(self).wf(),
            match (r, frame_step(old(self)@, b)) {
                (Ok(out), Ok((s2, emit))) => {
                    &&& final(self)@ == s2
                    &&& match out {
                        Some(f) => emit == Some(f@),
                        None => emit is None,
                    }
                },
                (Err(e1), Err(e2)) => e1 == e2,
                _ => false,
            },
    {
        if !self.in_body {
            if self.count == 0 && b == 0 {
                return Ok(None);
            }
            let ghost vv = self.value as nat;
            let ghost cc = self.count as nat;
            let low = b % 128;
            proof {
                lemma_pow128_pos(cc);
            }
            if self.count >= 3 {
                if low != 0 {
                    proof {
                        lemma_pow128_mono(3, cc);
                        reveal_with_fuel(pow128, 4);
                        assert((low as nat) * pow128(cc) >= 1 * 2097152) by (nonlinear_arith)
                            requires
                                low >= 1,
                                pow128(cc) >= 2097152,
                        ;
                    }
                    return Err(ProtoError::Oversized);
                }
                // low == 0: this byte leaves the accumulated length unchanged.
                assert((low as nat) * pow128(cc) == 0) by (nonlinear_arith)
                    requires
                        low == 0,
                ;
                assert(vv + (low as nat) * pow128(cc) == vv);
                if b >= 128 {
                    if self.count >= 9 {
                        return Err(ProtoError::DecodeError);
                    }
                    self.count = self.count + 1;
                    return Ok(None);
                }
                if self.value == 0 {
                    self.count = 0;
                    return Ok(Some(Vec::new()));
                }
                self.in_body = true;
                self.count = 0;
                assert(self.buf@ =~= Seq::<u8>::empty());
                return Ok(None);
            }
            let factor: u64 = if self.count == 0 {
                1
            } else if self.count == 1 {
                128
            } else {
                16384
            };
            proof {
                reveal_with_fuel(pow128, 3);
                assert(factor as nat == pow128(cc));
                assert((low as u64) as nat * factor as nat <= 127 * 16384) by (nonlinear_arith)
                    requires
                        low <= 127,
                        factor <= 16384,
                ;
            }
            let v2: u64 = self.value + (low as u64) * factor;
            assert(v2 as nat == vv + (low as nat) * pow128(cc));
            if v2 > 65535 {
                return Err(ProtoError::Oversized);
            }
            if b >= 128 {
                self.value = v2;
                self.count = self.count + 1;
                return Ok(None);
            }
            if v2 == 0 {
                self.value = 0;
                self.count = 0;
                return Ok(Some(Vec::new()));
            }
            self.in_body = true;
            self.value = v2;
            self.count = 0;
            assert(self.buf@ =~= Seq::<u8>::empty());
            return Ok(None);
        }
        self.buf.push(b);
        if self.buf.len() as u64 == self.value {
            let mut frame: Vec<u8> = Vec::new();
            core::mem::swap(&mut frame, &mut self.buf);
            self.in_body = false;
            self.value = 0;
            self.count = 0;
            return Ok(Some(frame));
        }
        Ok(None)
    }

    /// Feed a run of raw bytes; the frames completed inside it come back in
    /// order. On an error the session is no longer framed reliably and the
    /// decoder must not be used further.
    pub fn feed(&mut self, data: &[u8]) -> (r: Result<Vec<Vec<u8>>, ProtoError>)
        requires
            old(self).wf(),
        ensures
            final(self).wf(),
            match (r, frame_feed(old(self)@, data@)) {
                (Ok(frames), Ok((s2, emits))) => final(self)@ == s2 && frames.deep_view() == emits,
                (Err(e1), Err(e2)) => e1 == e2,
                _ => false,
            },
    {
        let mut frames: Vec<Vec<u8>> = Vec::new();
        let mut i: usize = 0;
        proof {
            assert(data@.take(0) =~= Seq::<u8>::empty());
            assert(frames.deep_view() =~~= Seq::<Seq<u8>>::empty());
        }
        while i < data.len()
            invariant
                i <= data@.len(),
                self.wf(),
                frame_feed(old(self)@, data@.take(i as int)) == Ok::<_, ProtoError>(
                    (self@, frames.deep_view()),
                ),
            decreases data@.len() - i,
        {
            let ghost pre = self@;
            let ghost pre_frames = frames.deep_view();
            let b = data[i];
            proof {
                reveal_with_fuel(frame_feed, 3);
                assert(data@.take(i as int + 1) =~= data@.take(i as int) + seq![b]);
                lemma_feed_append(old(self)@, data@.take(i as int), seq![b]);
                assert(seq![b].skip(1) =~= Seq::<u8>::empty());
            }
            match self.push_byte(b) {
                Ok(out) => {
                    match out {
                        Some(f) => {
                            let ghost fv = f@;
                            frames.push(f);
                            proof {
                                assert(seq![fv] + Seq::<Seq<u8>>::empty() =~~= seq![fv]);
                                assert(frames.deep_view() =~~= pre_frames + seq![fv]);
                            }
                        },
                        None => {
                            proof {
                                assert(pre_frames + Seq::<Seq<u8>>::empty() =~~= pre_frames);
                            }
                        },
                    }
                },
                Err(e) => {
                    proof {
                        assert(data@ =~= data@.take(i as int) + data@.skip(i as int));
                        lemma_feed_append(old(self)@, data@.take(i as int), data@.skip(i as int));
                        assert(data@.skip(i as int)[0] == b);
                        assert(data@.skip(i as int).len() > 0);
                        assert(frame_step(pre, b) == Err::<(DecodeState, Option<Seq<u8>>), ProtoError>(e));
                        assert(frame_feed(pre, data@.skip(i as int))
                            == Err::<(DecodeState, Seq<Seq<u8>>), ProtoError>(e));
                        assert(frame_feed(old(self)@, data@)
                            == Err::<(DecodeState, Seq<Seq<u8>>), ProtoError>(e));
                    }
                    return Err(e);
                },
            }
            i = i + 1;
        }
        proof {
            assert(data@.take(data@.len() as int) =~= data@);
        }
        Ok(frames)
    }
}

/// Prefix `data` with its varint length, as the sender puts it on the wire.
pub fn with_delimiter(data: &[u8]) -> (r: Vec<u8>)
    ensures
        r@ == frame_enc(data@),
{
    let mut out = varint_encode(data.len() as u64);
    out.extend_from_slice(data);
    proof {
        assert(out@ =~= frame_enc(data@));
    }
    out
}

} // verus!
