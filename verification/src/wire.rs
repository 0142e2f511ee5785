use vstd::prelude::*;

use crate::error::ProtoError;
use crate::varint::{varint_dec, varint_enc, varint_decode, varint_encode, lemma_varint_dec_bounds, lemma_varint_roundtrip};
use vstd::slice::{slice_subrange, slice_to_vec};

verus! {

// ---------------------------------------------------------------------------
// Protocol buffer wire format, restricted to what the three schema messages
// use: length-delimited fields (wire type 2), with varint fields (wire type 0)
// skipped as unknown.
// ---------------------------------------------------------------------------

/// One length-delimited field: key varint `field<<3|2`, length varint, bytes.
pub open spec fn pb_field(fno: nat, data: Seq<u8>) -> Seq<u8> {
    varint_enc(fno * 8 + 2) + varint_enc(data.len()) + data
}

/// The payload sequences of an optional bytes field.
pub open spec fn opt_view(o: Option<Vec<u8>>) -> Option<Seq<u8>> {
    match o {
        Some(v) => Some(v@),
        None => None,
    }
}

/// Parse a message into its `(field number, payload)` fields, in order.
/// Unknown varint fields are skipped; anything else is malformed, as is a
/// varint that does not fit in a `u64`.
pub open spec fn pb_parse(s: Seq<u8>) -> Option<Seq<(nat, Seq<u8>)>>
    decreases s.len(),
    via pb_parse_decreases
{
    if s.len() == 0 {
        Some(Seq::empty())
    } else {
        match varint_dec(s) {
            None => None,
            Some((key, kl)) => {
                if key > u64::MAX {
                    None
                } else {
                    let rest = s.skip(kl as int);
                    if key % 8 == 2 {
                        match varint_dec(rest) {
                            None => None,
                            Some((len, ll)) => {
                                if len > u64::MAX || rest.len() < ll + len {
                                    None
                                } else {
                                    let payload = rest.subrange(ll as int, (ll + len) as int);
                                    match pb_parse(rest.skip((ll + len) as int)) {
                                        None => None,
                                        Some(fs) => Some(seq![((key / 8) as nat, payload)] + fs),
                                    }
                                }
                            },
                        }
                    } else if key % 8 == 0 {
                        match varint_dec(rest) {
                            None => None,
                            Some((v, ll)) => {
                                if v > u64::MAX {
                                    None
                                } else {
                                    pb_parse(rest.skip(ll as int))
                                }
                            },
                        }
                    } else {
                        None
                    }
                }
            },
        }
    }
}

#[via_fn]
proof fn pb_parse_decreases(s: Seq<u8>) {
    lemma_varint_dec_bounds(s);
    if s.len() > 0 {
        match varint_dec(s) {
            None => {},
            Some((key, kl)) => {
                lemma_varint_dec_bounds(s.skip(kl as int));
            },
        }
    }
}

pub open spec fn fields_view(fields: Seq<(u64, Vec<u8>)>) -> Seq<(nat, Seq<u8>)> {
    fields.map_values(|f: (u64, Vec<u8>)| (f.0 as nat, f.1@))
}

/// Split a message into its fields; the executable counterpart of `pb_parse`.
fn pb_fields(buf: &[u8], from: usize) -> (r: Result<Vec<(u64, Vec<u8>)>, ProtoError>)
    requires
        from <= buf@.len(),
    ensures
        match r {
            Ok(fields) => pb_parse(buf@.skip(from as int)) == Some(fields_view(fields@)),
            Err(e) => e == ProtoError::DecodeError && pb_parse(buf@.skip(from as int)) is None,
        },
    decreases buf@.len() - from,
{
    let ghost s = buf@.skip(from as int);
    if from == buf.len() {
        let fields: Vec<(u64, Vec<u8>)> = Vec::new();
        proof {
            assert(s.len() == 0);
            assert(fields_view(fields@) =~~= Seq::<(nat, Seq<u8>)>::empty());
        }
        return Ok(fields);
    }
    let (key, kl) = match varint_decode(buf, from) {
        Ok(p) => p,
        Err(e) => {
            return Err(e);
        },
    };
    proof {
        assert(s.skip(kl as int) =~= buf@.skip(from as int + kl as int));
    }
    if key % 8 == 2 {
        let (len, ll) = match varint_decode(buf, from + kl) {
            Ok(p) => p,
            Err(e) => {
                return Err(e);
            },
        };
        let remaining = buf.len() - (from + kl) - ll;
        if len > remaining as u64 {
            return Err(ProtoError::DecodeError);
        }
        let start = from + kl + ll;
        let end = start + (len as usize);
        let payload = slice_to_vec(slice_subrange(buf, start, end));
        proof {
            let rest = s.skip(kl as int);
            assert(payload@ =~= rest.subrange(ll as int, ll as int + len as int));
            assert(rest.skip(ll as int + len as int) =~= buf@.skip(end as int));
        }
        match pb_fields(buf, end) {
            Ok(mut fields) => {
                let ghost tail_view = fields_view(fields@);
                fields.insert(0, (key / 8, payload));
                proof {
                    assert(fields_view(fields@) =~~= seq![(((key as nat) / 8), payload@)]
                        + tail_view);
                }
                Ok(fields)
            },
            Err(e) => Err(e),
        }
    } else if key % 8 == 0 {
        match varint_decode(buf, from + kl) {
            Ok((_v, ll)) => {
                proof {
                    assert(s.skip(kl as int).skip(ll as int) =~= buf@.skip(
                        from as int + kl as int + ll as int,
                    ));
                }
                pb_fields(buf, from + kl + ll)
            },
            Err(e) => Err(e),
        }
    } else {
        Err(ProtoError::DecodeError)
    }
}

/// Append one length-delimited field.
fn push_field(out: &mut Vec<u8>, fno: u64, data: &[u8])
    requires
        1 <= fno <= 15,
    ensures
        final(out)@ == old(out)@ + pb_field(fno as nat, data@),
{
    let mut key = varint_encode(fno * 8 + 2);
    out.append(&mut key);
    let mut len = varint_encode(data.len() as u64);
    out.append(&mut len);
    out.extend_from_slice(data);
    proof {
        assert(out@ =~= old(out)@ + pb_field(fno as nat, data@));
    }
}

/// A field round-trips through the parser, whatever well-formed fields follow.
pub proof fn lemma_pb_field_parse(fno: nat, data: Seq<u8>, rest: Seq<u8>)
    requires
        1 <= fno <= 15,
        data.len() <= u64::MAX,
    ensures
        pb_parse(pb_field(fno, data) + rest) == match pb_parse(rest) {
            None => None::<Seq<(nat, Seq<u8>)>>,
            Some(fs) => Some(seq![(fno, data)] + fs),
        },
{
    let key = fno * 8 + 2;
    let s = pb_field(fno, data) + rest;
    assert(s =~= varint_enc(key) + (varint_enc(data.len()) + (data + rest)));
    lemma_varint_roundtrip(key, varint_enc(data.len()) + (data + rest));
    lemma_varint_dec_bounds(s);
    let kl = varint_enc(key).len();
    assert(s.skip(kl as int) =~= varint_enc(data.len()) + (data + rest));
    lemma_varint_roundtrip(data.len(), data + rest);
    let rest1 = s.skip(kl as int);
    let ll = varint_enc(data.len()).len();
    assert(rest1.len() >= ll + data.len());
    assert(rest1.subrange(ll as int, ll as int + data.len() as int) =~= data);
    assert(rest1.skip(ll as int + data.len() as int) =~= rest);
    assert(key % 8 == 2 && key / 8 == fno) by (nonlinear_arith)
        requires
            key == fno * 8 + 2,
    ;
}

// ---------------------------------------------------------------------------
// The three schema messages.
// ---------------------------------------------------------------------------

/// `Open { 1: bytes discovery_key; 2: optional bytes capability }`
#[derive(Clone, Debug, PartialEq, Eq)]
pub struct Open {
    pub discovery_key: Vec<u8>,
    pub capability: Option<Vec<u8>>,
}

/// `Close { 1: optional bytes discovery_key }`
#[derive(Clone, Debug, PartialEq, Eq)]
pub struct Close {
    pub discovery_key: Option<Vec<u8>>,
}

/// An always-present bytes field is omitted when empty; an optional field is
/// written whenever it is `Some`.
pub open spec fn open_enc(dkey: Seq<u8>, cap: Option<Seq<u8>>) -> Seq<u8> {
    (if dkey.len() == 0 {
        Seq::<u8>::empty()
    } else {
        pb_field(1, dkey)
    }) + (match cap {
        Some(c) => pb_field(2, c),
        None => Seq::<u8>::empty(),
    })
}

pub open spec fn close_enc(dkey: Option<Seq<u8>>) -> Seq<u8> {
    match dkey {
        Some(d) => pb_field(1, d),
        None => Seq::<u8>::empty(),
    }
}

/// `NoisePayload { 1: bytes nonce }`
pub open spec fn noise_payload_enc(nonce: Seq<u8>) -> Seq<u8> {
    if nonce.len() == 0 {
        Seq::<u8>::empty()
    } else {
        pb_field(1, nonce)
    }
}

/// Singular protobuf fields: the last occurrence of a field wins.
pub open spec fn open_fold(fields: Seq<(nat, Seq<u8>)>, dkey: Seq<u8>, cap: Option<Seq<u8>>) -> (
    Seq<u8>,
    Option<Seq<u8>>,
)
    decreases fields.len(),
{
    if fields.len() == 0 {
        (dkey, cap)
    } else {
        let f = fields[0];
        if f.0 == 1 {
            open_fold(fields.skip(1), f.1, cap)
        } else if f.0 == 2 {
            open_fold(fields.skip(1), dkey, Some(f.1))
        } else {
            open_fold(fields.skip(1), dkey, cap)
        }
    }
}

pub open spec fn open_dec(s: Seq<u8>) -> Option<(Seq<u8>, Option<Seq<u8>>)> {
    match pb_parse(s) {
        None => None,
        Some(fs) => Some(open_fold(fs, Seq::empty(), None)),
    }
}

pub open spec fn close_fold(fields: Seq<(nat, Seq<u8>)>, dkey: Option<Seq<u8>>) -> Option<Seq<u8>>
    decreases fields.len(),
{
    if fields.len() == 0 {
        dkey
    } else {
        let f = fields[0];
        if f.0 == 1 {
            close_fold(fields.skip(1), Some(f.1))
        } else {
            close_fold(fields.skip(1), dkey)
        }
    }
}

pub open spec fn close_dec(s: Seq<u8>) -> Option<Option<Seq<u8>>> {
    match pb_parse(s) {
        None => None,
        Some(fs) => Some(close_fold(fs, None)),
    }
}

pub open spec fn nonce_fold(fields: Seq<(nat, Seq<u8>)>, nonce: Seq<u8>) -> Seq<u8>
    decreases fields.len(),
{
    if fields.len() == 0 {
        nonce
    } else {
        let f = fields[0];
        if f.0 == 1 {
            nonce_fold(fields.skip(1), f.1)
        } else {
            nonce_fold(fields.skip(1), nonce)
        }
    }
}

pub open spec fn nonce_dec(s: Seq<u8>) -> Option<Seq<u8>> {
    match pb_parse(s) {
        None => None,
        Some(fs) => Some(nonce_fold(fs, Seq::empty())),
    }
}

impl Open {
    pub fn encode(&self) -> (r: Vec<u8>)
        ensures
            r@ == open_enc(self.discovery_key@, opt_view(self.capability)),
    {
        let mut out: Vec<u8> = Vec::new();
        if self.discovery_key.len() > 0 {
            push_field(&mut out, 1, self.discovery_key.as_slice());
        }
        match &self.capability {
            Some(cap) => push_field(&mut out, 2, cap.as_slice()),
            None => {},
        }
        proof {
            assert(out@ =~= open_enc(self.discovery_key@, opt_view(self.capability)));
        }
        out
    }

    pub fn decode(buf: &[u8]) -> (r: Result<Open, ProtoError>)
        ensures
            match r {
                Ok(o) => open_dec(buf@) == Some((o.discovery_key@, opt_view(o.capability))),
                Err(e) => e == ProtoError::DecodeError && open_dec(buf@) is None,
            },
    {
        proof {
            assert(buf@.skip(0) =~= buf@);
        }
        let mut fields = match pb_fields(buf, 0) {
            Ok(fs) => fs,
            Err(e) => {
                return Err(e);
            },
        };
        let ghost all = fields_view(fields@);
        let mut dkey: Vec<u8> = Vec::new();
        let mut cap: Option<Vec<u8>> = None;
        proof {
            assert(dkey@ =~= Seq::<u8>::empty());
        }
        while fields.len() > 0
            invariant
                open_fold(all, Seq::empty(), None) == open_fold(
                    fields_view(fields@),
                    dkey@,
                    opt_view(cap),
                ),
            decreases fields.len(),
        {
            let ghost pre = fields_view(fields@);
            let f = fields.remove(0);
            proof {
                assert(fields_view(fields@) =~~= pre.skip(1));
                assert(pre[0] == (f.0 as nat, f.1@));
            }
            if f.0 == 1 {
                dkey = f.1;
            } else if f.0 == 2 {
                cap = Some(f.1);
            }
        }
        proof {
            assert(fields_view(fields@) =~~= Seq::<(nat, Seq<u8>)>::empty());
        }
        Ok(Open { discovery_key: dkey, capability: cap })
    }
}

impl Close {
    pub fn encode(&self) -> (r: Vec<u8>)
        ensures
            r@ == close_enc(opt_view(self.discovery_key)),
    {
        let mut out: Vec<u8> = Vec::new();
        match &self.discovery_key {
            Some(d) => push_field(&mut out, 1, d.as_slice()),
            None => {},
        }
        proof {
            assert(out@ =~= close_enc(opt_view(self.discovery_key)));
        }
        out
    }

    pub fn decode(buf: &[u8]) -> (r: Result<Close, ProtoError>)
        ensures
            match r {
                Ok(c) => close_dec(buf@) == Some(opt_view(c.discovery_key)),
                Err(e) => e == ProtoError::DecodeError && close_dec(buf@) is None,
            },
    {
        proof {
            assert(buf@.skip(0) =~= buf@);
        }
        let mut fields = match pb_fields(buf, 0) {
            Ok(fs) => fs,
            Err(e) => {
                return Err(e);
            },
        };
        let ghost all = fields_view(fields@);
        let mut dkey: Option<Vec<u8>> = None;
        while fields.len() > 0
            invariant
                close_fold(all, None) == close_fold(fields_view(fields@), opt_view(dkey)),
            decreases fields.len(),
        {
            let ghost pre = fields_view(fields@);
            let f = fields.remove(0);
            proof {
                assert(fields_view(fields@) =~~= pre.skip(1));
                assert(pre[0] == (f.0 as nat, f.1@));
            }
            if f.0 == 1 {
                dkey = Some(f.1);
            }
        }
        proof {
            assert(fields_view(fields@) =~~= Seq::<(nat, Seq<u8>)>::empty());
        }
        Ok(Close { discovery_key: dkey })
    }
}

/// Encode a handshake payload carrying the local nonce.
pub fn encode_nonce_msg(nonce: &[u8]) -> (r: Vec<u8>)
    ensures
        r@ == noise_payload_enc(nonce@),
{
    let mut out: Vec<u8> = Vec::new();
    if nonce.len() > 0 {
        push_field(&mut out, 1, nonce);
    }
    proof {
        assert(out@ =~= noise_payload_enc(nonce@));
    }
    out
}

/// Decode a handshake payload into the peer's nonce.
pub fn decode_nonce_msg(msg: &[u8]) -> (r: Result<Vec<u8>, ProtoError>)
    ensures
        match r {
            Ok(nonce) => nonce_dec(msg@) == Some(nonce@),
            Err(e) => e == ProtoError::DecodeError && nonce_dec(msg@) is None,
        },
{
    proof {
        assert(msg@.skip(0) =~= msg@);
    }
    let mut fields = match pb_fields(msg, 0) {
        Ok(fs) => fs,
        Err(e) => {
            return Err(e);
        },
    };
    let ghost all = fields_view(fields@);
    let mut nonce: Vec<u8> = Vec::new();
    proof {
        assert(nonce@ =~= Seq::<u8>::empty());
    }
    while fields.len() > 0
        invariant
            nonce_fold(all, Seq::empty()) == nonce_fold(fields_view(fields@), nonce@),
        decreases fields.len(),
    {
        let ghost pre = fields_view(fields@);
        let f = fields.remove(0);
        proof {
            assert(fields_view(fields@) =~~= pre.skip(1));
            assert(pre[0] == (f.0 as nat, f.1@));
        }
        if f.0 == 1 {
            nonce = f.1;
        }
    }
    proof {
        assert(fields_view(fields@) =~~= Seq::<(nat, Seq<u8>)>::empty());
    }
    Ok(nonce)
}

// ---------------------------------------------------------------------------
// Round trips of the schema messages.
// ---------------------------------------------------------------------------

/// An `Open` decodes back to the discovery key and capability it carried.
pub proof fn lemma_open_roundtrip(dkey: Seq<u8>, cap: Option<Seq<u8>>)
    requires
        dkey.len() <= u64::MAX,
        match cap {
            Some(c) => c.len() <= u64::MAX,
            None => true,
        },
    ensures
        open_dec(open_enc(dkey, cap)) == Some((dkey, cap)),
{
    reveal_with_fuel(open_fold, 4);
    assert(pb_parse(Seq::<u8>::empty()) == Some(Seq::<(nat, Seq<u8>)>::empty()));
    match cap {
        Some(c) => {
            lemma_pb_field_parse(2, c, Seq::empty());
            assert(pb_field(2, c) + Seq::<u8>::empty() =~= pb_field(2, c));
            if dkey.len() == 0 {
                assert(open_enc(dkey, cap) =~= pb_field(2, c));
                let fs = seq![(2 as nat, c)] + Seq::<(nat, Seq<u8>)>::empty();
                assert(fs.skip(1) =~= Seq::<(nat, Seq<u8>)>::empty());
                assert(open_fold(fs, Seq::empty(), None) == (Seq::<u8>::empty(), Some(c)));
                assert(dkey =~= Seq::<u8>::empty());
            } else {
                lemma_pb_field_parse(1, dkey, pb_field(2, c));
                assert(open_enc(dkey, cap) =~= pb_field(1, dkey) + pb_field(2, c));
                let fs1 = seq![(2 as nat, c)] + Seq::<(nat, Seq<u8>)>::empty();
                let fs = seq![(1 as nat, dkey)] + fs1;
                assert(fs.skip(1) =~= fs1);
                assert(fs1.skip(1) =~= Seq::<(nat, Seq<u8>)>::empty());
                assert(open_fold(fs, Seq::empty(), None) == (dkey, Some(c)));
            }
        },
        None => {
            if dkey.len() == 0 {
                assert(open_enc(dkey, cap) =~= Seq::<u8>::empty());
                assert(dkey =~= Seq::<u8>::empty());
            } else {
                lemma_pb_field_parse(1, dkey, Seq::empty());
                assert(open_enc(dkey, cap) =~= pb_field(1, dkey) + Seq::<u8>::empty());
                let fs = seq![(1 as nat, dkey)] + Seq::<(nat, Seq<u8>)>::empty();
                assert(fs.skip(1) =~= Seq::<(nat, Seq<u8>)>::empty());
                assert(open_fold(fs, Seq::empty(), None) == (dkey, None::<Seq<u8>>));
            }
        },
    }
}

/// A `Close` decodes back to the discovery key it carried, if any.
pub proof fn lemma_close_roundtrip(dkey: Option<Seq<u8>>)
    requires
        match dkey {
            Some(d) => d.len() <= u64::MAX,
            None => true,
        },
    ensures
        close_dec(close_enc(dkey)) == Some(dkey),
{
    reveal_with_fuel(close_fold, 3);
    assert(pb_parse(Seq::<u8>::empty()) == Some(Seq::<(nat, Seq<u8>)>::empty()));
    match dkey {
        Some(d) => {
            lemma_pb_field_parse(1, d, Seq::empty());
            assert(close_enc(dkey) =~= pb_field(1, d) + Seq::<u8>::empty());
            let fs = seq![(1 as nat, d)] + Seq::<(nat, Seq<u8>)>::empty();
            assert(fs.skip(1) =~= Seq::<(nat, Seq<u8>)>::empty());
        },
        None => {},
    }
}

/// A handshake payload decodes back to the nonce it carried.
pub proof fn lemma_nonce_roundtrip(nonce: Seq<u8>)
    requires
        nonce.len() <= u64::MAX,
    ensures
        nonce_dec(noise_payload_enc(nonce)) == Some(nonce),
{
    reveal_with_fuel(nonce_fold, 3);
    assert(pb_parse(Seq::<u8>::empty()) == Some(Seq::<(nat, Seq<u8>)>::empty()));
    if nonce.len() == 0 {
        assert(nonce =~= Seq::<u8>::empty());
    } else {
        lemma_pb_field_parse(1, nonce, Seq::empty());
        assert(noise_payload_enc(nonce) =~= pb_field(1, nonce) + Seq::<u8>::empty());
        let fs = seq![(1 as nat, nonce)] + Seq::<(nat, Seq<u8>)>::empty();
        assert(fs.skip(1) =~= Seq::<(nat, Seq<u8>)>::empty());
    }
}


// ---------------------------------------------------------------------------
// The post-handshake envelope and the typed messages inside it.
// ---------------------------------------------------------------------------

/// `varint(channel << 4 | type) || body`.
pub open spec fn wire_enc(channel: nat, typ: nat, body: Seq<u8>) -> Seq<u8> {
    varint_enc(channel * 16 + typ) + body
}

pub open spec fn wire_dec(s: Seq<u8>) -> Option<(nat, nat, Seq<u8>)> {
    match varint_dec(s) {
        Some(p) => if p.0 <= u64::MAX {
            Some((p.0 / 16, p.0 % 16, s.skip(p.1 as int)))
        } else {
            None
        },
        None => None,
    }
}

/// The envelope round-trips for any channel and four-bit type.
pub proof fn lemma_wire_roundtrip(channel: nat, typ: nat, body: Seq<u8>)
    requires
        typ < 16,
        channel * 16 + typ <= u64::MAX,
    ensures
        wire_dec(wire_enc(channel, typ, body)) == Some((channel, typ, body)),
{
    let h = channel * 16 + typ;
    lemma_varint_roundtrip(h, body);
    assert((varint_enc(h) + body).skip(varint_enc(h).len() as int) =~= body);
    assert(h / 16 == channel && h % 16 == typ) by (nonlinear_arith)
        requires
            h == channel * 16 + typ,
            typ < 16,
    ;
}

/// A decoded envelope: the sender's channel id, the four-bit type tag, and
/// the body bytes.
#[derive(Clone, Debug, PartialEq, Eq)]
pub struct WireMessage {
    pub channel: u64,
    pub typ: u64,
    pub message: Vec<u8>,
}

impl WireMessage {
    /// Split a frame payload into channel, type and body.
    pub fn from_buf(buf: &[u8]) -> (r: Result<WireMessage, ProtoError>)
        ensures
            match r {
                Ok(w) => {
                    &&& wire_dec(buf@) == Some((w.channel as nat, w.typ as nat, w.message@))
                    &&& w.typ < 16
                },
                Err(e) => e == ProtoError::DecodeError && wire_dec(buf@) is None,
            },
    {
        proof {
            assert(buf@.skip(0) =~= buf@);
        }
        let (header, c) = match varint_decode(buf, 0) {
            Ok(p) => p,
            Err(e) => {
                return Err(e);
            },
        };
        let message = slice_to_vec(slice_subrange(buf, c, buf.len()));
        proof {
            assert(message@ =~= buf@.skip(c as int));
            assert((header / 16) as nat == (header as nat) / 16);
            assert((header % 16) as nat == (header as nat) % 16);
        }
        Ok(WireMessage { channel: header / 16, typ: header % 16, message })
    }

    /// Produce the envelope bytes. The type must fit in four bits and the
    /// header varint in a `u64`.
    pub fn encode(&self) -> (r: Result<Vec<u8>, ProtoError>)
        ensures
            match r {
                Ok(v) => {
                    &&& self.typ < 16
                    &&& self.channel * 16 + self.typ <= u64::MAX
                    &&& v@ == wire_enc(self.channel as nat, self.typ as nat, self.message@)
                },
                Err(e) => {
                    &&& e == ProtoError::DecodeError
                    &&& (self.typ >= 16 || self.channel * 16 + self.typ > u64::MAX)
                },
            },
    {
        if self.typ >= 16 {
            return Err(ProtoError::DecodeError);
        }
        if self.channel > (u64::MAX - self.typ) / 16 {
            proof {
                assert(self.channel * 16 + self.typ > u64::MAX) by (nonlinear_arith)
                    requires
                        self.channel > (u64::MAX - self.typ) / 16,
                        self.typ < 16,
                ;
            }
            return Err(ProtoError::DecodeError);
        }
        proof {
            assert(self.channel * 16 + self.typ <= u64::MAX) by (nonlinear_arith)
                requires
                    self.channel <= (u64::MAX - self.typ) / 16,
                    self.typ < 16,
            ;
        }
        let mut out = varint_encode(self.channel * 16 + self.typ);
        out.extend_from_slice(self.message.as_slice());
        proof {
            assert(out@ =~= wire_enc(self.channel as nat, self.typ as nat, self.message@));
        }
        Ok(out)
    }
}

/// A typed protocol message: the control messages, the reserved extension
/// tag, and application messages forwarded verbatim.
#[derive(Clone, Debug, PartialEq, Eq)]
pub enum Message {
    Open(Open),
    Close(Close),
    Extension(Vec<u8>),
    Application { typ: u64, bytes: Vec<u8> },
}

pub enum MessageView {
    Open { discovery_key: Seq<u8>, capability: Option<Seq<u8>> },
    Close { discovery_key: Option<Seq<u8>> },
    Extension(Seq<u8>),
    Application { typ: nat, bytes: Seq<u8> },
}

impl View for Message {
    type V = MessageView;

    open spec fn view(&self) -> MessageView {
        match self {
            Message::Open(o) => MessageView::Open {
                discovery_key: o.discovery_key@,
                capability: opt_view(o.capability),
            },
            Message::Close(c) => MessageView::Close { discovery_key: opt_view(c.discovery_key) },
            Message::Extension(b) => MessageView::Extension(b@),
            Message::Application { typ, bytes } => MessageView::Application {
                typ: *typ as nat,
                bytes: bytes@,
            },
        }
    }
}

/// What each type tag decodes to; tags 2 through 14 are application traffic.
pub open spec fn message_dec(typ: nat, body: Seq<u8>) -> Option<MessageView> {
    if typ == 0 {
        match open_dec(body) {
            Some(p) => Some(MessageView::Open { discovery_key: p.0, capability: p.1 }),
            None => None,
        }
    } else if typ == 1 {
        match close_dec(body) {
            Some(d) => Some(MessageView::Close { discovery_key: d }),
            None => None,
        }
    } else if typ == 15 {
        Some(MessageView::Extension(body))
    } else if typ < 16 {
        Some(MessageView::Application { typ, bytes: body })
    } else {
        None
    }
}

impl Message {
    /// The four-bit type tag of this message.
    pub open spec fn typ_spec(&self) -> nat {
        match self {
            Message::Open(_) => 0,
            Message::Close(_) => 1,
            Message::Extension(_) => 15,
            Message::Application { typ, .. } => *typ as nat,
        }
    }

    /// An encodable message: an application tag must not collide with the
    /// control tags.
    pub open spec fn valid(&self) -> bool {
        match self {
            Message::Application { typ, .. } => 2 <= *typ <= 14,
            _ => true,
        }
    }

    pub open spec fn body_spec(&self) -> Seq<u8> {
        match self {
            Message::Open(o) => open_enc(o.discovery_key@, opt_view(o.capability)),
            Message::Close(c) => close_enc(opt_view(c.discovery_key)),
            Message::Extension(b) => b@,
            Message::Application { bytes, .. } => bytes@,
        }
    }

    pub fn typ(&self) -> (r: u64)
        ensures
            r as nat == self.typ_spec(),
    {
        match self {
            Message::Open(_) => 0,
            Message::Close(_) => 1,
            Message::Extension(_) => 15,
            Message::Application { typ, .. } => *typ,
        }
    }

    /// Encode the message body alone.
    pub fn encode_body(&self) -> (r: Vec<u8>)
        ensures
            r@ == self.body_spec(),
    {
        match self {
            Message::Open(o) => o.encode(),
            Message::Close(c) => c.encode(),
            Message::Extension(b) => {
                let mut out: Vec<u8> = Vec::new();
                out.extend_from_slice(b.as_slice());
                proof {
                    assert(out@ =~= b@);
                }
                out
            },
            Message::Application { bytes, .. } => {
                let mut out: Vec<u8> = Vec::new();
                out.extend_from_slice(bytes.as_slice());
                proof {
                    assert(out@ =~= bytes@);
                }
                out
            },
        }
    }

    /// Encode the full envelope for channel `ch`.
    pub fn encode(&self, ch: u64) -> (r: Result<Vec<u8>, ProtoError>)
        ensures
            match r {
                Ok(v) => {
                    &&& self.valid()
                    &&& ch * 16 + self.typ_spec() <= u64::MAX
                    &&& v@ == wire_enc(ch as nat, self.typ_spec(), self.body_spec())
                },
                Err(e) => {
                    &&& e == ProtoError::DecodeError
                    &&& (!self.valid() || ch * 16 + self.typ_spec() > u64::MAX)
                },
            },
    {
        match self {
            Message::Application { typ, .. } => {
                if *typ < 2 || *typ > 14 {
                    return Err(ProtoError::DecodeError);
                }
            },
            _ => {},
        }
        let body = self.encode_body();
        let w = WireMessage { channel: ch, typ: self.typ(), message: body };
        w.encode()
    }

    /// Decode a message body against its type tag.
    pub fn decode(typ: u64, bytes: Vec<u8>) -> (r: Result<Message, ProtoError>)
        ensures
            match r {
                Ok(m) => message_dec(typ as nat, bytes@) == Some(m@),
                Err(e) => e == ProtoError::DecodeError && message_dec(typ as nat, bytes@) is None,
            },
    {
        if typ == 0 {
            match Open::decode(bytes.as_slice()) {
                Ok(o) => Ok(Message::Open(o)),
                Err(e) => Err(e),
            }
        } else if typ == 1 {
            match Close::decode(bytes.as_slice()) {
                Ok(c) => Ok(Message::Close(c)),
                Err(e) => Err(e),
            }
        } else if typ == 15 {
            Ok(Message::Extension(bytes))
        } else if typ < 16 {
            Ok(Message::Application { typ, bytes })
        } else {
            Err(ProtoError::DecodeError)
        }
    }
}

/// Sizes under which every message body round-trips.
pub open spec fn message_sizes_ok(m: Message) -> bool {
    match m {
        Message::Open(o) => o.discovery_key@.len() <= u64::MAX && match o.capability {
            Some(c) => c@.len() <= u64::MAX,
            None => true,
        },
        Message::Close(c) => match c.discovery_key {
            Some(d) => d@.len() <= u64::MAX,
            None => true,
        },
        _ => true,
    }
}

/// A valid message decodes back to itself from its own tag and body.
pub proof fn lemma_message_roundtrip(m: Message)
    requires
        m.valid(),
        message_sizes_ok(m),
    ensures
        message_dec(m.typ_spec(), m.body_spec()) == Some(m@),
{
    match m {
        Message::Open(o) => {
            lemma_open_roundtrip(o.discovery_key@, opt_view(o.capability));
        },
        Message::Close(c) => {
            lemma_close_roundtrip(opt_view(c.discovery_key));
        },
        Message::Extension(_) => {},
        Message::Application { .. } => {},
    }
}

} // verus!
