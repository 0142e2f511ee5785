use vstd::prelude::*;

use crate::channels::{Channelizer, ChannelInfoV};
use crate::crypto::{discovery_key, dkey_spec, keystream_xor, mac_of, Cipher};
use crate::error::ProtoError;
use crate::frame::{frame_enc, frame_feed, FrameReader};
use crate::handshake::{Handshake, HandshakeResult};
use crate::wire::{open_enc, opt_view, wire_enc, Close, Message, MessageView, Open, WireMessage};
use vstd::slice::slice_to_vec;

verus! {

/// What `next` hands the caller: the handshake finished, a remote channel
/// announcement for a key this side does not hold, or a channel that became
/// usable.
#[derive(Debug)]
pub enum Event {
    Handshake(Vec<u8>),
    DiscoveryKey(Vec<u8>),
    Channel(Channel),
}

/// The engine's side of a usable channel: its discovery key and the local
/// id its traffic runs under. The queue endpoints that applications read
/// and write live with the driver that runs the event loop.
#[derive(Debug)]
pub struct Channel {
    discovery_key: Vec<u8>,
    local_id: u64,
}

impl Channel {
    pub closed spec fn dkey_of(&self) -> Seq<u8> {
        self.discovery_key@
    }

    pub closed spec fn id_of(&self) -> u64 {
        self.local_id
    }

    pub fn discovery_key(&self) -> (r: &[u8])
        ensures
            r@ == self.dkey_of(),
    {
        self.discovery_key.as_slice()
    }

    pub fn local_id(&self) -> (r: u64)
        ensures
            r == self.id_of(),
    {
        self.local_id
    }
}

/// The spec image of an event.
pub enum EventV {
    Handshake(Seq<u8>),
    DiscoveryKey(Seq<u8>),
    Channel { discovery_key: Seq<u8>, local_id: u64 },
}

impl View for Event {
    type V = EventV;

    open spec fn view(&self) -> EventV {
        match self {
            Event::Handshake(k) => EventV::Handshake(k@),
            Event::DiscoveryKey(d) => EventV::DiscoveryKey(d@),
            Event::Channel(c) => EventV::Channel {
                discovery_key: c.dkey_of(),
                local_id: c.id_of(),
            },
        }
    }
}

/// Options for a Protocol instance.
#[derive(Clone, Copy, Debug)]
pub struct ProtocolOptions {
    pub is_initiator: bool,
    pub noise: bool,
    pub encrypted: bool,
}

/// Build a Protocol instance with options.
pub struct ProtocolBuilder(pub ProtocolOptions);

impl ProtocolBuilder {
    pub fn new(is_initiator: bool) -> (r: Self)
        ensures
            r.0.is_initiator == is_initiator,
            r.0.noise,
            r.0.encrypted,
    {
        Self(ProtocolOptions { is_initiator, noise: true, encrypted: true })
    }

    /// Default options for an initiating endpoint.
    pub fn initiator() -> (r: Self)
        ensures
            r.0.is_initiator,
            r.0.noise,
            r.0.encrypted,
    {
        Self::new(true)
    }

    /// Default options for a responding endpoint.
    pub fn responder() -> (r: Self)
        ensures
            !r.0.is_initiator,
            r.0.noise,
            r.0.encrypted,
    {
        Self::new(false)
    }

    pub fn set_encrypted(self, encrypted: bool) -> (r: Self)
        ensures
            r.0.encrypted == encrypted,
            r.0.noise == self.0.noise,
            r.0.is_initiator == self.0.is_initiator,
    {
        let mut opts = self.0;
        opts.encrypted = encrypted;
        Self(opts)
    }

    pub fn set_noise(self, noise: bool) -> (r: Self)
        ensures
            r.0.noise == noise,
            r.0.encrypted == self.0.encrypted,
            r.0.is_initiator == self.0.is_initiator,
    {
        let mut opts = self.0;
        opts.noise = noise;
        Self(opts)
    }

    /// The engine these options describe. The byte transport stays with the
    /// caller: it feeds `on_input` and writes out `take_outbound`.
    pub fn build(self) -> (r: Protocol)
        ensures
            r.wf(),
            r.options_spec() == self.0,
            r.is_not_initialized(),
            r.error_spec() is None,
            r.events_spec() == Seq::<EventV>::empty(),
            r.outbound_spec() == Seq::<u8>::empty(),
            r.inbound_spec() == Seq::<(u64, MessageView)>::empty(),
            r.closed_spec() == Seq::<Seq<u8>>::empty(),
            r.chan().recs() == Seq::<ChannelInfoV>::empty(),
            r.read_cipher_spec() is None,
            r.write_cipher_spec() is None,
            r.hash_spec() is None,
            r.reader_spec() == crate::frame::init_state(),
    {
        Protocol::new(self.0)
    }
}

/// Commands a wrapper object sends into the event loop.
pub enum ControlEvent {
    Open(Vec<u8>),
}

/// Protocol state: the handshake object is consumed by the state machine,
/// so an established session cannot fall back.
pub enum State {
    NotInitialized,
    Handshake(Handshake),
    Established,
}

/// The protocol engine: the state machine between raw transport bytes on
/// one side and events, channel messages and outbound bytes on the other.
pub struct Protocol {
    options: ProtocolOptions,
    state: State,
    handshake: Option<HandshakeResult>,
    channels: Channelizer,
    error: Option<ProtoError>,
    reader: FrameReader,
    read_cipher: Option<Cipher>,
    write_cipher: Option<Cipher>,
    outbound: Vec<u8>,
    events: Vec<Event>,
    inbound: Vec<(u64, Message)>,
    closed: Vec<Vec<u8>>,
}

impl Protocol {
    pub closed spec fn wf(&self) -> bool {
        &&& self.channels.wf()
        &&& self.reader.wf()
        &&& match self.state {
            State::Handshake(h) => {
                &&& h.wf()
                &&& self.options.noise
                &&& h.initiator() == self.options.is_initiator
                &&& (h.initiator() ==> h.stage() == 1)
                &&& (!h.initiator() ==> h.stage() == 0 || h.stage() == 2)
            },
            _ => true,
        }
        &&& !(self.state is Established) ==> self.read_cipher is None && self.write_cipher is None
            && self.handshake is None
        &&& match self.handshake {
            Some(hr) => hr.wf(),
            None => true,
        }
        &&& match self.read_cipher {
            Some(c) => c.wf(),
            None => true,
        }
        &&& match self.write_cipher {
            Some(c) => c.wf(),
            None => true,
        }
    }

    pub closed spec fn options_spec(&self) -> ProtocolOptions {
        self.options
    }

    pub closed spec fn is_not_initialized(&self) -> bool {
        self.state is NotInitialized
    }

    pub closed spec fn is_handshaking(&self) -> bool {
        self.state is Handshake
    }

    pub closed spec fn is_established(&self) -> bool {
        self.state is Established
    }

    pub closed spec fn error_spec(&self) -> Option<ProtoError> {
        self.error
    }

    pub closed spec fn chan(&self) -> Channelizer {
        self.channels
    }

    pub closed spec fn events_spec(&self) -> Seq<EventV> {
        self.events@.map_values(|e: Event| e@)
    }

    pub closed spec fn outbound_spec(&self) -> Seq<u8> {
        self.outbound@
    }

    /// The decoded application messages waiting for delivery, oldest first.
    pub closed spec fn inbound_spec(&self) -> Seq<(u64, MessageView)> {
        self.inbound@.map_values(|p: (u64, Message)| (p.0, p.1@))
    }

    /// The discovery keys of channels the peer closed, oldest first.
    pub closed spec fn closed_spec(&self) -> Seq<Seq<u8>> {
        self.closed.deep_view()
    }

    pub closed spec fn write_cipher_spec(&self) -> Option<Cipher> {
        self.write_cipher
    }

    pub closed spec fn read_cipher_spec(&self) -> Option<Cipher> {
        self.read_cipher
    }

    /// The frame decoder's state on the inbound byte stream.
    pub closed spec fn reader_spec(&self) -> crate::frame::DecodeState {
        self.reader@
    }

    /// The stored transport keys and nonces, once established.
    pub closed spec fn split_tx_spec(&self) -> Option<Seq<u8>> {
        match self.handshake {
            Some(h) => Some(h.split_tx@),
            None => None,
        }
    }

    pub closed spec fn split_rx_spec(&self) -> Option<Seq<u8>> {
        match self.handshake {
            Some(h) => Some(h.split_rx@),
            None => None,
        }
    }

    pub closed spec fn local_nonce_spec(&self) -> Option<Seq<u8>> {
        match self.handshake {
            Some(h) => Some(h.local_nonce@),
            None => None,
        }
    }

    pub closed spec fn remote_nonce_spec(&self) -> Option<Seq<u8>> {
        match self.handshake {
            Some(h) => Some(h.remote_nonce@),
            None => None,
        }
    }

    /// The remote static key, once the handshake delivered it.
    pub closed spec fn remote_key_spec(&self) -> Option<Seq<u8>> {
        match self.handshake {
            Some(h) => Some(h.remote_pubkey@),
            None => None,
        }
    }

    /// The handshake hash capabilities are bound to, once established.
    pub closed spec fn hash_spec(&self) -> Option<Seq<u8>> {
        match self.handshake {
            Some(h) => Some(h.handshake_hash@),
            None => None,
        }
    }

    /// The capability this side announces for `key`.
    pub open spec fn capability_spec(&self, key: Seq<u8>) -> Option<Seq<u8>> {
        match self.hash_spec() {
            Some(hash) => Some(mac_of(hash, key)),
            None => None,
        }
    }

    /// When a remote capability for `key` is accepted: under noise it must
    /// be this session's MAC of `key`; without noise verification is a
    /// no-op.
    pub open spec fn cap_ok_spec(&self, cap: Option<Seq<u8>>, key: Seq<u8>) -> bool {
        match self.hash_spec() {
            Some(hash) => cap matches Some(c) && c == mac_of(hash, key),
            None => !self.options_spec().noise,
        }
    }

    /// Create a new Protocol instance.
    pub fn new(options: ProtocolOptions) -> (r: Protocol)
        ensures
            r.wf(),
            r.options_spec() == options,
            r.is_not_initialized(),
            r.error_spec() is None,
            r.events_spec() == Seq::<EventV>::empty(),
            r.outbound_spec() == Seq::<u8>::empty(),
            r.inbound_spec() == Seq::<(u64, MessageView)>::empty(),
            r.closed_spec() == Seq::<Seq<u8>>::empty(),
            r.chan().recs() == Seq::<ChannelInfoV>::empty(),
            r.chan().counter() == 0,
            r.read_cipher_spec() is None,
            r.write_cipher_spec() is None,
            r.hash_spec() is None,
            r.reader_spec() == crate::frame::init_state(),
    {
        let p = Protocol {
            options,
            state: State::NotInitialized,
            handshake: None,
            channels: Channelizer::new(),
            error: None,
            reader: FrameReader::new(),
            read_cipher: None,
            write_cipher: None,
            outbound: Vec::new(),
            events: Vec::new(),
            inbound: Vec::new(),
            closed: Vec::new(),
        };
        proof {
            assert(p.events_spec() =~= Seq::<EventV>::empty());
            assert(p.inbound_spec() =~~= Seq::<(u64, MessageView)>::empty());
            assert(p.closed_spec() =~~= Seq::<Seq<u8>>::empty());
        }
        p
    }

    /// Start the session: under noise, build the handshake and queue its
    /// first flight; otherwise the session is established at once.
    /// Idempotent.
    pub fn init(&mut self) -> (r: Result<(), ProtoError>)
        requires
            old(self).wf(),
        ensures
            final(self).wf(),
            final(self).options_spec() == old(self).options_spec(),
            !old(self).is_not_initialized() ==> {
                &&& final(self).is_established() == old(self).is_established()
                &&& final(self).is_handshaking() == old(self).is_handshaking()
                &&& final(self).outbound_spec() == old(self).outbound_spec()
                &&& final(self).events_spec() == old(self).events_spec()
                &&& final(self).chan() == old(self).chan()
            },
            // Success is owed whenever no fresh handshake has to be built:
            // on re-initialization, and without noise.
            !old(self).is_not_initialized() ==> r is Ok,
            old(self).is_not_initialized() && !old(self).options_spec().noise ==> r is Ok,
            match r {
                Ok(()) => {
                    &&& old(self).is_not_initialized() && !old(self).options_spec().noise ==> final(self).is_established()
                    &&& old(self).is_not_initialized() && old(self).options_spec().noise ==> final(self).is_handshaking()
                    // Only the initiator speaks first, with exactly one
                    // length-prefixed frame.
                    &&& old(self).is_not_initialized() && old(self).options_spec().noise && old(
                        self,
                    ).options_spec().is_initiator ==> exists|b: Seq<u8>|
                        b.len() <= 65535 && final(self).outbound_spec() == old(self).outbound_spec()
                            + #[trigger] frame_enc(b)
                    &&& !(old(self).is_not_initialized() && old(self).options_spec().noise && old(
                        self,
                    ).options_spec().is_initiator) ==> final(self).outbound_spec() == old(
                        self,
                    ).outbound_spec()
                },
                Err(e) => e == ProtoError::HandshakeError || e == ProtoError::TransportError,
            },
    {
        match self.state {
            State::NotInitialized => {},
            _ => {
                return Ok(());
            },
        }
        if self.options.noise {
            let mut handshake = match Handshake::new(self.options.is_initiator) {
                Ok(h) => h,
                Err(e) => {
                    return Err(e);
                },
            };
            let out = match handshake.start() {
                Ok(out) => out,
                Err(e) => {
                    return Err(e);
                },
            };
            match out {
                Some(buf) => {
                    proof {
                        crate::varint::lemma_varint_enc_len(buf@.len());
                    }
                    match self.send_prefixed(buf) {
                        Ok(()) => {},
                        Err(e) => {
                            return Err(e);
                        },
                    }
                },
                None => {},
            }
            self.state = State::Handshake(handshake);
        } else {
            self.state = State::Established;
        }
        Ok(())
    }

    pub fn remote_key(&self) -> (r: Option<&[u8]>)
        ensures
            match r {
                Some(k) => self.remote_key_spec() == Some(k@),
                None => self.remote_key_spec() is None,
            },
    {
        match &self.handshake {
            None => None,
            Some(handshake) => Some(handshake.remote_pubkey.as_slice()),
        }
    }

    /// Latch a fatal session error; everything else stays as it was.
    pub fn destroy(&mut self, error: ProtoError)
        requires
            old(self).wf(),
        ensures
            final(self).wf(),
            final(self).error_spec() == Some(error),
            final(self).options_spec() == old(self).options_spec(),
            final(self).is_not_initialized() == old(self).is_not_initialized(),
            final(self).is_handshaking() == old(self).is_handshaking(),
            final(self).is_established() == old(self).is_established(),
            final(self).chan() == old(self).chan(),
            final(self).events_spec() == old(self).events_spec(),
            final(self).inbound_spec() == old(self).inbound_spec(),
            final(self).closed_spec() == old(self).closed_spec(),
            final(self).outbound_spec() == old(self).outbound_spec(),
            final(self).hash_spec() == old(self).hash_spec(),
            final(self).remote_key_spec() == old(self).remote_key_spec(),
    {
        self.error = Some(error);
    }

    /// The latched fatal error, if any.
    pub fn failure(&self) -> (r: Option<ProtoError>)
        ensures
            r == self.error_spec(),
    {
        self.error
    }

    /// Pop the next pending user-visible event.
    pub fn poll_event(&mut self) -> (r: Option<Event>)
        requires
            old(self).wf(),
        ensures
            final(self).wf(),
            match r {
                Some(e) => old(self).events_spec().len() > 0 && e@ == old(self).events_spec()[0]
                    && final(self).events_spec() == old(self).events_spec().skip(1),
                None => old(self).events_spec().len() == 0 && final(self).events_spec() == old(self).events_spec(),
            },
            final(self).outbound_spec() == old(self).outbound_spec(),
    {
        if self.events.len() == 0 {
            return None;
        }
        let e = self.events.remove(0);
        proof {
            assert(final(self).events_spec() =~= old(self).events_spec().skip(1));
        }
        Some(e)
    }

    /// Drain the bytes waiting to go out on the transport.
    pub fn take_outbound(&mut self) -> (r: Vec<u8>)
        requires
            old(self).wf(),
        ensures
            final(self).wf(),
            r@ == old(self).outbound_spec(),
            final(self).outbound_spec() == Seq::<u8>::empty(),
            final(self).events_spec() == old(self).events_spec(),
    {
        let mut out: Vec<u8> = Vec::new();
        core::mem::swap(&mut out, &mut self.outbound);
        proof {
            assert(final(self).outbound_spec() =~= Seq::<u8>::empty());
        }
        out
    }

    /// Drain the application messages decoded for channel handles, each
    /// under the local id of its channel, in arrival order.
    pub fn take_inbound(&mut self) -> (r: Vec<(u64, Message)>)
        requires
            old(self).wf(),
        ensures
            final(self).wf(),
            r@.map_values(|p: (u64, Message)| (p.0, p.1@)) == old(self).inbound_spec(),
            final(self).inbound_spec() == Seq::<(u64, MessageView)>::empty(),
    {
        let mut out: Vec<(u64, Message)> = Vec::new();
        core::mem::swap(&mut out, &mut self.inbound);
        proof {
            assert(final(self).inbound_spec() =~~= Seq::<(u64, MessageView)>::empty());
        }
        out
    }

    /// Drain the discovery keys of channels the peer closed.
    pub fn take_closed(&mut self) -> (r: Vec<Vec<u8>>)
        requires
            old(self).wf(),
        ensures
            final(self).wf(),
            r.deep_view() == old(self).closed_spec(),
            final(self).closed_spec() == Seq::<Seq<u8>>::empty(),
    {
        let mut out: Vec<Vec<u8>> = Vec::new();
        core::mem::swap(&mut out, &mut self.closed);
        proof {
            assert(final(self).closed_spec() =~~= Seq::<Seq<u8>>::empty());
        }
        out
    }

    /// Append raw bytes to the outbound stream, through the transport
    /// cipher once the session is encrypted.
    fn send_raw(&mut self, buf: Vec<u8>) -> (r: Result<(), ProtoError>)
        requires
            old(self).wf(),
        ensures
            final(self).wf(),
            final(self).closed_spec() == old(self).closed_spec(),
            final(self).read_cipher_spec() == old(self).read_cipher_spec(),
            final(self).reader_spec() == old(self).reader_spec(),
            final(self).error_spec() == old(self).error_spec(),
            final(self).inbound_spec() == old(self).inbound_spec(),
            final(self).events_spec() == old(self).events_spec(),
            final(self).options_spec() == old(self).options_spec(),
            final(self).chan() == old(self).chan(),
            final(self).is_established() == old(self).is_established(),
            final(self).is_not_initialized() == old(self).is_not_initialized(),
            final(self).is_handshaking() == old(self).is_handshaking(),
            final(self).hash_spec() == old(self).hash_spec(),
            match r {
                Ok(()) => match old(self).write_cipher_spec() {
                    None => final(self).outbound_spec() == old(self).outbound_spec() + buf@
                        && final(self).write_cipher_spec() is None,
                    Some(c) => final(self).outbound_spec() == old(self).outbound_spec()
                        + keystream_xor(c.key_spec(), c.iv_spec(), c.pos_spec(), buf@),
                },
                Err(e) => {
                    &&& e == ProtoError::TransportError
                    &&& old(self).write_cipher_spec() is Some
                    &&& final(self).outbound_spec() == old(self).outbound_spec()
                },
            },
    {
        let mut buf = buf;
        match &mut self.write_cipher {
            Some(c) => {
                match c.apply(&mut buf) {
                    Ok(()) => {},
                    Err(e) => {
                        return Err(e);
                    },
                }
            },
            None => {},
        }
        self.outbound.append(&mut buf);
        Ok(())
    }

    /// Frame and send one payload: its varint length prefix, then the bytes.
    fn send_prefixed(&mut self, buf: Vec<u8>) -> (r: Result<(), ProtoError>)
        requires
            old(self).wf(),
        ensures
            final(self).wf(),
            final(self).closed_spec() == old(self).closed_spec(),
            final(self).read_cipher_spec() == old(self).read_cipher_spec(),
            final(self).reader_spec() == old(self).reader_spec(),
            final(self).error_spec() == old(self).error_spec(),
            final(self).inbound_spec() == old(self).inbound_spec(),
            final(self).events_spec() == old(self).events_spec(),
            final(self).options_spec() == old(self).options_spec(),
            final(self).chan() == old(self).chan(),
            final(self).is_established() == old(self).is_established(),
            final(self).is_not_initialized() == old(self).is_not_initialized(),
            final(self).is_handshaking() == old(self).is_handshaking(),
            final(self).hash_spec() == old(self).hash_spec(),
            match r {
                Ok(()) => buf@.len() <= 65535 && match old(self).write_cipher_spec() {
                    None => final(self).outbound_spec() == old(self).outbound_spec() + frame_enc(
                        buf@,
                    ) && final(self).write_cipher_spec() is None,
                    Some(c) => final(self).outbound_spec() == old(self).outbound_spec()
                        + keystream_xor(c.key_spec(), c.iv_spec(), c.pos_spec(), frame_enc(buf@)),
                },
                Err(e) => {
                    &&& (e == ProtoError::TransportError || e == ProtoError::Oversized)
                    &&& (e == ProtoError::Oversized <==> buf@.len() > 65535)
                    &&& (e == ProtoError::TransportError ==> old(self).write_cipher_spec() is Some)
                    &&& final(self).outbound_spec() == old(self).outbound_spec()
                },
            },
    {
        if buf.len() > 65535 {
            return Err(ProtoError::Oversized);
        }
        let framed = crate::frame::with_delimiter(buf.as_slice());
        self.send_raw(framed)
    }

    /// A single keepalive ping: one zero byte on the stream.
    pub fn ping(&mut self) -> (r: Result<(), ProtoError>)
        requires
            old(self).wf(),
        ensures
            final(self).wf(),
            final(self).events_spec() == old(self).events_spec(),
            match r {
                Ok(()) => match old(self).write_cipher_spec() {
                    None => final(self).outbound_spec() == old(self).outbound_spec() + seq![0u8],
                    Some(c) => final(self).outbound_spec() == old(self).outbound_spec()
                        + keystream_xor(c.key_spec(), c.iv_spec(), c.pos_spec(), seq![0u8]),
                },
                Err(e) => {
                    &&& e == ProtoError::TransportError
                    &&& old(self).write_cipher_spec() is Some
                    &&& final(self).outbound_spec() == old(self).outbound_spec()
                },
            },
    {
        let buf: Vec<u8> = vec![0u8];
        assert(buf@ =~= seq![0u8]);
        self.send_raw(buf)
    }

    /// Encode a message under a channel id and send it as one frame.
    pub fn send(&mut self, ch: u64, msg: Message) -> (r: Result<(), ProtoError>)
        requires
            old(self).wf(),
        ensures
            final(self).wf(),
            final(self).closed_spec() == old(self).closed_spec(),
            final(self).read_cipher_spec() == old(self).read_cipher_spec(),
            final(self).reader_spec() == old(self).reader_spec(),
            final(self).error_spec() == old(self).error_spec(),
            final(self).inbound_spec() == old(self).inbound_spec(),
            final(self).events_spec() == old(self).events_spec(),
            final(self).chan() == old(self).chan(),
            final(self).is_established() == old(self).is_established(),
            final(self).is_not_initialized() == old(self).is_not_initialized(),
            final(self).is_handshaking() == old(self).is_handshaking(),
            final(self).options_spec() == old(self).options_spec(),
            final(self).hash_spec() == old(self).hash_spec(),
            match r {
                Ok(()) => {
                    &&& msg.valid()
                    &&& match old(self).write_cipher_spec() {
                        None => final(self).outbound_spec() == old(self).outbound_spec()
                            + frame_enc(wire_enc(ch as nat, msg.typ_spec(), msg.body_spec())),
                        Some(c) => final(self).outbound_spec() == old(self).outbound_spec()
                            + keystream_xor(
                            c.key_spec(),
                            c.iv_spec(),
                            c.pos_spec(),
                            frame_enc(wire_enc(ch as nat, msg.typ_spec(), msg.body_spec())),
                        ),
                    }
                },
                Err(e) => {
                    &&& (e == ProtoError::TransportError || e == ProtoError::DecodeError || e
                        == ProtoError::Oversized)
                    &&& (e == ProtoError::DecodeError ==> (!msg.valid() || ch * 16 + msg.typ_spec()
                        > u64::MAX))
                    &&& (e == ProtoError::Oversized ==> wire_enc(
                        ch as nat,
                        msg.typ_spec(),
                        msg.body_spec(),
                    ).len() > 65535)
                    &&& (e == ProtoError::TransportError ==> old(self).write_cipher_spec() is Some)
                    &&& final(self).outbound_spec() == old(self).outbound_spec()
                },
            },
    {
        let buf = match msg.encode(ch) {
            Ok(b) => b,
            Err(e) => {
                return Err(e);
            },
        };
        self.send_prefixed(buf)
    }

    /// Announce and, when the remote already announced it, complete a
    /// channel for `key`. Exactly the framed Open announcement goes out; a
    /// `Channel` event is queued exactly when the remote end is already
    /// attached and its stored capability verifies. A failure is fatal: it
    /// is latched and no event is raised.
    pub fn open(&mut self, key: Vec<u8>) -> (r: Result<(), ProtoError>)
        requires
            old(self).wf(),
            old(self).is_established(),
            key@.len() == 32,
        ensures
            final(self).wf(),
            final(self).is_established(),
            final(self).options_spec() == old(self).options_spec(),
            final(self).hash_spec() == old(self).hash_spec(),
            final(self).inbound_spec() == old(self).inbound_spec(),
            final(self).closed_spec() == old(self).closed_spec(),
            match r {
                Ok(()) => {
                    &&& final(self).error_spec() == old(self).error_spec()
                    &&& match (final(self).chan().rec_for(dkey_spec(key@)), old(self).chan().rec_for(dkey_spec(key@))) {
                        (Some(rec), pre) => {
                            &&& rec.key == Some(key@)
                            &&& (rec.local_id matches Some(id) && ({
                                let payload = wire_enc(
                                    id as nat,
                                    0,
                                    open_enc(dkey_spec(key@), old(self).capability_spec(key@)),
                                );
                                match old(self).write_cipher_spec() {
                                    None => final(self).outbound_spec() == old(self).outbound_spec()
                                        + frame_enc(payload),
                                    Some(c) => final(self).outbound_spec() == old(self).outbound_spec()
                                        + keystream_xor(
                                        c.key_spec(),
                                        c.iv_spec(),
                                        c.pos_spec(),
                                        frame_enc(payload),
                                    ),
                                }
                            }) && rec.remote_id == (match pre {
                                Some(r0) => r0.remote_id,
                                None => None,
                            }) && (match pre {
                                Some(r0) => match r0.remote_id {
                                    Some(_) => {
                                        &&& old(self).cap_ok_spec(r0.remote_capability, key@)
                                        &&& rec.opened
                                        &&& final(self).events_spec() == old(self).events_spec().push(
                                            EventV::Channel {
                                                discovery_key: dkey_spec(key@),
                                                local_id: id,
                                            },
                                        )
                                    },
                                    None => final(self).events_spec() == old(self).events_spec(),
                                },
                                None => final(self).events_spec() == old(self).events_spec(),
                            }))
                        },
                        (None, _) => false,
                    }
                },
                Err(e) => {
                    &&& final(self).error_spec() == Some(e)
                    &&& final(self).events_spec() == old(self).events_spec()
                    &&& (e == ProtoError::PermissionDenied || e == ProtoError::DecodeError || e
                        == ProtoError::TransportError)
                    &&& (e == ProtoError::PermissionDenied ==> match old(self).chan().rec_for(
                        dkey_spec(key@),
                    ) {
                        Some(r0) => r0.remote_id is Some && !old(self).cap_ok_spec(
                            r0.remote_capability,
                            key@,
                        ),
                        None => false,
                    })
                    &&& (e == ProtoError::TransportError ==> old(self).write_cipher_spec() is Some)
                    // Id-space exhaustion is the one decode failure.
                    &&& (e == ProtoError::DecodeError ==> (match old(self).chan().rec_for(
                        dkey_spec(key@),
                    ) {
                        Some(r0) => r0.local_id is None,
                        None => true,
                    }) && old(self).chan().counter() == crate::channels::MAX_LOCAL_IDS)
                },
            },
    {
        let dkey = discovery_key(key.as_slice());
        let ghost dk = dkey_spec(key@);
        let id = match self.channels.attach_local(key.as_slice()) {
            Ok(id) => id,
            Err(e) => {
                self.error = Some(e);
                return Err(e);
            },
        };
        let remote = match self.channels.get(dkey.as_slice()) {
            Some(info) => {
                match (&info.remote_id, &info.remote_capability) {
                    (Some(_), Some(c)) => Some(Some(slice_to_vec(c.as_slice()))),
                    (Some(_), None) => Some(None),
                    _ => None,
                }
            },
            None => None,
        };
        let pending_channel = match remote {
            Some(remote_capability) => {
                match self.verify_remote_capability(remote_capability, key.as_slice()) {
                    Ok(()) => {},
                    Err(e) => {
                        self.error = Some(e);
                        return Err(e);
                    },
                }
                let channel = match self.create_channel(id, dkey.as_slice()) {
                    Ok(c) => c,
                    Err(e) => {
                        // attach_local put a record for this key in place.
                        proof {
                            assert(false);
                        }
                        self.error = Some(e);
                        return Err(e);
                    },
                };
                Some(channel)
            },
            None => None,
        };
        let capability = self.capability(key.as_slice());
        let message = Message::Open(Open { discovery_key: dkey, capability });
        let ghost wire_len = wire_enc(id as nat, 0, message.body_spec()).len();
        proof {
            // An Open frame is small: a ten-byte header at most, then two
            // length-delimited 32-byte fields.
            crate::varint::lemma_varint_enc_len((id * 16) as nat);
            crate::varint::lemma_varint_enc_len(10);
            crate::varint::lemma_varint_enc_len(18);
            crate::varint::lemma_varint_enc_len(32);
            assert(wire_len <= 80);
        }
        match self.send(id, message) {
            Ok(()) => {},
            Err(e) => {
                if e == ProtoError::DecodeError {
                    // An Open message is always valid and local ids stay
                    // below the header bound, so the encoder cannot refuse.
                    proof {
                        assert(id * 16 + 0 <= u64::MAX) by (nonlinear_arith)
                            requires
                                id < 0x1000_0000_0000_0000u64,
                        ;
                    }
                    assert(false);
                }
                if e == ProtoError::Oversized {
                    assert(false);
                }
                self.error = Some(e);
                return Err(e);
            },
        }
        match pending_channel {
            Some(channel) => {
                let ghost pre_events = self.events_spec();
                self.events.push(Event::Channel(channel));
                proof {
                    assert(self.events_spec() =~= pre_events.push(
                        EventV::Channel { discovery_key: dk, local_id: id },
                    ));
                }
            },
            None => {},
        }
        Ok(())
    }

    /// The capability this side announces for `key`: the session MAC under
    /// noise, nothing without it.
    pub fn capability(&self, key: &[u8]) -> (r: Option<Vec<u8>>)
        requires
            self.wf(),
        ensures
            opt_view(r) == self.capability_spec(key@),
            match r {
                Some(c) => c@.len() == 32,
                None => true,
            },
    {
        match &self.handshake {
            Some(handshake) => handshake.capability(key),
            None => None,
        }
    }

    /// Accept a remote capability exactly when `cap_ok_spec` says so:
    /// the session MAC under noise, anything without noise.
    pub fn verify_remote_capability(&self, capability: Option<Vec<u8>>, key: &[u8]) -> (r: Result<
        (),
        ProtoError,
    >)
        requires
            self.wf(),
        ensures
            r is Ok <==> self.cap_ok_spec(opt_view(capability), key@),
            r is Err ==> r == Err::<(), ProtoError>(ProtoError::PermissionDenied),
    {
        match &self.handshake {
            Some(handshake) => handshake.verify_remote_capability(capability, key),
            None => {
                if self.options.noise {
                    Err(ProtoError::PermissionDenied)
                } else {
                    Ok(())
                }
            },
        }
    }

    /// Mark the channel open for delivery and build its handle.
    fn create_channel(&mut self, id: u64, dkey: &[u8]) -> (r: Result<Channel, ProtoError>)
        requires
            old(self).wf(),
        ensures
            final(self).wf(),
            final(self).closed_spec() == old(self).closed_spec(),
            final(self).write_cipher_spec() == old(self).write_cipher_spec(),
            final(self).read_cipher_spec() == old(self).read_cipher_spec(),
            final(self).reader_spec() == old(self).reader_spec(),
            final(self).error_spec() == old(self).error_spec(),
            final(self).inbound_spec() == old(self).inbound_spec(),
            final(self).events_spec() == old(self).events_spec(),
            final(self).options_spec() == old(self).options_spec(),
            final(self).is_established() == old(self).is_established(),
            final(self).hash_spec() == old(self).hash_spec(),
            final(self).outbound_spec() == old(self).outbound_spec(),
            match r {
                Ok(c) => {
                    &&& c.dkey_of() == dkey@
                    &&& c.id_of() == id
                    &&& match (final(self).chan().rec_for(dkey@), old(self).chan().rec_for(dkey@)) {
                        (Some(rec), Some(r0)) => rec == ChannelInfoV { opened: true, ..r0 },
                        _ => false,
                    }
                    &&& forall|dk2: Seq<u8>|
                        dk2 != dkey@ ==> #[trigger] final(self).chan().rec_for(dk2) == old(self).chan().rec_for(dk2)
                },
                Err(e) => e == ProtoError::BrokenPipe && !old(self).chan().has_dkey(dkey@),
            },
    {
        match self.channels.open(dkey) {
            Ok(()) => Ok(Channel { discovery_key: slice_to_vec(dkey), local_id: id }),
            Err(e) => Err(e),
        }
    }
}


impl Protocol {
    /// Process a complete inbound handshake frame while handshaking.
    fn on_handshake_message(&mut self, buf: &[u8], handshake: Handshake) -> (r: Result<
        (),
        ProtoError,
    >)
        requires
            old(self).wf(),
            old(self).is_not_initialized(),
            old(self).options_spec().noise,
            handshake.wf(),
            handshake.initiator() == old(self).options_spec().is_initiator,
            handshake.initiator() ==> handshake.stage() == 1,
            !handshake.initiator() ==> handshake.stage() == 0 || handshake.stage() == 2,
        ensures
            final(self).wf(),
            final(self).error_spec() == old(self).error_spec(),
            final(self).inbound_spec() == old(self).inbound_spec(),
            final(self).options_spec() == old(self).options_spec(),
            final(self).chan() == old(self).chan(),
            final(self).closed_spec() == old(self).closed_spec(),
            final(self).reader_spec() == old(self).reader_spec(),
            old(self).outbound_spec().is_prefix_of(final(self).outbound_spec()),
            r is Ok ==> final(self).is_handshaking() || final(self).is_established(),
            // Completion is decided by the flight count alone.
            r is Ok ==> (final(self).is_established() <==> (handshake.initiator()
                || handshake.stage() == 2)),
            r is Ok && final(self).is_handshaking() ==> final(self).events_spec() == old(self).events_spec(),
            // Reads of the first two flights owe a reply frame; the third
            // owes none.
            r is Ok && handshake.stage() == 2 ==> final(self).outbound_spec() == old(self).outbound_spec(),
            r is Ok && handshake.stage() < 2 ==> exists|b: Seq<u8>|
                b.len() <= 65535 && final(self).outbound_spec() == old(self).outbound_spec()
                    + #[trigger] frame_enc(b),
            r is Ok && final(self).is_established() ==> final(self).hash_spec() is Some
                && final(self).events_spec().len() == old(self).events_spec().len() + 1 && (final(self).events_spec().last() matches EventV::Handshake(k) && final(self).remote_key_spec()
                == Some(k)) && old(self).events_spec().is_prefix_of(final(self).events_spec()),
            // On completion both directions switch at once, keyed by the
            // split keys with the exchanged nonces as IV bases.
            r is Ok && final(self).is_established() && old(self).options_spec().encrypted ==> (
            final(self).write_cipher_spec() matches Some(c) && Some(c.key_spec()) == final(self).split_tx_spec() && Some(c.iv_spec()) == final(self).local_nonce_spec() && c.pos_spec()
                == 0) && (final(self).read_cipher_spec() matches Some(c2) && Some(c2.key_spec())
                == final(self).split_rx_spec() && Some(c2.iv_spec()) == final(self).remote_nonce_spec() && c2.pos_spec() == 0),
            r is Ok && final(self).is_established() && !old(self).options_spec().encrypted ==> final(self).write_cipher_spec() is None && final(self).read_cipher_spec() is None,
            r is Ok && !final(self).is_established() ==> final(self).write_cipher_spec() is None
                && final(self).read_cipher_spec() is None,
            r is Err ==> final(self).events_spec() == old(self).events_spec() && final(self).is_not_initialized() && final(self).write_cipher_spec() is None && final(self).read_cipher_spec() is None,
    {
        let mut handshake = handshake;
        proof {
            assert(old(self).outbound_spec().is_prefix_of(old(self).outbound_spec()));
        }
        let out = match handshake.read(buf) {
            Ok(out) => out,
            Err(e) => {
                return Err(e);
            },
        };
        match out {
            Some(send) => {
                let ghost sent = send@;
                match self.send_prefixed(send) {
                    Ok(()) => {},
                    Err(e) => {
                        return Err(e);
                    },
                }
                proof {
                    assert(old(self).outbound_spec() =~= self.outbound_spec().subrange(
                        0,
                        old(self).outbound_spec().len() as int,
                    ));
                }
            },
            None => {},
        }
        if handshake.complete() {
            let result = match handshake.into_result() {
                Ok(hr) => hr,
                Err(e) => {
                    return Err(e);
                },
            };
            if self.options.encrypted {
                let rk = slice_to_vec(result.split_rx.as_slice());
                let rn = slice_to_vec(result.remote_nonce.as_slice());
                let wk = slice_to_vec(result.split_tx.as_slice());
                let wn = slice_to_vec(result.local_nonce.as_slice());
                self.read_cipher = Some(Cipher::new(rk, rn));
                self.write_cipher = Some(Cipher::new(wk, wn));
            }
            let remote = slice_to_vec(result.remote_pubkey.as_slice());
            self.handshake = Some(result);
            self.state = State::Established;
            let ghost pre_events = self.events_spec();
            self.events.push(Event::Handshake(remote));
            proof {
                assert(self.events_spec() =~= pre_events.push(
                    EventV::Handshake(result.remote_pubkey@),
                ));
            }
            Ok(())
        } else {
            self.state = State::Handshake(handshake);
            Ok(())
        }
    }

    /// Record a remote channel announcement. Without a local key this
    /// surfaces the discovery key; with one, the capability must verify and
    /// the channel becomes usable.
    fn on_open(&mut self, ch: u64, msg: Open) -> (r: Result<(), ProtoError>)
        requires
            old(self).wf(),
        ensures
            final(self).wf(),
            final(self).error_spec() == old(self).error_spec(),
            final(self).options_spec() == old(self).options_spec(),
            final(self).is_established() == old(self).is_established(),
            final(self).hash_spec() == old(self).hash_spec(),
            final(self).reader_spec() == old(self).reader_spec(),
            final(self).read_cipher_spec() == old(self).read_cipher_spec(),
            final(self).write_cipher_spec() == old(self).write_cipher_spec(),
            match r {
                Ok(()) => open_effect(*old(self), *final(self), ch, msg.discovery_key@, opt_view(msg.capability)),
                Err(e) => {
                    &&& (e == ProtoError::PermissionDenied || e == ProtoError::DecodeError)
                    &&& (e == ProtoError::DecodeError <==> !old(self).chan().remote_attach_ok(
                        msg.discovery_key@,
                        ch,
                    ))
                    &&& (e == ProtoError::PermissionDenied ==> match old(self).chan().rec_for(
                        msg.discovery_key@,
                    ) {
                        Some(r0) => r0.key matches Some(k) && !old(self).cap_ok_spec(
                            opt_view(msg.capability),
                            k,
                        ),
                        None => false,
                    })
                    &&& final(self).events_spec() == old(self).events_spec()
                    &&& final(self).inbound_spec() == old(self).inbound_spec()
                    &&& final(self).closed_spec() == old(self).closed_spec()
                    &&& final(self).outbound_spec() == old(self).outbound_spec()
                },
            },
    {
        let key_opt = self.channels.get_key(msg.discovery_key.as_slice());
        let dkey_copy = slice_to_vec(msg.discovery_key.as_slice());
        let cap_copy: Option<Vec<u8>> = match &msg.capability {
            Some(c) => Some(slice_to_vec(c.as_slice())),
            None => None,
        };
        match self.channels.attach_remote(dkey_copy, ch, cap_copy) {
            Ok(()) => {},
            Err(e) => {
                return Err(e);
            },
        }
        match key_opt {
            None => {
                let ghost pre_events = self.events_spec();
                let dkey_event = slice_to_vec(msg.discovery_key.as_slice());
                self.events.push(Event::DiscoveryKey(dkey_event));
                proof {
                    assert(self.events_spec() =~= pre_events.push(
                        EventV::DiscoveryKey(msg.discovery_key@),
                    ));
                }
                Ok(())
            },
            Some(key) => {
                // A record with its key set always carries a local id.
                let local_id = match self.channels.get(msg.discovery_key.as_slice()) {
                    Some(info) => match info.local_id {
                        Some(lid) => lid,
                        None => {
                            proof {
                                assert(false);
                            }
                            return Err(ProtoError::DecodeError);
                        },
                    },
                    None => {
                        proof {
                            assert(false);
                        }
                        return Err(ProtoError::DecodeError);
                    },
                };
                match self.verify_remote_capability(msg.capability, key.as_slice()) {
                    Ok(()) => {},
                    Err(e) => {
                        return Err(e);
                    },
                }
                let channel = match self.create_channel(local_id, msg.discovery_key.as_slice()) {
                    Ok(c) => c,
                    Err(e) => {
                        proof {
                            assert(false);
                        }
                        return Err(e);
                    },
                };
                let ghost pre_events = self.events_spec();
                self.events.push(Event::Channel(channel));
                proof {
                    assert(self.events_spec() =~= pre_events.push(
                        EventV::Channel { discovery_key: msg.discovery_key@, local_id },
                    ));
                }
                Ok(())
            },
        }
    }

    /// Tear down a channel: by the discovery key the Close names, or by the
    /// channel id it arrived on.
    fn on_close(&mut self, ch: u64, msg: Close) -> (r: Result<(), ProtoError>)
        requires
            old(self).wf(),
        ensures
            final(self).wf(),
            final(self).error_spec() == old(self).error_spec(),
            final(self).options_spec() == old(self).options_spec(),
            final(self).reader_spec() == old(self).reader_spec(),
            final(self).read_cipher_spec() == old(self).read_cipher_spec(),
            final(self).write_cipher_spec() == old(self).write_cipher_spec(),
            r is Ok,
            close_effect(*old(self), *final(self), ch, opt_view(msg.discovery_key)),
    {
        match msg.discovery_key {
            Some(dkey) => {
                let ghost pre = self.closed_spec();
                self.channels.remove(dkey.as_slice());
                let ghost dv = dkey@;
                self.closed.push(dkey);
                proof {
                    assert(self.closed_spec() =~~= pre.push(dv));
                }
                Ok(())
            },
            None => {
                let dk_opt: Option<Vec<u8>> = match self.channels.get_remote(ch) {
                    Some(info) => Some(slice_to_vec(info.discovery_key.as_slice())),
                    None => None,
                };
                match dk_opt {
                    Some(d) => {
                        let ghost pre = self.closed_spec();
                        self.channels.remove(d.as_slice());
                        let ghost dv = d@;
                        self.closed.push(d);
                        proof {
                            assert(self.closed_spec() =~~= pre.push(dv));
                        }
                        Ok(())
                    },
                    None => Ok(()),
                }
            },
        }
    }

    /// Decode one established-mode frame and dispatch it: Open and Close
    /// reach the rendezvous logic, reserved extension frames are ignored,
    /// application messages land on the inbound queue, and malformed
    /// frames fail with the decode error.
    fn on_proto_message(&mut self, buf: &[u8]) -> (r: Result<(), ProtoError>)
        requires
            old(self).wf(),
            old(self).is_established(),
        ensures
            final(self).wf(),
            final(self).error_spec() == old(self).error_spec(),
            final(self).options_spec() == old(self).options_spec(),
            final(self).is_established(),
            final(self).hash_spec() == old(self).hash_spec(),
            final(self).reader_spec() == old(self).reader_spec(),
            final(self).read_cipher_spec() == old(self).read_cipher_spec(),
            final(self).write_cipher_spec() == old(self).write_cipher_spec(),
            old(self).inbound_spec().is_prefix_of(final(self).inbound_spec()),
            match r {
                Ok(()) => proto_effect(*old(self), *final(self), buf@),
                Err(e) => {
                    &&& (e == ProtoError::PermissionDenied || e == ProtoError::DecodeError || e
                        == ProtoError::BrokenPipe)
                    &&& final(self).events_spec() == old(self).events_spec()
                    &&& final(self).inbound_spec() == old(self).inbound_spec()
                    &&& final(self).closed_spec() == old(self).closed_spec()
                    &&& final(self).outbound_spec() == old(self).outbound_spec()
                    &&& match crate::wire::wire_dec(buf@) {
                        None => e == ProtoError::DecodeError,
                        Some((ch, typ, body)) => match crate::wire::message_dec(typ, body) {
                            None => e == ProtoError::DecodeError,
                            Some(m) => match m {
                                MessageView::Open { discovery_key, capability } => {
                                    &&& e != ProtoError::BrokenPipe
                                    &&& (e == ProtoError::DecodeError <==> !old(self).chan().remote_attach_ok(discovery_key, ch as u64))
                                    &&& (e == ProtoError::PermissionDenied ==> match old(self).chan().rec_for(discovery_key) {
                                        Some(r0) => r0.key matches Some(k) && !old(self).cap_ok_spec(capability, k),
                                        None => false,
                                    })
                                },
                                MessageView::Close { .. } => false,
                                MessageView::Extension(_) => false,
                                MessageView::Application { .. } => e == ProtoError::BrokenPipe
                                    && match old(self).chan().rec_for_remote(ch as u64) {
                                    Some(rec) => !(rec.local_id is Some && rec.opened),
                                    None => true,
                                },
                            },
                        },
                    }
                },
            },
    {
        let w = match WireMessage::from_buf(buf) {
            Ok(w) => w,
            Err(e) => {
                return Err(e);
            },
        };
        let msg = match Message::decode(w.typ, w.message) {
            Ok(m) => m,
            Err(e) => {
                return Err(e);
            },
        };
        match msg {
            Message::Open(m) => self.on_open(w.channel, m),
            Message::Close(m) => self.on_close(w.channel, m),
            Message::Extension(_) => {
                // Reserved type tag: well-formed but unhandled frames of
                // this type are ignored.
                Ok(())
            },
            Message::Application { typ, bytes } => {
                let lid = match self.channels.forward(w.channel) {
                    Ok(lid) => lid,
                    Err(e) => {
                        return Err(e);
                    },
                };
                let ghost pre = self.inbound_spec();
                let m = Message::Application { typ, bytes };
                let ghost mv = m@;
                self.inbound.push((lid, m));
                proof {
                    assert(self.inbound_spec() =~~= pre.push((lid, mv)));
                    assert(pre =~~= self.inbound_spec().subrange(0, pre.len() as int));
                }
                Ok(())
            },
        }
    }

    /// Dispatch one complete frame against the session state.
    fn on_message(&mut self, buf: &[u8]) -> (r: Result<(), ProtoError>)
        requires
            old(self).wf(),
        ensures
            final(self).wf(),
            final(self).error_spec() == old(self).error_spec(),
            final(self).options_spec() == old(self).options_spec(),
            final(self).reader_spec() == old(self).reader_spec(),
            old(self).inbound_spec().is_prefix_of(final(self).inbound_spec()),
            r is Ok ==> frame_effect(*old(self), *final(self), buf@),
            old(self).is_not_initialized() ==> r is Err,
            old(self).is_established() ==> final(self).read_cipher_spec() == old(self).read_cipher_spec(),
    {
        let mut st = State::NotInitialized;
        core::mem::swap(&mut st, &mut self.state);
        match st {
            State::Handshake(h) => self.on_handshake_message(buf, h),
            State::Established => {
                self.state = State::Established;
                self.on_proto_message(buf)
            },
            State::NotInitialized => Err(ProtoError::TransportError),
        }
    }

    /// True once the session reached the established state.
    fn established(&self) -> (r: bool)
        ensures
            r == self.is_established(),
    {
        match self.state {
            State::Established => true,
            _ => false,
        }
    }

    /// The established-mode input pipeline: decipher the chunk with the
    /// receive cipher, reassemble frames, and dispatch each in order.
    fn input_established(&mut self, data: &[u8]) -> (r: Result<(), ProtoError>)
        requires
            old(self).wf(),
            old(self).is_established(),
            old(self).error_spec() is None,
        ensures
            final(self).wf(),
            final(self).options_spec() == old(self).options_spec(),
            old(self).inbound_spec().is_prefix_of(final(self).inbound_spec()),
            match r {
                Ok(()) => {
                    &&& final(self).error_spec() is None
                    &&& ({
                        let plain = match old(self).read_cipher_spec() {
                            None => data@,
                            Some(c) => keystream_xor(c.key_spec(), c.iv_spec(), c.pos_spec(), data@),
                        };
                        match frame_feed(old(self).reader_spec(), plain) {
                            Ok((s2, frames)) => {
                                &&& final(self).reader_spec() == s2
                                &&& frames_effect(*old(self), *final(self), frames)
                                &&& match old(self).read_cipher_spec() {
                                    None => final(self).read_cipher_spec() is None,
                                    Some(c) => final(self).read_cipher_spec() matches Some(c2)
                                        && c2.key_spec() == c.key_spec() && c2.iv_spec()
                                        == c.iv_spec() && c2.pos_spec() == c.pos_spec()
                                        + data@.len(),
                                }
                            },
                            Err(_) => false,
                        }
                    })
                },
                Err(e) => final(self).error_spec() == Some(e),
            },
    {
        let mut buf = slice_to_vec(data);
        match &mut self.read_cipher {
            Some(c) => {
                match c.apply(&mut buf) {
                    Ok(()) => {},
                    Err(e) => {
                        self.error = Some(e);
                        return Err(e);
                    },
                }
            },
            None => {},
        }
        let frames = match self.reader.feed(buf.as_slice()) {
            Ok(f) => f,
            Err(e) => {
                self.error = Some(e);
                return Err(e);
            },
        };
        let ghost start = *self;
        proof {
            assert(same_obs(*old(self), start));
            lemma_frames_effect_empty(*old(self), start);
            assert(frames.deep_view().take(0) =~~= Seq::<Seq<u8>>::empty());
            assert(frames_effect(*old(self), *self, frames.deep_view().take(0)));
        }
        let mut i: usize = 0;
        while i < frames.len()
            invariant
                i <= frames@.len(),
                self.wf(),
                self.is_established(),
                self.options_spec() == old(self).options_spec(),
                self.error_spec() is None,
                old(self).error_spec() is None,
                old(self).inbound_spec().is_prefix_of(self.inbound_spec()),
                frames_effect(*old(self), *self, frames.deep_view().take(i as int)),
                self.reader_spec() == start.reader_spec(),
                self.read_cipher_spec() == start.read_cipher_spec(),
            decreases frames@.len() - i,
        {
            let ghost mid = *self;
            let ghost done = frames.deep_view().take(i as int);
            match self.on_message(frames[i].as_slice()) {
                Ok(()) => {
                    proof {
                        let fv = frames.deep_view()[i as int];
                        assert(fv =~= frames@[i as int]@);
                        assert(frames.deep_view().len() == frames@.len());
                        assert(frame_effect(mid, *self, fv));
                        lemma_frames_effect_snoc(*old(self), mid, *self, done, fv);
                        assert(frames.deep_view().take(i as int + 1) =~~= done.push(fv));
                        lemma_prefix_transitive(old(self).inbound_spec(), mid.inbound_spec(), self.inbound_spec());
                    }
                },
                Err(e) => {
                    self.error = Some(e);
                    proof {
                        lemma_prefix_transitive(old(self).inbound_spec(), mid.inbound_spec(), self.inbound_spec());
                    }
                    return Err(e);
                },
            }
            i = i + 1;
        }
        proof {
            assert(frames.deep_view().take(frames@.len() as int) =~~= frames.deep_view());
        }
        Ok(())
    }

    /// Feed raw transport bytes. While handshaking, frames are reassembled
    /// byte by byte in the clear, so that the cipher a completing handshake
    /// installs applies to every byte after its final flight; once
    /// established the chunk is deciphered and dispatched whole. Any
    /// failure is latched: the session is fatally dead and further input is
    /// refused with the same error.
    pub fn on_input(&mut self, data: &[u8]) -> (r: Result<(), ProtoError>)
        requires
            old(self).wf(),
        ensures
            final(self).wf(),
            final(self).options_spec() == old(self).options_spec(),
            old(self).inbound_spec().is_prefix_of(final(self).inbound_spec()),
            match r {
                Ok(()) => {
                    &&& final(self).error_spec() is None
                    &&& old(self).error_spec() is None
                    &&& exists|frames: Seq<Seq<u8>>|
                        #[trigger] frames_effect(*old(self), *final(self), frames)
                },
                Err(e) => final(self).error_spec() == Some(e),
            },
            // An established session's pipeline, byte for byte.
            r is Ok && old(self).is_established() ==> ({
                let plain = match old(self).read_cipher_spec() {
                    None => data@,
                    Some(c) => keystream_xor(c.key_spec(), c.iv_spec(), c.pos_spec(), data@),
                };
                match frame_feed(old(self).reader_spec(), plain) {
                    Ok((s2, frames)) => {
                        &&& final(self).reader_spec() == s2
                        &&& frames_effect(*old(self), *final(self), frames)
                        &&& match old(self).read_cipher_spec() {
                            None => final(self).read_cipher_spec() is None,
                            Some(c) => final(self).read_cipher_spec() matches Some(c2)
                                && c2.key_spec() == c.key_spec() && c2.iv_spec() == c.iv_spec()
                                && c2.pos_spec() == c.pos_spec() + data@.len(),
                        }
                    },
                    Err(_) => false,
                }
            }),
    {
        match self.error {
            Some(e) => {
                return Err(e);
            },
            None => {},
        }
        if self.established() {
            let r = self.input_established(data);
            proof {
                if r is Ok {
                    let plain = match old(self).read_cipher_spec() {
                        None => data@,
                        Some(c) => keystream_xor(c.key_spec(), c.iv_spec(), c.pos_spec(), data@),
                    };
                    match frame_feed(old(self).reader_spec(), plain) {
                        Ok((s2, frames)) => {
                            assert(frames_effect(*old(self), *self, frames));
                        },
                        Err(_) => {
                            assert(false);
                        },
                    }
                }
            }
            return r;
        }
        let mut i: usize = 0;
        let ghost mut fs: Seq<Seq<u8>> = Seq::empty();
        proof {
            assert(same_obs(*old(self), *self));
            lemma_frames_effect_empty(*old(self), *self);
        }
        while i < data.len()
            invariant
                i <= data@.len(),
                self.wf(),
                self.options_spec() == old(self).options_spec(),
                self.error_spec() is None,
                old(self).error_spec() is None,
                !old(self).is_established(),
                old(self).inbound_spec().is_prefix_of(self.inbound_spec()),
                frames_effect(*old(self), *self, fs),
            decreases data@.len() - i,
        {
            if self.established() {
                let rest = vstd::slice::slice_subrange(data, i, data.len());
                let ghost mid = *self;
                match self.input_established(rest) {
                    Ok(()) => {
                        proof {
                            let plain = match mid.read_cipher_spec() {
                                None => rest@,
                                Some(c) => keystream_xor(
                                    c.key_spec(),
                                    c.iv_spec(),
                                    c.pos_spec(),
                                    rest@,
                                ),
                            };
                            let frames2 = match frame_feed(mid.reader_spec(), plain) {
                                Ok((s2, frames2)) => frames2,
                                Err(_) => Seq::<Seq<u8>>::empty(),
                            };
                            lemma_frames_effect_concat(*old(self), mid, *self, fs, frames2);
                            assert(frames_effect(*old(self), *self, fs + frames2));
                            lemma_prefix_transitive(old(self).inbound_spec(), mid.inbound_spec(), self.inbound_spec());
                        }
                        return Ok(());
                    },
                    Err(e) => {
                        proof {
                            lemma_prefix_transitive(old(self).inbound_spec(), mid.inbound_spec(), self.inbound_spec());
                        }
                        return Err(e);
                    },
                }
            }
            let b = data[i];
            let ghost pre = *self;
            match self.reader.push_byte(b) {
                Ok(out) => {
                    match out {
                        Some(frame) => {
                            let ghost mid = *self;
                            match self.on_message(frame.as_slice()) {
                                Ok(()) => {
                                    proof {
                                        assert(same_obs(pre, mid));
                                        lemma_frames_effect_post(*old(self), pre, mid, fs);
                                        assert(frame_effect(mid, *self, frame@));
                                        lemma_frames_effect_snoc(*old(self), mid, *self, fs, frame@);
                                        lemma_prefix_transitive(old(self).inbound_spec(), mid.inbound_spec(), self.inbound_spec());
                                        fs = fs.push(frame@);
                                    }
                                },
                                Err(e) => {
                                    self.error = Some(e);
                                    proof {
                                        lemma_prefix_transitive(old(self).inbound_spec(), mid.inbound_spec(), self.inbound_spec());
                                    }
                                    return Err(e);
                                },
                            }
                        },
                        None => {
                            proof {
                                assert(same_obs(pre, *self));
                                lemma_frames_effect_post(*old(self), pre, *self, fs);
                            }
                        },
                    }
                },
                Err(e) => {
                    self.error = Some(e);
                    return Err(e);
                },
            }
            i = i + 1;
        }
        Ok(())
    }

}


/// Observations two engine snapshots share when a step had no effect.
pub open spec fn same_obs(pre: Protocol, post: Protocol) -> bool {
    &&& post.options_spec() == pre.options_spec()
    &&& post.is_not_initialized() == pre.is_not_initialized()
    &&& post.is_handshaking() == pre.is_handshaking()
    &&& post.is_established() == pre.is_established()
    &&& post.chan() == pre.chan()
    &&& post.events_spec() == pre.events_spec()
    &&& post.inbound_spec() == pre.inbound_spec()
    &&& post.closed_spec() == pre.closed_spec()
    &&& post.outbound_spec() == pre.outbound_spec()
    &&& post.hash_spec() == pre.hash_spec()
    &&& post.remote_key_spec() == pre.remote_key_spec()
}

/// What processing a remote `Open{dkey, cap}` announced under channel id
/// `ch` does to the session: the remote end is recorded, and either the
/// discovery key is surfaced (no local key yet) or, the stored capability
/// verifying, the channel becomes usable under its local id.
pub open spec fn open_effect(
    pre: Protocol,
    post: Protocol,
    ch: u64,
    dkey: Seq<u8>,
    cap: Option<Seq<u8>>,
) -> bool {
    &&& match post.chan().rec_for(dkey) {
        Some(rec) => rec.remote_id == Some(ch) && rec.remote_capability == cap,
        None => false,
    }
    &&& match pre.chan().rec_for(dkey) {
        Some(r0) => match r0.key {
            Some(k) => {
                &&& pre.cap_ok_spec(cap, k)
                &&& (r0.local_id matches Some(lid) && post.events_spec() == pre.events_spec().push(
                    EventV::Channel { discovery_key: dkey, local_id: lid },
                ))
            },
            None => post.events_spec() == pre.events_spec().push(EventV::DiscoveryKey(dkey)),
        },
        None => post.events_spec() == pre.events_spec().push(EventV::DiscoveryKey(dkey)),
    }
    &&& post.inbound_spec() == pre.inbound_spec()
    &&& post.closed_spec() == pre.closed_spec()
    &&& post.outbound_spec() == pre.outbound_spec()
    &&& post.is_established() == pre.is_established()
    &&& post.hash_spec() == pre.hash_spec()
}

/// What processing a remote `Close` does: the record named by the carried
/// discovery key, or found by the id the Close arrived on, is dropped and
/// its key queued for the driver; an unknown channel is ignored.
pub open spec fn close_effect(pre: Protocol, post: Protocol, ch: u64, dkey: Option<Seq<u8>>) -> bool {
    &&& match dkey {
        Some(d) => post.chan().rec_for(d) is None && post.closed_spec() == pre.closed_spec().push(
            d,
        ),
        None => match pre.chan().rec_for_remote(ch) {
            Some(r0) => post.chan().rec_for(r0.discovery_key) is None && post.closed_spec()
                == pre.closed_spec().push(r0.discovery_key),
            None => post.chan() == pre.chan() && post.closed_spec() == pre.closed_spec(),
        },
    }
    &&& post.events_spec() == pre.events_spec()
    &&& post.inbound_spec() == pre.inbound_spec()
    &&& post.outbound_spec() == pre.outbound_spec()
    &&& post.is_established() == pre.is_established()
    &&& post.hash_spec() == pre.hash_spec()
}

/// What one complete data-plane frame does to an established session:
/// Opens and Closes reach the rendezvous logic, reserved extension frames
/// are ignored, and an application message is appended to the inbound
/// queue under its channel's local id.
pub open spec fn proto_effect(pre: Protocol, post: Protocol, frame: Seq<u8>) -> bool {
    &&& post.options_spec() == pre.options_spec()
    &&& post.is_established()
    &&& match crate::wire::wire_dec(frame) {
        Some((ch, typ, body)) => ch <= u64::MAX && match crate::wire::message_dec(typ, body) {
            Some(m) => match m {
                MessageView::Open { discovery_key, capability } => open_effect(
                    pre,
                    post,
                    ch as u64,
                    discovery_key,
                    capability,
                ),
                MessageView::Close { discovery_key } => close_effect(
                    pre,
                    post,
                    ch as u64,
                    discovery_key,
                ),
                MessageView::Extension(_) => same_obs(pre, post),
                MessageView::Application { .. } => {
                    &&& match pre.chan().rec_for_remote(ch as u64) {
                        Some(rec) => rec.opened && (rec.local_id matches Some(lid)
                            && post.inbound_spec() == pre.inbound_spec().push((lid, m))),
                        None => false,
                    }
                    &&& post.events_spec() == pre.events_spec()
                    &&& post.closed_spec() == pre.closed_spec()
                    &&& post.chan() == pre.chan()
                    &&& post.outbound_spec() == pre.outbound_spec()
                    &&& post.hash_spec() == pre.hash_spec()
                },
            },
            None => false,
        },
        None => false,
    }
}

/// What one complete frame does while the handshake is still running: no
/// channel state moves, at most the completion event is raised, and any
/// owed reply is appended to the outbound stream.
pub open spec fn hs_effect(pre: Protocol, post: Protocol, frame: Seq<u8>) -> bool {
    &&& post.options_spec() == pre.options_spec()
    &&& post.inbound_spec() == pre.inbound_spec()
    &&& post.chan() == pre.chan()
    &&& post.closed_spec() == pre.closed_spec()
    &&& (post.is_handshaking() || post.is_established())
    &&& pre.outbound_spec().is_prefix_of(post.outbound_spec())
    &&& (post.is_handshaking() ==> post.events_spec() == pre.events_spec())
    &&& (post.is_established() ==> pre.events_spec().is_prefix_of(post.events_spec())
        && post.events_spec().len() == pre.events_spec().len() + 1 && (post.events_spec().last()
        matches EventV::Handshake(k) && post.remote_key_spec() == Some(k)))
}

/// What one complete frame does to the session, whatever its phase.
pub open spec fn frame_effect(pre: Protocol, post: Protocol, frame: Seq<u8>) -> bool {
    if pre.is_established() {
        proto_effect(pre, post, frame)
    } else if pre.is_handshaking() {
        hs_effect(pre, post, frame)
    } else {
        false
    }
}

/// The combined effect of dispatching a run of complete frames in order:
/// a chain of intermediate snapshots, each step one frame's effect. The
/// endpoints are tied up to observations, since byte reassembly between
/// dispatches moves only the frame decoder and receive cipher.
pub open spec fn frames_effect(pre: Protocol, post: Protocol, frames: Seq<Seq<u8>>) -> bool {
    exists|steps: Seq<Protocol>|
        {
            &&& #[trigger] steps.len() == frames.len() + 1
            &&& same_obs(pre, steps.first())
            &&& same_obs(steps.last(), post)
            &&& forall|k: int|
                0 <= k < frames.len() ==> frame_effect(steps[k], steps[k + 1], #[trigger] frames[k])
        }
}


/// A run of no frames relates observation-equal snapshots.
proof fn lemma_frames_effect_empty(a: Protocol, b: Protocol)
    requires
        same_obs(a, b),
    ensures
        frames_effect(a, b, Seq::<Seq<u8>>::empty()),
{
    let steps = seq![b];
    assert(steps.len() == Seq::<Seq<u8>>::empty().len() + 1);
    assert(same_obs(a, steps.first()));
    assert(same_obs(steps.last(), b));
}

/// Appending one dispatched frame extends a run; `b` is the exact state
/// the frame was dispatched from.
proof fn lemma_frames_effect_snoc(
    a: Protocol,
    b: Protocol,
    post: Protocol,
    fs: Seq<Seq<u8>>,
    f: Seq<u8>,
)
    requires
        frames_effect(a, b, fs),
        frame_effect(b, post, f),
    ensures
        frames_effect(a, post, fs.push(f)),
{
    let steps = choose|steps: Seq<Protocol>|
        {
            &&& #[trigger] steps.len() == fs.len() + 1
            &&& same_obs(a, steps.first())
            &&& same_obs(steps.last(), b)
            &&& forall|k: int|
                0 <= k < fs.len() ==> frame_effect(steps[k], steps[k + 1], #[trigger] fs[k])
        };
    assert(frame_effect(steps.last(), post, f));
    let steps2 = steps.push(post);
    let fs2 = fs.push(f);
    assert(steps2.len() == fs2.len() + 1);
    assert(steps2.first() == steps.first());
    assert(same_obs(steps2.last(), post));
    assert forall|k: int| 0 <= k < fs2.len() implies frame_effect(
        steps2[k],
        steps2[k + 1],
        #[trigger] fs2[k],
    ) by {
        if k < fs.len() {
            assert(steps2[k] == steps[k]);
            assert(steps2[k + 1] == steps[k + 1]);
            assert(fs2[k] == fs[k]);
            assert(frame_effect(steps[k], steps[k + 1], fs[k]));
        } else {
            assert(steps2[k] == steps.last());
            assert(steps2[k + 1] == post);
            assert(fs2[k] == f);
        }
    }
    assert(frames_effect(a, post, fs2));
}

/// A run's constraints read its final snapshot only through observations.
proof fn lemma_frames_effect_post(a: Protocol, b: Protocol, c: Protocol, fs: Seq<Seq<u8>>)
    requires
        frames_effect(a, b, fs),
        same_obs(b, c),
    ensures
        frames_effect(a, c, fs),
{
    let steps = choose|steps: Seq<Protocol>|
        {
            &&& #[trigger] steps.len() == fs.len() + 1
            &&& same_obs(a, steps.first())
            &&& same_obs(steps.last(), b)
            &&& forall|k: int|
                0 <= k < fs.len() ==> frame_effect(steps[k], steps[k + 1], #[trigger] fs[k])
        };
    assert(same_obs(steps.last(), c));
    assert(frames_effect(a, c, fs));
}

/// Runs of frames compose.
proof fn lemma_frames_effect_concat(
    a: Protocol,
    b: Protocol,
    c: Protocol,
    fs1: Seq<Seq<u8>>,
    fs2: Seq<Seq<u8>>,
)
    requires
        frames_effect(a, b, fs1),
        frames_effect(b, c, fs2),
    ensures
        frames_effect(a, c, fs1 + fs2),
{
    let steps1 = choose|steps: Seq<Protocol>|
        {
            &&& #[trigger] steps.len() == fs1.len() + 1
            &&& same_obs(a, steps.first())
            &&& same_obs(steps.last(), b)
            &&& forall|k: int|
                0 <= k < fs1.len() ==> frame_effect(steps[k], steps[k + 1], #[trigger] fs1[k])
        };
    let steps2 = choose|steps: Seq<Protocol>|
        {
            &&& #[trigger] steps.len() == fs2.len() + 1
            &&& same_obs(b, steps.first())
            &&& same_obs(steps.last(), c)
            &&& forall|k: int|
                0 <= k < fs2.len() ==> frame_effect(steps[k], steps[k + 1], #[trigger] fs2[k])
        };
    let fs = fs1 + fs2;
    let steps = steps1 + steps2.drop_first();
    assert(steps.len() == fs.len() + 1);
    if fs2.len() == 0 {
        assert(steps =~= steps1);
        assert(same_obs(steps2.first(), c));
        assert(same_obs(steps.last(), c));
    } else {
        assert(steps.last() == steps2.last());
    }
    assert(steps.first() == steps1.first());
    assert forall|k: int| 0 <= k < fs.len() implies frame_effect(
        steps[k],
        steps[k + 1],
        #[trigger] fs[k],
    ) by {
        if k < fs1.len() {
            assert(steps[k] == steps1[k]);
            if k + 1 < steps1.len() as int {
                assert(steps[k + 1] == steps1[k + 1]);
            }
            assert(fs[k] == fs1[k]);
            assert(frame_effect(steps1[k], steps1[k + 1], fs1[k]));
        } else if k == fs1.len() {
            // The seam: the first frame of the second run was dispatched
            // from a snapshot observation-equal to the first run's end.
            assert(steps[k] == steps1.last());
            assert(steps[k + 1] == steps2[1]);
            assert(fs[k] == fs2[0]);
            assert(frame_effect(steps2[0], steps2[1], fs2[0]));
            assert(same_obs(steps1.last(), steps2[0]));
            assert(frame_effect(steps1.last(), steps2[1], fs2[0]));
        } else {
            let j = k - fs1.len();
            assert(steps[k] == steps2[j]);
            assert(steps[k + 1] == steps2[j + 1]);
            assert(fs[k] == fs2[j]);
            assert(frame_effect(steps2[j], steps2[j + 1], fs2[j]));
        }
    }
    assert(frames_effect(a, c, fs));
}

/// A prefix of a prefix is a prefix.
proof fn lemma_prefix_transitive(a: Seq<(u64, MessageView)>, b: Seq<(u64, MessageView)>, c: Seq<(u64, MessageView)>)
    requires
        a.is_prefix_of(b),
        b.is_prefix_of(c),
    ensures
        a.is_prefix_of(c),
{
    assert(a =~= c.subrange(0, a.len() as int));
}

/// End-to-end transport round trip on a plaintext stream: a framed message
/// is decoded by the receiving side to exactly the channel, type and
/// message that were sent, whatever follows on the stream.
pub proof fn lemma_message_transport_roundtrip(ch: nat, m: Message, rest: Seq<u8>)
    requires
        m.valid(),
        crate::wire::message_sizes_ok(m),
        ch * 16 + m.typ_spec() <= u64::MAX,
        1 <= wire_enc(ch, m.typ_spec(), m.body_spec()).len() <= 65535,
    ensures
        ({
            let bytes = frame_enc(wire_enc(ch, m.typ_spec(), m.body_spec()));
            let payload = wire_enc(ch, m.typ_spec(), m.body_spec());
            &&& frame_feed(crate::frame::init_state(), bytes + rest) == match frame_feed(
                crate::frame::init_state(),
                rest,
            ) {
                Err(e) => Err::<(crate::frame::DecodeState, Seq<Seq<u8>>), ProtoError>(e),
                Ok((s2, outs)) => Ok((s2, seq![payload] + outs)),
            }
            &&& crate::wire::wire_dec(payload) == Some((ch, m.typ_spec(), m.body_spec()))
            &&& crate::wire::message_dec(m.typ_spec(), m.body_spec()) == Some(m@)
        }),
{
    let payload = wire_enc(ch, m.typ_spec(), m.body_spec());
    crate::frame::lemma_frame_roundtrip(payload, rest);
    crate::wire::lemma_wire_roundtrip(ch, m.typ_spec(), m.body_spec());
    crate::wire::lemma_message_roundtrip(m);
}

} // verus!
