use vstd::prelude::*;

use crate::crypto::{discovery_key, dkey_spec};
use crate::error::ProtoError;
use crate::wire::opt_view;
use vstd::slice::slice_to_vec;

verus! {

/// Local ids stay below this bound so that `local_id << 4 | type` always
/// fits the header varint of the wire codec.
pub const MAX_LOCAL_IDS: u64 = 0x1000_0000_0000_0000;

/// One channel's bookkeeping, keyed by its discovery key.
pub struct ChannelInfo {
    pub discovery_key: Vec<u8>,
    /// Present iff this side has locally opened the channel.
    pub key: Option<Vec<u8>>,
    /// Assigned on local open; never reused within a session.
    pub local_id: Option<u64>,
    /// Assigned when the remote's `Open` arrives.
    pub remote_id: Option<u64>,
    /// The capability the remote announced, kept until this side can verify.
    pub remote_capability: Option<Vec<u8>>,
    /// An inbound route is installed for the channel handle.
    pub opened: bool,
}

/// The spec image of a record.
pub struct ChannelInfoV {
    pub discovery_key: Seq<u8>,
    pub key: Option<Seq<u8>>,
    pub local_id: Option<u64>,
    pub remote_id: Option<u64>,
    pub remote_capability: Option<Seq<u8>>,
    pub opened: bool,
}

impl View for ChannelInfo {
    type V = ChannelInfoV;

    open spec fn view(&self) -> ChannelInfoV {
        ChannelInfoV {
            discovery_key: self.discovery_key@,
            key: opt_view(self.key),
            local_id: self.local_id,
            remote_id: self.remote_id,
            remote_capability: opt_view(self.remote_capability),
            opened: self.opened,
        }
    }
}

/// A channel may carry application messages only when local id, remote id
/// and key are all present.
pub open spec fn paired(r: ChannelInfoV) -> bool {
    r.key is Some && r.local_id is Some && r.remote_id is Some
}

/// The bidirectional table pairing locally-opened channels with
/// remotely-announced ones: by discovery key, by local id and by remote id.
pub struct Channelizer {
    channels: Vec<ChannelInfo>,
    local_id_counter: u64,
}

impl Channelizer {
    pub closed spec fn recs(&self) -> Seq<ChannelInfoV> {
        self.channels@.map_values(|c: ChannelInfo| c@)
    }

    pub closed spec fn counter(&self) -> u64 {
        self.local_id_counter
    }

    /// At most one record per discovery key; local and remote ids unique;
    /// assigned local ids below the counter, which never exceeds its cap.
    pub open spec fn wf(&self) -> bool {
        &&& forall|i: int, j: int|
            0 <= i < self.recs().len() && 0 <= j < self.recs().len() && i != j ==> (
            #[trigger] self.recs()[i]).discovery_key != (#[trigger] self.recs()[j]).discovery_key
        &&& forall|i: int, j: int|
            0 <= i < self.recs().len() && 0 <= j < self.recs().len() && i != j ==> !((
            #[trigger] self.recs()[i]).local_id is Some && self.recs()[i].local_id == (
            #[trigger] self.recs()[j]).local_id)
        &&& forall|i: int, j: int|
            0 <= i < self.recs().len() && 0 <= j < self.recs().len() && i != j ==> !((
            #[trigger] self.recs()[i]).remote_id is Some && self.recs()[i].remote_id == (
            #[trigger] self.recs()[j]).remote_id)
        &&& forall|i: int|
            0 <= i < self.recs().len() ==> match (#[trigger] self.recs()[i]).local_id {
                Some(x) => x < self.counter(),
                None => true,
            }
        &&& forall|i: int|
            0 <= i < self.recs().len() ==> ((#[trigger] self.recs()[i]).key is Some
                ==> self.recs()[i].local_id is Some)
        &&& self.counter() <= MAX_LOCAL_IDS
    }

    pub open spec fn has_dkey(&self, dk: Seq<u8>) -> bool {
        exists|i: int|
            0 <= i < self.recs().len() && (#[trigger] self.recs()[i]).discovery_key == dk
    }

    pub open spec fn idx_of(&self, dk: Seq<u8>) -> int {
        choose|i: int|
            0 <= i < self.recs().len() && (#[trigger] self.recs()[i]).discovery_key == dk
    }

    /// The record for a discovery key, if any; under `wf` there is at most
    /// one.
    pub open spec fn rec_for(&self, dk: Seq<u8>) -> Option<ChannelInfoV> {
        if self.has_dkey(dk) {
            Some(self.recs()[self.idx_of(dk)])
        } else {
            None
        }
    }

    pub open spec fn has_remote(&self, id: u64) -> bool {
        exists|i: int|
            0 <= i < self.recs().len() && (#[trigger] self.recs()[i]).remote_id == Some(id)
    }

    pub open spec fn idx_of_remote(&self, id: u64) -> int {
        choose|i: int|
            0 <= i < self.recs().len() && (#[trigger] self.recs()[i]).remote_id == Some(id)
    }

    /// The record carrying a remote id, if any.
    pub open spec fn rec_for_remote(&self, id: u64) -> Option<ChannelInfoV> {
        if self.has_remote(id) {
            Some(self.recs()[self.idx_of_remote(id)])
        } else {
            None
        }
    }

    /// A remote announcement is acceptable when its id is fresh, or already
    /// bound to this very discovery key.
    pub open spec fn remote_attach_ok(&self, dk: Seq<u8>, id: u64) -> bool {
        match self.rec_for(dk) {
            Some(r0) => match r0.remote_id {
                Some(x) => x == id,
                None => !self.has_remote(id),
            },
            None => !self.has_remote(id),
        }
    }

    pub fn new() -> (r: Channelizer)
        ensures
            r.wf(),
            r.recs() == Seq::<ChannelInfoV>::empty(),
            r.counter() == 0,
    {
        let c = Channelizer { channels: Vec::new(), local_id_counter: 0 };
        proof {
            assert(c.recs() =~= Seq::<ChannelInfoV>::empty());
        }
        c
    }
}

/// A known index is the index: records never share a discovery key.
proof fn lemma_rec_at(c: Channelizer, dk: Seq<u8>, i: int)
    requires
        c.wf(),
        0 <= i < c.recs().len(),
        c.recs()[i].discovery_key == dk,
    ensures
        c.has_dkey(dk),
        c.idx_of(dk) == i,
        c.rec_for(dk) == Some(c.recs()[i]),
{
    assert(c.has_dkey(dk));
    let j = c.idx_of(dk);
    if j != i {
        assert(c.recs()[i].discovery_key != c.recs()[j].discovery_key);
    }
}

/// The same, by remote id.
proof fn lemma_rec_at_remote(c: Channelizer, id: u64, i: int)
    requires
        c.wf(),
        0 <= i < c.recs().len(),
        c.recs()[i].remote_id == Some(id),
    ensures
        c.has_remote(id),
        c.idx_of_remote(id) == i,
        c.rec_for_remote(id) == Some(c.recs()[i]),
{
    assert(c.has_remote(id));
    let j = c.idx_of_remote(id);
    if j != i {
        assert(!(c.recs()[i].remote_id is Some && c.recs()[i].remote_id == c.recs()[j].remote_id));
    }
}

/// Channel id uniqueness: across a session, no two distinct channels share
/// a discovery key, a local id or a remote id.
pub proof fn lemma_channel_ids_unique(c: Channelizer, i: int, j: int)
    requires
        c.wf(),
        0 <= i < c.recs().len(),
        0 <= j < c.recs().len(),
        i != j,
    ensures
        c.recs()[i].discovery_key != c.recs()[j].discovery_key,
        c.recs()[i].local_id is Some ==> c.recs()[i].local_id != c.recs()[j].local_id,
        c.recs()[i].remote_id is Some ==> c.recs()[i].remote_id != c.recs()[j].remote_id,
{
}

/// Replacing one record, its discovery key kept, leaves every other key's
/// record as it was.
proof fn lemma_frame_update(pre: Channelizer, post: Channelizer, i: int)
    requires
        pre.wf(),
        post.wf(),
        0 <= i < pre.recs().len(),
        post.recs().len() == pre.recs().len(),
        forall|k: int|
            0 <= k < pre.recs().len() && k != i ==> #[trigger] post.recs()[k] == pre.recs()[k],
        post.recs()[i].discovery_key == pre.recs()[i].discovery_key,
    ensures
        forall|dk: Seq<u8>|
            dk != pre.recs()[i].discovery_key ==> #[trigger] post.rec_for(dk) == pre.rec_for(dk),
        post.rec_for(pre.recs()[i].discovery_key) == Some(post.recs()[i]),
        pre.rec_for(pre.recs()[i].discovery_key) == Some(pre.recs()[i]),
{
    let dki = pre.recs()[i].discovery_key;
    lemma_rec_at(pre, dki, i);
    lemma_rec_at(post, dki, i);
    assert forall|dk: Seq<u8>| dk != dki implies #[trigger] post.rec_for(dk) == pre.rec_for(
        dk,
    ) by {
        if pre.has_dkey(dk) {
            let j = pre.idx_of(dk);
            assert(j != i);
            lemma_rec_at(post, dk, j);
            lemma_rec_at(pre, dk, j);
        } else if post.has_dkey(dk) {
            let j = post.idx_of(dk);
            assert(post.recs()[j].discovery_key == dk);
            assert(j != i);
            assert(pre.recs()[j].discovery_key == dk);
        }
    }
}

/// Appending a record for a fresh discovery key leaves every other key's
/// record as it was.
proof fn lemma_frame_push(pre: Channelizer, post: Channelizer, r: ChannelInfoV)
    requires
        pre.wf(),
        post.wf(),
        post.recs() == pre.recs().push(r),
        !pre.has_dkey(r.discovery_key),
    ensures
        forall|dk: Seq<u8>|
            dk != r.discovery_key ==> #[trigger] post.rec_for(dk) == pre.rec_for(dk),
        post.rec_for(r.discovery_key) == Some(r),
        pre.rec_for(r.discovery_key) is None,
{
    let n = pre.recs().len() as int;
    assert(post.recs()[n] == r);
    lemma_rec_at(post, r.discovery_key, n);
    assert forall|dk: Seq<u8>| dk != r.discovery_key implies #[trigger] post.rec_for(dk)
        == pre.rec_for(dk) by {
        if pre.has_dkey(dk) {
            let j = pre.idx_of(dk);
            assert(post.recs()[j] == pre.recs()[j]);
            lemma_rec_at(post, dk, j);
            lemma_rec_at(pre, dk, j);
        } else if post.has_dkey(dk) {
            let j = post.idx_of(dk);
            assert(post.recs()[j].discovery_key == dk);
            assert(j != n);
            assert(pre.recs()[j].discovery_key == dk);
        }
    }
}

/// Removing one record leaves every other key's record as it was.
proof fn lemma_frame_remove(pre: Channelizer, post: Channelizer, i: int)
    requires
        pre.wf(),
        post.wf(),
        0 <= i < pre.recs().len(),
        post.recs() == pre.recs().remove(i),
    ensures
        forall|dk: Seq<u8>|
            dk != pre.recs()[i].discovery_key ==> #[trigger] post.rec_for(dk) == pre.rec_for(dk),
        post.rec_for(pre.recs()[i].discovery_key) is None,
{
    let dki = pre.recs()[i].discovery_key;
    lemma_rec_at(pre, dki, i);
    if post.has_dkey(dki) {
        let j = post.idx_of(dki);
        assert(post.recs()[j].discovery_key == dki);
        let j0 = if j < i {
            j
        } else {
            j + 1
        };
        assert(pre.recs()[j0] == post.recs()[j]);
        assert(j0 != i);
        assert(pre.recs()[j0].discovery_key != pre.recs()[i].discovery_key);
    }
    assert forall|dk: Seq<u8>| dk != dki implies #[trigger] post.rec_for(dk) == pre.rec_for(
        dk,
    ) by {
        if pre.has_dkey(dk) {
            let j = pre.idx_of(dk);
            assert(pre.recs()[j].discovery_key == dk);
            assert(j != i);
            let j1 = if j < i {
                j
            } else {
                j - 1
            };
            assert(post.recs()[j1] == pre.recs()[j]);
            lemma_rec_at(post, dk, j1);
            lemma_rec_at(pre, dk, j);
        } else if post.has_dkey(dk) {
            let j = post.idx_of(dk);
            assert(post.recs()[j].discovery_key == dk);
            let j0 = if j < i {
                j
            } else {
                j + 1
            };
            assert(pre.recs()[j0] == post.recs()[j]);
        }
    }
}


impl Channelizer {
    /// Linear scan by discovery key.
    fn find(&self, dkey: &[u8]) -> (r: Option<usize>)
        ensures
            match r {
                Some(i) => 0 <= i < self.recs().len() && self.recs()[i as int].discovery_key
                    == dkey@,
                None => !self.has_dkey(dkey@),
            },
    {
        let mut i: usize = 0;
        while i < self.channels.len()
            invariant
                i <= self.recs().len(),
                forall|j: int| 0 <= j < i ==> (#[trigger] self.recs()[j]).discovery_key != dkey@,
            decreases self.recs().len() - i,
        {
            if crate::bytes_eq(self.channels[i].discovery_key.as_slice(), dkey) {
                return Some(i);
            }
            i = i + 1;
        }
        None
    }

    /// Linear scan by remote id.
    fn find_remote(&self, id: u64) -> (r: Option<usize>)
        ensures
            match r {
                Some(i) => 0 <= i < self.recs().len() && self.recs()[i as int].remote_id == Some(
                    id,
                ),
                None => !self.has_remote(id),
            },
    {
        let mut i: usize = 0;
        while i < self.channels.len()
            invariant
                i <= self.recs().len(),
                forall|j: int| 0 <= j < i ==> (#[trigger] self.recs()[j]).remote_id != Some(id),
            decreases self.recs().len() - i,
        {
            let hit = match self.channels[i].remote_id {
                Some(x) => x == id,
                None => false,
            };
            if hit {
                return Some(i);
            }
            i = i + 1;
        }
        None
    }

    /// The record for a discovery key.
    pub fn get(&self, dkey: &[u8]) -> (r: Option<&ChannelInfo>)
        requires
            self.wf(),
        ensures
            match r {
                Some(c) => self.rec_for(dkey@) == Some(c@),
                None => self.rec_for(dkey@) is None,
            },
    {
        match self.find(dkey) {
            Some(i) => {
                proof {
                    lemma_rec_at(*self, dkey@, i as int);
                }
                Some(&self.channels[i])
            },
            None => None,
        }
    }

    /// The key this side opened a discovery key under, if it has.
    pub fn get_key(&self, dkey: &[u8]) -> (r: Option<Vec<u8>>)
        requires
            self.wf(),
        ensures
            opt_view(r) == match self.rec_for(dkey@) {
                Some(rec) => rec.key,
                None => None::<Seq<u8>>,
            },
    {
        match self.find(dkey) {
            Some(i) => {
                proof {
                    lemma_rec_at(*self, dkey@, i as int);
                }
                match &self.channels[i].key {
                    Some(k) => Some(slice_to_vec(k.as_slice())),
                    None => None,
                }
            },
            None => None,
        }
    }

    /// The record a remote id belongs to.
    pub fn get_remote(&self, id: u64) -> (r: Option<&ChannelInfo>)
        requires
            self.wf(),
        ensures
            match r {
                Some(c) => self.rec_for_remote(id) == Some(c@),
                None => self.rec_for_remote(id) is None,
            },
    {
        match self.find_remote(id) {
            Some(i) => {
                proof {
                    lemma_rec_at_remote(*self, id, i as int);
                }
                Some(&self.channels[i])
            },
            None => None,
        }
    }

    /// Create or update the record for `key` and assign the next local id;
    /// ids count up from zero and are never reused. On the same key the
    /// existing id comes back. Fails only when the id space is exhausted:
    /// a further id could not be encoded in the wire header, so the failure
    /// carries the encoder's rejection kind.
    pub fn attach_local(&mut self, key: &[u8]) -> (r: Result<u64, ProtoError>)
        requires
            old(self).wf(),
            1 <= key@.len() <= 64,
        ensures
            final(self).wf(),
            final(self).counter() >= old(self).counter(),
            // Fails exactly when a fresh id would be needed and none is left.
            r is Err <==> ((match old(self).rec_for(dkey_spec(key@)) {
                Some(r0) => r0.local_id is None,
                None => true,
            }) && old(self).counter() == MAX_LOCAL_IDS),
            match r {
                Ok(id) => {
                    &&& id < MAX_LOCAL_IDS
                    &&& final(self).counter() <= old(self).counter() + 1
                    &&& forall|dk2: Seq<u8>|
                        dk2 != dkey_spec(key@) ==> #[trigger] final(self).rec_for(dk2) == old(
                            self,
                        ).rec_for(dk2)
                    &&& match (final(self).rec_for(dkey_spec(key@)), old(self).rec_for(
                        dkey_spec(key@),
                    )) {
                        (Some(rec), Some(r0)) => {
                            &&& rec.key == Some(key@)
                            &&& rec.local_id == Some(id)
                            &&& rec.remote_id == r0.remote_id
                            &&& rec.remote_capability == r0.remote_capability
                            &&& rec.opened == r0.opened
                            &&& match r0.local_id {
                                Some(x) => id == x && final(self).counter() == old(self).counter(),
                                None => id == old(self).counter() && final(self).counter() == old(
                                    self,
                                ).counter() + 1,
                            }
                        },
                        (Some(rec), None) => {
                            &&& rec.key == Some(key@)
                            &&& rec.local_id == Some(id)
                            &&& rec.remote_id is None
                            &&& rec.remote_capability is None
                            &&& !rec.opened
                            &&& id == old(self).counter()
                            &&& final(self).counter() == old(self).counter() + 1
                        },
                        _ => false,
                    }
                },
                Err(e) => {
                    &&& e == ProtoError::DecodeError
                    &&& final(self).recs() == old(self).recs()
                    &&& final(self).counter() == old(self).counter()
                },
            },
    {
        let dkey = discovery_key(key);
        let ghost dk = dkey_spec(key@);
        match self.find(dkey.as_slice()) {
            Some(i) => {
                proof {
                    lemma_rec_at(*old(self), dk, i as int);
                }
                let id = match self.channels[i].local_id {
                    Some(id) => id,
                    None => {
                        if self.local_id_counter >= MAX_LOCAL_IDS {
                            return Err(ProtoError::DecodeError);
                        }
                        let id = self.local_id_counter;
                        self.local_id_counter = self.local_id_counter + 1;
                        let rec = vstd::std_specs::vec::vec_index_mut(&mut self.channels, i);
                        rec.local_id = Some(id);
                        id
                    },
                };
                let rec = vstd::std_specs::vec::vec_index_mut(&mut self.channels, i);
                rec.key = Some(slice_to_vec(key));
                proof {
                    assert forall|k: int|
                        0 <= k < old(self).recs().len() && k != i implies #[trigger] self.recs()[k]
                        == old(self).recs()[k] by {}
                    assert(self.recs().len() == old(self).recs().len());
                    assert(self.recs()[i as int].discovery_key == old(
                        self,
                    ).recs()[i as int].discovery_key);
                    assert(self.wf());
                    lemma_frame_update(*old(self), *self, i as int);
                }
                Ok(id)
            },
            None => {
                if self.local_id_counter >= MAX_LOCAL_IDS {
                    return Err(ProtoError::DecodeError);
                }
                let id = self.local_id_counter;
                self.local_id_counter = self.local_id_counter + 1;
                let info = ChannelInfo {
                    discovery_key: dkey,
                    key: Some(slice_to_vec(key)),
                    local_id: Some(id),
                    remote_id: None,
                    remote_capability: None,
                    opened: false,
                };
                let ghost infov = info@;
                self.channels.push(info);
                proof {
                    assert(self.recs() =~= old(self).recs().push(infov));
                    assert(self.wf());
                    lemma_frame_push(*old(self), *self, infov);
                }
                Ok(id)
            },
        }
    }

    /// Record the remote's announcement of a channel: its id and capability.
    /// A remote id already bound to another channel, or a changed id for the
    /// same channel, is a protocol error.
    pub fn attach_remote(&mut self, dkey: Vec<u8>, remote_id: u64, capability: Option<Vec<u8>>) -> (r:
        Result<(), ProtoError>)
        requires
            old(self).wf(),
        ensures
            final(self).wf(),
            final(self).counter() == old(self).counter(),
            r is Ok <==> old(self).remote_attach_ok(dkey@, remote_id),
            match r {
                Ok(()) => {
                    &&& forall|dk2: Seq<u8>|
                        dk2 != dkey@ ==> #[trigger] final(self).rec_for(dk2) == old(self).rec_for(
                            dk2,
                        )
                    &&& match (final(self).rec_for(dkey@), old(self).rec_for(dkey@)) {
                        (Some(rec), Some(r0)) => {
                            &&& rec.remote_id == Some(remote_id)
                            &&& rec.remote_capability == opt_view(capability)
                            &&& rec.key == r0.key
                            &&& rec.local_id == r0.local_id
                            &&& rec.opened == r0.opened
                        },
                        (Some(rec), None) => {
                            &&& rec.remote_id == Some(remote_id)
                            &&& rec.remote_capability == opt_view(capability)
                            &&& rec.key is None
                            &&& rec.local_id is None
                            &&& !rec.opened
                        },
                        _ => false,
                    }
                },
                Err(e) => {
                    &&& e == ProtoError::DecodeError
                    &&& final(self).recs() == old(self).recs()
                },
            },
    {
        match self.find(dkey.as_slice()) {
            Some(i) => {
                proof {
                    lemma_rec_at(*old(self), dkey@, i as int);
                }
                match self.channels[i].remote_id {
                    Some(x) => {
                        if x != remote_id {
                            return Err(ProtoError::DecodeError);
                        }
                    },
                    None => {
                        if self.find_remote(remote_id).is_some() {
                            return Err(ProtoError::DecodeError);
                        }
                    },
                }
                let rec = vstd::std_specs::vec::vec_index_mut(&mut self.channels, i);
                rec.remote_id = Some(remote_id);
                rec.remote_capability = capability;
                proof {
                    assert forall|k: int|
                        0 <= k < old(self).recs().len() && k != i implies #[trigger] self.recs()[k]
                        == old(self).recs()[k] by {}
                    assert(self.recs()[i as int].discovery_key == old(
                        self,
                    ).recs()[i as int].discovery_key);
                    assert(self.wf());
                    lemma_frame_update(*old(self), *self, i as int);
                }
                Ok(())
            },
            None => {
                if self.find_remote(remote_id).is_some() {
                    return Err(ProtoError::DecodeError);
                }
                let info = ChannelInfo {
                    discovery_key: dkey,
                    key: None,
                    local_id: None,
                    remote_id: Some(remote_id),
                    remote_capability: capability,
                    opened: false,
                };
                let ghost infov = info@;
                self.channels.push(info);
                proof {
                    assert(self.recs() =~= old(self).recs().push(infov));
                    assert(self.wf());
                    lemma_frame_push(*old(self), *self, infov);
                }
                Ok(())
            },
        }
    }

    /// Install the inbound route of a channel handle.
    pub fn open(&mut self, dkey: &[u8]) -> (r: Result<(), ProtoError>)
        requires
            old(self).wf(),
        ensures
            final(self).wf(),
            final(self).counter() == old(self).counter(),
            match r {
                Ok(()) => {
                    &&& old(self).has_dkey(dkey@)
                    &&& forall|dk2: Seq<u8>|
                        dk2 != dkey@ ==> #[trigger] final(self).rec_for(dk2) == old(self).rec_for(
                            dk2,
                        )
                    &&& match (final(self).rec_for(dkey@), old(self).rec_for(dkey@)) {
                        (Some(rec), Some(r0)) => rec == ChannelInfoV { opened: true, ..r0 },
                        _ => false,
                    }
                },
                Err(e) => {
                    &&& e == ProtoError::BrokenPipe
                    &&& !old(self).has_dkey(dkey@)
                    &&& final(self).recs() == old(self).recs()
                },
            },
    {
        match self.find(dkey) {
            Some(i) => {
                proof {
                    lemma_rec_at(*old(self), dkey@, i as int);
                }
                let rec = vstd::std_specs::vec::vec_index_mut(&mut self.channels, i);
                rec.opened = true;
                proof {
                    assert forall|k: int|
                        0 <= k < old(self).recs().len() && k != i implies #[trigger] self.recs()[k]
                        == old(self).recs()[k] by {}
                    assert(self.recs()[i as int].discovery_key == old(
                        self,
                    ).recs()[i as int].discovery_key);
                    assert(self.wf());
                    lemma_frame_update(*old(self), *self, i as int);
                }
                Ok(())
            },
            None => Err(ProtoError::BrokenPipe),
        }
    }

    /// Drop a record; all three index entries go with it.
    pub fn remove(&mut self, dkey: &[u8])
        requires
            old(self).wf(),
        ensures
            final(self).wf(),
            final(self).counter() == old(self).counter(),
            final(self).rec_for(dkey@) is None,
            forall|dk2: Seq<u8>|
                dk2 != dkey@ ==> #[trigger] final(self).rec_for(dk2) == old(self).rec_for(dk2),
    {
        match self.find(dkey) {
            Some(i) => {
                proof {
                    lemma_rec_at(*old(self), dkey@, i as int);
                }
                self.channels.remove(i);
                proof {
                    assert(self.recs() =~= old(self).recs().remove(i as int));
                    assert forall|a: int, b: int|
                        0 <= a < self.recs().len() && 0 <= b < self.recs().len() && a != b implies (
                        #[trigger] self.recs()[a]).discovery_key != (
                        #[trigger] self.recs()[b]).discovery_key && !(self.recs()[a].local_id
                            is Some && self.recs()[a].local_id == self.recs()[b].local_id) && !(
                        self.recs()[a].remote_id is Some && self.recs()[a].remote_id
                            == self.recs()[b].remote_id) by {
                        let a0 = if a < i as int { a } else { a + 1 };
                        let b0 = if b < i as int { b } else { b + 1 };
                        assert(old(self).recs()[a0] == self.recs()[a]);
                        assert(old(self).recs()[b0] == self.recs()[b]);
                    }
                    assert(self.wf());
                    lemma_frame_remove(*old(self), *self, i as int);
                }
            },
            None => {
            },
        }
    }

    /// The inbound route for a remote channel id: the local id to deliver
    /// under, or `BrokenPipe` when the channel is unknown or has no route.
    pub fn forward(&self, remote_id: u64) -> (r: Result<u64, ProtoError>)
        requires
            self.wf(),
        ensures
            match r {
                Ok(lid) => match self.rec_for_remote(remote_id) {
                    Some(rec) => rec.local_id == Some(lid) && rec.opened,
                    None => false,
                },
                Err(e) => {
                    &&& e == ProtoError::BrokenPipe
                    &&& match self.rec_for_remote(remote_id) {
                        Some(rec) => !(rec.local_id is Some && rec.opened),
                        None => true,
                    }
                },
            },
    {
        match self.find_remote(remote_id) {
            Some(i) => {
                proof {
                    lemma_rec_at_remote(*self, remote_id, i as int);
                }
                if !self.channels[i].opened {
                    return Err(ProtoError::BrokenPipe);
                }
                match self.channels[i].local_id {
                    Some(lid) => Ok(lid),
                    None => Err(ProtoError::BrokenPipe),
                }
            },
            None => Err(ProtoError::BrokenPipe),
        }
    }

    /// How many channels the table holds.
    pub fn len(&self) -> (r: usize)
        ensures
            r == self.recs().len(),
    {
        self.channels.len()
    }
}

} // verus!
