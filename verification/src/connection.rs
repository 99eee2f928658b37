//! The connection: the directory of channels, the request-id allocator, the
//! request-completion latches, connection-wide QoS, and the outbound frame
//! buffer.

use vstd::prelude::*;

use crate::channel::{Answer, Channel, ChannelState};
use crate::error::Error;
use crate::keyed::{Keyed, has_key, key_idx, keys_unique, lemma_key_idx, lemma_key_idx_is,
    lemma_key_idx_push, lemma_key_idx_remove, lemma_key_idx_same_keys, lookup};
use crate::method::{Frame, Method};
use crate::RequestId;

verus! {

/// One completion latch: request `id` finished, successfully or not.
/// For `finished_get_reqs`, `done == false` records a `basic.get-empty`.
#[derive(Debug, Clone, PartialEq)]
pub struct ReqEntry {
    pub id: RequestId,
    pub done: bool,
}

impl Keyed for ReqEntry {
    type Key = RequestId;

    open spec fn key(&self) -> RequestId {
        self.id
    }
}

/// A broker-assigned name (queue name or consumer tag), recorded under the
/// request that asked for it.
#[derive(Debug, Clone, PartialEq)]
pub struct NameEntry {
    pub id: RequestId,
    pub name: String,
}

impl Keyed for NameEntry {
    type Key = RequestId;

    open spec fn key(&self) -> RequestId {
        self.id
    }
}

/// Latch lookups for every request id other than `rid` agree.
pub open spec fn reqs_unchanged_except(a: Seq<ReqEntry>, b: Seq<ReqEntry>, rid: RequestId) -> bool {
    &&& forall|r2: RequestId| r2 != rid ==> (#[trigger] has_key(b, r2)) == has_key(a, r2)
    &&& forall|r2: RequestId|
        r2 != rid && has_key(a, r2) ==> (#[trigger] lookup(b, r2)) == lookup(a, r2)
}

/// Name lookups for every request id other than `rid` agree.
pub open spec fn names_unchanged_except(
    a: Seq<NameEntry>,
    b: Seq<NameEntry>,
    rid: RequestId,
) -> bool {
    &&& forall|r2: RequestId| r2 != rid ==> (#[trigger] has_key(b, r2)) == has_key(a, r2)
    &&& forall|r2: RequestId|
        r2 != rid && has_key(a, r2) ==> (#[trigger] lookup(b, r2)) == lookup(a, r2)
}

/// Channel lookups for every id other than `id` agree between `a` and `b`.
pub open spec fn channels_unchanged_except(a: Connection, b: Connection, id: u16) -> bool {
    &&& forall|id2: u16| id2 != id ==> (#[trigger] has_key(b.channels@, id2)) == has_key(
        a.channels@,
        id2,
    )
    &&& forall|id2: u16|
        id2 != id && has_key(a.channels@, id2) ==> (#[trigger] lookup(b.channels@, id2)) == lookup(
            a.channels@,
            id2,
        )
}

/// The state of one AMQP connection, as this core models it.
#[derive(Debug)]
pub struct Connection {
    pub channels: Vec<Channel>,
    /// The next request id to hand out; starts at 1 and only grows.
    pub next_request_id: RequestId,
    /// Requests that completed (`done` is true but for reserved uses).
    pub finished_reqs: Vec<ReqEntry>,
    /// `basic.get` completions: `done` distinguishes `get-ok` from
    /// `get-empty`.
    pub finished_get_reqs: Vec<ReqEntry>,
    /// Broker-assigned names, recorded under the requesting id.
    pub generated_names: Vec<NameEntry>,
    /// Connection-wide QoS, set by `basic.qos` with `global`.
    pub prefetch_size: u32,
    pub prefetch_count: u16,
    /// Frames emitted and not yet drained by the frame layer.
    pub outbound: Vec<Frame>,
    /// Tags of consumers cancelled by `basic.cancel-ok`, one entry per
    /// consumer dropped, for the outer layer to notify.
    pub cancellations: Vec<String>,
}

impl Connection {
    pub open spec fn has_chan(self, id: u16) -> bool {
        has_key(self.channels@, id)
    }

    pub open spec fn chan(self, id: u16) -> Channel {
        lookup(self.channels@, id)
    }

    /// Is `rid` recorded as finished, and how?
    pub open spec fn finished(self, rid: RequestId) -> Option<bool> {
        if has_key(self.finished_reqs@, rid) {
            Some(lookup(self.finished_reqs@, rid).done)
        } else {
            None
        }
    }

    /// Is the `basic.get` request `rid` recorded as answered, and was a
    /// message delivered?
    pub open spec fn get_finished(self, rid: RequestId) -> Option<bool> {
        if has_key(self.finished_get_reqs@, rid) {
            Some(lookup(self.finished_get_reqs@, rid).done)
        } else {
            None
        }
    }

    /// The broker-assigned name recorded for `rid`, if any.
    pub open spec fn name_for(self, rid: RequestId) -> Option<Seq<char>> {
        if has_key(self.generated_names@, rid) {
            Some(lookup(self.generated_names@, rid).name@)
        } else {
            None
        }
    }

    /// Internal consistency of the whole connection: every directory is
    /// duplicate-free, every channel is well-formed, and every outstanding
    /// request id was allocated (below `next_request_id`) and is unique
    /// across all channels.
    pub open spec fn wf(self) -> bool {
        &&& keys_unique(self.channels@)
        &&& forall|i: int| 0 <= i < self.channels@.len() ==> (#[trigger] self.channels@[i]).wf()
        &&& self.next_request_id >= 1
        &&& forall|i: int, j: int|
            0 <= i < self.channels@.len() && 0 <= j < self.channels@[i].awaiting@.len() ==> (
            #[trigger] self.channels@[i].awaiting@[j]).request_id() < self.next_request_id
        &&& forall|i1: int, j1: int, i2: int, j2: int|
            0 <= i1 < self.channels@.len() && 0 <= j1 < self.channels@[i1].awaiting@.len() && 0
                <= i2 < self.channels@.len() && 0 <= j2 < self.channels@[i2].awaiting@.len() && (i1
                != i2 || j1 != j2) ==> (#[trigger] self.channels@[i1].awaiting@[j1]).request_id()
                != (#[trigger] self.channels@[i2].awaiting@[j2]).request_id()
        &&& keys_unique(self.finished_reqs@)
        &&& keys_unique(self.finished_get_reqs@)
        &&& keys_unique(self.generated_names@)
    }

    /// A fresh connection: no channels, no latches, request ids from 1.
    pub fn new() -> (r: Connection)
        ensures
            r.wf(),
            r.channels@ == Seq::<Channel>::empty(),
            r.next_request_id == 1,
            r.finished_reqs@ == Seq::<ReqEntry>::empty(),
            r.finished_get_reqs@ == Seq::<ReqEntry>::empty(),
            r.generated_names@ == Seq::<NameEntry>::empty(),
            r.prefetch_size == 0,
            r.prefetch_count == 0,
            r.outbound@ == Seq::<Frame>::empty(),
            r.cancellations@ == Seq::<String>::empty(),
    {
        Connection {
            channels: Vec::new(),
            next_request_id: 1,
            finished_reqs: Vec::new(),
            finished_get_reqs: Vec::new(),
            generated_names: Vec::new(),
            prefetch_size: 0,
            prefetch_count: 0,
            outbound: Vec::new(),
            cancellations: Vec::new(),
        }
    }

    /// Index of the channel with `channel_id`, if one exists.
    #[verifier::loop_isolation(false)]
    pub(crate) fn find_channel(&self, channel_id: u16) -> (r: Option<usize>)
        ensures
            match r {
                Some(i) => 0 <= i < self.channels@.len() && key_idx(self.channels@, channel_id)
                    == i,
                None => !self.has_chan(channel_id),
            },
    {
        let mut i: usize = 0;
        while i < self.channels.len()
            invariant
                0 <= i <= self.channels@.len(),
                forall|j: int| 0 <= j < i ==> (#[trigger] self.channels@[j]).key() != channel_id,
            decreases self.channels@.len() - i,
        {
            if self.channels[i].id == channel_id {
                proof {
                    lemma_key_idx_is(self.channels@, channel_id, i as int);
                }
                return Some(i);
            }
            i += 1;
        }
        proof {
            lemma_key_idx(self.channels@, channel_id);
        }
        None
    }

    /// Insert a fresh channel in state `Initial` under `channel_id`; refuse
    /// an id already in use.
    pub fn create_channel(&mut self, channel_id: u16) -> (r: Result<(), Error>)
        requires
            old(self).wf(),
        ensures
            final(self).wf(),
            r is Ok <==> !old(self).has_chan(channel_id),
            r is Err ==> *final(self) == *old(self) && r == Err::<(), Error>(
                Error::InvalidChannel(channel_id),
            ),
            r is Ok ==> {
                &&& *final(self) == (Connection {
                    channels: final(self).channels,
                    ..*old(self)
                })
                &&& final(self).has_chan(channel_id)
                &&& final(self).chan(channel_id) == (Channel {
                    id: channel_id,
                    state: ChannelState::Initial,
                    awaiting: final(self).chan(channel_id).awaiting,
                    send_flow: true,
                    receive_flow: true,
                    queues: final(self).chan(channel_id).queues,
                    prefetch_size: 0,
                    prefetch_count: 0,
                    confirm: false,
                    message_count: 0,
                    unacked: final(self).chan(channel_id).unacked,
                    acked: final(self).chan(channel_id).acked,
                    nacked: final(self).chan(channel_id).nacked,
                })
                &&& final(self).chan(channel_id).awaiting@ == Seq::<Answer>::empty()
                &&& final(self).chan(channel_id).queues@ == Seq::<crate::queue::Queue>::empty()
                &&& final(self).chan(channel_id).unacked@ == Seq::<u64>::empty()
                &&& final(self).chan(channel_id).acked@ == Seq::<u64>::empty()
                &&& final(self).chan(channel_id).nacked@ == Seq::<u64>::empty()
                &&& channels_unchanged_except(*old(self), *final(self), channel_id)
            },
    {
        match self.find_channel(channel_id) {
            Some(_) => Err(Error::InvalidChannel(channel_id)),
            None => {
                let ghost s0 = self.channels@;
                let ch = Channel::new(channel_id);
                proof {
                    lemma_key_idx(s0, channel_id);
                }
                self.channels.push(ch);
                proof {
                    let s1 = self.channels@;
                    lemma_key_idx_push(s0, ch, channel_id);
                    assert forall|id2: u16| id2 != channel_id implies (#[trigger] has_key(s1, id2))
                        == has_key(s0, id2) by {
                        lemma_key_idx_push(s0, ch, id2);
                    }
                    assert forall|id2: u16| id2 != channel_id && has_key(s0, id2) implies (
                    #[trigger] lookup(s1, id2)) == lookup(s0, id2) by {
                        lemma_key_idx_push(s0, ch, id2);
                        lemma_key_idx(s0, id2);
                    }
                    assert forall|i2: int, j2: int| 0 <= i2 < j2 < s1.len() implies (
                    #[trigger] s1[i2]).key() != (#[trigger] s1[j2]).key() by {
                        if j2 == s0.len() {
                            assert(s1[j2] == ch);
                            assert(s1[i2] == s0[i2]);
                        }
                    }
                }
                Ok(())
            },
        }
    }

    /// Hand out the next request id.
    pub(crate) fn alloc_request_id(&mut self) -> (rid: RequestId)
        requires
            old(self).wf(),
            old(self).next_request_id < u64::MAX,
        ensures
            final(self).wf(),
            rid == old(self).next_request_id,
            *final(self) == (Connection {
                next_request_id: (old(self).next_request_id + 1) as u64,
                ..*old(self)
            }),
    {
        let rid = self.next_request_id;
        self.next_request_id = self.next_request_id + 1;
        rid
    }

    /// Append one method frame to the outbound buffer (the frame sink of
    /// this sans-I/O core).
    pub(crate) fn emit(&mut self, channel_id: u16, method: Method)
        requires
            old(self).wf(),
        ensures
            final(self).wf(),
            *final(self) == (Connection { outbound: final(self).outbound, ..*old(self) }),
            final(self).outbound@ == old(self).outbound@.push(Frame { channel_id, method }),
    {
        self.outbound.push(Frame { channel_id, method });
    }

    /// Hand the buffered outbound frames to the frame layer, leaving the
    /// buffer empty.
    pub fn take_frames(&mut self) -> (r: Vec<Frame>)
        requires
            old(self).wf(),
        ensures
            final(self).wf(),
            *final(self) == (Connection { outbound: final(self).outbound, ..*old(self) }),
            final(self).outbound@ == Seq::<Frame>::empty(),
            r == old(self).outbound,
    {
        let mut taken: Vec<Frame> = Vec::new();
        core::mem::swap(&mut taken, &mut self.outbound);
        taken
    }

    /// The state of the channel `channel_id`, if it exists.
    pub fn channel_state(&self, channel_id: u16) -> (r: Option<&ChannelState>)
        ensures
            match r {
                Some(state) => self.has_chan(channel_id) && *state == self.chan(channel_id).state,
                None => !self.has_chan(channel_id),
            },
    {
        match self.find_channel(channel_id) {
            Some(i) => Some(&self.channels[i].state),
            None => None,
        }
    }

    /// Whether request `rid` completed (the completion latch).
    #[verifier::loop_isolation(false)]
    pub fn request_finished(&self, rid: RequestId) -> (r: Option<bool>)
        ensures
            r == self.finished(rid),
    {
        let mut i: usize = 0;
        while i < self.finished_reqs.len()
            invariant
                0 <= i <= self.finished_reqs@.len(),
                forall|j: int| 0 <= j < i ==> (#[trigger] self.finished_reqs@[j]).key() != rid,
            decreases self.finished_reqs@.len() - i,
        {
            if self.finished_reqs[i].id == rid {
                proof {
                    lemma_key_idx_is(self.finished_reqs@, rid, i as int);
                }
                return Some(self.finished_reqs[i].done);
            }
            i += 1;
        }
        proof {
            lemma_key_idx(self.finished_reqs@, rid);
        }
        None
    }

    /// Whether the `basic.get` request `rid` was answered, and whether a
    /// message was delivered (`false` records `get-empty`).
    #[verifier::loop_isolation(false)]
    pub fn get_request_finished(&self, rid: RequestId) -> (r: Option<bool>)
        ensures
            r == self.get_finished(rid),
    {
        let mut i: usize = 0;
        while i < self.finished_get_reqs.len()
            invariant
                0 <= i <= self.finished_get_reqs@.len(),
                forall|j: int| 0 <= j < i ==> (#[trigger] self.finished_get_reqs@[j]).key() != rid,
            decreases self.finished_get_reqs@.len() - i,
        {
            if self.finished_get_reqs[i].id == rid {
                proof {
                    lemma_key_idx_is(self.finished_get_reqs@, rid, i as int);
                }
                return Some(self.finished_get_reqs[i].done);
            }
            i += 1;
        }
        proof {
            lemma_key_idx(self.finished_get_reqs@, rid);
        }
        None
    }

    /// The broker-assigned name recorded for request `rid`, if any.
    #[verifier::loop_isolation(false)]
    pub fn generated_name(&self, rid: RequestId) -> (r: Option<&String>)
        ensures
            match r {
                Some(name) => self.name_for(rid) == Some(name@),
                None => self.name_for(rid) is None,
            },
    {
        let mut i: usize = 0;
        while i < self.generated_names.len()
            invariant
                0 <= i <= self.generated_names@.len(),
                forall|j: int| 0 <= j < i ==> (#[trigger] self.generated_names@[j]).key() != rid,
            decreases self.generated_names@.len() - i,
        {
            if self.generated_names[i].id == rid {
                proof {
                    lemma_key_idx_is(self.generated_names@, rid, i as int);
                }
                return Some(&self.generated_names[i].name);
            }
            i += 1;
        }
        proof {
            lemma_key_idx(self.generated_names@, rid);
        }
        None
    }


    /// Read and forget the completion latch for `rid`: the recorded
    /// outcome, removed from the map.
    #[verifier::loop_isolation(false)]
    pub fn take_request_finished(&mut self, rid: RequestId) -> (r: Option<bool>)
        requires
            old(self).wf(),
        ensures
            final(self).wf(),
            *final(self) == (Connection { finished_reqs: final(self).finished_reqs, ..*old(self) }),
            r == old(self).finished(rid),
            final(self).finished(rid) is None,
            reqs_unchanged_except(old(self).finished_reqs@, final(self).finished_reqs@, rid),
    {
        let ghost s0 = self.finished_reqs@;
        let mut i: usize = 0;
        while i < self.finished_reqs.len()
            invariant
                *self == *old(self),
                0 <= i <= s0.len(),
                forall|j: int| 0 <= j < i ==> (#[trigger] s0[j]).key() != rid,
            decreases s0.len() - i,
        {
            if self.finished_reqs[i].id == rid {
                proof {
                    lemma_key_idx_is(s0, rid, i as int);
                }
                let entry = self.finished_reqs.remove(i);
                proof {
                    let s1 = self.finished_reqs@;
                    assert forall|i2: int, j2: int| 0 <= i2 < j2 < s1.len() implies (
                    #[trigger] s1[i2]).key() != (#[trigger] s1[j2]).key() by {
                        let a2 = if i2 < i as int {
                            i2
                        } else {
                            i2 + 1
                        };
                        let b2 = if j2 < i as int {
                            j2
                        } else {
                            j2 + 1
                        };
                        assert(s1[i2] == s0[a2]);
                        assert(s1[j2] == s0[b2]);
                    }
                    assert forall|r2: RequestId| r2 != rid implies (#[trigger] has_key(s1, r2))
                        == has_key(s0, r2) by {
                        lemma_key_idx_remove(s0, i as int, r2);
                    }
                    assert forall|r2: RequestId| r2 != rid && has_key(s0, r2) implies (
                    #[trigger] lookup(s1, r2)) == lookup(s0, r2) by {
                        lemma_key_idx_remove(s0, i as int, r2);
                    }
                    assert(!has_key(s1, rid)) by {
                        lemma_key_idx_remove(s0, i as int, rid);
                    }
                }
                return Some(entry.done);
            }
            i += 1;
        }
        proof {
            lemma_key_idx(s0, rid);
        }
        None
    }

    /// Read and forget the `basic.get` completion latch for `rid`.
    #[verifier::loop_isolation(false)]
    pub fn take_get_request_finished(&mut self, rid: RequestId) -> (r: Option<bool>)
        requires
            old(self).wf(),
        ensures
            final(self).wf(),
            *final(self) == (Connection { finished_get_reqs: final(self).finished_get_reqs, ..*old(self) }),
            r == old(self).get_finished(rid),
            final(self).get_finished(rid) is None,
            reqs_unchanged_except(old(self).finished_get_reqs@, final(self).finished_get_reqs@, rid),
    {
        let ghost s0 = self.finished_get_reqs@;
        let mut i: usize = 0;
        while i < self.finished_get_reqs.len()
            invariant
                *self == *old(self),
                0 <= i <= s0.len(),
                forall|j: int| 0 <= j < i ==> (#[trigger] s0[j]).key() != rid,
            decreases s0.len() - i,
        {
            if self.finished_get_reqs[i].id == rid {
                proof {
                    lemma_key_idx_is(s0, rid, i as int);
                }
                let entry = self.finished_get_reqs.remove(i);
                proof {
                    let s1 = self.finished_get_reqs@;
                    assert forall|i2: int, j2: int| 0 <= i2 < j2 < s1.len() implies (
                    #[trigger] s1[i2]).key() != (#[trigger] s1[j2]).key() by {
                        let a2 = if i2 < i as int {
                            i2
                        } else {
                            i2 + 1
                        };
                        let b2 = if j2 < i as int {
                            j2
                        } else {
                            j2 + 1
                        };
                        assert(s1[i2] == s0[a2]);
                        assert(s1[j2] == s0[b2]);
                    }
                    assert forall|r2: RequestId| r2 != rid implies (#[trigger] has_key(s1, r2))
                        == has_key(s0, r2) by {
                        lemma_key_idx_remove(s0, i as int, r2);
                    }
                    assert forall|r2: RequestId| r2 != rid && has_key(s0, r2) implies (
                    #[trigger] lookup(s1, r2)) == lookup(s0, r2) by {
                        lemma_key_idx_remove(s0, i as int, r2);
                    }
                    assert(!has_key(s1, rid)) by {
                        lemma_key_idx_remove(s0, i as int, rid);
                    }
                }
                return Some(entry.done);
            }
            i += 1;
        }
        proof {
            lemma_key_idx(s0, rid);
        }
        None
    }

    /// Read and forget the broker-assigned name recorded for `rid`.
    #[verifier::loop_isolation(false)]
    pub fn take_generated_name(&mut self, rid: RequestId) -> (r: Option<String>)
        requires
            old(self).wf(),
        ensures
            final(self).wf(),
            *final(self) == (Connection { generated_names: final(self).generated_names, ..*old(self) }),
            match r {
                Some(name) => old(self).name_for(rid) == Some(name@),
                None => old(self).name_for(rid) is None,
            },
            final(self).name_for(rid) is None,
            names_unchanged_except(old(self).generated_names@, final(self).generated_names@, rid),
    {
        let ghost s0 = self.generated_names@;
        let mut i: usize = 0;
        while i < self.generated_names.len()
            invariant
                *self == *old(self),
                0 <= i <= s0.len(),
                forall|j: int| 0 <= j < i ==> (#[trigger] s0[j]).key() != rid,
            decreases s0.len() - i,
        {
            if self.generated_names[i].id == rid {
                proof {
                    lemma_key_idx_is(s0, rid, i as int);
                }
                let entry = self.generated_names.remove(i);
                proof {
                    let s1 = self.generated_names@;
                    assert forall|i2: int, j2: int| 0 <= i2 < j2 < s1.len() implies (
                    #[trigger] s1[i2]).key() != (#[trigger] s1[j2]).key() by {
                        let a2 = if i2 < i as int {
                            i2
                        } else {
                            i2 + 1
                        };
                        let b2 = if j2 < i as int {
                            j2
                        } else {
                            j2 + 1
                        };
                        assert(s1[i2] == s0[a2]);
                        assert(s1[j2] == s0[b2]);
                    }
                    assert forall|r2: RequestId| r2 != rid implies (#[trigger] has_key(s1, r2))
                        == has_key(s0, r2) by {
                        lemma_key_idx_remove(s0, i as int, r2);
                    }
                    assert forall|r2: RequestId| r2 != rid && has_key(s0, r2) implies (
                    #[trigger] lookup(s1, r2)) == lookup(s0, r2) by {
                        lemma_key_idx_remove(s0, i as int, r2);
                    }
                    assert(!has_key(s1, rid)) by {
                        lemma_key_idx_remove(s0, i as int, rid);
                    }
                }
                return Some(entry.name);
            }
            i += 1;
        }
        proof {
            lemma_key_idx(s0, rid);
        }
        None
    }

    /// Record that request `rid` completed.
    #[verifier::loop_isolation(false)]
    pub(crate) fn set_finished(&mut self, rid: RequestId, done: bool)
        requires
            old(self).wf(),
        ensures
            final(self).wf(),
            *final(self) == (Connection { finished_reqs: final(self).finished_reqs, ..*old(self) }),
            final(self).finished(rid) == Some(done),
            reqs_unchanged_except(old(self).finished_reqs@, final(self).finished_reqs@, rid),
    {
        let ghost s0 = self.finished_reqs@;
        let entry = ReqEntry { id: rid, done };
        let mut i: usize = 0;
        while i < self.finished_reqs.len()
            invariant
                *self == *old(self),
                0 <= i <= s0.len(),
                forall|j: int| 0 <= j < i ==> (#[trigger] s0[j]).key() != rid,
            decreases s0.len() - i,
        {
            if self.finished_reqs[i].id == rid {
                proof {
                    lemma_key_idx_is(s0, rid, i as int);
                }
                let slot = &mut self.finished_reqs[i];
                *slot = entry;
                proof {
                    lemma_key_idx_same_keys(s0, self.finished_reqs@, rid);
                    assert forall|r2: RequestId| r2 != rid implies (#[trigger] has_key(
                        self.finished_reqs@,
                        r2,
                    )) == has_key(s0, r2) by {
                        lemma_key_idx_same_keys(s0, self.finished_reqs@, r2);
                    }
                    assert forall|r2: RequestId| r2 != rid && has_key(s0, r2) implies (
                    #[trigger] lookup(self.finished_reqs@, r2)) == lookup(s0, r2) by {
                        lemma_key_idx_same_keys(s0, self.finished_reqs@, r2);
                        lemma_key_idx(s0, r2);
                    }
                }
                return ;
            }
            i += 1;
        }
        proof {
            lemma_key_idx(s0, rid);
        }
        self.finished_reqs.push(entry);
        proof {
            let s1 = self.finished_reqs@;
            lemma_key_idx_push(s0, entry, rid);
            assert forall|r2: RequestId| r2 != rid implies (#[trigger] has_key(s1, r2)) == has_key(
                s0,
                r2,
            ) by {
                lemma_key_idx_push(s0, entry, r2);
            }
            assert forall|r2: RequestId| r2 != rid && has_key(s0, r2) implies (#[trigger] lookup(
                s1,
                r2,
            )) == lookup(s0, r2) by {
                lemma_key_idx_push(s0, entry, r2);
                lemma_key_idx(s0, r2);
            }
            assert forall|i2: int, j2: int| 0 <= i2 < j2 < s1.len() implies (
            #[trigger] s1[i2]).key() != (#[trigger] s1[j2]).key() by {
                if j2 == s0.len() {
                    assert(s1[j2] == entry);
                    assert(s1[i2] == s0[i2]);
                }
            }
        }
    }

    /// Record how a `basic.get` request `rid` completed.
    #[verifier::loop_isolation(false)]
    pub(crate) fn set_get_finished(&mut self, rid: RequestId, done: bool)
        requires
            old(self).wf(),
        ensures
            final(self).wf(),
            *final(self) == (Connection {
                finished_get_reqs: final(self).finished_get_reqs,
                ..*old(self)
            }),
            final(self).get_finished(rid) == Some(done),
            reqs_unchanged_except(old(self).finished_get_reqs@, final(self).finished_get_reqs@, rid),
    {
        let ghost s0 = self.finished_get_reqs@;
        let entry = ReqEntry { id: rid, done };
        let mut i: usize = 0;
        while i < self.finished_get_reqs.len()
            invariant
                *self == *old(self),
                0 <= i <= s0.len(),
                forall|j: int| 0 <= j < i ==> (#[trigger] s0[j]).key() != rid,
            decreases s0.len() - i,
        {
            if self.finished_get_reqs[i].id == rid {
                proof {
                    lemma_key_idx_is(s0, rid, i as int);
                }
                let slot = &mut self.finished_get_reqs[i];
                *slot = entry;
                proof {
                    lemma_key_idx_same_keys(s0, self.finished_get_reqs@, rid);
                    assert forall|r2: RequestId| r2 != rid implies (#[trigger] has_key(
                        self.finished_get_reqs@,
                        r2,
                    )) == has_key(s0, r2) by {
                        lemma_key_idx_same_keys(s0, self.finished_get_reqs@, r2);
                    }
                    assert forall|r2: RequestId| r2 != rid && has_key(s0, r2) implies (
                    #[trigger] lookup(self.finished_get_reqs@, r2)) == lookup(s0, r2) by {
                        lemma_key_idx_same_keys(s0, self.finished_get_reqs@, r2);
                        lemma_key_idx(s0, r2);
                    }
                }
                return ;
            }
            i += 1;
        }
        proof {
            lemma_key_idx(s0, rid);
        }
        self.finished_get_reqs.push(entry);
        proof {
            let s1 = self.finished_get_reqs@;
            lemma_key_idx_push(s0, entry, rid);
            assert forall|r2: RequestId| r2 != rid implies (#[trigger] has_key(s1, r2)) == has_key(
                s0,
                r2,
            ) by {
                lemma_key_idx_push(s0, entry, r2);
            }
            assert forall|r2: RequestId| r2 != rid && has_key(s0, r2) implies (#[trigger] lookup(
                s1,
                r2,
            )) == lookup(s0, r2) by {
                lemma_key_idx_push(s0, entry, r2);
                lemma_key_idx(s0, r2);
            }
            assert forall|i2: int, j2: int| 0 <= i2 < j2 < s1.len() implies (
            #[trigger] s1[i2]).key() != (#[trigger] s1[j2]).key() by {
                if j2 == s0.len() {
                    assert(s1[j2] == entry);
                    assert(s1[i2] == s0[i2]);
                }
            }
        }
    }

    /// Record the broker-assigned name for request `rid`.
    #[verifier::loop_isolation(false)]
    pub(crate) fn set_generated_name(&mut self, rid: RequestId, name: String)
        requires
            old(self).wf(),
        ensures
            final(self).wf(),
            *final(self) == (Connection {
                generated_names: final(self).generated_names,
                ..*old(self)
            }),
            final(self).name_for(rid) == Some(name@),
            names_unchanged_except(old(self).generated_names@, final(self).generated_names@, rid),
    {
        let ghost s0 = self.generated_names@;
        let entry = NameEntry { id: rid, name };
        let mut i: usize = 0;
        while i < self.generated_names.len()
            invariant
                *self == *old(self),
                0 <= i <= s0.len(),
                forall|j: int| 0 <= j < i ==> (#[trigger] s0[j]).key() != rid,
            decreases s0.len() - i,
        {
            if self.generated_names[i].id == rid {
                proof {
                    lemma_key_idx_is(s0, rid, i as int);
                }
                let slot = &mut self.generated_names[i];
                *slot = entry;
                proof {
                    lemma_key_idx_same_keys(s0, self.generated_names@, rid);
                    assert forall|r2: RequestId| r2 != rid implies (#[trigger] has_key(
                        self.generated_names@,
                        r2,
                    )) == has_key(s0, r2) by {
                        lemma_key_idx_same_keys(s0, self.generated_names@, r2);
                    }
                    assert forall|r2: RequestId| r2 != rid && has_key(s0, r2) implies (
                    #[trigger] lookup(self.generated_names@, r2)) == lookup(s0, r2) by {
                        lemma_key_idx_same_keys(s0, self.generated_names@, r2);
                        lemma_key_idx(s0, r2);
                    }
                }
                return ;
            }
            i += 1;
        }
        proof {
            lemma_key_idx(s0, rid);
        }
        self.generated_names.push(entry);
        proof {
            let s1 = self.generated_names@;
            lemma_key_idx_push(s0, entry, rid);
            assert forall|r2: RequestId| r2 != rid implies (#[trigger] has_key(s1, r2)) == has_key(
                s0,
                r2,
            ) by {
                lemma_key_idx_push(s0, entry, r2);
            }
            assert forall|r2: RequestId| r2 != rid && has_key(s0, r2) implies (#[trigger] lookup(
                s1,
                r2,
            )) == lookup(s0, r2) by {
                lemma_key_idx_push(s0, entry, r2);
                lemma_key_idx(s0, r2);
            }
            assert forall|i2: int, j2: int| 0 <= i2 < j2 < s1.len() implies (
            #[trigger] s1[i2]).key() != (#[trigger] s1[j2]).key() by {
                if j2 == s0.len() {
                    assert(s1[j2] == entry);
                    assert(s1[i2] == s0[i2]);
                }
            }
        }
    }
}

} // verus!
