//! The method-exchange engine: one issuer per client-initiated AMQP method
//! and one handler per inbound method, over the connection model.
//!
//! Every issuer follows the same discipline: guard (channel exists and is
//! `Connected`, or `Initial` for `channel.open`), emit the method frame,
//! allocate a request id, and record the expected reply. Every reply handler
//! checks the state, matches the head of the channel's queue of expected
//! replies, applies the method's effect, and records completion; any
//! mismatch sends the channel to `Error`.

use vstd::prelude::*;

use crate::channel::{Answer, Channel, ChannelState};
use crate::connection::{Connection, channels_unchanged_except, names_unchanged_except,
    reqs_unchanged_except};
use crate::consumer::Consumer;
use crate::message::{BasicGetMessage, Delivery};
use crate::queue::{Binding, Queue, bindings_unchanged_except, consumers_unchanged_except};
use crate::channel::{queue_with, queues_unchanged_except};
use crate::error::Error;
use crate::keyed::{Keyed, has_key, key_idx, keys_unique, lemma_key_idx, lemma_key_idx_same_keys, lookup};
use crate::method::{Frame, Method};
use crate::tags::tags_le;
use amq_protocol::protocol::basic::AMQPProperties;
use amq_protocol::types::FieldTable;
use crate::RequestId;

verus! {

/// The channel `id` went to `Error` and nothing else of the model changed.
pub open spec fn error_transition(a: Connection, b: Connection, id: u16) -> bool {
    &&& b == (Connection { channels: b.channels, ..a })
    &&& forall|id2: u16| (#[trigger] b.has_chan(id2)) == a.has_chan(id2)
    &&& channels_unchanged_except(a, b, id)
    &&& a.has_chan(id)
    &&& b.has_chan(id)
    &&& b.chan(id) == (Channel { state: ChannelState::Error, ..a.chan(id) })
}

/// After replacing the channel at position `i` (same id), lookups behave as
/// a single-key update of the channel directory.
proof fn lemma_chan_lookup_update(a: Connection, b: Connection, id: u16, i: int)
    requires
        keys_unique(a.channels@),
        0 <= i < a.channels@.len(),
        key_idx(a.channels@, id) == i,
        b.channels@.len() == a.channels@.len(),
        forall|j: int| 0 <= j < a.channels@.len() && j != i ==> b.channels@[j] == a.channels@[j],
        b.channels@[i].id == a.channels@[i].id,
    ensures
        a.has_chan(id),
        a.chan(id) == a.channels@[i],
        b.has_chan(id),
        key_idx(b.channels@, id) == i,
        b.chan(id) == b.channels@[i],
        forall|id2: u16| (#[trigger] has_key(b.channels@, id2)) == has_key(a.channels@, id2),
        channels_unchanged_except(a, b, id),
        keys_unique(b.channels@),
{
    lemma_key_idx(a.channels@, id);
    assert forall|j: int| 0 <= j < a.channels@.len() implies (#[trigger] b.channels@[j]).key() == (
    #[trigger] a.channels@[j]).key() by {
        if j != i {
            assert(b.channels@[j] == a.channels@[j]);
        }
    }
    lemma_key_idx_same_keys(a.channels@, b.channels@, id);
    assert forall|id2: u16| (#[trigger] has_key(b.channels@, id2)) == has_key(
        a.channels@,
        id2,
    ) by {
        lemma_key_idx_same_keys(a.channels@, b.channels@, id2);
    }
    assert forall|id2: u16| id2 != id && has_key(a.channels@, id2) implies (#[trigger] lookup(
        b.channels@,
        id2,
    )) == lookup(a.channels@, id2) by {
        lemma_key_idx_same_keys(a.channels@, b.channels@, id2);
        lemma_key_idx(a.channels@, id2);
    }
    assert forall|i2: int, j2: int| 0 <= i2 < j2 < b.channels@.len() implies (
    #[trigger] b.channels@[i2]).key() != (#[trigger] b.channels@[j2]).key() by {
        assert(b.channels@[i2].key() == a.channels@[i2].key());
        assert(b.channels@[j2].key() == a.channels@[j2].key());
    }
}

/// Connection well-formedness survives replacing the channel at `i` by a
/// well-formed channel with the same id and the same `awaiting` vector.
proof fn lemma_conn_wf_update(a: Connection, b: Connection, i: int)
    requires
        a.wf(),
        0 <= i < a.channels@.len(),
        b.channels@.len() == a.channels@.len(),
        forall|j: int| 0 <= j < a.channels@.len() && j != i ==> b.channels@[j] == a.channels@[j],
        b.channels@[i].id == a.channels@[i].id,
        b.channels@[i].wf(),
        b.channels@[i].awaiting == a.channels@[i].awaiting,
        b.next_request_id == a.next_request_id,
        keys_unique(b.finished_reqs@),
        keys_unique(b.finished_get_reqs@),
        keys_unique(b.generated_names@),
    ensures
        b.wf(),
{
    assert forall|j: int| 0 <= j < b.channels@.len() implies (#[trigger] b.channels@[j]).wf() by {
        if j != i {
            assert(b.channels@[j] == a.channels@[j]);
        }
    }
    assert forall|j: int| 0 <= j < b.channels@.len() implies (#[trigger] b.channels@[j]).awaiting@
        == (#[trigger] a.channels@[j]).awaiting@ by {
        if j != i {
            assert(b.channels@[j] == a.channels@[j]);
        }
    }
    assert forall|i2: int, j2: int| 0 <= i2 < j2 < b.channels@.len() implies (
    #[trigger] b.channels@[i2]).key() != (#[trigger] b.channels@[j2]).key() by {
        if i2 != i {
            assert(b.channels@[i2] == a.channels@[i2]);
        }
        if j2 != i {
            assert(b.channels@[j2] == a.channels@[j2]);
        }
    }
    assert forall|ci: int, ji: int|
        0 <= ci < b.channels@.len() && 0 <= ji < b.channels@[ci].awaiting@.len() implies (
    #[trigger] b.channels@[ci].awaiting@[ji]).request_id() < b.next_request_id by {
        assert(b.channels@[ci].awaiting@ == a.channels@[ci].awaiting@);
    }
    assert forall|c1: int, j1: int, c2: int, j2: int|
        0 <= c1 < b.channels@.len() && 0 <= j1 < b.channels@[c1].awaiting@.len() && 0 <= c2
            < b.channels@.len() && 0 <= j2 < b.channels@[c2].awaiting@.len() && (c1 != c2 || j1
            != j2) implies (#[trigger] b.channels@[c1].awaiting@[j1]).request_id() != (
    #[trigger] b.channels@[c2].awaiting@[j2]).request_id() by {
        assert(b.channels@[c1].awaiting@ == a.channels@[c1].awaiting@);
        assert(b.channels@[c2].awaiting@ == a.channels@[c2].awaiting@);
    }
}

impl Connection {
    /// The guard every issuer applies: the channel must exist and be
    /// `Connected`. Nothing is mutated.
    fn issuer_guard(&self, channel_id: u16) -> (r: Result<usize, Error>)
        ensures
            match r {
                Ok(i) => {
                    &&& self.has_chan(channel_id)
                    &&& 0 <= i < self.channels@.len()
                    &&& key_idx(self.channels@, channel_id) == i
                    &&& self.chan(channel_id).state is Connected
                },
                Err(e) => {
                    &&& !(self.has_chan(channel_id) && self.chan(channel_id).state is Connected)
                    &&& !self.has_chan(channel_id) ==> e == Error::InvalidChannel(channel_id)
                    &&& self.has_chan(channel_id) ==> e == Error::NotConnected && !(self.chan(
                        channel_id,
                    ).state is Connected)
                },
            },
    {
        match self.find_channel(channel_id) {
            None => Err(Error::InvalidChannel(channel_id)),
            Some(i) => {
                proof {
                    lemma_key_idx(self.channels@, channel_id);
                }
                if self.channels[i].state.is_connected() {
                    Ok(i)
                } else {
                    Err(Error::NotConnected)
                }
            },
        }
    }

    /// Send the channel at `i` (the channel `channel_id`) to `Error` and
    /// surface `UnexpectedAnswer`.
    fn fail_unexpected(&mut self, channel_id: u16, i: usize) -> (r: Result<(), Error>)
        requires
            old(self).wf(),
            0 <= i < old(self).channels@.len(),
            key_idx(old(self).channels@, channel_id) == i,
        ensures
            final(self).wf(),
            r == Err::<(), Error>(Error::UnexpectedAnswer),
            error_transition(*old(self), *final(self), channel_id),
    {
        let slot = &mut self.channels[i];
        slot.state = ChannelState::Error;
        proof {
            lemma_chan_lookup_update(*old(self), *self, channel_id, i as int);
            lemma_conn_wf_update(*old(self), *self, i as int);
        }
        Err(Error::UnexpectedAnswer)
    }

    /// The shared pre-checks of every inbound method: the channel must
    /// exist, and must be in `Connected` (`Initial` when `needs_initial`);
    /// in the wrong state it goes to `Error` with `UnexpectedAnswer`.
    fn receive_guard(&mut self, channel_id: u16, needs_initial: bool) -> (r: Result<usize, Error>)
        requires
            old(self).wf(),
        ensures
            final(self).wf(),
            match r {
                Ok(i) => {
                    &&& *final(self) == *old(self)
                    &&& old(self).has_chan(channel_id)
                    &&& 0 <= i < old(self).channels@.len()
                    &&& key_idx(old(self).channels@, channel_id) == i
                    &&& old(self).chan(channel_id) == old(self).channels@[i as int]
                    &&& if needs_initial {
                        old(self).chan(channel_id).state is Initial
                    } else {
                        old(self).chan(channel_id).state is Connected
                    }
                },
                Err(e) => {
                    &&& !old(self).has_chan(channel_id) ==> e == Error::InvalidChannel(channel_id)
                        && *final(self) == *old(self)
                    &&& old(self).has_chan(channel_id) ==> {
                        &&& e == Error::UnexpectedAnswer
                        &&& !(if needs_initial {
                            old(self).chan(channel_id).state is Initial
                        } else {
                            old(self).chan(channel_id).state is Connected
                        })
                        &&& error_transition(*old(self), *final(self), channel_id)
                    }
                },
            },
    {
        match self.find_channel(channel_id) {
            None => Err(Error::InvalidChannel(channel_id)),
            Some(i) => {
                proof {
                    lemma_key_idx(self.channels@, channel_id);
                }
                let ok = if needs_initial {
                    self.channels[i].state.is_initial()
                } else {
                    self.channels[i].state.is_connected()
                };
                if ok {
                    Ok(i)
                } else {
                    let slot = &mut self.channels[i];
                    slot.state = ChannelState::Error;
                    proof {
                        lemma_chan_lookup_update(*old(self), *self, channel_id, i as int);
                        lemma_conn_wf_update(*old(self), *self, i as int);
                    }
                    Err(Error::UnexpectedAnswer)
                }
            },
        }
    }

    /// Append an expected reply to the channel at `i` (the channel
    /// `channel_id`). The request id must be freshly allocated.
    fn push_answer(&mut self, channel_id: u16, i: usize, answer: Answer)
        requires
            old(self).wf(),
            0 <= i < old(self).channels@.len(),
            key_idx(old(self).channels@, channel_id) == i,
            answer.request_id() < old(self).next_request_id,
            forall|ci: int, ji: int|
                0 <= ci < old(self).channels@.len() && 0 <= ji < old(self).channels@[ci].awaiting@.len() ==> (#[trigger] old(self).channels@[ci].awaiting@[ji]).request_id() < answer.request_id(),
        ensures
            final(self).wf(),
            *final(self) == (Connection { channels: final(self).channels, ..*old(self) }),
            final(self).channels@.len() == old(self).channels@.len(),
            forall|j: int|
                0 <= j < old(self).channels@.len() && j != i ==> #[trigger] final(self).channels@[j]
                    == old(self).channels@[j],
            key_idx(final(self).channels@, channel_id) == i,
            forall|id2: u16| (#[trigger] final(self).has_chan(id2)) == old(self).has_chan(id2),
            channels_unchanged_except(*old(self), *final(self), channel_id),
            final(self).chan(channel_id) == final(self).channels@[i as int],
            final(self).chan(channel_id) == (Channel {
                awaiting: final(self).chan(channel_id).awaiting,
                ..old(self).chan(channel_id)
            }),
            final(self).chan(channel_id).awaiting@ == old(self).chan(
                channel_id,
            ).awaiting@.push(answer),
    {
        proof {
            lemma_key_idx(old(self).channels@, channel_id);
        }
        let slot = &mut self.channels[i];
        slot.awaiting.push(answer);
        proof {
            let a = *old(self);
            let b = *self;
            lemma_chan_lookup_update(a, b, channel_id, i as int);
            assert(b.channels@[i as int].wf());
            assert forall|j: int| 0 <= j < b.channels@.len() implies (
            #[trigger] b.channels@[j]).wf() by {
                if j != i {
                    assert(b.channels@[j] == a.channels@[j]);
                }
            }
            let oldaw = a.channels@[i as int].awaiting@;
            assert(b.channels@[i as int].awaiting@ == oldaw.push(answer));
            assert forall|ci: int, ji: int|
                0 <= ci < b.channels@.len() && 0 <= ji < b.channels@[ci].awaiting@.len() implies (
            #[trigger] b.channels@[ci].awaiting@[ji]).request_id() < b.next_request_id by {
                if ci == i {
                    if ji < oldaw.len() {
                        assert(b.channels@[ci].awaiting@[ji] == oldaw[ji]);
                    } else {
                        assert(b.channels@[ci].awaiting@[ji] == answer);
                    }
                } else {
                    assert(b.channels@[ci] == a.channels@[ci]);
                }
            }
            assert forall|c1: int, j1: int, c2: int, j2: int|
                0 <= c1 < b.channels@.len() && 0 <= j1 < b.channels@[c1].awaiting@.len() && 0 <= c2
                    < b.channels@.len() && 0 <= j2 < b.channels@[c2].awaiting@.len() && (c1 != c2
                    || j1 != j2) implies (#[trigger] b.channels@[c1].awaiting@[j1]).request_id()
                != (#[trigger] b.channels@[c2].awaiting@[j2]).request_id() by {
                let n1 = if c1 == i && j1 == oldaw.len() {
                    answer
                } else if c1 == i {
                    oldaw[j1]
                } else {
                    a.channels@[c1].awaiting@[j1]
                };
                let n2 = if c2 == i && j2 == oldaw.len() {
                    answer
                } else if c2 == i {
                    oldaw[j2]
                } else {
                    a.channels@[c2].awaiting@[j2]
                };
                assert(b.channels@[c1].awaiting@[j1] == n1);
                assert(b.channels@[c2].awaiting@[j2] == n2);
            }
        }
    }

    /// Pop the head of the queue of expected replies of the channel at `i`.
    fn pop_answer(&mut self, channel_id: u16, i: usize) -> (answer: Answer)
        requires
            old(self).wf(),
            0 <= i < old(self).channels@.len(),
            key_idx(old(self).channels@, channel_id) == i,
            old(self).channels@[i as int].awaiting@.len() > 0,
        ensures
            final(self).wf(),
            *final(self) == (Connection { channels: final(self).channels, ..*old(self) }),
            final(self).channels@.len() == old(self).channels@.len(),
            forall|j: int|
                0 <= j < old(self).channels@.len() && j != i ==> #[trigger] final(self).channels@[j]
                    == old(self).channels@[j],
            key_idx(final(self).channels@, channel_id) == i,
            forall|id2: u16| (#[trigger] final(self).has_chan(id2)) == old(self).has_chan(id2),
            channels_unchanged_except(*old(self), *final(self), channel_id),
            final(self).chan(channel_id) == final(self).channels@[i as int],
            final(self).chan(channel_id) == (Channel {
                awaiting: final(self).chan(channel_id).awaiting,
                ..old(self).chan(channel_id)
            }),
            answer == old(self).chan(channel_id).awaiting@[0],
            final(self).chan(channel_id).awaiting@ == old(self).chan(
                channel_id,
            ).awaiting@.drop_first(),
    {
        proof {
            lemma_key_idx(old(self).channels@, channel_id);
        }
        let slot = &mut self.channels[i];
        let answer = slot.awaiting.remove(0);
        proof {
            let a = *old(self);
            let b = *self;
            lemma_chan_lookup_update(a, b, channel_id, i as int);
            let oldaw = a.channels@[i as int].awaiting@;
            assert(b.channels@[i as int].awaiting@ =~= oldaw.drop_first());
            assert forall|j: int| 0 <= j < b.channels@.len() implies (
            #[trigger] b.channels@[j]).wf() by {
                if j != i {
                    assert(b.channels@[j] == a.channels@[j]);
                }
            }
            assert forall|ci: int, ji: int|
                0 <= ci < b.channels@.len() && 0 <= ji < b.channels@[ci].awaiting@.len() implies (
            #[trigger] b.channels@[ci].awaiting@[ji]).request_id() < b.next_request_id by {
                if ci == i {
                    assert(b.channels@[ci].awaiting@[ji] == oldaw[ji + 1]);
                } else {
                    assert(b.channels@[ci] == a.channels@[ci]);
                }
            }
            assert forall|c1: int, j1: int, c2: int, j2: int|
                0 <= c1 < b.channels@.len() && 0 <= j1 < b.channels@[c1].awaiting@.len() && 0 <= c2
                    < b.channels@.len() && 0 <= j2 < b.channels@[c2].awaiting@.len() && (c1 != c2
                    || j1 != j2) implies (#[trigger] b.channels@[c1].awaiting@[j1]).request_id()
                != (#[trigger] b.channels@[c2].awaiting@[j2]).request_id() by {
                let m1 = if c1 == i {
                    j1 + 1
                } else {
                    j1
                };
                let m2 = if c2 == i {
                    j2 + 1
                } else {
                    j2
                };
                assert(b.channels@[c1].awaiting@[j1] == a.channels@[c1].awaiting@[m1]);
                assert(b.channels@[c2].awaiting@[j2] == a.channels@[c2].awaiting@[m2]);
            }
        }
        answer
    }
}


/// What every successful issuer guarantees: the request id is the one just
/// allocated, exactly one frame carrying `m` was emitted, and exactly the
/// expected reply `ans` was appended to the channel's queue; nothing else of
/// the connection changed.
pub open spec fn issue_ok(
    a: Connection,
    b: Connection,
    channel_id: u16,
    rid: RequestId,
    m: Method,
    ans: Answer,
) -> bool {
    &&& rid == a.next_request_id
    &&& b.next_request_id == a.next_request_id + 1
    &&& b == (Connection {
        channels: b.channels,
        next_request_id: b.next_request_id,
        outbound: b.outbound,
        ..a
    })
    &&& b.outbound@ == a.outbound@.push(Frame { channel_id, method: m })
    &&& forall|id2: u16| (#[trigger] b.has_chan(id2)) == a.has_chan(id2)
    &&& channels_unchanged_except(a, b, channel_id)
    &&& a.has_chan(channel_id)
    &&& b.has_chan(channel_id)
    &&& b.chan(channel_id).awaiting@ == a.chan(channel_id).awaiting@.push(ans)
}

impl Connection {
    /// Ask the broker to open this channel (`channel.open`); only valid in state `Initial`.
    pub fn channel_open(&mut self, channel_id: u16, out_of_band: String) -> (r: Result<RequestId, Error>)
        requires
            old(self).wf(),
            old(self).next_request_id < u64::MAX,
        ensures
            final(self).wf(),
            r is Err ==> *final(self) == *old(self),
            r is Ok <==> old(self).has_chan(channel_id) && old(self).chan(
                channel_id,
            ).state is Initial,
            !old(self).has_chan(channel_id) ==> r == Err::<RequestId, Error>(
                Error::InvalidChannel(channel_id),
            ),
            old(self).has_chan(channel_id) && !(old(self).chan(channel_id).state is Initial)
                ==> r == Err::<RequestId, Error>(Error::NotConnected),
            r is Ok ==> issue_ok(
                *old(self),
                *final(self),
                channel_id,
                r->Ok_0,
                (Method::ChannelOpen { out_of_band }),
                (Answer::AwaitingChannelOpenOk(old(self).next_request_id)),
            ),
            r is Ok ==> final(self).chan(channel_id) == (Channel {
                awaiting: final(self).chan(channel_id).awaiting,
                ..old(self).chan(channel_id)
            }),
    {
        let i = match self.find_channel(channel_id) {
            None => {
                return Err(Error::InvalidChannel(channel_id));
            },
            Some(i) => i,
        };
        proof {
            lemma_key_idx(self.channels@, channel_id);
        }
        if !self.channels[i].state.is_initial() {
            return Err(Error::NotConnected);
        }
        self.emit(channel_id, Method::ChannelOpen { out_of_band });
        let rid = self.alloc_request_id();
        proof {
            assert forall|ci: int, ji: int|
                0 <= ci < self.channels@.len() && 0 <= ji
                    < self.channels@[ci].awaiting@.len() implies (
            #[trigger] self.channels@[ci].awaiting@[ji]).request_id() < rid by {
                assert(self.channels@[ci] == old(self).channels@[ci]);
            }
        }
        self.push_answer(channel_id, i, Answer::AwaitingChannelOpenOk(rid));
        Ok(rid)
    }

    /// Ask the peer to pause or restart content flow (`channel.flow`).
    pub fn channel_flow(&mut self, channel_id: u16, active: bool) -> (r: Result<RequestId, Error>)
        requires
            old(self).wf(),
            old(self).next_request_id < u64::MAX,
        ensures
            final(self).wf(),
            r is Err ==> *final(self) == *old(self),
            r is Ok <==> old(self).has_chan(channel_id) && old(self).chan(
                channel_id,
            ).state is Connected,
            !old(self).has_chan(channel_id) ==> r == Err::<RequestId, Error>(
                Error::InvalidChannel(channel_id),
            ),
            old(self).has_chan(channel_id) && !(old(self).chan(channel_id).state is Connected)
                ==> r == Err::<RequestId, Error>(Error::NotConnected),
            r is Ok ==> issue_ok(
                *old(self),
                *final(self),
                channel_id,
                r->Ok_0,
                (Method::ChannelFlow { active }),
                (Answer::AwaitingChannelFlowOk(old(self).next_request_id)),
            ),
            r is Ok ==> final(self).chan(channel_id) == (Channel {
                awaiting: final(self).chan(channel_id).awaiting,
                ..old(self).chan(channel_id)
            }),
    {
        let i = match self.issuer_guard(channel_id) {
            Err(e) => {
                return Err(e);
            },
            Ok(i) => i,
        };
        self.emit(channel_id, Method::ChannelFlow { active });
        let rid = self.alloc_request_id();
        proof {
            assert forall|ci: int, ji: int|
                0 <= ci < self.channels@.len() && 0 <= ji
                    < self.channels@[ci].awaiting@.len() implies (
            #[trigger] self.channels@[ci].awaiting@[ji]).request_id() < rid by {
                assert(self.channels@[ci] == old(self).channels@[ci]);
            }
        }
        self.push_answer(channel_id, i, Answer::AwaitingChannelFlowOk(rid));
        Ok(rid)
    }

    /// Close the channel (`channel.close`).
    pub fn channel_close(&mut self, channel_id: u16, reply_code: u16, reply_text: String, class_id: u16, method_id: u16) -> (r: Result<RequestId, Error>)
        requires
            old(self).wf(),
            old(self).next_request_id < u64::MAX,
        ensures
            final(self).wf(),
            r is Err ==> *final(self) == *old(self),
            r is Ok <==> old(self).has_chan(channel_id) && old(self).chan(
                channel_id,
            ).state is Connected,
            !old(self).has_chan(channel_id) ==> r == Err::<RequestId, Error>(
                Error::InvalidChannel(channel_id),
            ),
            old(self).has_chan(channel_id) && !(old(self).chan(channel_id).state is Connected)
                ==> r == Err::<RequestId, Error>(Error::NotConnected),
            r is Ok ==> issue_ok(
                *old(self),
                *final(self),
                channel_id,
                r->Ok_0,
                (Method::ChannelClose { reply_code, reply_text, class_id, method_id }),
                (Answer::AwaitingChannelCloseOk(old(self).next_request_id)),
            ),
            r is Ok ==> final(self).chan(channel_id) == (Channel {
                awaiting: final(self).chan(channel_id).awaiting,
                ..old(self).chan(channel_id)
            }),
    {
        let i = match self.issuer_guard(channel_id) {
            Err(e) => {
                return Err(e);
            },
            Ok(i) => i,
        };
        self.emit(channel_id, Method::ChannelClose { reply_code, reply_text, class_id, method_id });
        let rid = self.alloc_request_id();
        proof {
            assert forall|ci: int, ji: int|
                0 <= ci < self.channels@.len() && 0 <= ji
                    < self.channels@[ci].awaiting@.len() implies (
            #[trigger] self.channels@[ci].awaiting@[ji]).request_id() < rid by {
                assert(self.channels@[ci] == old(self).channels@[ci]);
            }
        }
        self.push_answer(channel_id, i, Answer::AwaitingChannelCloseOk(rid));
        Ok(rid)
    }

    /// Request a ticket for a realm (`access.request`, deprecated in 0-9-1).
    pub fn access_request(&mut self, channel_id: u16, realm: String, exclusive: bool, passive: bool, active: bool, write: bool, read: bool) -> (r: Result<RequestId, Error>)
        requires
            old(self).wf(),
            old(self).next_request_id < u64::MAX,
        ensures
            final(self).wf(),
            r is Err ==> *final(self) == *old(self),
            r is Ok <==> old(self).has_chan(channel_id) && old(self).chan(
                channel_id,
            ).state is Connected,
            !old(self).has_chan(channel_id) ==> r == Err::<RequestId, Error>(
                Error::InvalidChannel(channel_id),
            ),
            old(self).has_chan(channel_id) && !(old(self).chan(channel_id).state is Connected)
                ==> r == Err::<RequestId, Error>(Error::NotConnected),
            r is Ok ==> issue_ok(
                *old(self),
                *final(self),
                channel_id,
                r->Ok_0,
                (Method::AccessRequest { realm, exclusive, passive, active, write, read }),
                (Answer::AwaitingAccessRequestOk(old(self).next_request_id)),
            ),
            r is Ok ==> final(self).chan(channel_id) == (Channel {
                awaiting: final(self).chan(channel_id).awaiting,
                ..old(self).chan(channel_id)
            }),
    {
        let i = match self.issuer_guard(channel_id) {
            Err(e) => {
                return Err(e);
            },
            Ok(i) => i,
        };
        self.emit(channel_id, Method::AccessRequest { realm, exclusive, passive, active, write, read });
        let rid = self.alloc_request_id();
        proof {
            assert forall|ci: int, ji: int|
                0 <= ci < self.channels@.len() && 0 <= ji
                    < self.channels@[ci].awaiting@.len() implies (
            #[trigger] self.channels@[ci].awaiting@[ji]).request_id() < rid by {
                assert(self.channels@[ci] == old(self).channels@[ci]);
            }
        }
        self.push_answer(channel_id, i, Answer::AwaitingAccessRequestOk(rid));
        Ok(rid)
    }

    /// Declare an exchange (`exchange.declare`).
    pub fn exchange_declare(&mut self, channel_id: u16, ticket: u16, exchange: String, exchange_type: String, passive: bool, durable: bool, auto_delete: bool, internal: bool, nowait: bool, arguments: FieldTable) -> (r: Result<RequestId, Error>)
        requires
            old(self).wf(),
            old(self).next_request_id < u64::MAX,
        ensures
            final(self).wf(),
            r is Err ==> *final(self) == *old(self),
            r is Ok <==> old(self).has_chan(channel_id) && old(self).chan(
                channel_id,
            ).state is Connected,
            !old(self).has_chan(channel_id) ==> r == Err::<RequestId, Error>(
                Error::InvalidChannel(channel_id),
            ),
            old(self).has_chan(channel_id) && !(old(self).chan(channel_id).state is Connected)
                ==> r == Err::<RequestId, Error>(Error::NotConnected),
            r is Ok ==> issue_ok(
                *old(self),
                *final(self),
                channel_id,
                r->Ok_0,
                (Method::ExchangeDeclare {
                    ticket,
                    exchange,
                    exchange_type,
                    passive,
                    durable,
                    auto_delete,
                    internal,
                    nowait,
                    arguments,
                }),
                (Answer::AwaitingExchangeDeclareOk(old(self).next_request_id)),
            ),
            r is Ok ==> final(self).chan(channel_id) == (Channel {
                awaiting: final(self).chan(channel_id).awaiting,
                ..old(self).chan(channel_id)
            }),
    {
        let i = match self.issuer_guard(channel_id) {
            Err(e) => {
                return Err(e);
            },
            Ok(i) => i,
        };
        self.emit(channel_id, Method::ExchangeDeclare {
                ticket,
                exchange,
                exchange_type,
                passive,
                durable,
                auto_delete,
                internal,
                nowait,
                arguments,
            });
        let rid = self.alloc_request_id();
        proof {
            assert forall|ci: int, ji: int|
                0 <= ci < self.channels@.len() && 0 <= ji
                    < self.channels@[ci].awaiting@.len() implies (
            #[trigger] self.channels@[ci].awaiting@[ji]).request_id() < rid by {
                assert(self.channels@[ci] == old(self).channels@[ci]);
            }
        }
        self.push_answer(channel_id, i, Answer::AwaitingExchangeDeclareOk(rid));
        Ok(rid)
    }

    /// Delete an exchange (`exchange.delete`).
    pub fn exchange_delete(&mut self, channel_id: u16, ticket: u16, exchange: String, if_unused: bool, nowait: bool) -> (r: Result<RequestId, Error>)
        requires
            old(self).wf(),
            old(self).next_request_id < u64::MAX,
        ensures
            final(self).wf(),
            r is Err ==> *final(self) == *old(self),
            r is Ok <==> old(self).has_chan(channel_id) && old(self).chan(
                channel_id,
            ).state is Connected,
            !old(self).has_chan(channel_id) ==> r == Err::<RequestId, Error>(
                Error::InvalidChannel(channel_id),
            ),
            old(self).has_chan(channel_id) && !(old(self).chan(channel_id).state is Connected)
                ==> r == Err::<RequestId, Error>(Error::NotConnected),
            r is Ok ==> issue_ok(
                *old(self),
                *final(self),
                channel_id,
                r->Ok_0,
                (Method::ExchangeDelete { ticket, exchange, if_unused, nowait }),
                (Answer::AwaitingExchangeDeleteOk(old(self).next_request_id)),
            ),
            r is Ok ==> final(self).chan(channel_id) == (Channel {
                awaiting: final(self).chan(channel_id).awaiting,
                ..old(self).chan(channel_id)
            }),
    {
        let i = match self.issuer_guard(channel_id) {
            Err(e) => {
                return Err(e);
            },
            Ok(i) => i,
        };
        self.emit(channel_id, Method::ExchangeDelete { ticket, exchange, if_unused, nowait });
        let rid = self.alloc_request_id();
        proof {
            assert forall|ci: int, ji: int|
                0 <= ci < self.channels@.len() && 0 <= ji
                    < self.channels@[ci].awaiting@.len() implies (
            #[trigger] self.channels@[ci].awaiting@[ji]).request_id() < rid by {
                assert(self.channels@[ci] == old(self).channels@[ci]);
            }
        }
        self.push_answer(channel_id, i, Answer::AwaitingExchangeDeleteOk(rid));
        Ok(rid)
    }

    /// Bind an exchange to an exchange (`exchange.bind`).
    pub fn exchange_bind(&mut self, channel_id: u16, ticket: u16, destination: String, source: String, routing_key: String, nowait: bool, arguments: FieldTable) -> (r: Result<RequestId, Error>)
        requires
            old(self).wf(),
            old(self).next_request_id < u64::MAX,
        ensures
            final(self).wf(),
            r is Err ==> *final(self) == *old(self),
            r is Ok <==> old(self).has_chan(channel_id) && old(self).chan(
                channel_id,
            ).state is Connected,
            !old(self).has_chan(channel_id) ==> r == Err::<RequestId, Error>(
                Error::InvalidChannel(channel_id),
            ),
            old(self).has_chan(channel_id) && !(old(self).chan(channel_id).state is Connected)
                ==> r == Err::<RequestId, Error>(Error::NotConnected),
            r is Ok ==> issue_ok(
                *old(self),
                *final(self),
                channel_id,
                r->Ok_0,
                (Method::ExchangeBind { ticket, destination, source, routing_key, nowait, arguments }),
                (Answer::AwaitingExchangeBindOk(old(self).next_request_id)),
            ),
            r is Ok ==> final(self).chan(channel_id) == (Channel {
                awaiting: final(self).chan(channel_id).awaiting,
                ..old(self).chan(channel_id)
            }),
    {
        let i = match self.issuer_guard(channel_id) {
            Err(e) => {
                return Err(e);
            },
            Ok(i) => i,
        };
        self.emit(channel_id, Method::ExchangeBind { ticket, destination, source, routing_key, nowait, arguments });
        let rid = self.alloc_request_id();
        proof {
            assert forall|ci: int, ji: int|
                0 <= ci < self.channels@.len() && 0 <= ji
                    < self.channels@[ci].awaiting@.len() implies (
            #[trigger] self.channels@[ci].awaiting@[ji]).request_id() < rid by {
                assert(self.channels@[ci] == old(self).channels@[ci]);
            }
        }
        self.push_answer(channel_id, i, Answer::AwaitingExchangeBindOk(rid));
        Ok(rid)
    }

    /// Unbind an exchange from an exchange (`exchange.unbind`).
    pub fn exchange_unbind(&mut self, channel_id: u16, ticket: u16, destination: String, source: String, routing_key: String, nowait: bool, arguments: FieldTable) -> (r: Result<RequestId, Error>)
        requires
            old(self).wf(),
            old(self).next_request_id < u64::MAX,
        ensures
            final(self).wf(),
            r is Err ==> *final(self) == *old(self),
            r is Ok <==> old(self).has_chan(channel_id) && old(self).chan(
                channel_id,
            ).state is Connected,
            !old(self).has_chan(channel_id) ==> r == Err::<RequestId, Error>(
                Error::InvalidChannel(channel_id),
            ),
            old(self).has_chan(channel_id) && !(old(self).chan(channel_id).state is Connected)
                ==> r == Err::<RequestId, Error>(Error::NotConnected),
            r is Ok ==> issue_ok(
                *old(self),
                *final(self),
                channel_id,
                r->Ok_0,
                (Method::ExchangeUnbind { ticket, destination, source, routing_key, nowait, arguments }),
                (Answer::AwaitingExchangeUnbindOk(old(self).next_request_id)),
            ),
            r is Ok ==> final(self).chan(channel_id) == (Channel {
                awaiting: final(self).chan(channel_id).awaiting,
                ..old(self).chan(channel_id)
            }),
    {
        let i = match self.issuer_guard(channel_id) {
            Err(e) => {
                return Err(e);
            },
            Ok(i) => i,
        };
        self.emit(channel_id, Method::ExchangeUnbind { ticket, destination, source, routing_key, nowait, arguments });
        let rid = self.alloc_request_id();
        proof {
            assert forall|ci: int, ji: int|
                0 <= ci < self.channels@.len() && 0 <= ji
                    < self.channels@[ci].awaiting@.len() implies (
            #[trigger] self.channels@[ci].awaiting@[ji]).request_id() < rid by {
                assert(self.channels@[ci] == old(self).channels@[ci]);
            }
        }
        self.push_answer(channel_id, i, Answer::AwaitingExchangeUnbindOk(rid));
        Ok(rid)
    }

    /// Declare a queue (`queue.declare`); an empty name asks the broker to generate one.
    pub fn queue_declare(&mut self, channel_id: u16, ticket: u16, queue: String, passive: bool, durable: bool, exclusive: bool, auto_delete: bool, nowait: bool, arguments: FieldTable) -> (r: Result<RequestId, Error>)
        requires
            old(self).wf(),
            old(self).next_request_id < u64::MAX,
        ensures
            final(self).wf(),
            r is Err ==> *final(self) == *old(self),
            r is Ok <==> old(self).has_chan(channel_id) && old(self).chan(
                channel_id,
            ).state is Connected,
            !old(self).has_chan(channel_id) ==> r == Err::<RequestId, Error>(
                Error::InvalidChannel(channel_id),
            ),
            old(self).has_chan(channel_id) && !(old(self).chan(channel_id).state is Connected)
                ==> r == Err::<RequestId, Error>(Error::NotConnected),
            r is Ok ==> issue_ok(
                *old(self),
                *final(self),
                channel_id,
                r->Ok_0,
                (Method::QueueDeclare {
                    ticket,
                    queue,
                    passive,
                    durable,
                    exclusive,
                    auto_delete,
                    nowait,
                    arguments,
                }),
                (Answer::AwaitingQueueDeclareOk(old(self).next_request_id)),
            ),
            r is Ok ==> final(self).chan(channel_id) == (Channel {
                awaiting: final(self).chan(channel_id).awaiting,
                ..old(self).chan(channel_id)
            }),
    {
        let i = match self.issuer_guard(channel_id) {
            Err(e) => {
                return Err(e);
            },
            Ok(i) => i,
        };
        self.emit(channel_id, Method::QueueDeclare {
                ticket,
                queue,
                passive,
                durable,
                exclusive,
                auto_delete,
                nowait,
                arguments,
            });
        let rid = self.alloc_request_id();
        proof {
            assert forall|ci: int, ji: int|
                0 <= ci < self.channels@.len() && 0 <= ji
                    < self.channels@[ci].awaiting@.len() implies (
            #[trigger] self.channels@[ci].awaiting@[ji]).request_id() < rid by {
                assert(self.channels@[ci] == old(self).channels@[ci]);
            }
        }
        self.push_answer(channel_id, i, Answer::AwaitingQueueDeclareOk(rid));
        Ok(rid)
    }

    /// Purge a queue (`queue.purge`).
    pub fn queue_purge(&mut self, channel_id: u16, ticket: u16, queue: String, nowait: bool) -> (r: Result<RequestId, Error>)
        requires
            old(self).wf(),
            old(self).next_request_id < u64::MAX,
        ensures
            final(self).wf(),
            r is Err ==> *final(self) == *old(self),
            r is Ok <==> old(self).has_chan(channel_id) && old(self).chan(
                channel_id,
            ).state is Connected,
            !old(self).has_chan(channel_id) ==> r == Err::<RequestId, Error>(
                Error::InvalidChannel(channel_id),
            ),
            old(self).has_chan(channel_id) && !(old(self).chan(channel_id).state is Connected)
                ==> r == Err::<RequestId, Error>(Error::NotConnected),
            r is Ok ==> issue_ok(
                *old(self),
                *final(self),
                channel_id,
                r->Ok_0,
                (Method::QueuePurge { ticket, queue, nowait }),
                (Answer::AwaitingQueuePurgeOk(old(self).next_request_id, queue)),
            ),
            r is Ok ==> final(self).chan(channel_id) == (Channel {
                awaiting: final(self).chan(channel_id).awaiting,
                ..old(self).chan(channel_id)
            }),
    {
        let i = match self.issuer_guard(channel_id) {
            Err(e) => {
                return Err(e);
            },
            Ok(i) => i,
        };
        self.emit(channel_id, Method::QueuePurge { ticket, queue: queue.clone(), nowait });
        let rid = self.alloc_request_id();
        proof {
            assert forall|ci: int, ji: int|
                0 <= ci < self.channels@.len() && 0 <= ji
                    < self.channels@[ci].awaiting@.len() implies (
            #[trigger] self.channels@[ci].awaiting@[ji]).request_id() < rid by {
                assert(self.channels@[ci] == old(self).channels@[ci]);
            }
        }
        self.push_answer(channel_id, i, Answer::AwaitingQueuePurgeOk(rid, queue));
        Ok(rid)
    }

    /// Delete a queue (`queue.delete`); its shadow is dropped when the `delete-ok` arrives.
    pub fn queue_delete(&mut self, channel_id: u16, ticket: u16, queue: String, if_unused: bool, if_empty: bool, nowait: bool) -> (r: Result<RequestId, Error>)
        requires
            old(self).wf(),
            old(self).next_request_id < u64::MAX,
        ensures
            final(self).wf(),
            r is Err ==> *final(self) == *old(self),
            r is Ok <==> old(self).has_chan(channel_id) && old(self).chan(
                channel_id,
            ).state is Connected,
            !old(self).has_chan(channel_id) ==> r == Err::<RequestId, Error>(
                Error::InvalidChannel(channel_id),
            ),
            old(self).has_chan(channel_id) && !(old(self).chan(channel_id).state is Connected)
                ==> r == Err::<RequestId, Error>(Error::NotConnected),
            r is Ok ==> issue_ok(
                *old(self),
                *final(self),
                channel_id,
                r->Ok_0,
                (Method::QueueDelete { ticket, queue, if_unused, if_empty, nowait }),
                (Answer::AwaitingQueueDeleteOk(old(self).next_request_id, queue)),
            ),
            r is Ok ==> final(self).chan(channel_id) == (Channel {
                awaiting: final(self).chan(channel_id).awaiting,
                ..old(self).chan(channel_id)
            }),
    {
        let i = match self.issuer_guard(channel_id) {
            Err(e) => {
                return Err(e);
            },
            Ok(i) => i,
        };
        self.emit(channel_id, Method::QueueDelete { ticket, queue: queue.clone(), if_unused, if_empty, nowait });
        let rid = self.alloc_request_id();
        proof {
            assert forall|ci: int, ji: int|
                0 <= ci < self.channels@.len() && 0 <= ji
                    < self.channels@[ci].awaiting@.len() implies (
            #[trigger] self.channels@[ci].awaiting@[ji]).request_id() < rid by {
                assert(self.channels@[ci] == old(self).channels@[ci]);
            }
        }
        self.push_answer(channel_id, i, Answer::AwaitingQueueDeleteOk(rid, queue));
        Ok(rid)
    }

    /// Unbind a queue from an exchange (`queue.unbind`); bindings are removed when the `unbind-ok` arrives.
    pub fn queue_unbind(&mut self, channel_id: u16, ticket: u16, queue: String, exchange: String, routing_key: String, arguments: FieldTable) -> (r: Result<RequestId, Error>)
        requires
            old(self).wf(),
            old(self).next_request_id < u64::MAX,
        ensures
            final(self).wf(),
            r is Err ==> *final(self) == *old(self),
            r is Ok <==> old(self).has_chan(channel_id) && old(self).chan(
                channel_id,
            ).state is Connected,
            !old(self).has_chan(channel_id) ==> r == Err::<RequestId, Error>(
                Error::InvalidChannel(channel_id),
            ),
            old(self).has_chan(channel_id) && !(old(self).chan(channel_id).state is Connected)
                ==> r == Err::<RequestId, Error>(Error::NotConnected),
            r is Ok ==> issue_ok(
                *old(self),
                *final(self),
                channel_id,
                r->Ok_0,
                (Method::QueueUnbind { ticket, queue, exchange, routing_key, arguments }),
                (Answer::AwaitingQueueUnbindOk(old(self).next_request_id, exchange, routing_key)),
            ),
            r is Ok ==> final(self).chan(channel_id) == (Channel {
                awaiting: final(self).chan(channel_id).awaiting,
                ..old(self).chan(channel_id)
            }),
    {
        let i = match self.issuer_guard(channel_id) {
            Err(e) => {
                return Err(e);
            },
            Ok(i) => i,
        };
        self.emit(channel_id, Method::QueueUnbind {
                ticket,
                queue,
                exchange: exchange.clone(),
                routing_key: routing_key.clone(),
                arguments,
            });
        let rid = self.alloc_request_id();
        proof {
            assert forall|ci: int, ji: int|
                0 <= ci < self.channels@.len() && 0 <= ji
                    < self.channels@[ci].awaiting@.len() implies (
            #[trigger] self.channels@[ci].awaiting@[ji]).request_id() < rid by {
                assert(self.channels@[ci] == old(self).channels@[ci]);
            }
        }
        self.push_answer(channel_id, i, Answer::AwaitingQueueUnbindOk(rid, exchange, routing_key));
        Ok(rid)
    }

    /// Set the prefetch window (`basic.qos`); applied when the `qos-ok` arrives.
    pub fn basic_qos(&mut self, channel_id: u16, prefetch_size: u32, prefetch_count: u16, global: bool) -> (r: Result<RequestId, Error>)
        requires
            old(self).wf(),
            old(self).next_request_id < u64::MAX,
        ensures
            final(self).wf(),
            r is Err ==> *final(self) == *old(self),
            r is Ok <==> old(self).has_chan(channel_id) && old(self).chan(
                channel_id,
            ).state is Connected,
            !old(self).has_chan(channel_id) ==> r == Err::<RequestId, Error>(
                Error::InvalidChannel(channel_id),
            ),
            old(self).has_chan(channel_id) && !(old(self).chan(channel_id).state is Connected)
                ==> r == Err::<RequestId, Error>(Error::NotConnected),
            r is Ok ==> issue_ok(
                *old(self),
                *final(self),
                channel_id,
                r->Ok_0,
                (Method::BasicQos { prefetch_size, prefetch_count, global }),
                (Answer::AwaitingBasicQosOk(old(self).next_request_id, prefetch_size, prefetch_count, global)),
            ),
            r is Ok ==> final(self).chan(channel_id) == (Channel {
                awaiting: final(self).chan(channel_id).awaiting,
                ..old(self).chan(channel_id)
            }),
    {
        let i = match self.issuer_guard(channel_id) {
            Err(e) => {
                return Err(e);
            },
            Ok(i) => i,
        };
        self.emit(channel_id, Method::BasicQos { prefetch_size, prefetch_count, global });
        let rid = self.alloc_request_id();
        proof {
            assert forall|ci: int, ji: int|
                0 <= ci < self.channels@.len() && 0 <= ji
                    < self.channels@[ci].awaiting@.len() implies (
            #[trigger] self.channels@[ci].awaiting@[ji]).request_id() < rid by {
                assert(self.channels@[ci] == old(self).channels@[ci]);
            }
        }
        self.push_answer(channel_id, i, Answer::AwaitingBasicQosOk(rid, prefetch_size, prefetch_count, global));
        Ok(rid)
    }

    /// Start a consumer on a queue (`basic.consume`); an empty tag asks the broker to generate one.
    pub fn basic_consume(&mut self, channel_id: u16, ticket: u16, queue: String, consumer_tag: String, no_local: bool, no_ack: bool, exclusive: bool, nowait: bool, arguments: FieldTable) -> (r: Result<RequestId, Error>)
        requires
            old(self).wf(),
            old(self).next_request_id < u64::MAX,
        ensures
            final(self).wf(),
            r is Err ==> *final(self) == *old(self),
            r is Ok <==> old(self).has_chan(channel_id) && old(self).chan(
                channel_id,
            ).state is Connected,
            !old(self).has_chan(channel_id) ==> r == Err::<RequestId, Error>(
                Error::InvalidChannel(channel_id),
            ),
            old(self).has_chan(channel_id) && !(old(self).chan(channel_id).state is Connected)
                ==> r == Err::<RequestId, Error>(Error::NotConnected),
            r is Ok ==> issue_ok(
                *old(self),
                *final(self),
                channel_id,
                r->Ok_0,
                (Method::BasicConsume {
                    ticket,
                    queue,
                    consumer_tag,
                    no_local,
                    no_ack,
                    exclusive,
                    nowait,
                    arguments,
                }),
                (Answer::AwaitingBasicConsumeOk(
                    old(self).next_request_id,
                    queue,
                    consumer_tag,
                    no_local,
                    no_ack,
                    exclusive,
                    nowait,
                )),
            ),
            r is Ok ==> final(self).chan(channel_id) == (Channel {
                awaiting: final(self).chan(channel_id).awaiting,
                ..old(self).chan(channel_id)
            }),
    {
        let i = match self.issuer_guard(channel_id) {
            Err(e) => {
                return Err(e);
            },
            Ok(i) => i,
        };
        self.emit(channel_id, Method::BasicConsume {
                ticket,
                queue: queue.clone(),
                consumer_tag: consumer_tag.clone(),
                no_local,
                no_ack,
                exclusive,
                nowait,
                arguments,
            });
        let rid = self.alloc_request_id();
        proof {
            assert forall|ci: int, ji: int|
                0 <= ci < self.channels@.len() && 0 <= ji
                    < self.channels@[ci].awaiting@.len() implies (
            #[trigger] self.channels@[ci].awaiting@[ji]).request_id() < rid by {
                assert(self.channels@[ci] == old(self).channels@[ci]);
            }
        }
        self.push_answer(channel_id, i, Answer::AwaitingBasicConsumeOk(rid, queue, consumer_tag, no_local, no_ack, exclusive, nowait));
        Ok(rid)
    }

    /// Cancel a consumer (`basic.cancel`); it is dropped when the `cancel-ok` arrives.
    pub fn basic_cancel(&mut self, channel_id: u16, consumer_tag: String, nowait: bool) -> (r: Result<RequestId, Error>)
        requires
            old(self).wf(),
            old(self).next_request_id < u64::MAX,
        ensures
            final(self).wf(),
            r is Err ==> *final(self) == *old(self),
            r is Ok <==> old(self).has_chan(channel_id) && old(self).chan(
                channel_id,
            ).state is Connected,
            !old(self).has_chan(channel_id) ==> r == Err::<RequestId, Error>(
                Error::InvalidChannel(channel_id),
            ),
            old(self).has_chan(channel_id) && !(old(self).chan(channel_id).state is Connected)
                ==> r == Err::<RequestId, Error>(Error::NotConnected),
            r is Ok ==> issue_ok(
                *old(self),
                *final(self),
                channel_id,
                r->Ok_0,
                (Method::BasicCancel { consumer_tag, nowait }),
                (Answer::AwaitingBasicCancelOk(old(self).next_request_id)),
            ),
            r is Ok ==> final(self).chan(channel_id) == (Channel {
                awaiting: final(self).chan(channel_id).awaiting,
                ..old(self).chan(channel_id)
            }),
    {
        let i = match self.issuer_guard(channel_id) {
            Err(e) => {
                return Err(e);
            },
            Ok(i) => i,
        };
        self.emit(channel_id, Method::BasicCancel { consumer_tag, nowait });
        let rid = self.alloc_request_id();
        proof {
            assert forall|ci: int, ji: int|
                0 <= ci < self.channels@.len() && 0 <= ji
                    < self.channels@[ci].awaiting@.len() implies (
            #[trigger] self.channels@[ci].awaiting@[ji]).request_id() < rid by {
                assert(self.channels@[ci] == old(self).channels@[ci]);
            }
        }
        self.push_answer(channel_id, i, Answer::AwaitingBasicCancelOk(rid));
        Ok(rid)
    }

    /// Fetch one message from a queue (`basic.get`).
    pub fn basic_get(&mut self, channel_id: u16, ticket: u16, queue: String, no_ack: bool) -> (r: Result<RequestId, Error>)
        requires
            old(self).wf(),
            old(self).next_request_id < u64::MAX,
        ensures
            final(self).wf(),
            r is Err ==> *final(self) == *old(self),
            r is Ok <==> old(self).has_chan(channel_id) && old(self).chan(
                channel_id,
            ).state is Connected,
            !old(self).has_chan(channel_id) ==> r == Err::<RequestId, Error>(
                Error::InvalidChannel(channel_id),
            ),
            old(self).has_chan(channel_id) && !(old(self).chan(channel_id).state is Connected)
                ==> r == Err::<RequestId, Error>(Error::NotConnected),
            r is Ok ==> issue_ok(
                *old(self),
                *final(self),
                channel_id,
                r->Ok_0,
                (Method::BasicGet { ticket, queue, no_ack }),
                (Answer::AwaitingBasicGetAnswer(old(self).next_request_id, queue)),
            ),
            r is Ok ==> final(self).chan(channel_id) == (Channel {
                awaiting: final(self).chan(channel_id).awaiting,
                ..old(self).chan(channel_id)
            }),
    {
        let i = match self.issuer_guard(channel_id) {
            Err(e) => {
                return Err(e);
            },
            Ok(i) => i,
        };
        self.emit(channel_id, Method::BasicGet { ticket, queue: queue.clone(), no_ack });
        let rid = self.alloc_request_id();
        proof {
            assert forall|ci: int, ji: int|
                0 <= ci < self.channels@.len() && 0 <= ji
                    < self.channels@[ci].awaiting@.len() implies (
            #[trigger] self.channels@[ci].awaiting@[ji]).request_id() < rid by {
                assert(self.channels@[ci] == old(self).channels@[ci]);
            }
        }
        self.push_answer(channel_id, i, Answer::AwaitingBasicGetAnswer(rid, queue));
        Ok(rid)
    }

    /// Ask for publisher confirms (`confirm.select`, RabbitMQ extension).
    pub fn confirm_select(&mut self, channel_id: u16, nowait: bool) -> (r: Result<RequestId, Error>)
        requires
            old(self).wf(),
            old(self).next_request_id < u64::MAX,
        ensures
            final(self).wf(),
            r is Err ==> *final(self) == *old(self),
            r is Ok <==> old(self).has_chan(channel_id) && old(self).chan(
                channel_id,
            ).state is Connected,
            !old(self).has_chan(channel_id) ==> r == Err::<RequestId, Error>(
                Error::InvalidChannel(channel_id),
            ),
            old(self).has_chan(channel_id) && !(old(self).chan(channel_id).state is Connected)
                ==> r == Err::<RequestId, Error>(Error::NotConnected),
            r is Ok ==> issue_ok(
                *old(self),
                *final(self),
                channel_id,
                r->Ok_0,
                (Method::ConfirmSelect { nowait }),
                (Answer::AwaitingConfirmSelectOk(old(self).next_request_id)),
            ),
            r is Ok ==> final(self).chan(channel_id) == (Channel {
                awaiting: final(self).chan(channel_id).awaiting,
                ..old(self).chan(channel_id)
            }),
    {
        let i = match self.issuer_guard(channel_id) {
            Err(e) => {
                return Err(e);
            },
            Ok(i) => i,
        };
        self.emit(channel_id, Method::ConfirmSelect { nowait });
        let rid = self.alloc_request_id();
        proof {
            assert forall|ci: int, ji: int|
                0 <= ci < self.channels@.len() && 0 <= ji
                    < self.channels@[ci].awaiting@.len() implies (
            #[trigger] self.channels@[ci].awaiting@[ji]).request_id() < rid by {
                assert(self.channels@[ci] == old(self).channels@[ci]);
            }
        }
        self.push_answer(channel_id, i, Answer::AwaitingConfirmSelectOk(rid));
        Ok(rid)
    }

    /// Confirm a peer `channel.flow` (`channel.flow-ok`).
    pub fn channel_flow_ok(&mut self, channel_id: u16, active: bool) -> (r: Result<(), Error>)
        requires
            old(self).wf(),
        ensures
            final(self).wf(),
            r is Err ==> *final(self) == *old(self),
            r is Ok <==> old(self).has_chan(channel_id) && old(self).chan(
                channel_id,
            ).state is Connected,
            !old(self).has_chan(channel_id) ==> r == Err::<(), Error>(
                Error::InvalidChannel(channel_id),
            ),
            old(self).has_chan(channel_id) && !(old(self).chan(channel_id).state is Connected)
                ==> r == Err::<(), Error>(Error::NotConnected),
            r is Ok ==> *final(self) == (Connection { outbound: final(self).outbound, ..*old(self) }),
            r is Ok ==> final(self).outbound@ == old(self).outbound@.push(
                (Frame { channel_id, method: (Method::ChannelFlowOk { active }) }),
            ),
    {
        let _i = match self.issuer_guard(channel_id) {
            Err(e) => {
                return Err(e);
            },
            Ok(i) => i,
        };
        self.emit(channel_id, Method::ChannelFlowOk { active });
        Ok(())
    }

    /// Confirm a peer `channel.close` (`channel.close-ok`).
    pub fn channel_close_ok(&mut self, channel_id: u16) -> (r: Result<(), Error>)
        requires
            old(self).wf(),
        ensures
            final(self).wf(),
            r is Err ==> *final(self) == *old(self),
            r is Ok <==> old(self).has_chan(channel_id) && old(self).chan(
                channel_id,
            ).state is Connected,
            !old(self).has_chan(channel_id) ==> r == Err::<(), Error>(
                Error::InvalidChannel(channel_id),
            ),
            old(self).has_chan(channel_id) && !(old(self).chan(channel_id).state is Connected)
                ==> r == Err::<(), Error>(Error::NotConnected),
            r is Ok ==> *final(self) == (Connection { outbound: final(self).outbound, ..*old(self) }),
            r is Ok ==> final(self).outbound@ == old(self).outbound@.push(
                (Frame { channel_id, method: (Method::ChannelCloseOk) }),
            ),
    {
        let _i = match self.issuer_guard(channel_id) {
            Err(e) => {
                return Err(e);
            },
            Ok(i) => i,
        };
        self.emit(channel_id, Method::ChannelCloseOk);
        Ok(())
    }

    /// Reject one delivery (`basic.reject`); no reply is expected.
    pub fn basic_reject(&mut self, channel_id: u16, delivery_tag: u64, requeue: bool) -> (r: Result<(), Error>)
        requires
            old(self).wf(),
        ensures
            final(self).wf(),
            r is Err ==> *final(self) == *old(self),
            r is Ok <==> old(self).has_chan(channel_id) && old(self).chan(
                channel_id,
            ).state is Connected,
            !old(self).has_chan(channel_id) ==> r == Err::<(), Error>(
                Error::InvalidChannel(channel_id),
            ),
            old(self).has_chan(channel_id) && !(old(self).chan(channel_id).state is Connected)
                ==> r == Err::<(), Error>(Error::NotConnected),
            r is Ok ==> *final(self) == (Connection { outbound: final(self).outbound, ..*old(self) }),
            r is Ok ==> final(self).outbound@ == old(self).outbound@.push(
                (Frame { channel_id, method: (Method::BasicReject { delivery_tag, requeue }) }),
            ),
    {
        let _i = match self.issuer_guard(channel_id) {
            Err(e) => {
                return Err(e);
            },
            Ok(i) => i,
        };
        self.emit(channel_id, Method::BasicReject { delivery_tag, requeue });
        Ok(())
    }
}


/// Every consumer of every queue kept everything except its buffer of
/// undelivered messages, which is now empty.
pub open spec fn queues_prefetch_cleared(oldq: Seq<Queue>, newq: Seq<Queue>) -> bool {
    &&& newq.len() == oldq.len()
    &&& forall|qi: int|
        0 <= qi < oldq.len() ==> #[trigger] newq[qi] == (Queue {
            consumers: newq[qi].consumers,
            ..oldq[qi]
        })
    &&& forall|qi: int|
        0 <= qi < oldq.len() ==> (#[trigger] newq[qi].consumers@.len())
            == oldq[qi].consumers@.len()
    &&& forall|qi: int, ci: int|
        0 <= qi < oldq.len() && 0 <= ci < oldq[qi].consumers@.len() ==> (
        #[trigger] newq[qi].consumers@[ci]) == (Consumer {
            deliveries: newq[qi].consumers@[ci].deliveries,
            ..oldq[qi].consumers@[ci]
        })
    &&& forall|qi: int, ci: int|
        0 <= qi < oldq.len() && 0 <= ci < oldq[qi].consumers@.len() ==> (
        #[trigger] newq[qi].consumers@[ci].deliveries@.len()) == 0
}

impl Connection {
    /// Bind a queue to an exchange (`queue.bind`): besides recording the
    /// expected reply, the binding is noted on the queue's shadow, inactive
    /// until the `bind-ok` arrives.
    pub fn queue_bind(
        &mut self,
        channel_id: u16,
        ticket: u16,
        queue: String,
        exchange: String,
        routing_key: String,
        nowait: bool,
        arguments: FieldTable,
    ) -> (r: Result<RequestId, Error>)
        requires
            old(self).wf(),
            old(self).next_request_id < u64::MAX,
        ensures
            final(self).wf(),
            r is Err ==> *final(self) == *old(self),
            r is Ok <==> old(self).has_chan(channel_id) && old(self).chan(
                channel_id,
            ).state is Connected,
            !old(self).has_chan(channel_id) ==> r == Err::<RequestId, Error>(
                Error::InvalidChannel(channel_id),
            ),
            old(self).has_chan(channel_id) && !(old(self).chan(channel_id).state is Connected)
                ==> r == Err::<RequestId, Error>(Error::NotConnected),
            r is Ok ==> issue_ok(
                *old(self),
                *final(self),
                channel_id,
                r->Ok_0,
                (Method::QueueBind { ticket, queue, exchange, routing_key, nowait, arguments }),
                (Answer::AwaitingQueueBindOk(old(self).next_request_id, exchange, routing_key)),
            ),
            r is Ok ==> final(self).chan(channel_id) == (Channel {
                awaiting: final(self).chan(channel_id).awaiting,
                queues: final(self).chan(channel_id).queues,
                ..old(self).chan(channel_id)
            }),
            r is Ok ==> forall|n: Seq<char>|
                (#[trigger] final(self).chan(channel_id).has_queue(n)) == old(self).chan(
                    channel_id,
                ).has_queue(n),
            r is Ok && !old(self).chan(channel_id).has_queue(queue@) ==> final(self).chan(
                channel_id,
            ).queues == old(self).chan(channel_id).queues,
            r is Ok && old(self).chan(channel_id).has_queue(queue@) ==> {
                let oldq = old(self).chan(channel_id).queue(queue@);
                let newq = final(self).chan(channel_id).queue(queue@);
                &&& newq == (Queue { bindings: newq.bindings, ..oldq })
                &&& newq.has_binding((exchange@, routing_key@))
                &&& newq.binding((exchange@, routing_key@)) == (Binding {
                    exchange,
                    routing_key,
                    nowait,
                    active: false,
                })
                &&& bindings_unchanged_except(oldq, newq, (exchange@, routing_key@))
                &&& queues_unchanged_except(
                    old(self).chan(channel_id),
                    final(self).chan(channel_id),
                    queue@,
                )
            },
    {
        let i = match self.issuer_guard(channel_id) {
            Err(e) => {
                return Err(e);
            },
            Ok(i) => i,
        };
        self.emit(
            channel_id,
            Method::QueueBind {
                ticket,
                queue: queue.clone(),
                exchange: exchange.clone(),
                routing_key: routing_key.clone(),
                nowait,
                arguments,
            },
        );
        let rid = self.alloc_request_id();
        proof {
            assert forall|ci: int, ji: int|
                0 <= ci < self.channels@.len() && 0 <= ji
                    < self.channels@[ci].awaiting@.len() implies (
            #[trigger] self.channels@[ci].awaiting@[ji]).request_id() < rid by {
                assert(self.channels@[ci] == old(self).channels@[ci]);
            }
        }
        self.push_answer(
            channel_id,
            i,
            Answer::AwaitingQueueBindOk(rid, exchange.clone(), routing_key.clone()),
        );
        let ghost mid = *self;
        let slot = &mut self.channels[i];
        slot.upsert_queue_binding(&queue, exchange, routing_key, nowait);
        proof {
            lemma_chan_lookup_update(mid, *self, channel_id, i as int);
            lemma_conn_wf_update(mid, *self, i as int);
        }
        Ok(rid)
    }

    /// Publish a message (`basic.publish`). Without confirms the returned
    /// delivery tag is 0; with confirms it is the channel's next tag, which
    /// is recorded as unacked. The content frames follow through the
    /// `SendingContent` sub-state.
    pub fn basic_publish(
        &mut self,
        channel_id: u16,
        ticket: u16,
        exchange: String,
        routing_key: String,
        mandatory: bool,
        immediate: bool,
    ) -> (r: Result<u64, Error>)
        requires
            old(self).wf(),
            old(self).next_request_id < u64::MAX,
            old(self).has_chan(channel_id) && old(self).chan(channel_id).confirm ==> old(self).chan(
                channel_id,
            ).message_count < u64::MAX,
        ensures
            final(self).wf(),
            r is Err ==> *final(self) == *old(self),
            r is Ok <==> old(self).has_chan(channel_id) && old(self).chan(
                channel_id,
            ).state is Connected,
            !old(self).has_chan(channel_id) ==> r == Err::<u64, Error>(
                Error::InvalidChannel(channel_id),
            ),
            old(self).has_chan(channel_id) && !(old(self).chan(channel_id).state is Connected)
                ==> r == Err::<u64, Error>(Error::NotConnected),
            r is Ok ==> {
                &&& final(self).next_request_id == old(self).next_request_id + 1
                &&& *final(self) == (Connection {
                    channels: final(self).channels,
                    next_request_id: final(self).next_request_id,
                    outbound: final(self).outbound,
                    ..*old(self)
                })
                &&& final(self).outbound@ == old(self).outbound@.push(
                    (Frame {
                        channel_id,
                        method: (Method::BasicPublish {
                            ticket,
                            exchange,
                            routing_key,
                            mandatory,
                            immediate,
                        }),
                    }),
                )
                &&& forall|id2: u16| (#[trigger] final(self).has_chan(id2)) == old(self).has_chan(
                    id2,
                )
                &&& channels_unchanged_except(*old(self), *final(self), channel_id)
            },
            r is Ok && !old(self).chan(channel_id).confirm ==> r->Ok_0 == 0 && final(self).chan(
                channel_id,
            ) == old(self).chan(channel_id),
            r is Ok && old(self).chan(channel_id).confirm ==> {
                let c0 = old(self).chan(channel_id);
                let c1 = final(self).chan(channel_id);
                &&& r->Ok_0 == c0.message_count
                &&& c1 == (Channel {
                    awaiting: c1.awaiting,
                    message_count: c1.message_count,
                    unacked: c1.unacked,
                    ..c0
                })
                &&& c1.awaiting@ == c0.awaiting@.push(
                    Answer::AwaitingPublishConfirm(old(self).next_request_id),
                )
                &&& c1.message_count == c0.message_count + 1
                &&& c1.unacked@.to_set() == c0.unacked@.to_set().insert(c0.message_count)
                &&& c1.acked@ == c0.acked@
                &&& c1.nacked@ == c0.nacked@
            },
    {
        let i = match self.issuer_guard(channel_id) {
            Err(e) => {
                return Err(e);
            },
            Ok(i) => i,
        };
        self.emit(
            channel_id,
            Method::BasicPublish { ticket, exchange, routing_key, mandatory, immediate },
        );
        let rid = self.alloc_request_id();
        if self.channels[i].confirm {
            proof {
                assert forall|ci: int, ji: int|
                    0 <= ci < self.channels@.len() && 0 <= ji
                        < self.channels@[ci].awaiting@.len() implies (
                #[trigger] self.channels@[ci].awaiting@[ji]).request_id() < rid by {
                    assert(self.channels@[ci] == old(self).channels@[ci]);
                }
            }
            self.push_answer(channel_id, i, Answer::AwaitingPublishConfirm(rid));
            let ghost mid = *self;
            let slot = &mut self.channels[i];
            let tag = slot.record_confirmed_publish();
            proof {
                lemma_chan_lookup_update(mid, *self, channel_id, i as int);
                lemma_conn_wf_update(mid, *self, i as int);
            }
            Ok(tag)
        } else {
            Ok(0)
        }
    }

    /// Acknowledge deliveries (`basic.ack`); no reply is expected. Acking
    /// everything (`multiple` with tag 0) drops all prefetched messages.
    pub fn basic_ack(&mut self, channel_id: u16, delivery_tag: u64, multiple: bool) -> (r: Result<
        (),
        Error,
    >)
        requires
            old(self).wf(),
        ensures
            final(self).wf(),
            r is Err ==> *final(self) == *old(self),
            r is Ok <==> old(self).has_chan(channel_id) && old(self).chan(
                channel_id,
            ).state is Connected,
            !old(self).has_chan(channel_id) ==> r == Err::<(), Error>(
                Error::InvalidChannel(channel_id),
            ),
            old(self).has_chan(channel_id) && !(old(self).chan(channel_id).state is Connected)
                ==> r == Err::<(), Error>(Error::NotConnected),
            r is Ok ==> *final(self) == (Connection {
                channels: final(self).channels,
                outbound: final(self).outbound,
                ..*old(self)
            }),
            r is Ok ==> final(self).outbound@ == old(self).outbound@.push(
                (Frame { channel_id, method: (Method::BasicAck { delivery_tag, multiple }) }),
            ),
            r is Ok && !(multiple && delivery_tag == 0) ==> final(self).channels == old(self).channels,
            r is Ok && multiple && delivery_tag == 0 ==> {
                &&& forall|id2: u16| (#[trigger] final(self).has_chan(id2)) == old(self).has_chan(
                    id2,
                )
                &&& channels_unchanged_except(*old(self), *final(self), channel_id)
                &&& final(self).chan(channel_id) == (Channel {
                    queues: final(self).chan(channel_id).queues,
                    ..old(self).chan(channel_id)
                })
                &&& queues_prefetch_cleared(
                    old(self).chan(channel_id).queues@,
                    final(self).chan(channel_id).queues@,
                )
            },
    {
        let i = match self.issuer_guard(channel_id) {
            Err(e) => {
                return Err(e);
            },
            Ok(i) => i,
        };
        self.emit(channel_id, Method::BasicAck { delivery_tag, multiple });
        if multiple && delivery_tag == 0 {
            let ghost mid = *self;
            let slot = &mut self.channels[i];
            slot.drop_prefetched_messages();
            proof {
                lemma_chan_lookup_update(mid, *self, channel_id, i as int);
                lemma_conn_wf_update(mid, *self, i as int);
            }
        }
        Ok(())
    }

    /// Reject deliveries (`basic.nack`, RabbitMQ extension); no reply is
    /// expected. Nacking everything (`multiple` with tag 0) drops all
    /// prefetched messages.
    pub fn basic_nack(
        &mut self,
        channel_id: u16,
        delivery_tag: u64,
        multiple: bool,
        requeue: bool,
    ) -> (r: Result<(), Error>)
        requires
            old(self).wf(),
        ensures
            final(self).wf(),
            r is Err ==> *final(self) == *old(self),
            r is Ok <==> old(self).has_chan(channel_id) && old(self).chan(
                channel_id,
            ).state is Connected,
            !old(self).has_chan(channel_id) ==> r == Err::<(), Error>(
                Error::InvalidChannel(channel_id),
            ),
            old(self).has_chan(channel_id) && !(old(self).chan(channel_id).state is Connected)
                ==> r == Err::<(), Error>(Error::NotConnected),
            r is Ok ==> *final(self) == (Connection {
                channels: final(self).channels,
                outbound: final(self).outbound,
                ..*old(self)
            }),
            r is Ok ==> final(self).outbound@ == old(self).outbound@.push(
                (Frame {
                    channel_id,
                    method: (Method::BasicNack { delivery_tag, multiple, requeue }),
                }),
            ),
            r is Ok && !(multiple && delivery_tag == 0) ==> final(self).channels == old(self).channels,
            r is Ok && multiple && delivery_tag == 0 ==> {
                &&& forall|id2: u16| (#[trigger] final(self).has_chan(id2)) == old(self).has_chan(
                    id2,
                )
                &&& channels_unchanged_except(*old(self), *final(self), channel_id)
                &&& final(self).chan(channel_id) == (Channel {
                    queues: final(self).chan(channel_id).queues,
                    ..old(self).chan(channel_id)
                })
                &&& queues_prefetch_cleared(
                    old(self).chan(channel_id).queues@,
                    final(self).chan(channel_id).queues@,
                )
            },
    {
        let i = match self.issuer_guard(channel_id) {
            Err(e) => {
                return Err(e);
            },
            Ok(i) => i,
        };
        self.emit(channel_id, Method::BasicNack { delivery_tag, multiple, requeue });
        if multiple && delivery_tag == 0 {
            let ghost mid = *self;
            let slot = &mut self.channels[i];
            slot.drop_prefetched_messages();
            proof {
                lemma_chan_lookup_update(mid, *self, channel_id, i as int);
                lemma_conn_wf_update(mid, *self, i as int);
            }
        }
        Ok(())
    }

    /// Ask the broker to redeliver unacknowledged messages without waiting
    /// for a reply (`basic.recover-async`); prefetched messages are dropped.
    pub fn basic_recover_async(&mut self, channel_id: u16, requeue: bool) -> (r: Result<(), Error>)
        requires
            old(self).wf(),
        ensures
            final(self).wf(),
            r is Err ==> *final(self) == *old(self),
            r is Ok <==> old(self).has_chan(channel_id) && old(self).chan(
                channel_id,
            ).state is Connected,
            !old(self).has_chan(channel_id) ==> r == Err::<(), Error>(
                Error::InvalidChannel(channel_id),
            ),
            old(self).has_chan(channel_id) && !(old(self).chan(channel_id).state is Connected)
                ==> r == Err::<(), Error>(Error::NotConnected),
            r is Ok ==> {
                &&& *final(self) == (Connection {
                    channels: final(self).channels,
                    outbound: final(self).outbound,
                    ..*old(self)
                })
                &&& final(self).outbound@ == old(self).outbound@.push(
                    (Frame { channel_id, method: (Method::BasicRecoverAsync { requeue }) }),
                )
                &&& forall|id2: u16| (#[trigger] final(self).has_chan(id2)) == old(self).has_chan(
                    id2,
                )
                &&& channels_unchanged_except(*old(self), *final(self), channel_id)
                &&& final(self).chan(channel_id) == (Channel {
                    queues: final(self).chan(channel_id).queues,
                    ..old(self).chan(channel_id)
                })
                &&& queues_prefetch_cleared(
                    old(self).chan(channel_id).queues@,
                    final(self).chan(channel_id).queues@,
                )
            },
    {
        let i = match self.issuer_guard(channel_id) {
            Err(e) => {
                return Err(e);
            },
            Ok(i) => i,
        };
        self.emit(channel_id, Method::BasicRecoverAsync { requeue });
        let ghost mid = *self;
        let slot = &mut self.channels[i];
        slot.drop_prefetched_messages();
        proof {
            lemma_chan_lookup_update(mid, *self, channel_id, i as int);
            lemma_conn_wf_update(mid, *self, i as int);
        }
        Ok(())
    }

    /// Ask the broker to redeliver unacknowledged messages
    /// (`basic.recover`); prefetched messages are dropped.
    pub fn basic_recover(&mut self, channel_id: u16, requeue: bool) -> (r: Result<RequestId, Error>)
        requires
            old(self).wf(),
            old(self).next_request_id < u64::MAX,
        ensures
            final(self).wf(),
            r is Err ==> *final(self) == *old(self),
            r is Ok <==> old(self).has_chan(channel_id) && old(self).chan(
                channel_id,
            ).state is Connected,
            !old(self).has_chan(channel_id) ==> r == Err::<RequestId, Error>(
                Error::InvalidChannel(channel_id),
            ),
            old(self).has_chan(channel_id) && !(old(self).chan(channel_id).state is Connected)
                ==> r == Err::<RequestId, Error>(Error::NotConnected),
            r is Ok ==> issue_ok(
                *old(self),
                *final(self),
                channel_id,
                r->Ok_0,
                (Method::BasicRecover { requeue }),
                (Answer::AwaitingBasicRecoverOk(old(self).next_request_id)),
            ),
            r is Ok ==> final(self).chan(channel_id) == (Channel {
                awaiting: final(self).chan(channel_id).awaiting,
                queues: final(self).chan(channel_id).queues,
                ..old(self).chan(channel_id)
            }),
            r is Ok ==> queues_prefetch_cleared(
                old(self).chan(channel_id).queues@,
                final(self).chan(channel_id).queues@,
            ),
    {
        let i = match self.issuer_guard(channel_id) {
            Err(e) => {
                return Err(e);
            },
            Ok(i) => i,
        };
        self.emit(channel_id, Method::BasicRecover { requeue });
        let rid = self.alloc_request_id();
        proof {
            assert forall|ci: int, ji: int|
                0 <= ci < self.channels@.len() && 0 <= ji
                    < self.channels@[ci].awaiting@.len() implies (
            #[trigger] self.channels@[ci].awaiting@[ji]).request_id() < rid by {
                assert(self.channels@[ci] == old(self).channels@[ci]);
            }
        }
        self.push_answer(channel_id, i, Answer::AwaitingBasicRecoverOk(rid));
        let ghost mid = *self;
        let slot = &mut self.channels[i];
        slot.drop_prefetched_messages();
        proof {
            lemma_chan_lookup_update(mid, *self, channel_id, i as int);
            lemma_conn_wf_update(mid, *self, i as int);
        }
        Ok(rid)
    }
}


impl Connection {
    /// Complete an `access.request` (`access.request-ok`).
    pub fn receive_access_request_ok(&mut self, channel_id: u16) -> (r: Result<(), Error>)
        requires
            old(self).wf(),
        ensures
            final(self).wf(),
            r is Ok <==> old(self).has_chan(channel_id) && old(self).chan(
                channel_id,
            ).state is Connected && old(self).chan(channel_id).awaiting@.len() > 0 && old(self).chan(channel_id).awaiting@[0] is AwaitingAccessRequestOk,
            !old(self).has_chan(channel_id) ==> r == Err::<(), Error>(
                Error::InvalidChannel(channel_id),
            ) && *final(self) == *old(self),
            old(self).has_chan(channel_id) && !(old(self).chan(channel_id).state is Connected)
                ==> r == Err::<(), Error>(Error::UnexpectedAnswer) && error_transition(
                *old(self),
                *final(self),
                channel_id,
            ),
            old(self).has_chan(channel_id) && old(self).chan(channel_id).state is Connected && !(
            old(self).chan(channel_id).awaiting@.len() > 0 && old(self).chan(
                channel_id,
            ).awaiting@[0] is AwaitingAccessRequestOk) ==> r == Err::<(), Error>(Error::UnexpectedAnswer)
                && error_transition(*old(self), *final(self), channel_id),
            r is Ok ==> {
                let rid = old(self).chan(channel_id).awaiting@[0].request_id();
                &&& *final(self) == (Connection {
                    channels: final(self).channels,
                finished_reqs: final(self).finished_reqs,
                    ..*old(self)
                })
                &&& forall|id2: u16| (#[trigger] final(self).has_chan(id2)) == old(self).has_chan(
                    id2,
                )
                &&& channels_unchanged_except(*old(self), *final(self), channel_id)
                &&& final(self).chan(channel_id) == (Channel {
                    awaiting: final(self).chan(channel_id).awaiting,
                    ..old(self).chan(channel_id)
                })
                &&& final(self).chan(channel_id).awaiting@ == old(self).chan(
                    channel_id,
                ).awaiting@.drop_first()
                &&& final(self).finished(rid) == Some(true)
                &&& reqs_unchanged_except(
                    old(self).finished_reqs@,
                    final(self).finished_reqs@,
                    rid,
                )
                
            },
    {
        let i = match self.receive_guard(channel_id, false) {
            Err(e) => {
                return Err(e);
            },
            Ok(i) => i,
        };
        let head_ok = self.channels[i].awaiting.len() > 0 && matches!(
            &self.channels[i].awaiting[0],
            Answer::AwaitingAccessRequestOk(..)
        );
        if !head_ok {
            return self.fail_unexpected(channel_id, i);
        }
        let answer = self.pop_answer(channel_id, i);
        match answer {
            Answer::AwaitingAccessRequestOk(rid) => {
                self.set_finished(rid, true);
                Ok(())
            },
            _ => {
                proof {
                    assert(false);
                }
                Err(Error::UnexpectedAnswer)
            },
        }
    }

    /// Complete an `exchange.declare` (`exchange.declare-ok`).
    pub fn receive_exchange_declare_ok(&mut self, channel_id: u16) -> (r: Result<(), Error>)
        requires
            old(self).wf(),
        ensures
            final(self).wf(),
            r is Ok <==> old(self).has_chan(channel_id) && old(self).chan(
                channel_id,
            ).state is Connected && old(self).chan(channel_id).awaiting@.len() > 0 && old(self).chan(channel_id).awaiting@[0] is AwaitingExchangeDeclareOk,
            !old(self).has_chan(channel_id) ==> r == Err::<(), Error>(
                Error::InvalidChannel(channel_id),
            ) && *final(self) == *old(self),
            old(self).has_chan(channel_id) && !(old(self).chan(channel_id).state is Connected)
                ==> r == Err::<(), Error>(Error::UnexpectedAnswer) && error_transition(
                *old(self),
                *final(self),
                channel_id,
            ),
            old(self).has_chan(channel_id) && old(self).chan(channel_id).state is Connected && !(
            old(self).chan(channel_id).awaiting@.len() > 0 && old(self).chan(
                channel_id,
            ).awaiting@[0] is AwaitingExchangeDeclareOk) ==> r == Err::<(), Error>(Error::UnexpectedAnswer)
                && error_transition(*old(self), *final(self), channel_id),
            r is Ok ==> {
                let rid = old(self).chan(channel_id).awaiting@[0].request_id();
                &&& *final(self) == (Connection {
                    channels: final(self).channels,
                finished_reqs: final(self).finished_reqs,
                    ..*old(self)
                })
                &&& forall|id2: u16| (#[trigger] final(self).has_chan(id2)) == old(self).has_chan(
                    id2,
                )
                &&& channels_unchanged_except(*old(self), *final(self), channel_id)
                &&& final(self).chan(channel_id) == (Channel {
                    awaiting: final(self).chan(channel_id).awaiting,
                    ..old(self).chan(channel_id)
                })
                &&& final(self).chan(channel_id).awaiting@ == old(self).chan(
                    channel_id,
                ).awaiting@.drop_first()
                &&& final(self).finished(rid) == Some(true)
                &&& reqs_unchanged_except(
                    old(self).finished_reqs@,
                    final(self).finished_reqs@,
                    rid,
                )
                
            },
    {
        let i = match self.receive_guard(channel_id, false) {
            Err(e) => {
                return Err(e);
            },
            Ok(i) => i,
        };
        let head_ok = self.channels[i].awaiting.len() > 0 && matches!(
            &self.channels[i].awaiting[0],
            Answer::AwaitingExchangeDeclareOk(..)
        );
        if !head_ok {
            return self.fail_unexpected(channel_id, i);
        }
        let answer = self.pop_answer(channel_id, i);
        match answer {
            Answer::AwaitingExchangeDeclareOk(rid) => {
                self.set_finished(rid, true);
                Ok(())
            },
            _ => {
                proof {
                    assert(false);
                }
                Err(Error::UnexpectedAnswer)
            },
        }
    }

    /// Complete an `exchange.delete` (`exchange.delete-ok`).
    pub fn receive_exchange_delete_ok(&mut self, channel_id: u16) -> (r: Result<(), Error>)
        requires
            old(self).wf(),
        ensures
            final(self).wf(),
            r is Ok <==> old(self).has_chan(channel_id) && old(self).chan(
                channel_id,
            ).state is Connected && old(self).chan(channel_id).awaiting@.len() > 0 && old(self).chan(channel_id).awaiting@[0] is AwaitingExchangeDeleteOk,
            !old(self).has_chan(channel_id) ==> r == Err::<(), Error>(
                Error::InvalidChannel(channel_id),
            ) && *final(self) == *old(self),
            old(self).has_chan(channel_id) && !(old(self).chan(channel_id).state is Connected)
                ==> r == Err::<(), Error>(Error::UnexpectedAnswer) && error_transition(
                *old(self),
                *final(self),
                channel_id,
            ),
            old(self).has_chan(channel_id) && old(self).chan(channel_id).state is Connected && !(
            old(self).chan(channel_id).awaiting@.len() > 0 && old(self).chan(
                channel_id,
            ).awaiting@[0] is AwaitingExchangeDeleteOk) ==> r == Err::<(), Error>(Error::UnexpectedAnswer)
                && error_transition(*old(self), *final(self), channel_id),
            r is Ok ==> {
                let rid = old(self).chan(channel_id).awaiting@[0].request_id();
                &&& *final(self) == (Connection {
                    channels: final(self).channels,
                finished_reqs: final(self).finished_reqs,
                    ..*old(self)
                })
                &&& forall|id2: u16| (#[trigger] final(self).has_chan(id2)) == old(self).has_chan(
                    id2,
                )
                &&& channels_unchanged_except(*old(self), *final(self), channel_id)
                &&& final(self).chan(channel_id) == (Channel {
                    awaiting: final(self).chan(channel_id).awaiting,
                    ..old(self).chan(channel_id)
                })
                &&& final(self).chan(channel_id).awaiting@ == old(self).chan(
                    channel_id,
                ).awaiting@.drop_first()
                &&& final(self).finished(rid) == Some(true)
                &&& reqs_unchanged_except(
                    old(self).finished_reqs@,
                    final(self).finished_reqs@,
                    rid,
                )
                
            },
    {
        let i = match self.receive_guard(channel_id, false) {
            Err(e) => {
                return Err(e);
            },
            Ok(i) => i,
        };
        let head_ok = self.channels[i].awaiting.len() > 0 && matches!(
            &self.channels[i].awaiting[0],
            Answer::AwaitingExchangeDeleteOk(..)
        );
        if !head_ok {
            return self.fail_unexpected(channel_id, i);
        }
        let answer = self.pop_answer(channel_id, i);
        match answer {
            Answer::AwaitingExchangeDeleteOk(rid) => {
                self.set_finished(rid, true);
                Ok(())
            },
            _ => {
                proof {
                    assert(false);
                }
                Err(Error::UnexpectedAnswer)
            },
        }
    }

    /// Complete an `exchange.bind` (`exchange.bind-ok`).
    pub fn receive_exchange_bind_ok(&mut self, channel_id: u16) -> (r: Result<(), Error>)
        requires
            old(self).wf(),
        ensures
            final(self).wf(),
            r is Ok <==> old(self).has_chan(channel_id) && old(self).chan(
                channel_id,
            ).state is Connected && old(self).chan(channel_id).awaiting@.len() > 0 && old(self).chan(channel_id).awaiting@[0] is AwaitingExchangeBindOk,
            !old(self).has_chan(channel_id) ==> r == Err::<(), Error>(
                Error::InvalidChannel(channel_id),
            ) && *final(self) == *old(self),
            old(self).has_chan(channel_id) && !(old(self).chan(channel_id).state is Connected)
                ==> r == Err::<(), Error>(Error::UnexpectedAnswer) && error_transition(
                *old(self),
                *final(self),
                channel_id,
            ),
            old(self).has_chan(channel_id) && old(self).chan(channel_id).state is Connected && !(
            old(self).chan(channel_id).awaiting@.len() > 0 && old(self).chan(
                channel_id,
            ).awaiting@[0] is AwaitingExchangeBindOk) ==> r == Err::<(), Error>(Error::UnexpectedAnswer)
                && error_transition(*old(self), *final(self), channel_id),
            r is Ok ==> {
                let rid = old(self).chan(channel_id).awaiting@[0].request_id();
                &&& *final(self) == (Connection {
                    channels: final(self).channels,
                finished_reqs: final(self).finished_reqs,
                    ..*old(self)
                })
                &&& forall|id2: u16| (#[trigger] final(self).has_chan(id2)) == old(self).has_chan(
                    id2,
                )
                &&& channels_unchanged_except(*old(self), *final(self), channel_id)
                &&& final(self).chan(channel_id) == (Channel {
                    awaiting: final(self).chan(channel_id).awaiting,
                    ..old(self).chan(channel_id)
                })
                &&& final(self).chan(channel_id).awaiting@ == old(self).chan(
                    channel_id,
                ).awaiting@.drop_first()
                &&& final(self).finished(rid) == Some(true)
                &&& reqs_unchanged_except(
                    old(self).finished_reqs@,
                    final(self).finished_reqs@,
                    rid,
                )
                
            },
    {
        let i = match self.receive_guard(channel_id, false) {
            Err(e) => {
                return Err(e);
            },
            Ok(i) => i,
        };
        let head_ok = self.channels[i].awaiting.len() > 0 && matches!(
            &self.channels[i].awaiting[0],
            Answer::AwaitingExchangeBindOk(..)
        );
        if !head_ok {
            return self.fail_unexpected(channel_id, i);
        }
        let answer = self.pop_answer(channel_id, i);
        match answer {
            Answer::AwaitingExchangeBindOk(rid) => {
                self.set_finished(rid, true);
                Ok(())
            },
            _ => {
                proof {
                    assert(false);
                }
                Err(Error::UnexpectedAnswer)
            },
        }
    }

    /// Complete an `exchange.unbind` (`exchange.unbind-ok`).
    pub fn receive_exchange_unbind_ok(&mut self, channel_id: u16) -> (r: Result<(), Error>)
        requires
            old(self).wf(),
        ensures
            final(self).wf(),
            r is Ok <==> old(self).has_chan(channel_id) && old(self).chan(
                channel_id,
            ).state is Connected && old(self).chan(channel_id).awaiting@.len() > 0 && old(self).chan(channel_id).awaiting@[0] is AwaitingExchangeUnbindOk,
            !old(self).has_chan(channel_id) ==> r == Err::<(), Error>(
                Error::InvalidChannel(channel_id),
            ) && *final(self) == *old(self),
            old(self).has_chan(channel_id) && !(old(self).chan(channel_id).state is Connected)
                ==> r == Err::<(), Error>(Error::UnexpectedAnswer) && error_transition(
                *old(self),
                *final(self),
                channel_id,
            ),
            old(self).has_chan(channel_id) && old(self).chan(channel_id).state is Connected && !(
            old(self).chan(channel_id).awaiting@.len() > 0 && old(self).chan(
                channel_id,
            ).awaiting@[0] is AwaitingExchangeUnbindOk) ==> r == Err::<(), Error>(Error::UnexpectedAnswer)
                && error_transition(*old(self), *final(self), channel_id),
            r is Ok ==> {
                let rid = old(self).chan(channel_id).awaiting@[0].request_id();
                &&& *final(self) == (Connection {
                    channels: final(self).channels,
                finished_reqs: final(self).finished_reqs,
                    ..*old(self)
                })
                &&& forall|id2: u16| (#[trigger] final(self).has_chan(id2)) == old(self).has_chan(
                    id2,
                )
                &&& channels_unchanged_except(*old(self), *final(self), channel_id)
                &&& final(self).chan(channel_id) == (Channel {
                    awaiting: final(self).chan(channel_id).awaiting,
                    ..old(self).chan(channel_id)
                })
                &&& final(self).chan(channel_id).awaiting@ == old(self).chan(
                    channel_id,
                ).awaiting@.drop_first()
                &&& final(self).finished(rid) == Some(true)
                &&& reqs_unchanged_except(
                    old(self).finished_reqs@,
                    final(self).finished_reqs@,
                    rid,
                )
                
            },
    {
        let i = match self.receive_guard(channel_id, false) {
            Err(e) => {
                return Err(e);
            },
            Ok(i) => i,
        };
        let head_ok = self.channels[i].awaiting.len() > 0 && matches!(
            &self.channels[i].awaiting[0],
            Answer::AwaitingExchangeUnbindOk(..)
        );
        if !head_ok {
            return self.fail_unexpected(channel_id, i);
        }
        let answer = self.pop_answer(channel_id, i);
        match answer {
            Answer::AwaitingExchangeUnbindOk(rid) => {
                self.set_finished(rid, true);
                Ok(())
            },
            _ => {
                proof {
                    assert(false);
                }
                Err(Error::UnexpectedAnswer)
            },
        }
    }

    /// Complete a `basic.recover` (`basic.recover-ok`); its payload carries nothing.
    pub fn receive_basic_recover_ok(&mut self, channel_id: u16) -> (r: Result<(), Error>)
        requires
            old(self).wf(),
        ensures
            final(self).wf(),
            r is Ok <==> old(self).has_chan(channel_id) && old(self).chan(
                channel_id,
            ).state is Connected && old(self).chan(channel_id).awaiting@.len() > 0 && old(self).chan(channel_id).awaiting@[0] is AwaitingBasicRecoverOk,
            !old(self).has_chan(channel_id) ==> r == Err::<(), Error>(
                Error::InvalidChannel(channel_id),
            ) && *final(self) == *old(self),
            old(self).has_chan(channel_id) && !(old(self).chan(channel_id).state is Connected)
                ==> r == Err::<(), Error>(Error::UnexpectedAnswer) && error_transition(
                *old(self),
                *final(self),
                channel_id,
            ),
            old(self).has_chan(channel_id) && old(self).chan(channel_id).state is Connected && !(
            old(self).chan(channel_id).awaiting@.len() > 0 && old(self).chan(
                channel_id,
            ).awaiting@[0] is AwaitingBasicRecoverOk) ==> r == Err::<(), Error>(Error::UnexpectedAnswer)
                && error_transition(*old(self), *final(self), channel_id),
            r is Ok ==> {
                let rid = old(self).chan(channel_id).awaiting@[0].request_id();
                &&& *final(self) == (Connection {
                    channels: final(self).channels,
                finished_reqs: final(self).finished_reqs,
                    ..*old(self)
                })
                &&& forall|id2: u16| (#[trigger] final(self).has_chan(id2)) == old(self).has_chan(
                    id2,
                )
                &&& channels_unchanged_except(*old(self), *final(self), channel_id)
                &&& final(self).chan(channel_id) == (Channel {
                    awaiting: final(self).chan(channel_id).awaiting,
                    ..old(self).chan(channel_id)
                })
                &&& final(self).chan(channel_id).awaiting@ == old(self).chan(
                    channel_id,
                ).awaiting@.drop_first()
                &&& final(self).finished(rid) == Some(true)
                &&& reqs_unchanged_except(
                    old(self).finished_reqs@,
                    final(self).finished_reqs@,
                    rid,
                )
                
            },
    {
        let i = match self.receive_guard(channel_id, false) {
            Err(e) => {
                return Err(e);
            },
            Ok(i) => i,
        };
        let head_ok = self.channels[i].awaiting.len() > 0 && matches!(
            &self.channels[i].awaiting[0],
            Answer::AwaitingBasicRecoverOk(..)
        );
        if !head_ok {
            return self.fail_unexpected(channel_id, i);
        }
        let answer = self.pop_answer(channel_id, i);
        match answer {
            Answer::AwaitingBasicRecoverOk(rid) => {
                self.set_finished(rid, true);
                Ok(())
            },
            _ => {
                proof {
                    assert(false);
                }
                Err(Error::UnexpectedAnswer)
            },
        }
    }

    /// Complete a `queue.purge` (`queue.purge-ok`).
    pub fn receive_queue_purge_ok(&mut self, channel_id: u16) -> (r: Result<(), Error>)
        requires
            old(self).wf(),
        ensures
            final(self).wf(),
            r is Ok <==> old(self).has_chan(channel_id) && old(self).chan(
                channel_id,
            ).state is Connected && old(self).chan(channel_id).awaiting@.len() > 0 && old(self).chan(channel_id).awaiting@[0] is AwaitingQueuePurgeOk,
            !old(self).has_chan(channel_id) ==> r == Err::<(), Error>(
                Error::InvalidChannel(channel_id),
            ) && *final(self) == *old(self),
            old(self).has_chan(channel_id) && !(old(self).chan(channel_id).state is Connected)
                ==> r == Err::<(), Error>(Error::UnexpectedAnswer) && error_transition(
                *old(self),
                *final(self),
                channel_id,
            ),
            old(self).has_chan(channel_id) && old(self).chan(channel_id).state is Connected && !(
            old(self).chan(channel_id).awaiting@.len() > 0 && old(self).chan(
                channel_id,
            ).awaiting@[0] is AwaitingQueuePurgeOk) ==> r == Err::<(), Error>(Error::UnexpectedAnswer)
                && error_transition(*old(self), *final(self), channel_id),
            r is Ok ==> {
                let rid = old(self).chan(channel_id).awaiting@[0].request_id();
                &&& *final(self) == (Connection {
                    channels: final(self).channels,
                finished_reqs: final(self).finished_reqs,
                    ..*old(self)
                })
                &&& forall|id2: u16| (#[trigger] final(self).has_chan(id2)) == old(self).has_chan(
                    id2,
                )
                &&& channels_unchanged_except(*old(self), *final(self), channel_id)
                &&& final(self).chan(channel_id) == (Channel {
                    awaiting: final(self).chan(channel_id).awaiting,
                    ..old(self).chan(channel_id)
                })
                &&& final(self).chan(channel_id).awaiting@ == old(self).chan(
                    channel_id,
                ).awaiting@.drop_first()
                &&& final(self).finished(rid) == Some(true)
                &&& reqs_unchanged_except(
                    old(self).finished_reqs@,
                    final(self).finished_reqs@,
                    rid,
                )
                
            },
    {
        let i = match self.receive_guard(channel_id, false) {
            Err(e) => {
                return Err(e);
            },
            Ok(i) => i,
        };
        let head_ok = self.channels[i].awaiting.len() > 0 && matches!(
            &self.channels[i].awaiting[0],
            Answer::AwaitingQueuePurgeOk(..)
        );
        if !head_ok {
            return self.fail_unexpected(channel_id, i);
        }
        let answer = self.pop_answer(channel_id, i);
        match answer {
            Answer::AwaitingQueuePurgeOk(rid, _queue) => {
                self.set_finished(rid, true);
                Ok(())
            },
            _ => {
                proof {
                    assert(false);
                }
                Err(Error::UnexpectedAnswer)
            },
        }
    }

    /// The broker confirmed `channel.open`: the channel becomes `Connected`.
    pub fn receive_channel_open_ok(&mut self, channel_id: u16) -> (r: Result<(), Error>)
        requires
            old(self).wf(),
        ensures
            final(self).wf(),
            r is Ok <==> old(self).has_chan(channel_id) && old(self).chan(
                channel_id,
            ).state is Initial && old(self).chan(channel_id).awaiting@.len() > 0 && old(self).chan(channel_id).awaiting@[0] is AwaitingChannelOpenOk,
            !old(self).has_chan(channel_id) ==> r == Err::<(), Error>(
                Error::InvalidChannel(channel_id),
            ) && *final(self) == *old(self),
            old(self).has_chan(channel_id) && !(old(self).chan(channel_id).state is Initial)
                ==> r == Err::<(), Error>(Error::UnexpectedAnswer) && error_transition(
                *old(self),
                *final(self),
                channel_id,
            ),
            old(self).has_chan(channel_id) && old(self).chan(channel_id).state is Initial && !(
            old(self).chan(channel_id).awaiting@.len() > 0 && old(self).chan(
                channel_id,
            ).awaiting@[0] is AwaitingChannelOpenOk) ==> r == Err::<(), Error>(Error::UnexpectedAnswer)
                && error_transition(*old(self), *final(self), channel_id),
            r is Ok ==> {
                let rid = old(self).chan(channel_id).awaiting@[0].request_id();
                &&& *final(self) == (Connection {
                    channels: final(self).channels,
                finished_reqs: final(self).finished_reqs,
                    ..*old(self)
                })
                &&& forall|id2: u16| (#[trigger] final(self).has_chan(id2)) == old(self).has_chan(
                    id2,
                )
                &&& channels_unchanged_except(*old(self), *final(self), channel_id)
                &&& final(self).chan(channel_id) == (Channel {
                    state: ChannelState::Connected,
                    awaiting: final(self).chan(channel_id).awaiting,
                    ..old(self).chan(channel_id)
                })
                &&& final(self).chan(channel_id).awaiting@ == old(self).chan(
                    channel_id,
                ).awaiting@.drop_first()
                &&& final(self).finished(rid) == Some(true)
                &&& reqs_unchanged_except(
                    old(self).finished_reqs@,
                    final(self).finished_reqs@,
                    rid,
                )
                
            },
    {
        let i = match self.receive_guard(channel_id, true) {
            Err(e) => {
                return Err(e);
            },
            Ok(i) => i,
        };
        let head_ok = self.channels[i].awaiting.len() > 0 && matches!(
            &self.channels[i].awaiting[0],
            Answer::AwaitingChannelOpenOk(..)
        );
        if !head_ok {
            return self.fail_unexpected(channel_id, i);
        }
        let answer = self.pop_answer(channel_id, i);
        match answer {
            Answer::AwaitingChannelOpenOk(rid) => {
                self.set_finished(rid, true);
                let ghost mid = *self;
                let slot = &mut self.channels[i];
                slot.state = ChannelState::Connected;
                proof {
                    lemma_chan_lookup_update(mid, *self, channel_id, i as int);
                    lemma_conn_wf_update(mid, *self, i as int);
                }
                Ok(())
            },
            _ => {
                proof {
                    assert(false);
                }
                Err(Error::UnexpectedAnswer)
            },
        }
    }

    /// The peer confirmed our `channel.flow`: record its answer in `receive_flow`.
    pub fn receive_channel_flow_ok(&mut self, channel_id: u16, active: bool) -> (r: Result<(), Error>)
        requires
            old(self).wf(),
        ensures
            final(self).wf(),
            r is Ok <==> old(self).has_chan(channel_id) && old(self).chan(
                channel_id,
            ).state is Connected && old(self).chan(channel_id).awaiting@.len() > 0 && old(self).chan(channel_id).awaiting@[0] is AwaitingChannelFlowOk,
            !old(self).has_chan(channel_id) ==> r == Err::<(), Error>(
                Error::InvalidChannel(channel_id),
            ) && *final(self) == *old(self),
            old(self).has_chan(channel_id) && !(old(self).chan(channel_id).state is Connected)
                ==> r == Err::<(), Error>(Error::UnexpectedAnswer) && error_transition(
                *old(self),
                *final(self),
                channel_id,
            ),
            old(self).has_chan(channel_id) && old(self).chan(channel_id).state is Connected && !(
            old(self).chan(channel_id).awaiting@.len() > 0 && old(self).chan(
                channel_id,
            ).awaiting@[0] is AwaitingChannelFlowOk) ==> r == Err::<(), Error>(Error::UnexpectedAnswer)
                && error_transition(*old(self), *final(self), channel_id),
            r is Ok ==> {
                let rid = old(self).chan(channel_id).awaiting@[0].request_id();
                &&& *final(self) == (Connection {
                    channels: final(self).channels,
                finished_reqs: final(self).finished_reqs,
                    ..*old(self)
                })
                &&& forall|id2: u16| (#[trigger] final(self).has_chan(id2)) == old(self).has_chan(
                    id2,
                )
                &&& channels_unchanged_except(*old(self), *final(self), channel_id)
                &&& final(self).chan(channel_id) == (Channel {
                    receive_flow: active,
                    awaiting: final(self).chan(channel_id).awaiting,
                    ..old(self).chan(channel_id)
                })
                &&& final(self).chan(channel_id).awaiting@ == old(self).chan(
                    channel_id,
                ).awaiting@.drop_first()
                &&& final(self).finished(rid) == Some(true)
                &&& reqs_unchanged_except(
                    old(self).finished_reqs@,
                    final(self).finished_reqs@,
                    rid,
                )
                
            },
    {
        let i = match self.receive_guard(channel_id, false) {
            Err(e) => {
                return Err(e);
            },
            Ok(i) => i,
        };
        let head_ok = self.channels[i].awaiting.len() > 0 && matches!(
            &self.channels[i].awaiting[0],
            Answer::AwaitingChannelFlowOk(..)
        );
        if !head_ok {
            return self.fail_unexpected(channel_id, i);
        }
        let answer = self.pop_answer(channel_id, i);
        match answer {
            Answer::AwaitingChannelFlowOk(rid) => {
                self.set_finished(rid, true);
                let ghost mid = *self;
                let slot = &mut self.channels[i];
                slot.receive_flow = active;
                proof {
                    lemma_chan_lookup_update(mid, *self, channel_id, i as int);
                    lemma_conn_wf_update(mid, *self, i as int);
                }
                Ok(())
            },
            _ => {
                proof {
                    assert(false);
                }
                Err(Error::UnexpectedAnswer)
            },
        }
    }

    /// The broker confirmed `channel.close`: the channel becomes `Closed`.
    pub fn receive_channel_close_ok(&mut self, channel_id: u16) -> (r: Result<(), Error>)
        requires
            old(self).wf(),
        ensures
            final(self).wf(),
            r is Ok <==> old(self).has_chan(channel_id) && old(self).chan(
                channel_id,
            ).state is Connected && old(self).chan(channel_id).awaiting@.len() > 0 && old(self).chan(channel_id).awaiting@[0] is AwaitingChannelCloseOk,
            !old(self).has_chan(channel_id) ==> r == Err::<(), Error>(
                Error::InvalidChannel(channel_id),
            ) && *final(self) == *old(self),
            old(self).has_chan(channel_id) && !(old(self).chan(channel_id).state is Connected)
                ==> r == Err::<(), Error>(Error::UnexpectedAnswer) && error_transition(
                *old(self),
                *final(self),
                channel_id,
            ),
            old(self).has_chan(channel_id) && old(self).chan(channel_id).state is Connected && !(
            old(self).chan(channel_id).awaiting@.len() > 0 && old(self).chan(
                channel_id,
            ).awaiting@[0] is AwaitingChannelCloseOk) ==> r == Err::<(), Error>(Error::UnexpectedAnswer)
                && error_transition(*old(self), *final(self), channel_id),
            r is Ok ==> {
                let rid = old(self).chan(channel_id).awaiting@[0].request_id();
                &&& *final(self) == (Connection {
                    channels: final(self).channels,
                finished_reqs: final(self).finished_reqs,
                    ..*old(self)
                })
                &&& forall|id2: u16| (#[trigger] final(self).has_chan(id2)) == old(self).has_chan(
                    id2,
                )
                &&& channels_unchanged_except(*old(self), *final(self), channel_id)
                &&& final(self).chan(channel_id) == (Channel {
                    state: ChannelState::Closed,
                    awaiting: final(self).chan(channel_id).awaiting,
                    ..old(self).chan(channel_id)
                })
                &&& final(self).chan(channel_id).awaiting@ == old(self).chan(
                    channel_id,
                ).awaiting@.drop_first()
                &&& final(self).finished(rid) == Some(true)
                &&& reqs_unchanged_except(
                    old(self).finished_reqs@,
                    final(self).finished_reqs@,
                    rid,
                )
                
            },
    {
        let i = match self.receive_guard(channel_id, false) {
            Err(e) => {
                return Err(e);
            },
            Ok(i) => i,
        };
        let head_ok = self.channels[i].awaiting.len() > 0 && matches!(
            &self.channels[i].awaiting[0],
            Answer::AwaitingChannelCloseOk(..)
        );
        if !head_ok {
            return self.fail_unexpected(channel_id, i);
        }
        let answer = self.pop_answer(channel_id, i);
        match answer {
            Answer::AwaitingChannelCloseOk(rid) => {
                self.set_finished(rid, true);
                let ghost mid = *self;
                let slot = &mut self.channels[i];
                slot.state = ChannelState::Closed;
                proof {
                    lemma_chan_lookup_update(mid, *self, channel_id, i as int);
                    lemma_conn_wf_update(mid, *self, i as int);
                }
                Ok(())
            },
            _ => {
                proof {
                    assert(false);
                }
                Err(Error::UnexpectedAnswer)
            },
        }
    }
}


/// Every queue keeps everything except that the binding under `k`, where
/// present, is now active.
pub open spec fn bindings_activated(
    oldqs: Seq<Queue>,
    newqs: Seq<Queue>,
    k: (Seq<char>, Seq<char>),
) -> bool {
    &&& newqs.len() == oldqs.len()
    &&& forall|qi: int|
        0 <= qi < oldqs.len() ==> #[trigger] newqs[qi] == (Queue {
            bindings: newqs[qi].bindings,
            ..oldqs[qi]
        })
    &&& forall|qi: int|
        0 <= qi < oldqs.len() ==> (#[trigger] newqs[qi].has_binding(k)) == oldqs[qi].has_binding(k)
    &&& forall|qi: int|
        0 <= qi < oldqs.len() && oldqs[qi].has_binding(k) ==> (#[trigger] newqs[qi].binding(k))
            == (Binding { active: true, ..oldqs[qi].binding(k) })
    &&& forall|qi: int|
        0 <= qi < oldqs.len() ==> #[trigger] bindings_unchanged_except(oldqs[qi], newqs[qi], k)
}

/// Every queue keeps everything except that the binding under `k` is gone.
pub open spec fn bindings_removed(
    oldqs: Seq<Queue>,
    newqs: Seq<Queue>,
    k: (Seq<char>, Seq<char>),
) -> bool {
    &&& newqs.len() == oldqs.len()
    &&& forall|qi: int|
        0 <= qi < oldqs.len() ==> #[trigger] newqs[qi] == (Queue {
            bindings: newqs[qi].bindings,
            ..oldqs[qi]
        })
    &&& forall|qi: int| 0 <= qi < oldqs.len() ==> !(#[trigger] newqs[qi].has_binding(k))
    &&& forall|qi: int|
        0 <= qi < oldqs.len() ==> #[trigger] bindings_unchanged_except(oldqs[qi], newqs[qi], k)
}


impl Connection {
    /// The broker confirmed a `queue.declare`: record the (possibly broker-assigned) queue name and insert a fresh queue shadow under it.
    pub fn receive_queue_declare_ok(&mut self, channel_id: u16, queue: String, message_count: u32, consumer_count: u32) -> (r: Result<(), Error>)
        requires
            old(self).wf(),
        ensures
            final(self).wf(),
            r is Ok <==> old(self).has_chan(channel_id) && old(self).chan(
                channel_id,
            ).state is Connected && old(self).chan(channel_id).awaiting@.len() > 0 && old(self).chan(channel_id).awaiting@[0] is AwaitingQueueDeclareOk,
            !old(self).has_chan(channel_id) ==> r == Err::<(), Error>(
                Error::InvalidChannel(channel_id),
            ) && *final(self) == *old(self),
            old(self).has_chan(channel_id) && !(old(self).chan(channel_id).state is Connected)
                ==> r == Err::<(), Error>(Error::UnexpectedAnswer) && error_transition(
                *old(self),
                *final(self),
                channel_id,
            ),
            old(self).has_chan(channel_id) && old(self).chan(channel_id).state is Connected && !(
            old(self).chan(channel_id).awaiting@.len() > 0 && old(self).chan(
                channel_id,
            ).awaiting@[0] is AwaitingQueueDeclareOk) ==> r == Err::<(), Error>(Error::UnexpectedAnswer)
                && error_transition(*old(self), *final(self), channel_id),
            r is Ok ==> {
                let ans = old(self).chan(channel_id).awaiting@[0];
                let rid = ans.request_id();
                &&& *final(self) == (Connection {
                    channels: final(self).channels,
                    finished_reqs: final(self).finished_reqs,
                    generated_names: final(self).generated_names,
                    ..*old(self)
                })
                &&& forall|id2: u16| (#[trigger] final(self).has_chan(id2)) == old(self).has_chan(
                    id2,
                )
                &&& channels_unchanged_except(*old(self), *final(self), channel_id)
                &&& final(self).chan(channel_id) == (Channel {
                    awaiting: final(self).chan(channel_id).awaiting,
                    queues: final(self).chan(channel_id).queues,
                    ..old(self).chan(channel_id)
                })
                &&& final(self).chan(channel_id).awaiting@ == old(self).chan(
                    channel_id,
                ).awaiting@.drop_first()
                &&& final(self).finished(rid) == Some(true)
                &&& reqs_unchanged_except(
                    old(self).finished_reqs@,
                    final(self).finished_reqs@,
                    rid,
                )
                &&& final(self).name_for(rid) == Some(queue@)
                &&& names_unchanged_except(
                    old(self).generated_names@,
                    final(self).generated_names@,
                    rid,
                )
                &&& final(self).chan(channel_id).has_queue(queue@)
                &&& final(self).chan(channel_id).queue(queue@).name@ == queue@
                &&& final(self).chan(channel_id).queue(queue@).message_count == message_count
                &&& final(self).chan(channel_id).queue(queue@).consumer_count == consumer_count
                &&& final(self).chan(channel_id).queue(queue@).bindings@ == Seq::<Binding>::empty()
                &&& final(self).chan(channel_id).queue(queue@).consumers@
                    == Seq::<Consumer>::empty()
                &&& final(self).chan(channel_id).queue(queue@).current_get_message is None
                &&& queues_unchanged_except(
                    old(self).chan(channel_id),
                    final(self).chan(channel_id),
                    queue@,
                )
            },
    {
        let i = match self.receive_guard(channel_id, false) {
            Err(e) => {
                return Err(e);
            },
            Ok(i) => i,
        };
        let head_ok = self.channels[i].awaiting.len() > 0 && matches!(
            &self.channels[i].awaiting[0],
            Answer::AwaitingQueueDeclareOk(..)
        );
        if !head_ok {
            return self.fail_unexpected(channel_id, i);
        }
        let answer = self.pop_answer(channel_id, i);
        match answer {
            Answer::AwaitingQueueDeclareOk(rid) => {
                self.set_finished(rid, true);
                self.set_generated_name(rid, queue.clone());
                let ghost mid = *self;
                let slot = &mut self.channels[i];
                slot.upsert_queue(Queue::new(queue, message_count, consumer_count));
                proof {
                    lemma_chan_lookup_update(mid, *self, channel_id, i as int);
                    lemma_conn_wf_update(mid, *self, i as int);
                }
                Ok(())
            },
            _ => {
                proof {
                    assert(false);
                }
                Err(Error::UnexpectedAnswer)
            },
        }
    }

    /// The broker confirmed a `queue.bind`: the binding recorded at issue time becomes active on every queue of the channel.
    pub fn receive_queue_bind_ok(&mut self, channel_id: u16) -> (r: Result<(), Error>)
        requires
            old(self).wf(),
        ensures
            final(self).wf(),
            r is Ok <==> old(self).has_chan(channel_id) && old(self).chan(
                channel_id,
            ).state is Connected && old(self).chan(channel_id).awaiting@.len() > 0 && old(self).chan(channel_id).awaiting@[0] is AwaitingQueueBindOk,
            !old(self).has_chan(channel_id) ==> r == Err::<(), Error>(
                Error::InvalidChannel(channel_id),
            ) && *final(self) == *old(self),
            old(self).has_chan(channel_id) && !(old(self).chan(channel_id).state is Connected)
                ==> r == Err::<(), Error>(Error::UnexpectedAnswer) && error_transition(
                *old(self),
                *final(self),
                channel_id,
            ),
            old(self).has_chan(channel_id) && old(self).chan(channel_id).state is Connected && !(
            old(self).chan(channel_id).awaiting@.len() > 0 && old(self).chan(
                channel_id,
            ).awaiting@[0] is AwaitingQueueBindOk) ==> r == Err::<(), Error>(Error::UnexpectedAnswer)
                && error_transition(*old(self), *final(self), channel_id),
            r is Ok ==> {
                let ans = old(self).chan(channel_id).awaiting@[0];
                let rid = ans.request_id();
                &&& *final(self) == (Connection {
                    channels: final(self).channels,
                    finished_reqs: final(self).finished_reqs,
                    ..*old(self)
                })
                &&& forall|id2: u16| (#[trigger] final(self).has_chan(id2)) == old(self).has_chan(
                    id2,
                )
                &&& channels_unchanged_except(*old(self), *final(self), channel_id)
                &&& final(self).chan(channel_id) == (Channel {
                    awaiting: final(self).chan(channel_id).awaiting,
                    queues: final(self).chan(channel_id).queues,
                    ..old(self).chan(channel_id)
                })
                &&& final(self).chan(channel_id).awaiting@ == old(self).chan(
                    channel_id,
                ).awaiting@.drop_first()
                &&& final(self).finished(rid) == Some(true)
                &&& reqs_unchanged_except(
                    old(self).finished_reqs@,
                    final(self).finished_reqs@,
                    rid,
                )
                &&& bindings_activated(
                    old(self).chan(channel_id).queues@,
                    final(self).chan(channel_id).queues@,
                    (ans->AwaitingQueueBindOk_1@, ans->AwaitingQueueBindOk_2@),
                )
            },
    {
        let i = match self.receive_guard(channel_id, false) {
            Err(e) => {
                return Err(e);
            },
            Ok(i) => i,
        };
        let head_ok = self.channels[i].awaiting.len() > 0 && matches!(
            &self.channels[i].awaiting[0],
            Answer::AwaitingQueueBindOk(..)
        );
        if !head_ok {
            return self.fail_unexpected(channel_id, i);
        }
        let answer = self.pop_answer(channel_id, i);
        match answer {
            Answer::AwaitingQueueBindOk(rid, exchange, routing_key) => {
                self.set_finished(rid, true);
                let ghost mid = *self;
                let slot = &mut self.channels[i];
                slot.set_binding_active_all(&exchange, &routing_key);
                proof {
                    lemma_chan_lookup_update(mid, *self, channel_id, i as int);
                    lemma_conn_wf_update(mid, *self, i as int);
                }
                Ok(())
            },
            _ => {
                proof {
                    assert(false);
                }
                Err(Error::UnexpectedAnswer)
            },
        }
    }

    /// The broker confirmed a `queue.delete`: the queue shadow recorded at issue time is dropped.
    pub fn receive_queue_delete_ok(&mut self, channel_id: u16) -> (r: Result<(), Error>)
        requires
            old(self).wf(),
        ensures
            final(self).wf(),
            r is Ok <==> old(self).has_chan(channel_id) && old(self).chan(
                channel_id,
            ).state is Connected && old(self).chan(channel_id).awaiting@.len() > 0 && old(self).chan(channel_id).awaiting@[0] is AwaitingQueueDeleteOk,
            !old(self).has_chan(channel_id) ==> r == Err::<(), Error>(
                Error::InvalidChannel(channel_id),
            ) && *final(self) == *old(self),
            old(self).has_chan(channel_id) && !(old(self).chan(channel_id).state is Connected)
                ==> r == Err::<(), Error>(Error::UnexpectedAnswer) && error_transition(
                *old(self),
                *final(self),
                channel_id,
            ),
            old(self).has_chan(channel_id) && old(self).chan(channel_id).state is Connected && !(
            old(self).chan(channel_id).awaiting@.len() > 0 && old(self).chan(
                channel_id,
            ).awaiting@[0] is AwaitingQueueDeleteOk) ==> r == Err::<(), Error>(Error::UnexpectedAnswer)
                && error_transition(*old(self), *final(self), channel_id),
            r is Ok ==> {
                let ans = old(self).chan(channel_id).awaiting@[0];
                let rid = ans.request_id();
                &&& *final(self) == (Connection {
                    channels: final(self).channels,
                    finished_reqs: final(self).finished_reqs,
                    ..*old(self)
                })
                &&& forall|id2: u16| (#[trigger] final(self).has_chan(id2)) == old(self).has_chan(
                    id2,
                )
                &&& channels_unchanged_except(*old(self), *final(self), channel_id)
                &&& final(self).chan(channel_id) == (Channel {
                    awaiting: final(self).chan(channel_id).awaiting,
                    queues: final(self).chan(channel_id).queues,
                    ..old(self).chan(channel_id)
                })
                &&& final(self).chan(channel_id).awaiting@ == old(self).chan(
                    channel_id,
                ).awaiting@.drop_first()
                &&& final(self).finished(rid) == Some(true)
                &&& reqs_unchanged_except(
                    old(self).finished_reqs@,
                    final(self).finished_reqs@,
                    rid,
                )
                &&& !final(self).chan(channel_id).has_queue(ans->AwaitingQueueDeleteOk_1@)
                &&& queues_unchanged_except(
                    old(self).chan(channel_id),
                    final(self).chan(channel_id),
                    ans->AwaitingQueueDeleteOk_1@,
                )
            },
    {
        let i = match self.receive_guard(channel_id, false) {
            Err(e) => {
                return Err(e);
            },
            Ok(i) => i,
        };
        let head_ok = self.channels[i].awaiting.len() > 0 && matches!(
            &self.channels[i].awaiting[0],
            Answer::AwaitingQueueDeleteOk(..)
        );
        if !head_ok {
            return self.fail_unexpected(channel_id, i);
        }
        let answer = self.pop_answer(channel_id, i);
        match answer {
            Answer::AwaitingQueueDeleteOk(rid, queue) => {
                self.set_finished(rid, true);
                let ghost mid = *self;
                let slot = &mut self.channels[i];
                slot.remove_queue(&queue);
                proof {
                    lemma_chan_lookup_update(mid, *self, channel_id, i as int);
                    lemma_conn_wf_update(mid, *self, i as int);
                }
                Ok(())
            },
            _ => {
                proof {
                    assert(false);
                }
                Err(Error::UnexpectedAnswer)
            },
        }
    }

    /// The broker confirmed a `queue.unbind`: the binding recorded at issue time is removed from every queue of the channel.
    pub fn receive_queue_unbind_ok(&mut self, channel_id: u16) -> (r: Result<(), Error>)
        requires
            old(self).wf(),
        ensures
            final(self).wf(),
            r is Ok <==> old(self).has_chan(channel_id) && old(self).chan(
                channel_id,
            ).state is Connected && old(self).chan(channel_id).awaiting@.len() > 0 && old(self).chan(channel_id).awaiting@[0] is AwaitingQueueUnbindOk,
            !old(self).has_chan(channel_id) ==> r == Err::<(), Error>(
                Error::InvalidChannel(channel_id),
            ) && *final(self) == *old(self),
            old(self).has_chan(channel_id) && !(old(self).chan(channel_id).state is Connected)
                ==> r == Err::<(), Error>(Error::UnexpectedAnswer) && error_transition(
                *old(self),
                *final(self),
                channel_id,
            ),
            old(self).has_chan(channel_id) && old(self).chan(channel_id).state is Connected && !(
            old(self).chan(channel_id).awaiting@.len() > 0 && old(self).chan(
                channel_id,
            ).awaiting@[0] is AwaitingQueueUnbindOk) ==> r == Err::<(), Error>(Error::UnexpectedAnswer)
                && error_transition(*old(self), *final(self), channel_id),
            r is Ok ==> {
                let ans = old(self).chan(channel_id).awaiting@[0];
                let rid = ans.request_id();
                &&& *final(self) == (Connection {
                    channels: final(self).channels,
                    finished_reqs: final(self).finished_reqs,
                    ..*old(self)
                })
                &&& forall|id2: u16| (#[trigger] final(self).has_chan(id2)) == old(self).has_chan(
                    id2,
                )
                &&& channels_unchanged_except(*old(self), *final(self), channel_id)
                &&& final(self).chan(channel_id) == (Channel {
                    awaiting: final(self).chan(channel_id).awaiting,
                    queues: final(self).chan(channel_id).queues,
                    ..old(self).chan(channel_id)
                })
                &&& final(self).chan(channel_id).awaiting@ == old(self).chan(
                    channel_id,
                ).awaiting@.drop_first()
                &&& final(self).finished(rid) == Some(true)
                &&& reqs_unchanged_except(
                    old(self).finished_reqs@,
                    final(self).finished_reqs@,
                    rid,
                )
                &&& bindings_removed(
                    old(self).chan(channel_id).queues@,
                    final(self).chan(channel_id).queues@,
                    (ans->AwaitingQueueUnbindOk_1@, ans->AwaitingQueueUnbindOk_2@),
                )
            },
    {
        let i = match self.receive_guard(channel_id, false) {
            Err(e) => {
                return Err(e);
            },
            Ok(i) => i,
        };
        let head_ok = self.channels[i].awaiting.len() > 0 && matches!(
            &self.channels[i].awaiting[0],
            Answer::AwaitingQueueUnbindOk(..)
        );
        if !head_ok {
            return self.fail_unexpected(channel_id, i);
        }
        let answer = self.pop_answer(channel_id, i);
        match answer {
            Answer::AwaitingQueueUnbindOk(rid, exchange, routing_key) => {
                self.set_finished(rid, true);
                let ghost mid = *self;
                let slot = &mut self.channels[i];
                slot.remove_binding_all(&exchange, &routing_key);
                proof {
                    lemma_chan_lookup_update(mid, *self, channel_id, i as int);
                    lemma_conn_wf_update(mid, *self, i as int);
                }
                Ok(())
            },
            _ => {
                proof {
                    assert(false);
                }
                Err(Error::UnexpectedAnswer)
            },
        }
    }

    /// The broker confirmed a `basic.qos`: apply the prefetch window recorded at issue time, connection-wide when it was global, else to the channel.
    pub fn receive_basic_qos_ok(&mut self, channel_id: u16) -> (r: Result<(), Error>)
        requires
            old(self).wf(),
        ensures
            final(self).wf(),
            r is Ok <==> old(self).has_chan(channel_id) && old(self).chan(
                channel_id,
            ).state is Connected && old(self).chan(channel_id).awaiting@.len() > 0 && old(self).chan(channel_id).awaiting@[0] is AwaitingBasicQosOk,
            !old(self).has_chan(channel_id) ==> r == Err::<(), Error>(
                Error::InvalidChannel(channel_id),
            ) && *final(self) == *old(self),
            old(self).has_chan(channel_id) && !(old(self).chan(channel_id).state is Connected)
                ==> r == Err::<(), Error>(Error::UnexpectedAnswer) && error_transition(
                *old(self),
                *final(self),
                channel_id,
            ),
            old(self).has_chan(channel_id) && old(self).chan(channel_id).state is Connected && !(
            old(self).chan(channel_id).awaiting@.len() > 0 && old(self).chan(
                channel_id,
            ).awaiting@[0] is AwaitingBasicQosOk) ==> r == Err::<(), Error>(Error::UnexpectedAnswer)
                && error_transition(*old(self), *final(self), channel_id),
            r is Ok ==> {
                let ans = old(self).chan(channel_id).awaiting@[0];
                let rid = ans.request_id();
                &&& *final(self) == (Connection {
                    channels: final(self).channels,
                    finished_reqs: final(self).finished_reqs,
                    prefetch_size: final(self).prefetch_size,
                    prefetch_count: final(self).prefetch_count,
                    ..*old(self)
                })
                &&& forall|id2: u16| (#[trigger] final(self).has_chan(id2)) == old(self).has_chan(
                    id2,
                )
                &&& channels_unchanged_except(*old(self), *final(self), channel_id)
                &&& final(self).chan(channel_id) == (Channel {
                    awaiting: final(self).chan(channel_id).awaiting,
                    prefetch_size: final(self).chan(channel_id).prefetch_size,
                    prefetch_count: final(self).chan(channel_id).prefetch_count,
                    ..old(self).chan(channel_id)
                })
                &&& final(self).chan(channel_id).awaiting@ == old(self).chan(
                    channel_id,
                ).awaiting@.drop_first()
                &&& final(self).finished(rid) == Some(true)
                &&& reqs_unchanged_except(
                    old(self).finished_reqs@,
                    final(self).finished_reqs@,
                    rid,
                )
                &&& ans->AwaitingBasicQosOk_3 ==> {
                    &&& final(self).prefetch_size == ans->AwaitingBasicQosOk_1
                    &&& final(self).prefetch_count == ans->AwaitingBasicQosOk_2
                    &&& final(self).chan(channel_id).prefetch_size == old(self).chan(
                        channel_id,
                    ).prefetch_size
                    &&& final(self).chan(channel_id).prefetch_count == old(self).chan(
                        channel_id,
                    ).prefetch_count
                }
                &&& !ans->AwaitingBasicQosOk_3 ==> {
                    &&& final(self).prefetch_size == old(self).prefetch_size
                    &&& final(self).prefetch_count == old(self).prefetch_count
                    &&& final(self).chan(channel_id).prefetch_size == ans->AwaitingBasicQosOk_1
                    &&& final(self).chan(channel_id).prefetch_count == ans->AwaitingBasicQosOk_2
                }
            },
    {
        let i = match self.receive_guard(channel_id, false) {
            Err(e) => {
                return Err(e);
            },
            Ok(i) => i,
        };
        let head_ok = self.channels[i].awaiting.len() > 0 && matches!(
            &self.channels[i].awaiting[0],
            Answer::AwaitingBasicQosOk(..)
        );
        if !head_ok {
            return self.fail_unexpected(channel_id, i);
        }
        let answer = self.pop_answer(channel_id, i);
        match answer {
            Answer::AwaitingBasicQosOk(rid, prefetch_size, prefetch_count, global_scope) => {
                self.set_finished(rid, true);
                if global_scope {
                    self.prefetch_size = prefetch_size;
                    self.prefetch_count = prefetch_count;
                } else {
                    let ghost mid = *self;
                    let slot = &mut self.channels[i];
                    slot.prefetch_size = prefetch_size;
                    slot.prefetch_count = prefetch_count;
                    proof {
                        lemma_chan_lookup_update(mid, *self, channel_id, i as int);
                        lemma_conn_wf_update(mid, *self, i as int);
                    }
                }
                Ok(())
            },
            _ => {
                proof {
                    assert(false);
                }
                Err(Error::UnexpectedAnswer)
            },
        }
    }
}


/// Every queue keeps everything except that the consumer with `tag` is
/// gone.
pub open spec fn consumers_removed(oldqs: Seq<Queue>, newqs: Seq<Queue>, tag: Seq<char>) -> bool {
    &&& newqs.len() == oldqs.len()
    &&& forall|qi: int|
        0 <= qi < oldqs.len() ==> #[trigger] newqs[qi] == (Queue {
            consumers: newqs[qi].consumers,
            ..oldqs[qi]
        })
    &&& forall|qi: int| 0 <= qi < oldqs.len() ==> !(#[trigger] newqs[qi].has_consumer(tag))
    &&& forall|qi: int|
        0 <= qi < oldqs.len() ==> #[trigger] consumers_unchanged_except(oldqs[qi], newqs[qi], tag)
}

impl Connection {
    /// The broker confirmed a `basic.consume`: record the (possibly
    /// broker-assigned) consumer tag and register the consumer on the queue
    /// recorded at issue time.
    pub fn receive_basic_consume_ok(&mut self, channel_id: u16, consumer_tag: String) -> (r: Result<
        (),
        Error,
    >)
        requires
            old(self).wf(),
        ensures
            final(self).wf(),
            r is Ok <==> old(self).has_chan(channel_id) && old(self).chan(
                channel_id,
            ).state is Connected && old(self).chan(channel_id).awaiting@.len() > 0 && old(self).chan(channel_id).awaiting@[0] is AwaitingBasicConsumeOk,
            !old(self).has_chan(channel_id) ==> r == Err::<(), Error>(
                Error::InvalidChannel(channel_id),
            ) && *final(self) == *old(self),
            old(self).has_chan(channel_id) && !(old(self).chan(channel_id).state is Connected)
                ==> r == Err::<(), Error>(Error::UnexpectedAnswer) && error_transition(
                *old(self),
                *final(self),
                channel_id,
            ),
            old(self).has_chan(channel_id) && old(self).chan(channel_id).state is Connected && !(
            old(self).chan(channel_id).awaiting@.len() > 0 && old(self).chan(
                channel_id,
            ).awaiting@[0] is AwaitingBasicConsumeOk) ==> r == Err::<(), Error>(
                Error::UnexpectedAnswer,
            ) && error_transition(*old(self), *final(self), channel_id),
            r is Ok ==> {
                let ans = old(self).chan(channel_id).awaiting@[0];
                let rid = ans.request_id();
                let qname = ans->AwaitingBasicConsumeOk_1@;
                &&& *final(self) == (Connection {
                    channels: final(self).channels,
                    finished_reqs: final(self).finished_reqs,
                    generated_names: final(self).generated_names,
                    ..*old(self)
                })
                &&& forall|id2: u16| (#[trigger] final(self).has_chan(id2)) == old(self).has_chan(
                    id2,
                )
                &&& channels_unchanged_except(*old(self), *final(self), channel_id)
                &&& final(self).chan(channel_id) == (Channel {
                    awaiting: final(self).chan(channel_id).awaiting,
                    queues: final(self).chan(channel_id).queues,
                    ..old(self).chan(channel_id)
                })
                &&& final(self).chan(channel_id).awaiting@ == old(self).chan(
                    channel_id,
                ).awaiting@.drop_first()
                &&& final(self).finished(rid) == Some(true)
                &&& reqs_unchanged_except(
                    old(self).finished_reqs@,
                    final(self).finished_reqs@,
                    rid,
                )
                &&& final(self).name_for(rid) == Some(consumer_tag@)
                &&& names_unchanged_except(
                    old(self).generated_names@,
                    final(self).generated_names@,
                    rid,
                )
                &&& forall|n: Seq<char>|
                    (#[trigger] final(self).chan(channel_id).has_queue(n)) == old(self).chan(
                        channel_id,
                    ).has_queue(n)
                &&& queues_unchanged_except(
                    old(self).chan(channel_id),
                    final(self).chan(channel_id),
                    qname,
                )
                &&& !old(self).chan(channel_id).has_queue(qname) ==> final(self).chan(
                    channel_id,
                ).queues == old(self).chan(channel_id).queues
                &&& old(self).chan(channel_id).has_queue(qname) ==> {
                    let oldq = old(self).chan(channel_id).queue(qname);
                    let newq = final(self).chan(channel_id).queue(qname);
                    &&& newq == (Queue { consumers: newq.consumers, ..oldq })
                    &&& newq.has_consumer(consumer_tag@)
                    &&& newq.consumer(consumer_tag@) == (Consumer {
                        tag: consumer_tag,
                        no_local: ans->AwaitingBasicConsumeOk_3,
                        no_ack: ans->AwaitingBasicConsumeOk_4,
                        exclusive: ans->AwaitingBasicConsumeOk_5,
                        nowait: ans->AwaitingBasicConsumeOk_6,
                        current_message: None,
                        deliveries: newq.consumer(consumer_tag@).deliveries,
                    })
                    &&& newq.consumer(consumer_tag@).deliveries@ == Seq::<Delivery>::empty()
                    &&& consumers_unchanged_except(oldq, newq, consumer_tag@)
                }
            },
    {
        let i = match self.receive_guard(channel_id, false) {
            Err(e) => {
                return Err(e);
            },
            Ok(i) => i,
        };
        let head_ok = self.channels[i].awaiting.len() > 0 && matches!(
            &self.channels[i].awaiting[0],
            Answer::AwaitingBasicConsumeOk(..)
        );
        if !head_ok {
            return self.fail_unexpected(channel_id, i);
        }
        let answer = self.pop_answer(channel_id, i);
        match answer {
            Answer::AwaitingBasicConsumeOk(rid, queue, _tag, no_local, no_ack, exclusive, nowait) => {
                self.set_finished(rid, true);
                self.set_generated_name(rid, consumer_tag.clone());
                let consumer = Consumer::new(consumer_tag, no_local, no_ack, exclusive, nowait);
                let ghost mid = *self;
                let slot = &mut self.channels[i];
                slot.upsert_consumer_in(&queue, consumer);
                proof {
                    lemma_chan_lookup_update(mid, *self, channel_id, i as int);
                    lemma_conn_wf_update(mid, *self, i as int);
                }
                Ok(())
            },
            _ => {
                proof {
                    assert(false);
                }
                Err(Error::UnexpectedAnswer)
            },
        }
    }

    /// The broker confirmed a `basic.cancel`: the consumer with that tag is
    /// removed from every queue of the channel, and one cancellation event
    /// is recorded per consumer dropped.
    #[verifier::loop_isolation(false)]
    pub fn receive_basic_cancel_ok(&mut self, channel_id: u16, consumer_tag: String) -> (r: Result<
        (),
        Error,
    >)
        requires
            old(self).wf(),
        ensures
            final(self).wf(),
            r is Ok <==> old(self).has_chan(channel_id) && old(self).chan(
                channel_id,
            ).state is Connected && old(self).chan(channel_id).awaiting@.len() > 0 && old(self).chan(channel_id).awaiting@[0] is AwaitingBasicCancelOk,
            !old(self).has_chan(channel_id) ==> r == Err::<(), Error>(
                Error::InvalidChannel(channel_id),
            ) && *final(self) == *old(self),
            old(self).has_chan(channel_id) && !(old(self).chan(channel_id).state is Connected)
                ==> r == Err::<(), Error>(Error::UnexpectedAnswer) && error_transition(
                *old(self),
                *final(self),
                channel_id,
            ),
            old(self).has_chan(channel_id) && old(self).chan(channel_id).state is Connected && !(
            old(self).chan(channel_id).awaiting@.len() > 0 && old(self).chan(
                channel_id,
            ).awaiting@[0] is AwaitingBasicCancelOk) ==> r == Err::<(), Error>(
                Error::UnexpectedAnswer,
            ) && error_transition(*old(self), *final(self), channel_id),
            r is Ok ==> {
                let ans = old(self).chan(channel_id).awaiting@[0];
                let rid = ans.request_id();
                &&& *final(self) == (Connection {
                    channels: final(self).channels,
                    finished_reqs: final(self).finished_reqs,
                    cancellations: final(self).cancellations,
                    ..*old(self)
                })
                &&& forall|id2: u16| (#[trigger] final(self).has_chan(id2)) == old(self).has_chan(
                    id2,
                )
                &&& channels_unchanged_except(*old(self), *final(self), channel_id)
                &&& final(self).chan(channel_id) == (Channel {
                    awaiting: final(self).chan(channel_id).awaiting,
                    queues: final(self).chan(channel_id).queues,
                    ..old(self).chan(channel_id)
                })
                &&& final(self).chan(channel_id).awaiting@ == old(self).chan(
                    channel_id,
                ).awaiting@.drop_first()
                &&& final(self).finished(rid) == Some(true)
                &&& reqs_unchanged_except(
                    old(self).finished_reqs@,
                    final(self).finished_reqs@,
                    rid,
                )
                &&& consumers_removed(
                    old(self).chan(channel_id).queues@,
                    final(self).chan(channel_id).queues@,
                    consumer_tag@,
                )
                &&& final(self).cancellations@.len() == old(self).cancellations@.len()
                    + Channel::consumer_count_in(old(self).chan(channel_id).queues@, consumer_tag@)
                &&& forall|ci: int|
                    0 <= ci < old(self).cancellations@.len() ==> #[trigger] final(self).cancellations@[ci] == old(self).cancellations@[ci]
                &&& forall|ci: int|
                    old(self).cancellations@.len() <= ci < final(self).cancellations@.len() ==> (
                    #[trigger] final(self).cancellations@[ci])@ == consumer_tag@
            },
    {
        let i = match self.receive_guard(channel_id, false) {
            Err(e) => {
                return Err(e);
            },
            Ok(i) => i,
        };
        let head_ok = self.channels[i].awaiting.len() > 0 && matches!(
            &self.channels[i].awaiting[0],
            Answer::AwaitingBasicCancelOk(..)
        );
        if !head_ok {
            return self.fail_unexpected(channel_id, i);
        }
        let answer = self.pop_answer(channel_id, i);
        match answer {
            Answer::AwaitingBasicCancelOk(rid) => {
                self.set_finished(rid, true);
                let ghost mid = *self;
                let slot = &mut self.channels[i];
                let removed = slot.remove_consumer_all(&consumer_tag);
                proof {
                    lemma_chan_lookup_update(mid, *self, channel_id, i as int);
                    lemma_conn_wf_update(mid, *self, i as int);
                }
                let ghost base = *self;
                let mut k: usize = 0;
                while k < removed
                    invariant
                        k <= removed,
                        self.cancellations@.len() == base.cancellations@.len() + k,
                        forall|ci: int|
                            0 <= ci < base.cancellations@.len() ==> #[trigger] self.cancellations@[ci] == base.cancellations@[ci],
                        forall|ci: int|
                            base.cancellations@.len() <= ci < self.cancellations@.len() ==> (
                            #[trigger] self.cancellations@[ci])@ == consumer_tag@,
                        *self == (Connection { cancellations: self.cancellations, ..base }),
                    decreases removed - k,
                {
                    self.cancellations.push(consumer_tag.clone());
                    k += 1;
                }
                Ok(())
            },
            _ => {
                proof {
                    assert(false);
                }
                Err(Error::UnexpectedAnswer)
            },
        }
    }

    /// The broker confirmed a `confirm.select`: the channel enters confirm
    /// mode with delivery tags starting at 1.
    pub fn receive_confirm_select_ok(&mut self, channel_id: u16) -> (r: Result<(), Error>)
        requires
            old(self).wf(),
        ensures
            final(self).wf(),
            r is Ok <==> old(self).has_chan(channel_id) && old(self).chan(
                channel_id,
            ).state is Connected && old(self).chan(channel_id).awaiting@.len() > 0 && old(self).chan(channel_id).awaiting@[0] is AwaitingConfirmSelectOk,
            !old(self).has_chan(channel_id) ==> r == Err::<(), Error>(
                Error::InvalidChannel(channel_id),
            ) && *final(self) == *old(self),
            old(self).has_chan(channel_id) && !(old(self).chan(channel_id).state is Connected)
                ==> r == Err::<(), Error>(Error::UnexpectedAnswer) && error_transition(
                *old(self),
                *final(self),
                channel_id,
            ),
            old(self).has_chan(channel_id) && old(self).chan(channel_id).state is Connected && !(
            old(self).chan(channel_id).awaiting@.len() > 0 && old(self).chan(
                channel_id,
            ).awaiting@[0] is AwaitingConfirmSelectOk) ==> r == Err::<(), Error>(
                Error::UnexpectedAnswer,
            ) && error_transition(*old(self), *final(self), channel_id),
            r is Ok ==> {
                let rid = old(self).chan(channel_id).awaiting@[0].request_id();
                &&& *final(self) == (Connection {
                    channels: final(self).channels,
                    finished_reqs: final(self).finished_reqs,
                    ..*old(self)
                })
                &&& forall|id2: u16| (#[trigger] final(self).has_chan(id2)) == old(self).has_chan(
                    id2,
                )
                &&& channels_unchanged_except(*old(self), *final(self), channel_id)
                &&& final(self).chan(channel_id) == (Channel {
                    awaiting: final(self).chan(channel_id).awaiting,
                    confirm: true,
                    message_count: 1,
                    unacked: final(self).chan(channel_id).unacked,
                    acked: final(self).chan(channel_id).acked,
                    nacked: final(self).chan(channel_id).nacked,
                    ..old(self).chan(channel_id)
                })
                &&& final(self).chan(channel_id).awaiting@ == old(self).chan(
                    channel_id,
                ).awaiting@.drop_first()
                &&& final(self).chan(channel_id).unacked@ == Seq::<u64>::empty()
                &&& final(self).chan(channel_id).acked@ == Seq::<u64>::empty()
                &&& final(self).chan(channel_id).nacked@ == Seq::<u64>::empty()
                &&& final(self).finished(rid) == Some(true)
                &&& reqs_unchanged_except(
                    old(self).finished_reqs@,
                    final(self).finished_reqs@,
                    rid,
                )
            },
    {
        let i = match self.receive_guard(channel_id, false) {
            Err(e) => {
                return Err(e);
            },
            Ok(i) => i,
        };
        let head_ok = self.channels[i].awaiting.len() > 0 && matches!(
            &self.channels[i].awaiting[0],
            Answer::AwaitingConfirmSelectOk(..)
        );
        if !head_ok {
            return self.fail_unexpected(channel_id, i);
        }
        let answer = self.pop_answer(channel_id, i);
        match answer {
            Answer::AwaitingConfirmSelectOk(rid) => {
                self.set_finished(rid, true);
                let ghost mid = *self;
                let slot = &mut self.channels[i];
                slot.enable_confirm();
                proof {
                    lemma_chan_lookup_update(mid, *self, channel_id, i as int);
                    lemma_conn_wf_update(mid, *self, i as int);
                }
                Ok(())
            },
            _ => {
                proof {
                    assert(false);
                }
                Err(Error::UnexpectedAnswer)
            },
        }
    }
}


impl Connection {
    /// The broker acknowledged published messages (`basic.ack` inbound,
    /// publisher confirms): the confirmed tags move from `unacked` to
    /// `acked`.
    pub fn receive_basic_ack(&mut self, channel_id: u16, delivery_tag: u64, multiple: bool) -> (r:
        Result<(), Error>)
        requires
            old(self).wf(),
        ensures
            final(self).wf(),
            r is Ok <==> old(self).has_chan(channel_id) && old(self).chan(
                channel_id,
            ).state is Connected && old(self).chan(channel_id).awaiting@.len() > 0 && old(self).chan(channel_id).awaiting@[0] is AwaitingPublishConfirm,
            !old(self).has_chan(channel_id) ==> r == Err::<(), Error>(
                Error::InvalidChannel(channel_id),
            ) && *final(self) == *old(self),
            old(self).has_chan(channel_id) && !(old(self).chan(channel_id).state is Connected)
                ==> r == Err::<(), Error>(Error::UnexpectedAnswer) && error_transition(
                *old(self),
                *final(self),
                channel_id,
            ),
            old(self).has_chan(channel_id) && old(self).chan(channel_id).state is Connected && !(
            old(self).chan(channel_id).awaiting@.len() > 0 && old(self).chan(
                channel_id,
            ).awaiting@[0] is AwaitingPublishConfirm) ==> r == Err::<(), Error>(
                Error::UnexpectedAnswer,
            ) && error_transition(*old(self), *final(self), channel_id),
            r is Ok ==> {
                let rid = old(self).chan(channel_id).awaiting@[0].request_id();
                let c0 = old(self).chan(channel_id);
                let c1 = final(self).chan(channel_id);
                &&& *final(self) == (Connection {
                    channels: final(self).channels,
                    finished_reqs: final(self).finished_reqs,
                    ..*old(self)
                })
                &&& forall|id2: u16| (#[trigger] final(self).has_chan(id2)) == old(self).has_chan(
                    id2,
                )
                &&& channels_unchanged_except(*old(self), *final(self), channel_id)
                &&& c1 == (Channel {
                    awaiting: c1.awaiting,
                    unacked: c1.unacked,
                    acked: c1.acked,
                    ..c0
                })
                &&& c1.awaiting@ == c0.awaiting@.drop_first()
                &&& c1.nacked@ == c0.nacked@
                &&& final(self).finished(rid) == Some(true)
                &&& reqs_unchanged_except(
                    old(self).finished_reqs@,
                    final(self).finished_reqs@,
                    rid,
                )
                &&& !c0.confirm ==> c1.unacked@ == c0.unacked@ && c1.acked@ == c0.acked@
                &&& c0.confirm && multiple ==> {
                    &&& c1.unacked@.to_set() == c0.unacked@.to_set().difference(
                        tags_le(c0.unacked@.to_set(), delivery_tag),
                    )
                    &&& c1.acked@.to_set() == c0.acked@.to_set().union(
                        tags_le(c0.unacked@.to_set(), delivery_tag),
                    )
                }
                &&& c0.confirm && !multiple && c0.unacked@.to_set().contains(delivery_tag) ==> {
                    &&& c1.unacked@.to_set() == c0.unacked@.to_set().remove(delivery_tag)
                    &&& c1.acked@.to_set() == c0.acked@.to_set().insert(delivery_tag)
                }
                &&& c0.confirm && !multiple && !c0.unacked@.to_set().contains(delivery_tag)
                    ==> c1.unacked@ == c0.unacked@ && c1.acked@ == c0.acked@
            },
    {
        let i = match self.receive_guard(channel_id, false) {
            Err(e) => {
                return Err(e);
            },
            Ok(i) => i,
        };
        let head_ok = self.channels[i].awaiting.len() > 0 && matches!(
            &self.channels[i].awaiting[0],
            Answer::AwaitingPublishConfirm(..)
        );
        if !head_ok {
            return self.fail_unexpected(channel_id, i);
        }
        let answer = self.pop_answer(channel_id, i);
        match answer {
            Answer::AwaitingPublishConfirm(rid) => {
                self.set_finished(rid, true);
                if self.channels[i].confirm {
                    let ghost mid = *self;
                    let slot = &mut self.channels[i];
                    slot.confirm_ack(delivery_tag, multiple);
                    proof {
                        lemma_chan_lookup_update(mid, *self, channel_id, i as int);
                        lemma_conn_wf_update(mid, *self, i as int);
                    }
                }
                Ok(())
            },
            _ => {
                proof {
                    assert(false);
                }
                Err(Error::UnexpectedAnswer)
            },
        }
    }

    /// The broker rejected published messages (`basic.nack` inbound,
    /// publisher confirms): the refused tags move from `unacked` to
    /// `nacked`.
    pub fn receive_basic_nack(
        &mut self,
        channel_id: u16,
        delivery_tag: u64,
        multiple: bool,
        _requeue: bool,
    ) -> (r: Result<(), Error>)
        requires
            old(self).wf(),
        ensures
            final(self).wf(),
            r is Ok <==> old(self).has_chan(channel_id) && old(self).chan(
                channel_id,
            ).state is Connected && old(self).chan(channel_id).awaiting@.len() > 0 && old(self).chan(channel_id).awaiting@[0] is AwaitingPublishConfirm,
            !old(self).has_chan(channel_id) ==> r == Err::<(), Error>(
                Error::InvalidChannel(channel_id),
            ) && *final(self) == *old(self),
            old(self).has_chan(channel_id) && !(old(self).chan(channel_id).state is Connected)
                ==> r == Err::<(), Error>(Error::UnexpectedAnswer) && error_transition(
                *old(self),
                *final(self),
                channel_id,
            ),
            old(self).has_chan(channel_id) && old(self).chan(channel_id).state is Connected && !(
            old(self).chan(channel_id).awaiting@.len() > 0 && old(self).chan(
                channel_id,
            ).awaiting@[0] is AwaitingPublishConfirm) ==> r == Err::<(), Error>(
                Error::UnexpectedAnswer,
            ) && error_transition(*old(self), *final(self), channel_id),
            r is Ok ==> {
                let rid = old(self).chan(channel_id).awaiting@[0].request_id();
                let c0 = old(self).chan(channel_id);
                let c1 = final(self).chan(channel_id);
                &&& *final(self) == (Connection {
                    channels: final(self).channels,
                    finished_reqs: final(self).finished_reqs,
                    ..*old(self)
                })
                &&& forall|id2: u16| (#[trigger] final(self).has_chan(id2)) == old(self).has_chan(
                    id2,
                )
                &&& channels_unchanged_except(*old(self), *final(self), channel_id)
                &&& c1 == (Channel {
                    awaiting: c1.awaiting,
                    unacked: c1.unacked,
                    nacked: c1.nacked,
                    ..c0
                })
                &&& c1.awaiting@ == c0.awaiting@.drop_first()
                &&& c1.acked@ == c0.acked@
                &&& final(self).finished(rid) == Some(true)
                &&& reqs_unchanged_except(
                    old(self).finished_reqs@,
                    final(self).finished_reqs@,
                    rid,
                )
                &&& !c0.confirm ==> c1.unacked@ == c0.unacked@ && c1.nacked@ == c0.nacked@
                &&& c0.confirm && multiple ==> {
                    &&& c1.unacked@.to_set() == c0.unacked@.to_set().difference(
                        tags_le(c0.unacked@.to_set(), delivery_tag),
                    )
                    &&& c1.nacked@.to_set() == c0.nacked@.to_set().union(
                        tags_le(c0.unacked@.to_set(), delivery_tag),
                    )
                }
                &&& c0.confirm && !multiple && c0.unacked@.to_set().contains(delivery_tag) ==> {
                    &&& c1.unacked@.to_set() == c0.unacked@.to_set().remove(delivery_tag)
                    &&& c1.nacked@.to_set() == c0.nacked@.to_set().insert(delivery_tag)
                }
                &&& c0.confirm && !multiple && !c0.unacked@.to_set().contains(delivery_tag)
                    ==> c1.unacked@ == c0.unacked@ && c1.nacked@ == c0.nacked@
            },
    {
        let i = match self.receive_guard(channel_id, false) {
            Err(e) => {
                return Err(e);
            },
            Ok(i) => i,
        };
        let head_ok = self.channels[i].awaiting.len() > 0 && matches!(
            &self.channels[i].awaiting[0],
            Answer::AwaitingPublishConfirm(..)
        );
        if !head_ok {
            return self.fail_unexpected(channel_id, i);
        }
        let answer = self.pop_answer(channel_id, i);
        match answer {
            Answer::AwaitingPublishConfirm(rid) => {
                self.set_finished(rid, true);
                if self.channels[i].confirm {
                    let ghost mid = *self;
                    let slot = &mut self.channels[i];
                    slot.confirm_nack(delivery_tag, multiple);
                    proof {
                        lemma_chan_lookup_update(mid, *self, channel_id, i as int);
                        lemma_conn_wf_update(mid, *self, i as int);
                    }
                }
                Ok(())
            },
            _ => {
                proof {
                    assert(false);
                }
                Err(Error::UnexpectedAnswer)
            },
        }
    }

    /// The broker answered a `basic.get` with a message: latch the request
    /// as delivered, store the pending reply on the queue recorded at issue
    /// time, and await its content frames.
    pub fn receive_basic_get_ok(
        &mut self,
        channel_id: u16,
        delivery_tag: u64,
        redelivered: bool,
        exchange: String,
        routing_key: String,
        message_count: u32,
    ) -> (r: Result<(), Error>)
        requires
            old(self).wf(),
        ensures
            final(self).wf(),
            r is Ok <==> old(self).has_chan(channel_id) && old(self).chan(
                channel_id,
            ).state is Connected && old(self).chan(channel_id).awaiting@.len() > 0 && old(self).chan(channel_id).awaiting@[0] is AwaitingBasicGetAnswer,
            !old(self).has_chan(channel_id) ==> r == Err::<(), Error>(
                Error::InvalidChannel(channel_id),
            ) && *final(self) == *old(self),
            old(self).has_chan(channel_id) && !(old(self).chan(channel_id).state is Connected)
                ==> r == Err::<(), Error>(Error::UnexpectedAnswer) && error_transition(
                *old(self),
                *final(self),
                channel_id,
            ),
            old(self).has_chan(channel_id) && old(self).chan(channel_id).state is Connected && !(
            old(self).chan(channel_id).awaiting@.len() > 0 && old(self).chan(
                channel_id,
            ).awaiting@[0] is AwaitingBasicGetAnswer) ==> r == Err::<(), Error>(
                Error::UnexpectedAnswer,
            ) && error_transition(*old(self), *final(self), channel_id),
            r is Ok ==> {
                let ans = old(self).chan(channel_id).awaiting@[0];
                let rid = ans.request_id();
                let qname = ans->AwaitingBasicGetAnswer_1@;
                let c0 = old(self).chan(channel_id);
                let c1 = final(self).chan(channel_id);
                &&& *final(self) == (Connection {
                    channels: final(self).channels,
                    finished_get_reqs: final(self).finished_get_reqs,
                    ..*old(self)
                })
                &&& forall|id2: u16| (#[trigger] final(self).has_chan(id2)) == old(self).has_chan(
                    id2,
                )
                &&& channels_unchanged_except(*old(self), *final(self), channel_id)
                &&& c1 == (Channel {
                    state: c1.state,
                    awaiting: c1.awaiting,
                    queues: c1.queues,
                    ..c0
                })
                &&& c1.awaiting@ == c0.awaiting@.drop_first()
                &&& c1.state is WillReceiveContent
                &&& c1.state->WillReceiveContent_0@ == qname
                &&& c1.state->WillReceiveContent_1 is None
                &&& final(self).get_finished(rid) == Some(true)
                &&& reqs_unchanged_except(
                    old(self).finished_get_reqs@,
                    final(self).finished_get_reqs@,
                    rid,
                )
                &&& forall|n: Seq<char>| (#[trigger] c1.has_queue(n)) == c0.has_queue(n)
                &&& queues_unchanged_except(c0, c1, qname)
                &&& !c0.has_queue(qname) ==> c1.queues == c0.queues
                &&& c0.has_queue(qname) ==> {
                    let newq = c1.queue(qname);
                    &&& newq == (Queue {
                        current_get_message: newq.current_get_message,
                        ..c0.queue(qname)
                    })
                    &&& newq.current_get_message is Some
                    &&& newq.current_get_message->Some_0.message_count == message_count
                    &&& newq.current_get_message->Some_0.delivery.delivery_tag == delivery_tag
                    &&& newq.current_get_message->Some_0.delivery.exchange == exchange
                    &&& newq.current_get_message->Some_0.delivery.routing_key == routing_key
                    &&& newq.current_get_message->Some_0.delivery.redelivered == redelivered
                    &&& newq.current_get_message->Some_0.delivery.data@ == Seq::<u8>::empty()
                }
            },
    {
        let i = match self.receive_guard(channel_id, false) {
            Err(e) => {
                return Err(e);
            },
            Ok(i) => i,
        };
        let head_ok = self.channels[i].awaiting.len() > 0 && matches!(
            &self.channels[i].awaiting[0],
            Answer::AwaitingBasicGetAnswer(..)
        );
        if !head_ok {
            return self.fail_unexpected(channel_id, i);
        }
        let answer = self.pop_answer(channel_id, i);
        match answer {
            Answer::AwaitingBasicGetAnswer(rid, queue_name) => {
                self.set_get_finished(rid, true);
                let message = BasicGetMessage::new(
                    delivery_tag,
                    exchange,
                    routing_key,
                    redelivered,
                    message_count,
                );
                let ghost mid = *self;
                let slot = &mut self.channels[i];
                slot.set_get_message_in(&queue_name, message);
                let ghost mid2 = *self;
                let slot2 = &mut self.channels[i];
                slot2.state = ChannelState::WillReceiveContent(queue_name, None);
                proof {
                    lemma_chan_lookup_update(mid, *self, channel_id, i as int);
                    lemma_conn_wf_update(mid, *self, i as int);
                    let c0 = old(self).chan(channel_id);
                    let c1 = self.chan(channel_id);
                    assert forall|n: Seq<char>| (#[trigger] c1.has_queue(n)) == c0.has_queue(
                        n,
                    ) by {
                        let cha = mid.channels@[i as int];
                        let chb = mid2.channels@[i as int];
                        assert(chb.has_queue(n) == cha.has_queue(n));
                        assert(c1.queues@ == chb.queues@);
                        assert(c0.queues@ == cha.queues@);
                    }
                }
                Ok(())
            },
            _ => {
                proof {
                    assert(false);
                }
                Err(Error::UnexpectedAnswer)
            },
        }
    }

    /// The broker answered a `basic.get` with no message waiting: the
    /// completion latch records `false` for the request.
    pub fn receive_basic_get_empty(&mut self, channel_id: u16) -> (r: Result<(), Error>)
        requires
            old(self).wf(),
        ensures
            final(self).wf(),
            r is Ok <==> old(self).has_chan(channel_id) && old(self).chan(
                channel_id,
            ).state is Connected && old(self).chan(channel_id).awaiting@.len() > 0 && old(self).chan(channel_id).awaiting@[0] is AwaitingBasicGetAnswer,
            !old(self).has_chan(channel_id) ==> r == Err::<(), Error>(
                Error::InvalidChannel(channel_id),
            ) && *final(self) == *old(self),
            old(self).has_chan(channel_id) && !(old(self).chan(channel_id).state is Connected)
                ==> r == Err::<(), Error>(Error::UnexpectedAnswer) && error_transition(
                *old(self),
                *final(self),
                channel_id,
            ),
            old(self).has_chan(channel_id) && old(self).chan(channel_id).state is Connected && !(
            old(self).chan(channel_id).awaiting@.len() > 0 && old(self).chan(
                channel_id,
            ).awaiting@[0] is AwaitingBasicGetAnswer) ==> r == Err::<(), Error>(
                Error::UnexpectedAnswer,
            ) && error_transition(*old(self), *final(self), channel_id),
            r is Ok ==> {
                let rid = old(self).chan(channel_id).awaiting@[0].request_id();
                &&& *final(self) == (Connection {
                    channels: final(self).channels,
                    finished_get_reqs: final(self).finished_get_reqs,
                    ..*old(self)
                })
                &&& forall|id2: u16| (#[trigger] final(self).has_chan(id2)) == old(self).has_chan(
                    id2,
                )
                &&& channels_unchanged_except(*old(self), *final(self), channel_id)
                &&& final(self).chan(channel_id) == (Channel {
                    awaiting: final(self).chan(channel_id).awaiting,
                    ..old(self).chan(channel_id)
                })
                &&& final(self).chan(channel_id).awaiting@ == old(self).chan(
                    channel_id,
                ).awaiting@.drop_first()
                &&& final(self).get_finished(rid) == Some(false)
                &&& reqs_unchanged_except(
                    old(self).finished_get_reqs@,
                    final(self).finished_get_reqs@,
                    rid,
                )
            },
    {
        let i = match self.receive_guard(channel_id, false) {
            Err(e) => {
                return Err(e);
            },
            Ok(i) => i,
        };
        let head_ok = self.channels[i].awaiting.len() > 0 && matches!(
            &self.channels[i].awaiting[0],
            Answer::AwaitingBasicGetAnswer(..)
        );
        if !head_ok {
            return self.fail_unexpected(channel_id, i);
        }
        let answer = self.pop_answer(channel_id, i);
        match answer {
            Answer::AwaitingBasicGetAnswer(rid, _queue_name) => {
                self.set_get_finished(rid, false);
                Ok(())
            },
            _ => {
                proof {
                    assert(false);
                }
                Err(Error::UnexpectedAnswer)
            },
        }
    }

    /// The broker pushed a delivery to a consumer (`basic.deliver`): the
    /// first queue holding that consumer starts receiving the message, and
    /// the channel awaits its content frames.
    pub fn receive_basic_deliver(
        &mut self,
        channel_id: u16,
        consumer_tag: String,
        delivery_tag: u64,
        redelivered: bool,
        exchange: String,
        routing_key: String,
    ) -> (r: Result<(), Error>)
        requires
            old(self).wf(),
        ensures
            final(self).wf(),
            r is Ok <==> old(self).has_chan(channel_id) && old(self).chan(
                channel_id,
            ).state is Connected,
            !old(self).has_chan(channel_id) ==> r == Err::<(), Error>(
                Error::InvalidChannel(channel_id),
            ) && *final(self) == *old(self),
            old(self).has_chan(channel_id) && !(old(self).chan(channel_id).state is Connected)
                ==> r == Err::<(), Error>(Error::UnexpectedAnswer) && error_transition(
                *old(self),
                *final(self),
                channel_id,
            ),
            r is Ok ==> {
                let c0 = old(self).chan(channel_id);
                let c1 = final(self).chan(channel_id);
                let qi = queue_with(c0.queues@, consumer_tag@);
                &&& *final(self) == (Connection { channels: final(self).channels, ..*old(self) })
                &&& forall|id2: u16| (#[trigger] final(self).has_chan(id2)) == old(self).has_chan(
                    id2,
                )
                &&& channels_unchanged_except(*old(self), *final(self), channel_id)
                &&& qi == -1 ==> c1 == c0
                &&& qi >= 0 ==> {
                    &&& c1 == (Channel { state: c1.state, queues: c1.queues, ..c0 })
                    &&& c1.state == ChannelState::WillReceiveContent(
                        c0.queues@[qi].name,
                        Some(consumer_tag),
                    )
                    &&& c1.queues@.len() == c0.queues@.len()
                    &&& forall|j: int|
                        0 <= j < c0.queues@.len() && j != qi ==> #[trigger] c1.queues@[j]
                            == c0.queues@[j]
                    &&& c1.queues@[qi] == (Queue {
                        consumers: c1.queues@[qi].consumers,
                        ..c0.queues@[qi]
                    })
                    &&& c1.queues@[qi].has_consumer(consumer_tag@)
                    &&& consumers_unchanged_except(c0.queues@[qi], c1.queues@[qi], consumer_tag@)
                    &&& {
                        let cons = c1.queues@[qi].consumer(consumer_tag@);
                        &&& cons == (Consumer {
                            current_message: cons.current_message,
                            ..c0.queues@[qi].consumer(consumer_tag@)
                        })
                        &&& cons.current_message is Some
                        &&& cons.current_message->Some_0.delivery_tag == delivery_tag
                        &&& cons.current_message->Some_0.exchange == exchange
                        &&& cons.current_message->Some_0.routing_key == routing_key
                        &&& cons.current_message->Some_0.redelivered == redelivered
                        &&& cons.current_message->Some_0.data@ == Seq::<u8>::empty()
                    }
                }
            },
    {
        let i = match self.receive_guard(channel_id, false) {
            Err(e) => {
                return Err(e);
            },
            Ok(i) => i,
        };
        let delivery = Delivery::new(delivery_tag, exchange, routing_key, redelivered);
        let ghost mid = *self;
        let slot = &mut self.channels[i];
        let queue_name = slot.start_delivery(&consumer_tag, delivery);
        match queue_name {
            Some(name) => {
                slot.state = ChannelState::WillReceiveContent(name, Some(consumer_tag));
            },
            None => {},
        }
        proof {
            lemma_chan_lookup_update(mid, *self, channel_id, i as int);
            lemma_conn_wf_update(mid, *self, i as int);
        }
        Ok(())
    }

    /// The broker asked us to pause or resume publishing (`channel.flow`
    /// inbound): record it in `send_flow` and confirm with
    /// `channel.flow-ok`.
    pub fn receive_channel_flow(&mut self, channel_id: u16, active: bool) -> (r: Result<(), Error>)
        requires
            old(self).wf(),
        ensures
            final(self).wf(),
            r is Ok <==> old(self).has_chan(channel_id) && old(self).chan(
                channel_id,
            ).state is Connected,
            !old(self).has_chan(channel_id) ==> r == Err::<(), Error>(
                Error::InvalidChannel(channel_id),
            ) && *final(self) == *old(self),
            old(self).has_chan(channel_id) && !(old(self).chan(channel_id).state is Connected)
                ==> r == Err::<(), Error>(Error::UnexpectedAnswer) && error_transition(
                *old(self),
                *final(self),
                channel_id,
            ),
            r is Ok ==> {
                &&& *final(self) == (Connection {
                    channels: final(self).channels,
                    outbound: final(self).outbound,
                    ..*old(self)
                })
                &&& final(self).outbound@ == old(self).outbound@.push(
                    (Frame { channel_id, method: (Method::ChannelFlowOk { active }) }),
                )
                &&& forall|id2: u16| (#[trigger] final(self).has_chan(id2)) == old(self).has_chan(
                    id2,
                )
                &&& channels_unchanged_except(*old(self), *final(self), channel_id)
                &&& final(self).chan(channel_id) == (Channel {
                    send_flow: active,
                    ..old(self).chan(channel_id)
                })
            },
    {
        let i = match self.receive_guard(channel_id, false) {
            Err(e) => {
                return Err(e);
            },
            Ok(i) => i,
        };
        let ghost mid = *self;
        let slot = &mut self.channels[i];
        slot.send_flow = active;
        proof {
            lemma_chan_lookup_update(mid, *self, channel_id, i as int);
            lemma_conn_wf_update(mid, *self, i as int);
        }
        self.emit(channel_id, Method::ChannelFlowOk { active });
        Ok(())
    }

    /// The broker is closing the channel (`channel.close` inbound): drop
    /// the head of the expected replies (best effort), close the channel,
    /// and confirm with `channel.close-ok`.
    pub fn receive_channel_close(
        &mut self,
        channel_id: u16,
        _reply_code: u16,
        _reply_text: String,
        _class_id: u16,
        _method_id: u16,
    ) -> (r: Result<(), Error>)
        requires
            old(self).wf(),
        ensures
            final(self).wf(),
            r is Ok <==> old(self).has_chan(channel_id) && old(self).chan(
                channel_id,
            ).state is Connected,
            !old(self).has_chan(channel_id) ==> r == Err::<(), Error>(
                Error::InvalidChannel(channel_id),
            ) && *final(self) == *old(self),
            old(self).has_chan(channel_id) && !(old(self).chan(channel_id).state is Connected)
                ==> r == Err::<(), Error>(Error::UnexpectedAnswer) && error_transition(
                *old(self),
                *final(self),
                channel_id,
            ),
            r is Ok ==> {
                let c0 = old(self).chan(channel_id);
                let c1 = final(self).chan(channel_id);
                &&& *final(self) == (Connection {
                    channels: final(self).channels,
                    outbound: final(self).outbound,
                    ..*old(self)
                })
                &&& final(self).outbound@ == old(self).outbound@.push(
                    (Frame { channel_id, method: Method::ChannelCloseOk }),
                )
                &&& forall|id2: u16| (#[trigger] final(self).has_chan(id2)) == old(self).has_chan(
                    id2,
                )
                &&& channels_unchanged_except(*old(self), *final(self), channel_id)
                &&& c1 == (Channel { state: ChannelState::Closed, awaiting: c1.awaiting, ..c0 })
                &&& c0.awaiting@.len() > 0 ==> c1.awaiting@ == c0.awaiting@.drop_first()
                &&& c0.awaiting@.len() == 0 ==> c1.awaiting == c0.awaiting
            },
    {
        let i = match self.receive_guard(channel_id, false) {
            Err(e) => {
                return Err(e);
            },
            Ok(i) => i,
        };
        if self.channels[i].awaiting.len() > 0 {
            let _dropped = self.pop_answer(channel_id, i);
        }
        let ghost mid = *self;
        let slot = &mut self.channels[i];
        slot.state = ChannelState::Closed;
        proof {
            lemma_chan_lookup_update(mid, *self, channel_id, i as int);
            lemma_conn_wf_update(mid, *self, i as int);
        }
        self.emit(channel_id, Method::ChannelCloseOk);
        Ok(())
    }
}


/// The inbound methods a client may receive; anything else from the broker
/// is a protocol violation surfaced as `InvalidMethod`.
pub open spec fn receivable(m: Method) -> bool {
    ||| m is ChannelOpenOk
    ||| m is ChannelFlow
    ||| m is ChannelFlowOk
    ||| m is ChannelClose
    ||| m is ChannelCloseOk
    ||| m is AccessRequestOk
    ||| m is ExchangeDeclareOk
    ||| m is ExchangeDeleteOk
    ||| m is ExchangeBindOk
    ||| m is ExchangeUnbindOk
    ||| m is QueueDeclareOk
    ||| m is QueueBindOk
    ||| m is QueuePurgeOk
    ||| m is QueueDeleteOk
    ||| m is QueueUnbindOk
    ||| m is BasicQosOk
    ||| m is BasicConsumeOk
    ||| m is BasicCancelOk
    ||| m is BasicDeliver
    ||| m is BasicGetOk
    ||| m is BasicGetEmpty
    ||| m is BasicRecoverOk
    ||| m is ConfirmSelectOk
    ||| m is BasicAck
    ||| m is BasicNack
}


/// Inbound methods that complete an outstanding request (everything the
/// client can receive except the broker-initiated `channel.flow`,
/// `channel.close` and `basic.deliver`).
pub open spec fn is_reply(m: Method) -> bool {
    receivable(m) && !(m is ChannelFlow) && !(m is ChannelClose) && !(m is BasicDeliver)
}

/// Does the reply `m` answer the expected reply `a`? This is the pairing
/// the per-channel FIFO of expected replies enforces: the reply that lets a
/// request succeed is exactly the one its issuer recorded, in issue order.
pub open spec fn reply_matches(a: Answer, m: Method) -> bool {
    match m {
        Method::ChannelOpenOk => a is AwaitingChannelOpenOk,
        Method::ChannelFlowOk { .. } => a is AwaitingChannelFlowOk,
        Method::ChannelCloseOk => a is AwaitingChannelCloseOk,
        Method::AccessRequestOk => a is AwaitingAccessRequestOk,
        Method::ExchangeDeclareOk => a is AwaitingExchangeDeclareOk,
        Method::ExchangeDeleteOk => a is AwaitingExchangeDeleteOk,
        Method::ExchangeBindOk => a is AwaitingExchangeBindOk,
        Method::ExchangeUnbindOk => a is AwaitingExchangeUnbindOk,
        Method::QueueDeclareOk { .. } => a is AwaitingQueueDeclareOk,
        Method::QueueBindOk => a is AwaitingQueueBindOk,
        Method::QueuePurgeOk { .. } => a is AwaitingQueuePurgeOk,
        Method::QueueDeleteOk { .. } => a is AwaitingQueueDeleteOk,
        Method::QueueUnbindOk => a is AwaitingQueueUnbindOk,
        Method::BasicQosOk => a is AwaitingBasicQosOk,
        Method::BasicConsumeOk { .. } => a is AwaitingBasicConsumeOk,
        Method::BasicCancelOk { .. } => a is AwaitingBasicCancelOk,
        Method::BasicGetOk { .. } => a is AwaitingBasicGetAnswer,
        Method::BasicGetEmpty => a is AwaitingBasicGetAnswer,
        Method::BasicRecoverOk => a is AwaitingBasicRecoverOk,
        Method::ConfirmSelectOk => a is AwaitingConfirmSelectOk,
        Method::BasicAck { .. } => a is AwaitingPublishConfirm,
        Method::BasicNack { .. } => a is AwaitingPublishConfirm,
        _ => false,
    }
}

impl Connection {
    /// Route one decoded inbound method to its handler. Every handler
    /// demands an existing channel in `Connected` (`Initial` for
    /// `channel.open-ok`); in any other state the channel goes to `Error`
    /// with `UnexpectedAnswer` and nothing else of the model changes.
    pub fn receive_method(&mut self, channel_id: u16, method: Method) -> (r: Result<(), Error>)
        requires
            old(self).wf(),
        ensures
            final(self).wf(),
            !receivable(method) ==> r == Err::<(), Error>(Error::InvalidMethod(method)) && *final(self) == *old(self),
            r is Ok ==> receivable(method),
            receivable(method) && !old(self).has_chan(channel_id) ==> r == Err::<(), Error>(
                Error::InvalidChannel(channel_id),
            ) && *final(self) == *old(self),
            receivable(method) && old(self).has_chan(channel_id) && !(old(self).chan(
                channel_id,
            ).state is Connected) && !(old(self).chan(channel_id).state is Initial) ==> r == Err::<
                (),
                Error,
            >(Error::UnexpectedAnswer) && error_transition(*old(self), *final(self), channel_id),
            method is ChannelOpenOk && old(self).has_chan(channel_id) && old(self).chan(
                channel_id,
            ).state is Initial ==> (r is Ok <==> old(self).chan(channel_id).awaiting@.len() > 0
                && reply_matches(old(self).chan(channel_id).awaiting@[0], method)),
            is_reply(method) && !(method is ChannelOpenOk) && old(self).has_chan(channel_id) && old(
                self,
            ).chan(channel_id).state is Connected ==> (r is Ok <==> old(self).chan(
                channel_id,
            ).awaiting@.len() > 0 && reply_matches(old(self).chan(channel_id).awaiting@[0], method)),
            r is Ok && is_reply(method) ==> final(self).chan(channel_id).awaiting@ == old(self).chan(
                channel_id,
            ).awaiting@.drop_first(),
            is_reply(method) && !(method is ChannelOpenOk) && old(self).has_chan(channel_id) && old(
                self,
            ).chan(channel_id).state is Connected && !(old(self).chan(
                channel_id,
            ).awaiting@.len() > 0 && reply_matches(old(self).chan(channel_id).awaiting@[0], method))
                ==> r == Err::<(), Error>(Error::UnexpectedAnswer) && error_transition(
                *old(self),
                *final(self),
                channel_id,
            ),
            method is ChannelOpenOk && old(self).has_chan(channel_id) && old(self).chan(
                channel_id,
            ).state is Initial && !(old(self).chan(channel_id).awaiting@.len() > 0 && reply_matches(
                old(self).chan(channel_id).awaiting@[0],
                method,
            )) ==> r == Err::<(), Error>(Error::UnexpectedAnswer) && error_transition(
                *old(self),
                *final(self),
                channel_id,
            ),
            forall|id2: u16| (#[trigger] final(self).has_chan(id2)) == old(self).has_chan(id2),
            final(self).next_request_id == old(self).next_request_id,
            r is Ok && method is ChannelOpenOk ==> final(self).chan(channel_id) == (Channel {
                state: ChannelState::Connected,
                awaiting: final(self).chan(channel_id).awaiting,
                ..old(self).chan(channel_id)
            }),
            r is Ok && (method is ChannelCloseOk || method is ChannelClose) ==> final(self).chan(
                channel_id,
            ).state is Closed,
            r is Ok && method is BasicGetOk ==> final(self).chan(
                channel_id,
            ).state is WillReceiveContent,
            r is Ok && is_reply(method) && !(method is ChannelOpenOk) && !(method is ChannelCloseOk)
                && !(method is BasicGetOk) ==> final(self).chan(channel_id).state == old(self).chan(
                channel_id,
            ).state,
    {
        match method {
            Method::ChannelOpenOk => self.receive_channel_open_ok(channel_id),
            Method::ChannelFlow { active } => self.receive_channel_flow(channel_id, active),
            Method::ChannelFlowOk { active } => self.receive_channel_flow_ok(channel_id, active),
            Method::ChannelClose { reply_code, reply_text, class_id, method_id } => self
                .receive_channel_close(channel_id, reply_code, reply_text, class_id, method_id),
            Method::ChannelCloseOk => self.receive_channel_close_ok(channel_id),
            Method::AccessRequestOk => self.receive_access_request_ok(channel_id),
            Method::ExchangeDeclareOk => self.receive_exchange_declare_ok(channel_id),
            Method::ExchangeDeleteOk => self.receive_exchange_delete_ok(channel_id),
            Method::ExchangeBindOk => self.receive_exchange_bind_ok(channel_id),
            Method::ExchangeUnbindOk => self.receive_exchange_unbind_ok(channel_id),
            Method::QueueDeclareOk { queue, message_count, consumer_count } => self
                .receive_queue_declare_ok(channel_id, queue, message_count, consumer_count),
            Method::QueueBindOk => self.receive_queue_bind_ok(channel_id),
            Method::QueuePurgeOk { message_count: _ } => self.receive_queue_purge_ok(channel_id),
            Method::QueueDeleteOk { message_count: _ } => self.receive_queue_delete_ok(channel_id),
            Method::QueueUnbindOk => self.receive_queue_unbind_ok(channel_id),
            Method::BasicQosOk => self.receive_basic_qos_ok(channel_id),
            Method::BasicConsumeOk { consumer_tag } => self.receive_basic_consume_ok(
                channel_id,
                consumer_tag,
            ),
            Method::BasicCancelOk { consumer_tag } => self.receive_basic_cancel_ok(
                channel_id,
                consumer_tag,
            ),
            Method::BasicDeliver { consumer_tag, delivery_tag, redelivered, exchange, routing_key } => self
                .receive_basic_deliver(
                channel_id,
                consumer_tag,
                delivery_tag,
                redelivered,
                exchange,
                routing_key,
            ),
            Method::BasicGetOk { delivery_tag, redelivered, exchange, routing_key, message_count } => self
                .receive_basic_get_ok(
                channel_id,
                delivery_tag,
                redelivered,
                exchange,
                routing_key,
                message_count,
            ),
            Method::BasicGetEmpty => self.receive_basic_get_empty(channel_id),
            Method::BasicRecoverOk => self.receive_basic_recover_ok(channel_id),
            Method::ConfirmSelectOk => self.receive_confirm_select_ok(channel_id),
            Method::BasicAck { delivery_tag, multiple } => self.receive_basic_ack(
                channel_id,
                delivery_tag,
                multiple,
            ),
            Method::BasicNack { delivery_tag, multiple, requeue } => self.receive_basic_nack(
                channel_id,
                delivery_tag,
                multiple,
                requeue,
            ),
            m => Err(Error::InvalidMethod(m)),
        }
    }

    /// The frame layer announced outbound content of `size` body bytes for
    /// a publish: the channel enters `SendingContent` until that many bytes
    /// are reported sent (immediately complete for an empty body).
    pub fn start_sending_content(&mut self, channel_id: u16, size: usize) -> (r: Result<(), Error>)
        requires
            old(self).wf(),
        ensures
            final(self).wf(),
            r is Err ==> *final(self) == *old(self),
            r is Ok <==> old(self).has_chan(channel_id) && old(self).chan(
                channel_id,
            ).state is Connected,
            !old(self).has_chan(channel_id) ==> r == Err::<(), Error>(
                Error::InvalidChannel(channel_id),
            ),
            old(self).has_chan(channel_id) && !(old(self).chan(channel_id).state is Connected)
                ==> r == Err::<(), Error>(Error::NotConnected),
            r is Ok ==> {
                &&& *final(self) == (Connection { channels: final(self).channels, ..*old(self) })
                &&& forall|id2: u16| (#[trigger] final(self).has_chan(id2)) == old(self).has_chan(
                    id2,
                )
                &&& channels_unchanged_except(*old(self), *final(self), channel_id)
                &&& size == 0 ==> final(self).chan(channel_id) == old(self).chan(channel_id)
                &&& size > 0 ==> final(self).chan(channel_id) == (Channel {
                    state: ChannelState::SendingContent(size),
                    ..old(self).chan(channel_id)
                })
            },
    {
        let i = match self.issuer_guard(channel_id) {
            Err(e) => {
                return Err(e);
            },
            Ok(i) => i,
        };
        if size > 0 {
            let ghost mid = *self;
            let slot = &mut self.channels[i];
            slot.state = ChannelState::SendingContent(size);
            proof {
                lemma_chan_lookup_update(mid, *self, channel_id, i as int);
                lemma_conn_wf_update(mid, *self, i as int);
            }
        }
        Ok(())
    }

    /// The frame layer reported `sent` body bytes on the wire: count them
    /// off the `SendingContent` state, returning to `Connected` at zero.
    pub fn notify_content_sent(&mut self, channel_id: u16, sent: usize) -> (r: Result<(), Error>)
        requires
            old(self).wf(),
        ensures
            final(self).wf(),
            r is Ok <==> old(self).has_chan(channel_id) && old(self).chan(
                channel_id,
            ).state is SendingContent && sent <= old(self).chan(
                channel_id,
            ).state->SendingContent_0,
            !old(self).has_chan(channel_id) ==> r == Err::<(), Error>(
                Error::InvalidChannel(channel_id),
            ) && *final(self) == *old(self),
            old(self).has_chan(channel_id) && !(old(self).chan(
                channel_id,
            ).state is SendingContent && sent <= old(self).chan(channel_id).state->SendingContent_0)
                ==> r == Err::<(), Error>(Error::UnexpectedAnswer) && error_transition(
                *old(self),
                *final(self),
                channel_id,
            ),
            r is Ok ==> {
                let remaining = old(self).chan(channel_id).state->SendingContent_0 - sent;
                &&& *final(self) == (Connection { channels: final(self).channels, ..*old(self) })
                &&& forall|id2: u16| (#[trigger] final(self).has_chan(id2)) == old(self).has_chan(
                    id2,
                )
                &&& channels_unchanged_except(*old(self), *final(self), channel_id)
                &&& final(self).chan(channel_id) == (Channel {
                    state: if remaining == 0 {
                        ChannelState::Connected
                    } else {
                        ChannelState::SendingContent(remaining as usize)
                    },
                    ..old(self).chan(channel_id)
                })
            },
    {
        let i = match self.find_channel(channel_id) {
            None => {
                return Err(Error::InvalidChannel(channel_id));
            },
            Some(i) => i,
        };
        proof {
            lemma_key_idx(self.channels@, channel_id);
        }
        let remaining_opt: Option<usize> = match &self.channels[i].state {
            ChannelState::SendingContent(n) => {
                if sent <= *n {
                    Some(*n - sent)
                } else {
                    None
                }
            },
            _ => None,
        };
        match remaining_opt {
            None => self.fail_unexpected(channel_id, i),
            Some(remaining) => {
                let ghost mid = *self;
                let slot = &mut self.channels[i];
                if remaining == 0 {
                    slot.state = ChannelState::Connected;
                } else {
                    slot.state = ChannelState::SendingContent(remaining);
                }
                proof {
                    lemma_chan_lookup_update(mid, *self, channel_id, i as int);
                    lemma_conn_wf_update(mid, *self, i as int);
                }
                Ok(())
            },
        }
    }

    /// A content header arrived for the message announced by
    /// `basic.deliver` or `basic.get-ok`: store its properties on the
    /// pending message and start counting `size` body bytes (an empty body
    /// completes at once).
    pub fn handle_content_header_frame(
        &mut self,
        channel_id: u16,
        size: usize,
        properties: AMQPProperties,
    ) -> (r: Result<(), Error>)
        requires
            old(self).wf(),
        ensures
            final(self).wf(),
            r is Ok <==> old(self).has_chan(channel_id) && old(self).chan(
                channel_id,
            ).state is WillReceiveContent,
            !old(self).has_chan(channel_id) ==> r == Err::<(), Error>(
                Error::InvalidChannel(channel_id),
            ) && *final(self) == *old(self),
            old(self).has_chan(channel_id) && !(old(self).chan(
                channel_id,
            ).state is WillReceiveContent) ==> r == Err::<(), Error>(Error::UnexpectedAnswer)
                && error_transition(*old(self), *final(self), channel_id),
            r is Ok ==> {
                let c0 = old(self).chan(channel_id);
                let c1 = final(self).chan(channel_id);
                &&& *final(self) == (Connection { channels: final(self).channels, ..*old(self) })
                &&& forall|id2: u16| (#[trigger] final(self).has_chan(id2)) == old(self).has_chan(
                    id2,
                )
                &&& channels_unchanged_except(*old(self), *final(self), channel_id)
                &&& c1 == (Channel { state: c1.state, queues: c1.queues, ..c0 })
                &&& size > 0 ==> c1.state == ChannelState::ReceivingContent(
                    c0.state->WillReceiveContent_0,
                    c0.state->WillReceiveContent_1,
                    size,
                )
                &&& size == 0 ==> c1.state is Connected
                &&& queues_unchanged_except(c0, c1, c0.state->WillReceiveContent_0@)
                &&& {
                    let qn = c0.state->WillReceiveContent_0@;
                    let t = c0.state->WillReceiveContent_1;
                    &&& (c0.has_queue(qn) && t is Some && c0.queue(qn).has_consumer(t->Some_0@)
                        && c0.queue(qn).consumer(t->Some_0@).current_message is Some) ==> {
                        let oldc = c0.queue(qn).consumer(t->Some_0@);
                        let newc = c1.queue(qn).consumer(t->Some_0@);
                        &&& c1.queue(qn).has_consumer(t->Some_0@)
                        &&& size > 0 ==> newc == (Consumer {
                            current_message: Some(
                                (Delivery { properties, ..oldc.current_message->Some_0 }),
                            ),
                            ..oldc
                        })
                        &&& size == 0 ==> {
                            &&& newc.current_message is None
                            &&& newc.deliveries@ == oldc.deliveries@.push(
                                (Delivery { properties, ..oldc.current_message->Some_0 }),
                            )
                        }
                    }
                    &&& (c0.has_queue(qn) && t is None
                        && c0.queue(qn).current_get_message is Some) ==> c1.queue(
                        qn,
                    ).current_get_message == Some(
                        (BasicGetMessage {
                            delivery: (Delivery {
                                properties,
                                ..c0.queue(qn).current_get_message->Some_0.delivery
                            }),
                            ..c0.queue(qn).current_get_message->Some_0
                        }),
                    )
                }
            },
    {
        let i = match self.find_channel(channel_id) {
            None => {
                return Err(Error::InvalidChannel(channel_id));
            },
            Some(i) => i,
        };
        proof {
            lemma_key_idx(self.channels@, channel_id);
        }
        let pending: Option<(String, Option<String>)> = match &self.channels[i].state {
            ChannelState::WillReceiveContent(q, t) => {
                let tag = match t {
                    Some(x) => Some(x.clone()),
                    None => None,
                };
                Some((q.clone(), tag))
            },
            _ => None,
        };
        match pending {
            None => self.fail_unexpected(channel_id, i),
            Some((queue, tag)) => {
                let ghost mid = *self;
                let slot = &mut self.channels[i];
                slot.set_content_properties(&queue, &tag, properties);
                if size == 0 {
                    slot.finish_content(&queue, &tag);
                    slot.state = ChannelState::Connected;
                } else {
                    slot.state = ChannelState::ReceivingContent(queue, tag, size);
                }
                proof {
                    lemma_chan_lookup_update(mid, *self, channel_id, i as int);
                    lemma_conn_wf_update(mid, *self, i as int);
                }
                Ok(())
            },
        }
    }

    /// A body chunk arrived for the message being received: append it to
    /// the pending delivery or `basic.get` reply and count its bytes off
    /// the announced size; at zero the message is complete (a consumer's
    /// delivery moves to its buffer) and the channel returns to
    /// `Connected`.
    pub fn handle_body_frame(&mut self, channel_id: u16, payload: Vec<u8>) -> (r: Result<(), Error>)
        requires
            old(self).wf(),
        ensures
            final(self).wf(),
            r is Ok <==> old(self).has_chan(channel_id) && old(self).chan(
                channel_id,
            ).state is ReceivingContent && payload@.len() <= old(self).chan(
                channel_id,
            ).state->ReceivingContent_2,
            !old(self).has_chan(channel_id) ==> r == Err::<(), Error>(
                Error::InvalidChannel(channel_id),
            ) && *final(self) == *old(self),
            old(self).has_chan(channel_id) && !(old(self).chan(
                channel_id,
            ).state is ReceivingContent && payload@.len() <= old(self).chan(
                channel_id,
            ).state->ReceivingContent_2) ==> r == Err::<(), Error>(Error::UnexpectedAnswer)
                && error_transition(*old(self), *final(self), channel_id),
            r is Ok ==> {
                let c0 = old(self).chan(channel_id);
                let c1 = final(self).chan(channel_id);
                let remaining = c0.state->ReceivingContent_2 - payload@.len();
                &&& *final(self) == (Connection { channels: final(self).channels, ..*old(self) })
                &&& forall|id2: u16| (#[trigger] final(self).has_chan(id2)) == old(self).has_chan(
                    id2,
                )
                &&& channels_unchanged_except(*old(self), *final(self), channel_id)
                &&& c1 == (Channel { state: c1.state, queues: c1.queues, ..c0 })
                &&& remaining > 0 ==> c1.state == ChannelState::ReceivingContent(
                    c0.state->ReceivingContent_0,
                    c0.state->ReceivingContent_1,
                    remaining as usize,
                )
                &&& remaining == 0 ==> c1.state is Connected
                &&& queues_unchanged_except(c0, c1, c0.state->ReceivingContent_0@)
                &&& {
                    let qn = c0.state->ReceivingContent_0@;
                    let t = c0.state->ReceivingContent_1;
                    &&& (c0.has_queue(qn) && t is Some && c0.queue(qn).has_consumer(t->Some_0@)
                        && c0.queue(qn).consumer(t->Some_0@).current_message is Some) ==> {
                        let oldc = c0.queue(qn).consumer(t->Some_0@);
                        let newc = c1.queue(qn).consumer(t->Some_0@);
                        &&& c1.queue(qn).has_consumer(t->Some_0@)
                        &&& remaining > 0 ==> {
                            &&& newc.current_message is Some
                            &&& newc.current_message->Some_0 == (Delivery {
                                data: newc.current_message->Some_0.data,
                                ..oldc.current_message->Some_0
                            })
                            &&& newc.current_message->Some_0.data@
                                == oldc.current_message->Some_0.data@ + payload@
                        }
                        &&& remaining == 0 ==> {
                            &&& newc.current_message is None
                            &&& newc.deliveries@.len() == oldc.deliveries@.len() + 1
                            &&& forall|di: int|
                                0 <= di < oldc.deliveries@.len()
                                    ==> #[trigger] newc.deliveries@[di] == oldc.deliveries@[di]
                            &&& newc.deliveries@.last() == (Delivery {
                                data: newc.deliveries@.last().data,
                                ..oldc.current_message->Some_0
                            })
                            &&& newc.deliveries@.last().data@
                                == oldc.current_message->Some_0.data@ + payload@
                        }
                    }
                    &&& (c0.has_queue(qn) && t is None
                        && c0.queue(qn).current_get_message is Some) ==> {
                        let oldm = c0.queue(qn).current_get_message->Some_0;
                        let newm = c1.queue(qn).current_get_message->Some_0;
                        &&& c1.queue(qn).current_get_message is Some
                        &&& newm == (BasicGetMessage {
                            delivery: (Delivery { data: newm.delivery.data, ..oldm.delivery }),
                            ..oldm
                        })
                        &&& newm.delivery.data@ == oldm.delivery.data@ + payload@
                    }
                }
            },
    {
        let i = match self.find_channel(channel_id) {
            None => {
                return Err(Error::InvalidChannel(channel_id));
            },
            Some(i) => i,
        };
        proof {
            lemma_key_idx(self.channels@, channel_id);
        }
        let pending: Option<(String, Option<String>, usize)> = match &self.channels[i].state {
            ChannelState::ReceivingContent(q, t, n) => {
                if payload.len() <= *n {
                    let tag = match t {
                        Some(x) => Some(x.clone()),
                        None => None,
                    };
                    Some((q.clone(), tag, *n - payload.len()))
                } else {
                    None
                }
            },
            _ => None,
        };
        match pending {
            None => self.fail_unexpected(channel_id, i),
            Some((queue, tag, remaining)) => {
                let ghost mid = *self;
                let slot = &mut self.channels[i];
                slot.append_content(&queue, &tag, payload);
                if remaining == 0 {
                    slot.finish_content(&queue, &tag);
                    slot.state = ChannelState::Connected;
                } else {
                    slot.state = ChannelState::ReceivingContent(queue, tag, remaining);
                }
                proof {
                    lemma_chan_lookup_update(mid, *self, channel_id, i as int);
                    lemma_conn_wf_update(mid, *self, i as int);
                }
                Ok(())
            },
        }
    }
}

} // verus!
