//! One AMQP channel: its state, the FIFO of expected replies, its queue
//! shadows, and its publisher-confirm bookkeeping.

use vstd::prelude::*;

use crate::keyed::{Keyed, has_key, key_idx, keys_unique, lemma_key_idx, lemma_key_idx_is,
    lemma_key_idx_push, lemma_key_idx_remove, lemma_key_idx_same_keys, lookup};
use crate::consumer::Consumer;
use crate::message::{BasicGetMessage, Delivery};
use amq_protocol::protocol::basic::AMQPProperties;
use crate::queue::{Binding, Queue, bindings_unchanged_except, consumers_unchanged_except};
use crate::tags::{tag_range, tags_append, tags_insert, tags_le, tags_remove, tags_take_le};
use crate::RequestId;

verus! {

/// The lifecycle of a channel. `Initial` until `channel.open-ok`;
/// `Connected` while usable; `Closed` and `Error` are terminal. The content
/// sub-states carry the queue (and consumer tag, for deliveries) a message
/// transfer belongs to and the number of body bytes still outstanding.
#[derive(Debug, Clone, PartialEq, Eq)]
pub enum ChannelState {
    Initial,
    Connected,
    Closed,
    Error,
    SendingContent(usize),
    WillReceiveContent(String, Option<String>),
    ReceivingContent(String, Option<String>, usize),
}

impl ChannelState {
    pub fn is_connected(&self) -> (r: bool)
        ensures
            r == (self is Connected),
    {
        matches!(self, ChannelState::Connected)
    }

    pub fn is_initial(&self) -> (r: bool)
        ensures
            r == (self is Initial),
    {
        matches!(self, ChannelState::Initial)
    }
}

/// One expected reply: every client request that awaits a broker reply
/// pushes the matching variant, carrying the request id and whatever context
/// the reply handler will need.
#[derive(Debug, Clone, PartialEq)]
pub enum Answer {
    AwaitingChannelOpenOk(RequestId),
    AwaitingChannelFlowOk(RequestId),
    AwaitingChannelCloseOk(RequestId),
    AwaitingAccessRequestOk(RequestId),
    AwaitingExchangeDeclareOk(RequestId),
    AwaitingExchangeDeleteOk(RequestId),
    AwaitingExchangeBindOk(RequestId),
    AwaitingExchangeUnbindOk(RequestId),
    AwaitingQueueDeclareOk(RequestId),
    AwaitingQueueBindOk(RequestId, String, String),
    AwaitingQueuePurgeOk(RequestId, String),
    AwaitingQueueDeleteOk(RequestId, String),
    AwaitingQueueUnbindOk(RequestId, String, String),
    AwaitingBasicQosOk(RequestId, u32, u16, bool),
    AwaitingBasicConsumeOk(RequestId, String, String, bool, bool, bool, bool),
    AwaitingBasicCancelOk(RequestId),
    AwaitingBasicGetAnswer(RequestId, String),
    AwaitingBasicRecoverOk(RequestId),
    AwaitingConfirmSelectOk(RequestId),
    AwaitingPublishConfirm(RequestId),
}

impl Answer {
    /// The request id this expected reply belongs to.
    pub open spec fn request_id(self) -> RequestId {
        match self {
            Answer::AwaitingChannelOpenOk(r) => r,
            Answer::AwaitingChannelFlowOk(r) => r,
            Answer::AwaitingChannelCloseOk(r) => r,
            Answer::AwaitingAccessRequestOk(r) => r,
            Answer::AwaitingExchangeDeclareOk(r) => r,
            Answer::AwaitingExchangeDeleteOk(r) => r,
            Answer::AwaitingExchangeBindOk(r) => r,
            Answer::AwaitingExchangeUnbindOk(r) => r,
            Answer::AwaitingQueueDeclareOk(r) => r,
            Answer::AwaitingQueueBindOk(r, _, _) => r,
            Answer::AwaitingQueuePurgeOk(r, _) => r,
            Answer::AwaitingQueueDeleteOk(r, _) => r,
            Answer::AwaitingQueueUnbindOk(r, _, _) => r,
            Answer::AwaitingBasicQosOk(r, _, _, _) => r,
            Answer::AwaitingBasicConsumeOk(r, _, _, _, _, _, _) => r,
            Answer::AwaitingBasicCancelOk(r) => r,
            Answer::AwaitingBasicGetAnswer(r, _) => r,
            Answer::AwaitingBasicRecoverOk(r) => r,
            Answer::AwaitingConfirmSelectOk(r) => r,
            Answer::AwaitingPublishConfirm(r) => r,
        }
    }
}

/// One channel of a connection.
#[derive(Debug, Clone, PartialEq)]
pub struct Channel {
    pub id: u16,
    pub state: ChannelState,
    /// Expected replies, oldest first; AMQP replies in issuance order.
    pub awaiting: Vec<Answer>,
    /// May we push publishes? Set by the broker's `channel.flow`.
    pub send_flow: bool,
    /// Did the peer confirm our `channel.flow` with `flow-ok`?
    pub receive_flow: bool,
    pub queues: Vec<Queue>,
    pub prefetch_size: u32,
    pub prefetch_count: u16,
    /// Publisher confirms enabled (`confirm.select-ok` seen)?
    pub confirm: bool,
    /// The next delivery tag a confirmed publish will use; 1 when confirms
    /// are switched on.
    pub message_count: u64,
    /// Published tags the broker has not confirmed yet.
    pub unacked: Vec<u64>,
    /// Published tags the broker acked.
    pub acked: Vec<u64>,
    /// Published tags the broker nacked.
    pub nacked: Vec<u64>,
}

impl Keyed for Channel {
    type Key = u16;

    open spec fn key(&self) -> u16 {
        self.id
    }
}

/// Lookups for every queue name other than `name` agree between `a` and `b`.
pub open spec fn queues_unchanged_except(a: Channel, b: Channel, name: Seq<char>) -> bool {
    &&& forall|n2: Seq<char>|
        n2 != name ==> (#[trigger] has_key(b.queues@, n2)) == has_key(a.queues@, n2)
    &&& forall|n2: Seq<char>|
        n2 != name && has_key(a.queues@, n2) ==> (#[trigger] lookup(b.queues@, n2)) == lookup(
            a.queues@,
            n2,
        )
}

/// Replacing the queue at `i` (whose name is `name`) with one that again
/// carries `name` leaves every other lookup alone.
pub proof fn lemma_chqueue_update_unchanged_except(a: Channel, b: Channel, i: int, name: Seq<char>)
    requires
        0 <= i < a.queues@.len(),
        b.queues@.len() == a.queues@.len(),
        a.queues@[i].key() == name,
        b.queues@[i].key() == name,
        forall|j: int| 0 <= j < a.queues@.len() && j != i ==> b.queues@[j] == a.queues@[j],
    ensures
        queues_unchanged_except(a, b, name),
{
    assert forall|n2: Seq<char>| n2 != name implies (#[trigger] has_key(b.queues@, n2)) == has_key(
        a.queues@,
        n2,
    ) by {
        lemma_key_idx_same_keys(a.queues@, b.queues@, n2);
    }
    assert forall|n2: Seq<char>| n2 != name && has_key(a.queues@, n2) implies (#[trigger] lookup(
        b.queues@,
        n2,
    )) == lookup(a.queues@, n2) by {
        lemma_key_idx_same_keys(a.queues@, b.queues@, n2);
        lemma_key_idx(a.queues@, n2);
    }
}

impl Channel {
    /// The union of all confirm bookkeeping sets.
    pub open spec fn tags_union(self) -> Set<u64> {
        self.unacked@.to_set().union(self.acked@.to_set()).union(self.nacked@.to_set())
    }

    /// Internal consistency of a channel: queues form a directory of
    /// well-formed shadows, and with confirms on, the three tag sets are
    /// duplicate-free, pairwise disjoint, and together hold exactly the tags
    /// handed out so far.
    pub open spec fn wf(self) -> bool {
        &&& keys_unique(self.queues@)
        &&& forall|i: int| 0 <= i < self.queues@.len() ==> (#[trigger] self.queues@[i]).wf()
        &&& self.unacked@.no_duplicates()
        &&& self.acked@.no_duplicates()
        &&& self.nacked@.no_duplicates()
        &&& self.unacked@.to_set().disjoint(self.acked@.to_set())
        &&& self.unacked@.to_set().disjoint(self.nacked@.to_set())
        &&& self.acked@.to_set().disjoint(self.nacked@.to_set())
        &&& self.confirm ==> self.message_count >= 1 && self.tags_union() == tag_range(
            self.message_count,
        )
        &&& !self.confirm ==> self.unacked@.len() == 0 && self.acked@.len() == 0
            && self.nacked@.len() == 0
    }

    pub open spec fn has_queue(self, name: Seq<char>) -> bool {
        has_key(self.queues@, name)
    }

    pub open spec fn queue(self, name: Seq<char>) -> Queue {
        lookup(self.queues@, name)
    }

    /// A fresh channel, inserted by the connection in state `Initial`.
    pub fn new(id: u16) -> (r: Channel)
        ensures
            r == (Channel {
                id,
                state: ChannelState::Initial,
                awaiting: r.awaiting,
                send_flow: true,
                receive_flow: true,
                queues: r.queues,
                prefetch_size: 0,
                prefetch_count: 0,
                confirm: false,
                message_count: 0,
                unacked: r.unacked,
                acked: r.acked,
                nacked: r.nacked,
            }),
            r.awaiting@ == Seq::<Answer>::empty(),
            r.queues@ == Seq::<Queue>::empty(),
            r.unacked@ == Seq::<u64>::empty(),
            r.acked@ == Seq::<u64>::empty(),
            r.nacked@ == Seq::<u64>::empty(),
            r.wf(),
    {
        Channel {
            id,
            state: ChannelState::Initial,
            awaiting: Vec::new(),
            send_flow: true,
            receive_flow: true,
            queues: Vec::new(),
            prefetch_size: 0,
            prefetch_count: 0,
            confirm: false,
            message_count: 0,
            unacked: Vec::new(),
            acked: Vec::new(),
            nacked: Vec::new(),
        }
    }

    /// Index of the queue shadow named `name`, if one exists.
    #[verifier::loop_isolation(false)]
    pub(crate) fn find_queue(&self, name: &String) -> (r: Option<usize>)
        ensures
            match r {
                Some(i) => 0 <= i < self.queues@.len() && key_idx(self.queues@, name@) == i,
                None => !self.has_queue(name@),
            },
    {
        let mut i: usize = 0;
        while i < self.queues.len()
            invariant
                0 <= i <= self.queues@.len(),
                forall|j: int| 0 <= j < i ==> (#[trigger] self.queues@[j]).key() != name@,
            decreases self.queues@.len() - i,
        {
            if self.queues[i].name == *name {
                proof {
                    lemma_key_idx_is(self.queues@, name@, i as int);
                }
                return Some(i);
            }
            i += 1;
        }
        proof {
            lemma_key_idx(self.queues@, name@);
        }
        None
    }

    /// Insert the shadow of a queue the broker confirmed with
    /// `queue.declare-ok`, replacing any previous shadow of the same name.
    pub fn upsert_queue(&mut self, queue: Queue)
        requires
            old(self).wf(),
            queue.wf(),
        ensures
            final(self).wf(),
            *final(self) == (Channel { queues: final(self).queues, ..*old(self) }),
            final(self).has_queue(queue.name@),
            final(self).queue(queue.name@) == queue,
            queues_unchanged_except(*old(self), *final(self), queue.name@),
    {
        let ghost name = queue.name@;
        let ghost s0 = self.queues@;
        let found = self.find_queue(&queue.name);
        match found {
            Some(i) => {
                let slot = &mut self.queues[i];
                *slot = queue;
                proof {
                    lemma_key_idx(s0, name);
                    lemma_key_idx_same_keys(s0, self.queues@, name);
                    lemma_chqueue_update_unchanged_except(*old(self), *self, i as int, name);
                }
            },
            None => {
                proof {
                    lemma_key_idx(s0, name);
                }
                self.queues.push(queue);
                proof {
                    let ghost s1 = self.queues@;
                    lemma_key_idx_push(s0, queue, name);
                    assert forall|n2: Seq<char>| n2 != name implies (#[trigger] has_key(s1, n2))
                        == has_key(s0, n2) by {
                        lemma_key_idx_push(s0, queue, n2);
                    }
                    assert forall|n2: Seq<char>| n2 != name && has_key(s0, n2) implies (
                    #[trigger] lookup(s1, n2)) == lookup(s0, n2) by {
                        lemma_key_idx_push(s0, queue, n2);
                        lemma_key_idx(s0, n2);
                    }
                    assert forall|i2: int, j2: int| 0 <= i2 < j2 < s1.len() implies (
                    #[trigger] s1[i2]).key() != (#[trigger] s1[j2]).key() by {
                        if j2 == s0.len() {
                            assert(s1[j2] == queue);
                            assert(s1[i2] == s0[i2]);
                        }
                    }
                }
            },
        }
    }

    /// Drop the shadow of a deleted queue (the effect of `queue.delete-ok`).
    pub fn remove_queue(&mut self, name: &String)
        requires
            old(self).wf(),
        ensures
            final(self).wf(),
            *final(self) == (Channel { queues: final(self).queues, ..*old(self) }),
            !final(self).has_queue(name@),
            queues_unchanged_except(*old(self), *final(self), name@),
    {
        let ghost s0 = self.queues@;
        let found = self.find_queue(name);
        match found {
            Some(i) => {
                self.queues.remove(i);
                proof {
                    let ghost s1 = self.queues@;
                    lemma_key_idx(s0, name@);
                    assert forall|i2: int, j2: int| 0 <= i2 < j2 < s1.len() implies (
                    #[trigger] s1[i2]).key() != (#[trigger] s1[j2]).key() by {
                        let a2 = if i2 < i as int {
                            i2
                        } else {
                            i2 + 1
                        };
                        let b2 = if j2 < i as int {
                            j2
                        } else {
                            j2 + 1
                        };
                        assert(s1[i2] == s0[a2]);
                        assert(s1[j2] == s0[b2]);
                    }
                    assert forall|n2: Seq<char>| n2 != name@ implies (#[trigger] has_key(s1, n2))
                        == has_key(s0, n2) by {
                        lemma_key_idx_remove(s0, i as int, n2);
                    }
                    assert forall|n2: Seq<char>| n2 != name@ && has_key(s0, n2) implies (
                    #[trigger] lookup(s1, n2)) == lookup(s0, n2) by {
                        lemma_key_idx_remove(s0, i as int, n2);
                    }
                    assert(!has_key(s1, name@)) by {
                        lemma_key_idx_remove(s0, i as int, name@);
                    }
                }
            },
            None => {},
        }
    }
}


/// Index of the first queue of `qs` holding a consumer with `tag`, or -1.
pub open spec fn queue_with(qs: Seq<Queue>, tag: Seq<char>) -> int
    decreases qs.len(),
{
    if qs.len() == 0 {
        -1
    } else if qs.first().has_consumer(tag) {
        0
    } else {
        let r = queue_with(qs.drop_first(), tag);
        if r < 0 {
            -1
        } else {
            r + 1
        }
    }
}

/// What `queue_with` returns: a valid index of a queue holding `tag`, with
/// no earlier queue holding it, or -1 when none does.
pub proof fn lemma_queue_with(qs: Seq<Queue>, tag: Seq<char>)
    ensures
        queue_with(qs, tag) >= -1,
        queue_with(qs, tag) < qs.len(),
        queue_with(qs, tag) == -1 ==> forall|i: int|
            0 <= i < qs.len() ==> !(#[trigger] qs[i]).has_consumer(tag),
        queue_with(qs, tag) >= 0 ==> qs[queue_with(qs, tag)].has_consumer(tag),
        queue_with(qs, tag) >= 0 ==> forall|i: int|
            0 <= i < queue_with(qs, tag) ==> !(#[trigger] qs[i]).has_consumer(tag),
    decreases qs.len(),
{
    if qs.len() > 0 && !qs.first().has_consumer(tag) {
        lemma_queue_with(qs.drop_first(), tag);
        assert forall|i: int|
            0 <= i < qs.len() && queue_with(qs, tag) == -1 implies !(#[trigger] qs[i]).has_consumer(
            tag,
        ) by {
            if i > 0 {
                assert(qs.drop_first()[i - 1] == qs[i]);
            }
        }
        if queue_with(qs, tag) >= 0 {
            assert(qs.drop_first()[queue_with(qs, tag) - 1] == qs[queue_with(qs, tag)]);
            assert forall|i: int| 0 <= i < queue_with(qs, tag) implies !(
            #[trigger] qs[i]).has_consumer(tag) by {
                if i > 0 {
                    assert(qs.drop_first()[i - 1] == qs[i]);
                }
            }
        }
    }
}

/// If `qs[i]` holds `tag` and no earlier queue does, `queue_with` finds `i`.
pub proof fn lemma_queue_with_is(qs: Seq<Queue>, tag: Seq<char>, i: int)
    requires
        0 <= i < qs.len(),
        qs[i].has_consumer(tag),
        forall|j: int| 0 <= j < i ==> !(#[trigger] qs[j]).has_consumer(tag),
    ensures
        queue_with(qs, tag) == i,
    decreases qs.len(),
{
    if i > 0 {
        assert forall|j: int| 0 <= j < i - 1 implies !(#[trigger] qs.drop_first()[j]).has_consumer(
            tag,
        ) by {
            assert(qs.drop_first()[j] == qs[j + 1]);
        }
        assert(qs.drop_first()[i - 1] == qs[i]);
        lemma_queue_with_is(qs.drop_first(), tag, i - 1);
    }
}

impl Channel {
    /// Record the not-yet-active binding a `queue.bind` announces on the
    /// named queue, if the queue has a shadow.
    pub fn upsert_queue_binding(
        &mut self,
        queue: &String,
        exchange: String,
        routing_key: String,
        nowait: bool,
    )
        requires
            old(self).wf(),
        ensures
            final(self).wf(),
            *final(self) == (Channel { queues: final(self).queues, ..*old(self) }),
            forall|n: Seq<char>| (#[trigger] final(self).has_queue(n)) == old(self).has_queue(n),
            queues_unchanged_except(*old(self), *final(self), queue@),
            !old(self).has_queue(queue@) ==> *final(self) == *old(self),
            old(self).has_queue(queue@) ==> final(self).queue(queue@) == (Queue {
                bindings: final(self).queue(queue@).bindings,
                ..old(self).queue(queue@)
            }),
            old(self).has_queue(queue@) ==> final(self).queue(queue@).has_binding(
                (exchange@, routing_key@),
            ),
            old(self).has_queue(queue@) ==> final(self).queue(queue@).binding(
                (exchange@, routing_key@),
            ) == (Binding { exchange, routing_key, nowait, active: false }),
            old(self).has_queue(queue@) ==> bindings_unchanged_except(
                old(self).queue(queue@),
                final(self).queue(queue@),
                (exchange@, routing_key@),
            ),
    {
        let ghost s0 = self.queues@;
        let found = self.find_queue(queue);
        match found {
            Some(i) => {
                let slot = &mut self.queues[i];
                slot.upsert_binding(exchange, routing_key, nowait);
                proof {
                    lemma_key_idx(s0, queue@);
                    lemma_key_idx_same_keys(s0, self.queues@, queue@);
                    lemma_chqueue_update_unchanged_except(*old(self), *self, i as int, queue@);
                    assert forall|n: Seq<char>| (#[trigger] has_key(self.queues@, n)) == has_key(
                        s0,
                        n,
                    ) by {
                        lemma_key_idx_same_keys(s0, self.queues@, n);
                    }
                }
            },
            None => {
                proof {
                    assert forall|n: Seq<char>| (#[trigger] has_key(self.queues@, n)) == has_key(
                        s0,
                        n,
                    ) by {}
                }
            },
        }
    }

    /// Mark the binding `(exchange, routing_key)` active on every queue of
    /// the channel (the effect of `queue.bind-ok`).
    #[verifier::loop_isolation(false)]
    pub fn set_binding_active_all(&mut self, exchange: &String, routing_key: &String)
        requires
            old(self).wf(),
        ensures
            final(self).wf(),
            *final(self) == (Channel { queues: final(self).queues, ..*old(self) }),
            final(self).queues@.len() == old(self).queues@.len(),
            forall|qi: int|
                0 <= qi < old(self).queues@.len() ==> #[trigger] final(self).queues@[qi] == (Queue {
                    bindings: final(self).queues@[qi].bindings,
                    ..old(self).queues@[qi]
                }),
            forall|qi: int|
                0 <= qi < old(self).queues@.len() ==> (#[trigger] final(self).queues@[qi].has_binding((exchange@, routing_key@))) == old(self).queues@[qi].has_binding((exchange@, routing_key@)),
            forall|qi: int|
                0 <= qi < old(self).queues@.len() && old(self).queues@[qi].has_binding(
                    (exchange@, routing_key@),
                ) ==> (#[trigger] final(self).queues@[qi].binding((exchange@, routing_key@)))
                    == (Binding {
                    active: true,
                    ..old(self).queues@[qi].binding((exchange@, routing_key@))
                }),
            forall|qi: int|
                0 <= qi < old(self).queues@.len() ==> #[trigger] bindings_unchanged_except(
                    old(self).queues@[qi],
                    final(self).queues@[qi],
                    (exchange@, routing_key@),
                ),
    {
        let n = self.queues.len();
        let mut i: usize = 0;
        while i < n
            invariant
                self.queues@.len() == n,
                0 <= i <= n,
                *self == (Channel { queues: self.queues, ..*old(self) }),
                forall|j: int| i <= j < n ==> self.queues@[j] == old(self).queues@[j],
                forall|j: int| 0 <= j < n ==> (#[trigger] self.queues@[j]).wf(),
                forall|j: int|
                    0 <= j < i ==> #[trigger] self.queues@[j] == (Queue {
                        bindings: self.queues@[j].bindings,
                        ..old(self).queues@[j]
                    }),
                forall|j: int|
                    0 <= j < i ==> (#[trigger] self.queues@[j].has_binding(
                        (exchange@, routing_key@),
                    )) == old(self).queues@[j].has_binding((exchange@, routing_key@)),
                forall|j: int|
                    0 <= j < i && old(self).queues@[j].has_binding((exchange@, routing_key@))
                        ==> (#[trigger] self.queues@[j].binding((exchange@, routing_key@)))
                        == (Binding {
                        active: true,
                        ..old(self).queues@[j].binding((exchange@, routing_key@))
                    }),
                forall|j: int|
                    0 <= j < i ==> #[trigger] bindings_unchanged_except(
                        old(self).queues@[j],
                        self.queues@[j],
                        (exchange@, routing_key@),
                    ),
            decreases n - i,
        {
            let slot = &mut self.queues[i];
            slot.set_binding_active(exchange, routing_key);
            i += 1;
        }
        proof {
            lemma_key_idx_same_keys(old(self).queues@, self.queues@, Seq::<char>::empty());
        }
    }

    /// Remove the binding `(exchange, routing_key)` from every queue of the
    /// channel (the effect of `queue.unbind-ok`).
    #[verifier::loop_isolation(false)]
    pub fn remove_binding_all(&mut self, exchange: &String, routing_key: &String)
        requires
            old(self).wf(),
        ensures
            final(self).wf(),
            *final(self) == (Channel { queues: final(self).queues, ..*old(self) }),
            final(self).queues@.len() == old(self).queues@.len(),
            forall|qi: int|
                0 <= qi < old(self).queues@.len() ==> #[trigger] final(self).queues@[qi] == (Queue {
                    bindings: final(self).queues@[qi].bindings,
                    ..old(self).queues@[qi]
                }),
            forall|qi: int|
                0 <= qi < old(self).queues@.len() ==> !(#[trigger] final(self).queues@[qi].has_binding((exchange@, routing_key@))),
            forall|qi: int|
                0 <= qi < old(self).queues@.len() ==> #[trigger] bindings_unchanged_except(
                    old(self).queues@[qi],
                    final(self).queues@[qi],
                    (exchange@, routing_key@),
                ),
    {
        let n = self.queues.len();
        let mut i: usize = 0;
        while i < n
            invariant
                self.queues@.len() == n,
                0 <= i <= n,
                *self == (Channel { queues: self.queues, ..*old(self) }),
                forall|j: int| i <= j < n ==> self.queues@[j] == old(self).queues@[j],
                forall|j: int| 0 <= j < n ==> (#[trigger] self.queues@[j]).wf(),
                forall|j: int|
                    0 <= j < i ==> #[trigger] self.queues@[j] == (Queue {
                        bindings: self.queues@[j].bindings,
                        ..old(self).queues@[j]
                    }),
                forall|j: int|
                    0 <= j < i ==> !(#[trigger] self.queues@[j].has_binding(
                        (exchange@, routing_key@),
                    )),
                forall|j: int|
                    0 <= j < i ==> #[trigger] bindings_unchanged_except(
                        old(self).queues@[j],
                        self.queues@[j],
                        (exchange@, routing_key@),
                    ),
            decreases n - i,
        {
            let slot = &mut self.queues[i];
            slot.remove_binding(exchange, routing_key);
            i += 1;
        }
        proof {
            lemma_key_idx_same_keys(old(self).queues@, self.queues@, Seq::<char>::empty());
        }
    }

    /// How many queues of `qs` hold a consumer with `tag`.
    pub open spec fn consumer_count_in(qs: Seq<Queue>, tag: Seq<char>) -> int
        decreases qs.len(),
    {
        if qs.len() == 0 {
            0
        } else {
            Self::consumer_count_in(qs.drop_last(), tag) + if qs.last().has_consumer(tag) {
                1int
            } else {
                0int
            }
        }
    }

    /// Remove the consumer with `tag` from every queue of the channel (the
    /// effect of `basic.cancel-ok`); say from how many queues it vanished.
    #[verifier::loop_isolation(false)]
    pub fn remove_consumer_all(&mut self, tag: &String) -> (removed: usize)
        requires
            old(self).wf(),
        ensures
            final(self).wf(),
            *final(self) == (Channel { queues: final(self).queues, ..*old(self) }),
            final(self).queues@.len() == old(self).queues@.len(),
            forall|qi: int|
                0 <= qi < old(self).queues@.len() ==> #[trigger] final(self).queues@[qi] == (Queue {
                    consumers: final(self).queues@[qi].consumers,
                    ..old(self).queues@[qi]
                }),
            forall|qi: int|
                0 <= qi < old(self).queues@.len() ==> !(#[trigger] final(self).queues@[qi].has_consumer(tag@)),
            forall|qi: int|
                0 <= qi < old(self).queues@.len() ==> #[trigger] consumers_unchanged_except(
                    old(self).queues@[qi],
                    final(self).queues@[qi],
                    tag@,
                ),
            removed == Self::consumer_count_in(old(self).queues@, tag@),
    {
        let n = self.queues.len();
        let mut i: usize = 0;
        let mut removed: usize = 0;
        while i < n
            invariant
                self.queues@.len() == n,
                0 <= i <= n,
                removed <= i,
                *self == (Channel { queues: self.queues, ..*old(self) }),
                forall|j: int| i <= j < n ==> self.queues@[j] == old(self).queues@[j],
                forall|j: int| 0 <= j < n ==> (#[trigger] self.queues@[j]).wf(),
                forall|j: int|
                    0 <= j < i ==> #[trigger] self.queues@[j] == (Queue {
                        consumers: self.queues@[j].consumers,
                        ..old(self).queues@[j]
                    }),
                forall|j: int|
                    0 <= j < i ==> !(#[trigger] self.queues@[j].has_consumer(tag@)),
                forall|j: int|
                    0 <= j < i ==> #[trigger] consumers_unchanged_except(
                        old(self).queues@[j],
                        self.queues@[j],
                        tag@,
                    ),
                removed == Self::consumer_count_in(old(self).queues@.subrange(0, i as int), tag@),
            decreases n - i,
        {
            let slot = &mut self.queues[i];
            let did = slot.remove_consumer(tag);
            if did {
                removed += 1;
            }
            proof {
                let pre = old(self).queues@.subrange(0, i as int);
                let post = old(self).queues@.subrange(0, i as int + 1);
                assert(post.drop_last() == pre);
                assert(post.last() == old(self).queues@[i as int]);
            }
            i += 1;
        }
        proof {
            assert(old(self).queues@.subrange(0, n as int) == old(self).queues@);
            lemma_key_idx_same_keys(old(self).queues@, self.queues@, Seq::<char>::empty());
        }
        removed
    }

    /// Forget every buffered message of every consumer on the channel.
    #[verifier::loop_isolation(false)]
    pub fn drop_prefetched_messages(&mut self)
        requires
            old(self).wf(),
        ensures
            final(self).wf(),
            *final(self) == (Channel { queues: final(self).queues, ..*old(self) }),
            final(self).queues@.len() == old(self).queues@.len(),
            forall|qi: int|
                0 <= qi < old(self).queues@.len() ==> #[trigger] final(self).queues@[qi] == (Queue {
                    consumers: final(self).queues@[qi].consumers,
                    ..old(self).queues@[qi]
                }),
            forall|qi: int|
                0 <= qi < old(self).queues@.len() ==> (#[trigger] final(self).queues@[qi].consumers@.len()) == old(self).queues@[qi].consumers@.len(),
            forall|qi: int, ci: int|
                0 <= qi < old(self).queues@.len() && 0 <= ci < old(self).queues@[qi].consumers@.len() ==> (#[trigger] final(self).queues@[qi].consumers@[ci]) == (Consumer {
                    deliveries: final(self).queues@[qi].consumers@[ci].deliveries,
                    ..old(self).queues@[qi].consumers@[ci]
                }),
            forall|qi: int, ci: int|
                0 <= qi < old(self).queues@.len() && 0 <= ci < old(self).queues@[qi].consumers@.len() ==> (#[trigger] final(self).queues@[qi].consumers@[ci].deliveries@.len()) == 0,
    {
        let n = self.queues.len();
        let mut i: usize = 0;
        while i < n
            invariant
                self.queues@.len() == n,
                0 <= i <= n,
                *self == (Channel { queues: self.queues, ..*old(self) }),
                forall|j: int| i <= j < n ==> self.queues@[j] == old(self).queues@[j],
                forall|j: int| 0 <= j < n ==> (#[trigger] self.queues@[j]).wf(),
                forall|j: int|
                    0 <= j < i ==> #[trigger] self.queues@[j] == (Queue {
                        consumers: self.queues@[j].consumers,
                        ..old(self).queues@[j]
                    }),
                forall|j: int|
                    0 <= j < i ==> (#[trigger] self.queues@[j].consumers@.len()) == old(self).queues@[j].consumers@.len(),
                forall|j: int, ci: int|
                    0 <= j < i && 0 <= ci < old(self).queues@[j].consumers@.len() ==> (
                    #[trigger] self.queues@[j].consumers@[ci]) == (Consumer {
                        deliveries: self.queues@[j].consumers@[ci].deliveries,
                        ..old(self).queues@[j].consumers@[ci]
                    }),
                forall|j: int, ci: int|
                    0 <= j < i && 0 <= ci < old(self).queues@[j].consumers@.len() ==> (
                    #[trigger] self.queues@[j].consumers@[ci].deliveries@.len()) == 0,
            decreases n - i,
        {
            let slot = &mut self.queues[i];
            slot.drop_prefetched_messages();
            i += 1;
        }
        proof {
            lemma_key_idx_same_keys(old(self).queues@, self.queues@, Seq::<char>::empty());
        }
    }

    /// Find the first queue holding a consumer with `tag` and hand that
    /// consumer the delivery a `basic.deliver` announced; report the queue's
    /// name.
    #[verifier::loop_isolation(false)]
    pub fn start_delivery(&mut self, tag: &String, delivery: Delivery) -> (queue_name: Option<
        String,
    >)
        requires
            old(self).wf(),
        ensures
            final(self).wf(),
            *final(self) == (Channel { queues: final(self).queues, ..*old(self) }),
            queue_name is None ==> *final(self) == *old(self) && queue_with(
                old(self).queues@,
                tag@,
            ) == -1,
            queue_name is Some ==> {
                let qi = queue_with(old(self).queues@, tag@);
                &&& qi >= 0
                &&& queue_name->Some_0 == old(self).queues@[qi].name
                &&& final(self).queues@.len() == old(self).queues@.len()
                &&& forall|j: int|
                    0 <= j < old(self).queues@.len() && j != qi ==> #[trigger] final(self).queues@[j] == old(self).queues@[j]
                &&& final(self).queues@[qi] == (Queue {
                    consumers: final(self).queues@[qi].consumers,
                    ..old(self).queues@[qi]
                })
                &&& final(self).queues@[qi].has_consumer(tag@)
                &&& final(self).queues@[qi].consumer(tag@) == (Consumer {
                    current_message: Some(delivery),
                    ..old(self).queues@[qi].consumer(tag@)
                })
                &&& consumers_unchanged_except(
                    old(self).queues@[qi],
                    final(self).queues@[qi],
                    tag@,
                )
            },
    {
        let n = self.queues.len();
        let mut i: usize = 0;
        while i < n
            invariant
                *self == *old(self),
                0 <= i <= n,
                n == self.queues@.len(),
                forall|j: int| 0 <= j < i ==> !(#[trigger] self.queues@[j]).has_consumer(tag@),
            decreases n - i,
        {
            if self.queues[i].contains_consumer(tag) {
                proof {
                    lemma_queue_with_is(old(self).queues@, tag@, i as int);
                }
                let name = self.queues[i].name.clone();
                let slot = &mut self.queues[i];
                let _found = slot.start_consumer_delivery(tag, delivery);
                proof {
                    let s0 = old(self).queues@;
                    let s1 = self.queues@;
                    assert forall|j: int| 0 <= j < s1.len() && j != i implies #[trigger] s1[j]
                        == s0[j] by {}
                    assert(s1[i as int].key() == s0[i as int].key());
                    assert forall|i2: int, j2: int| 0 <= i2 < j2 < s1.len() implies (
                    #[trigger] s1[i2]).key() != (#[trigger] s1[j2]).key() by {
                        assert(s1[i2].key() == s0[i2].key());
                        assert(s1[j2].key() == s0[j2].key());
                    }
                    assert forall|j: int| 0 <= j < s1.len() implies (#[trigger] s1[j]).wf() by {
                        if j != i {
                            assert(s1[j] == s0[j]);
                        }
                    }
                }
                return Some(name);
            }
            i += 1;
        }
        proof {
            lemma_queue_with(old(self).queues@, tag@);
        }
        None
    }
}


impl Channel {
    /// Register a consumer on the named queue, if its shadow exists (the
    /// effect of `basic.consume-ok`).
    pub fn upsert_consumer_in(&mut self, queue: &String, consumer: Consumer)
        requires
            old(self).wf(),
        ensures
            final(self).wf(),
            *final(self) == (Channel { queues: final(self).queues, ..*old(self) }),
            forall|n: Seq<char>| (#[trigger] final(self).has_queue(n)) == old(self).has_queue(n),
            queues_unchanged_except(*old(self), *final(self), queue@),
            !old(self).has_queue(queue@) ==> *final(self) == *old(self),
            old(self).has_queue(queue@) ==> final(self).queue(queue@) == (Queue {
                consumers: final(self).queue(queue@).consumers,
                ..old(self).queue(queue@)
            }),
            old(self).has_queue(queue@) ==> final(self).queue(queue@).has_consumer(consumer.tag@),
            old(self).has_queue(queue@) ==> final(self).queue(queue@).consumer(consumer.tag@)
                == consumer,
            old(self).has_queue(queue@) ==> consumers_unchanged_except(
                old(self).queue(queue@),
                final(self).queue(queue@),
                consumer.tag@,
            ),
    {
        let ghost s0 = self.queues@;
        let found = self.find_queue(queue);
        match found {
            Some(i) => {
                let slot = &mut self.queues[i];
                slot.upsert_consumer(consumer);
                proof {
                    lemma_key_idx(s0, queue@);
                    lemma_key_idx_same_keys(s0, self.queues@, queue@);
                    lemma_chqueue_update_unchanged_except(*old(self), *self, i as int, queue@);
                    assert forall|n: Seq<char>| (#[trigger] has_key(self.queues@, n)) == has_key(
                        s0,
                        n,
                    ) by {
                        lemma_key_idx_same_keys(s0, self.queues@, n);
                    }
                }
            },
            None => {
                proof {
                    assert forall|n: Seq<char>| (#[trigger] has_key(self.queues@, n)) == has_key(
                        s0,
                        n,
                    ) by {}
                }
            },
        }
    }

    /// Store the content-header properties on the message being received in
    /// the named queue: on the consumer's pending delivery when a consumer
    /// tag is given, else on the pending `basic.get` reply.
    pub fn set_content_properties(
        &mut self,
        queue: &String,
        consumer_tag: &Option<String>,
        properties: AMQPProperties,
    )
        requires
            old(self).wf(),
        ensures
            final(self).wf(),
            *final(self) == (Channel { queues: final(self).queues, ..*old(self) }),
            forall|n: Seq<char>| (#[trigger] final(self).has_queue(n)) == old(self).has_queue(n),
            queues_unchanged_except(*old(self), *final(self), queue@),
            !old(self).has_queue(queue@) ==> *final(self) == *old(self),
            old(self).has_queue(queue@) && consumer_tag is Some ==> {
                let tag = consumer_tag->Some_0@;
                let oldq = old(self).queue(queue@);
                let newq = final(self).queue(queue@);
                &&& newq == (Queue { consumers: newq.consumers, ..oldq })
                &&& consumers_unchanged_except(oldq, newq, tag)
                &&& newq.has_consumer(tag) == oldq.has_consumer(tag)
                &&& !oldq.has_consumer(tag) ==> newq == oldq
                &&& oldq.has_consumer(tag) && oldq.consumer(tag).current_message is None
                    ==> newq.consumer(tag) == oldq.consumer(tag)
                &&& oldq.has_consumer(tag) && oldq.consumer(tag).current_message is Some
                    ==> newq.consumer(tag) == (Consumer {
                    current_message: Some(
                        (Delivery {
                            properties,
                            ..oldq.consumer(tag).current_message->Some_0
                        }),
                    ),
                    ..oldq.consumer(tag)
                })
            },
            old(self).has_queue(queue@) && consumer_tag is None ==> {
                let oldq = old(self).queue(queue@);
                let newq = final(self).queue(queue@);
                &&& oldq.current_get_message is None ==> newq == oldq
                &&& oldq.current_get_message is Some ==> newq == (Queue {
                    current_get_message: Some(
                        (BasicGetMessage {
                            delivery: (Delivery {
                                properties,
                                ..oldq.current_get_message->Some_0.delivery
                            }),
                            ..oldq.current_get_message->Some_0
                        }),
                    ),
                    ..oldq
                })
            },
    {
        let ghost s0 = self.queues@;
        let found = self.find_queue(queue);
        match found {
            Some(i) => {
                let slot = &mut self.queues[i];
                match consumer_tag {
                    Some(tag) => {
                        let _found = slot.set_consumer_properties(tag, properties);
                    },
                    None => {
                        slot.set_get_properties(properties);
                    },
                }
                proof {
                    lemma_key_idx(s0, queue@);
                    lemma_key_idx_same_keys(s0, self.queues@, queue@);
                    lemma_chqueue_update_unchanged_except(*old(self), *self, i as int, queue@);
                    assert forall|n: Seq<char>| (#[trigger] has_key(self.queues@, n)) == has_key(
                        s0,
                        n,
                    ) by {
                        lemma_key_idx_same_keys(s0, self.queues@, n);
                    }
                }
            },
            None => {
                proof {
                    assert forall|n: Seq<char>| (#[trigger] has_key(self.queues@, n)) == has_key(
                        s0,
                        n,
                    ) by {}
                }
            },
        }
    }

    /// Append one body frame to the message being received in the named
    /// queue: to the consumer's pending delivery when a consumer tag is
    /// given, else to the pending `basic.get` reply.
    pub fn append_content(&mut self, queue: &String, consumer_tag: &Option<String>, data: Vec<u8>)
        requires
            old(self).wf(),
        ensures
            final(self).wf(),
            *final(self) == (Channel { queues: final(self).queues, ..*old(self) }),
            forall|n: Seq<char>| (#[trigger] final(self).has_queue(n)) == old(self).has_queue(n),
            queues_unchanged_except(*old(self), *final(self), queue@),
            !old(self).has_queue(queue@) ==> *final(self) == *old(self),
            old(self).has_queue(queue@) && consumer_tag is Some ==> {
                let tag = consumer_tag->Some_0@;
                let oldq = old(self).queue(queue@);
                let newq = final(self).queue(queue@);
                &&& newq == (Queue { consumers: newq.consumers, ..oldq })
                &&& consumers_unchanged_except(oldq, newq, tag)
                &&& newq.has_consumer(tag) == oldq.has_consumer(tag)
                &&& !oldq.has_consumer(tag) ==> newq == oldq
                &&& oldq.has_consumer(tag) && oldq.consumer(tag).current_message is None
                    ==> newq.consumer(tag) == oldq.consumer(tag)
                &&& oldq.has_consumer(tag) && oldq.consumer(tag).current_message is Some ==> {
                    let oldc = oldq.consumer(tag);
                    let newc = newq.consumer(tag);
                    &&& newc == (Consumer {
                        current_message: Some(
                            (Delivery {
                                data: newc.current_message->Some_0.data,
                                ..oldc.current_message->Some_0
                            }),
                        ),
                        ..oldc
                    })
                    &&& newc.current_message->Some_0.data@ == oldc.current_message->Some_0.data@
                        + data@
                }
            },
            old(self).has_queue(queue@) && consumer_tag is None ==> {
                let oldq = old(self).queue(queue@);
                let newq = final(self).queue(queue@);
                &&& oldq.current_get_message is None ==> newq == oldq
                &&& oldq.current_get_message is Some ==> {
                    &&& newq == (Queue {
                        current_get_message: Some(
                            (BasicGetMessage {
                                delivery: (Delivery {
                                    data: newq.current_get_message->Some_0.delivery.data,
                                    ..oldq.current_get_message->Some_0.delivery
                                }),
                                ..oldq.current_get_message->Some_0
                            }),
                        ),
                        ..oldq
                    })
                    &&& newq.current_get_message->Some_0.delivery.data@
                        == oldq.current_get_message->Some_0.delivery.data@ + data@
                }
            },
    {
        let ghost s0 = self.queues@;
        let found = self.find_queue(queue);
        match found {
            Some(i) => {
                let slot = &mut self.queues[i];
                match consumer_tag {
                    Some(tag) => {
                        let _found = slot.append_consumer_content(tag, data);
                    },
                    None => {
                        slot.append_get_content(data);
                    },
                }
                proof {
                    lemma_key_idx(s0, queue@);
                    lemma_key_idx_same_keys(s0, self.queues@, queue@);
                    lemma_chqueue_update_unchanged_except(*old(self), *self, i as int, queue@);
                    assert forall|n: Seq<char>| (#[trigger] has_key(self.queues@, n)) == has_key(
                        s0,
                        n,
                    ) by {
                        lemma_key_idx_same_keys(s0, self.queues@, n);
                    }
                }
            },
            None => {
                proof {
                    assert forall|n: Seq<char>| (#[trigger] has_key(self.queues@, n)) == has_key(
                        s0,
                        n,
                    ) by {}
                }
            },
        }
    }

    /// Finish the message being received in the named queue: a consumer's
    /// completed delivery moves into its buffer; a completed `basic.get`
    /// reply stays in the queue's slot.
    pub fn finish_content(&mut self, queue: &String, consumer_tag: &Option<String>)
        requires
            old(self).wf(),
        ensures
            final(self).wf(),
            *final(self) == (Channel { queues: final(self).queues, ..*old(self) }),
            forall|n: Seq<char>| (#[trigger] final(self).has_queue(n)) == old(self).has_queue(n),
            queues_unchanged_except(*old(self), *final(self), queue@),
            !old(self).has_queue(queue@) || consumer_tag is None ==> *final(self) == *old(self),
            old(self).has_queue(queue@) && consumer_tag is Some ==> {
                let oldq = old(self).queue(queue@);
                let newq = final(self).queue(queue@);
                let tag = consumer_tag->Some_0@;
                &&& newq == (Queue { consumers: newq.consumers, ..oldq })
                &&& consumers_unchanged_except(oldq, newq, tag)
                &&& newq.has_consumer(tag) == oldq.has_consumer(tag)
                &&& oldq.has_consumer(tag) && oldq.consumer(tag).current_message is Some
                    ==> newq.consumer(tag) == (Consumer {
                    current_message: None,
                    deliveries: newq.consumer(tag).deliveries,
                    ..oldq.consumer(tag)
                }) && newq.consumer(tag).deliveries@ == oldq.consumer(tag).deliveries@.push(
                    oldq.consumer(tag).current_message->Some_0,
                )
                &&& oldq.has_consumer(tag) && oldq.consumer(tag).current_message is None
                    ==> newq.consumer(tag) == oldq.consumer(tag)
            },
    {
        let ghost s0 = self.queues@;
        let found = self.find_queue(queue);
        match found {
            Some(i) => {
                match consumer_tag {
                    Some(tag) => {
                        let slot = &mut self.queues[i];
                        let _found = slot.finish_consumer_delivery(tag);
                        proof {
                            lemma_key_idx(s0, queue@);
                            lemma_key_idx_same_keys(s0, self.queues@, queue@);
                            lemma_chqueue_update_unchanged_except(
                                *old(self),
                                *self,
                                i as int,
                                queue@,
                            );
                            assert forall|n: Seq<char>| (#[trigger] has_key(self.queues@, n))
                                == has_key(s0, n) by {
                                lemma_key_idx_same_keys(s0, self.queues@, n);
                            }
                        }
                    },
                    None => {
                        proof {
                            assert forall|n: Seq<char>| (#[trigger] has_key(self.queues@, n))
                                == has_key(s0, n) by {}
                        }
                    },
                }
            },
            None => {
                proof {
                    assert forall|n: Seq<char>| (#[trigger] has_key(self.queues@, n)) == has_key(
                        s0,
                        n,
                    ) by {}
                }
            },
        }
    }

    /// Store the reply a `basic.get-ok` announced on the named queue, if its
    /// shadow exists.
    pub fn set_get_message_in(&mut self, queue: &String, message: BasicGetMessage)
        requires
            old(self).wf(),
        ensures
            final(self).wf(),
            *final(self) == (Channel { queues: final(self).queues, ..*old(self) }),
            forall|n: Seq<char>| (#[trigger] final(self).has_queue(n)) == old(self).has_queue(n),
            queues_unchanged_except(*old(self), *final(self), queue@),
            !old(self).has_queue(queue@) ==> *final(self) == *old(self),
            old(self).has_queue(queue@) ==> final(self).queue(queue@) == (Queue {
                current_get_message: Some(message),
                ..old(self).queue(queue@)
            }),
    {
        let ghost s0 = self.queues@;
        let found = self.find_queue(queue);
        match found {
            Some(i) => {
                let slot = &mut self.queues[i];
                slot.set_get_message(message);
                proof {
                    lemma_key_idx(s0, queue@);
                    lemma_key_idx_same_keys(s0, self.queues@, queue@);
                    lemma_chqueue_update_unchanged_except(*old(self), *self, i as int, queue@);
                    assert forall|n: Seq<char>| (#[trigger] has_key(self.queues@, n)) == has_key(
                        s0,
                        n,
                    ) by {
                        lemma_key_idx_same_keys(s0, self.queues@, n);
                    }
                }
            },
            None => {
                proof {
                    assert forall|n: Seq<char>| (#[trigger] has_key(self.queues@, n)) == has_key(
                        s0,
                        n,
                    ) by {}
                }
            },
        }
    }
}


impl Channel {
    /// Switch the channel into confirm mode (the effect of
    /// `confirm.select-ok`): delivery tags restart at 1 with no tag
    /// outstanding.
    pub fn enable_confirm(&mut self)
        requires
            old(self).wf(),
        ensures
            final(self).wf(),
            *final(self) == (Channel {
                confirm: true,
                message_count: 1,
                unacked: final(self).unacked,
                acked: final(self).acked,
                nacked: final(self).nacked,
                ..*old(self)
            }),
            final(self).unacked@ == Seq::<u64>::empty(),
            final(self).acked@ == Seq::<u64>::empty(),
            final(self).nacked@ == Seq::<u64>::empty(),
    {
        self.confirm = true;
        self.message_count = 1;
        self.unacked.clear();
        self.acked.clear();
        self.nacked.clear();
        proof {
            assert(self.tags_union() =~= tag_range(1));
        }
    }

    /// Hand out the next delivery tag for a confirmed publish and remember
    /// it as unacked.
    pub fn record_confirmed_publish(&mut self) -> (tag: u64)
        requires
            old(self).wf(),
            old(self).confirm,
            old(self).message_count < u64::MAX,
        ensures
            final(self).wf(),
            tag == old(self).message_count,
            *final(self) == (Channel {
                message_count: (old(self).message_count + 1) as u64,
                unacked: final(self).unacked,
                ..*old(self)
            }),
            final(self).confirm,
            final(self).unacked@.to_set() == old(self).unacked@.to_set().insert(tag),
            final(self).acked@ == old(self).acked@,
            final(self).nacked@ == old(self).nacked@,
    {
        let tag = self.message_count;
        proof {
            assert(!tag_range(self.message_count).contains(tag));
            assert(self.tags_union().contains(tag) == tag_range(self.message_count).contains(tag));
            assert(!self.unacked@.to_set().contains(tag));
            assert(!self.acked@.to_set().contains(tag));
            assert(!self.nacked@.to_set().contains(tag));
        }
        tags_insert(&mut self.unacked, tag);
        self.message_count = self.message_count + 1;
        proof {
            let m0 = old(self).message_count;
            assert forall|t: u64| self.tags_union().contains(t) implies tag_range(
                self.message_count,
            ).contains(t) by {
                if t == tag {
                } else {
                    assert(old(self).tags_union().contains(t));
                    assert(tag_range(m0).contains(t));
                }
            }
            assert forall|t: u64| tag_range(self.message_count).contains(t) implies
                self.tags_union().contains(t) by {
                if t == tag {
                    assert(self.unacked@.to_set().contains(t));
                } else {
                    assert(tag_range(m0).contains(t));
                    assert(old(self).tags_union().contains(t));
                }
            }
            assert(self.tags_union() =~= tag_range(self.message_count));
        }
        tag
    }

    /// Apply an inbound `basic.ack` of published messages: with `multiple`,
    /// every unacked tag up to `delivery_tag` moves to `acked`; without, the
    /// one tag moves if it is still unacked, else nothing changes.
    pub fn confirm_ack(&mut self, delivery_tag: u64, multiple: bool)
        requires
            old(self).wf(),
            old(self).confirm,
        ensures
            final(self).wf(),
            *final(self) == (Channel {
                unacked: final(self).unacked,
                acked: final(self).acked,
                ..*old(self)
            }),
            final(self).nacked@ == old(self).nacked@,
            multiple ==> final(self).unacked@.to_set() == old(self).unacked@.to_set().difference(
                tags_le(old(self).unacked@.to_set(), delivery_tag),
            ) && final(self).acked@.to_set() == old(self).acked@.to_set().union(
                tags_le(old(self).unacked@.to_set(), delivery_tag),
            ),
            !multiple && old(self).unacked@.to_set().contains(delivery_tag) ==> final(self).unacked@.to_set() == old(self).unacked@.to_set().remove(delivery_tag) && final(self).acked@.to_set() == old(self).acked@.to_set().insert(delivery_tag),
            !multiple && !old(self).unacked@.to_set().contains(delivery_tag) ==> *final(self)
                == *old(self),
    {
        if multiple {
            let ghost u0 = self.unacked@.to_set();
            let ghost a0 = self.acked@.to_set();
            let ghost hull = tags_le(u0, delivery_tag);
            let moved = tags_take_le(&mut self.unacked, delivery_tag);
            proof {
                assert(moved@.to_set().disjoint(a0)) by {
                    assert forall|t: u64| moved@.to_set().contains(t) implies !a0.contains(t) by {
                        assert(u0.contains(t));
                    }
                }
            }
            tags_append(&mut self.acked, moved);
            proof {
                assert(self.tags_union() =~= old(self).tags_union());
                assert(self.unacked@.to_set().disjoint(self.acked@.to_set())) by {
                    assert forall|t: u64|
                        self.unacked@.to_set().contains(t) implies !self.acked@.to_set().contains(
                        t,
                    ) by {
                        assert(u0.contains(t));
                        assert(!hull.contains(t));
                    }
                }
                assert(self.unacked@.to_set().disjoint(self.nacked@.to_set())) by {
                    assert forall|t: u64|
                        self.unacked@.to_set().contains(t) implies !self.nacked@.to_set().contains(
                        t,
                    ) by {
                        assert(u0.contains(t));
                    }
                }
                assert(self.acked@.to_set().disjoint(self.nacked@.to_set())) by {
                    assert forall|t: u64|
                        self.acked@.to_set().contains(t) implies !self.nacked@.to_set().contains(
                        t,
                    ) by {
                        if a0.contains(t) {
                        } else {
                            assert(hull.contains(t));
                            assert(u0.contains(t));
                        }
                    }
                }
            }
        } else {
            let found = tags_remove(&mut self.unacked, delivery_tag);
            if found {
                proof {
                    assert(!self.acked@.to_set().contains(delivery_tag));
                }
                tags_insert(&mut self.acked, delivery_tag);
                proof {
                    assert(self.tags_union() =~= old(self).tags_union());
                }
            }
        }
    }

    /// Apply an inbound `basic.nack` of published messages: as
    /// `confirm_ack`, but the tags move to `nacked`.
    pub fn confirm_nack(&mut self, delivery_tag: u64, multiple: bool)
        requires
            old(self).wf(),
            old(self).confirm,
        ensures
            final(self).wf(),
            *final(self) == (Channel {
                unacked: final(self).unacked,
                nacked: final(self).nacked,
                ..*old(self)
            }),
            final(self).acked@ == old(self).acked@,
            multiple ==> final(self).unacked@.to_set() == old(self).unacked@.to_set().difference(
                tags_le(old(self).unacked@.to_set(), delivery_tag),
            ) && final(self).nacked@.to_set() == old(self).nacked@.to_set().union(
                tags_le(old(self).unacked@.to_set(), delivery_tag),
            ),
            !multiple && old(self).unacked@.to_set().contains(delivery_tag) ==> final(self).unacked@.to_set() == old(self).unacked@.to_set().remove(delivery_tag) && final(self).nacked@.to_set() == old(self).nacked@.to_set().insert(delivery_tag),
            !multiple && !old(self).unacked@.to_set().contains(delivery_tag) ==> *final(self)
                == *old(self),
    {
        if multiple {
            let ghost u0 = self.unacked@.to_set();
            let ghost n0 = self.nacked@.to_set();
            let ghost hull = tags_le(u0, delivery_tag);
            let moved = tags_take_le(&mut self.unacked, delivery_tag);
            proof {
                assert(moved@.to_set().disjoint(n0)) by {
                    assert forall|t: u64| moved@.to_set().contains(t) implies !n0.contains(t) by {
                        assert(u0.contains(t));
                    }
                }
            }
            tags_append(&mut self.nacked, moved);
            proof {
                assert(self.tags_union() =~= old(self).tags_union());
                assert(self.unacked@.to_set().disjoint(self.nacked@.to_set())) by {
                    assert forall|t: u64|
                        self.unacked@.to_set().contains(t) implies !self.nacked@.to_set().contains(
                        t,
                    ) by {
                        assert(u0.contains(t));
                        assert(!hull.contains(t));
                    }
                }
                assert(self.unacked@.to_set().disjoint(self.acked@.to_set())) by {
                    assert forall|t: u64|
                        self.unacked@.to_set().contains(t) implies !self.acked@.to_set().contains(
                        t,
                    ) by {
                        assert(u0.contains(t));
                    }
                }
                assert(self.acked@.to_set().disjoint(self.nacked@.to_set())) by {
                    assert forall|t: u64|
                        self.nacked@.to_set().contains(t) implies !self.acked@.to_set().contains(
                        t,
                    ) by {
                        if n0.contains(t) {
                        } else {
                            assert(hull.contains(t));
                            assert(u0.contains(t));
                        }
                    }
                }
            }
        } else {
            let found = tags_remove(&mut self.unacked, delivery_tag);
            if found {
                proof {
                    assert(!self.nacked@.to_set().contains(delivery_tag));
                }
                tags_insert(&mut self.nacked, delivery_tag);
                proof {
                    assert(self.tags_union() =~= old(self).tags_union());
                }
            }
        }
    }
}

} // verus!
