//! The client-side shadow of one queue: its declared counters, its bindings,
//! its consumers, and the slot for a message fetched with `basic.get`.

use vstd::prelude::*;

use crate::consumer::Consumer;
use crate::keyed::{Keyed, has_key, key_idx, keys_unique, lemma_key_idx, lemma_key_idx_is,
    lemma_key_idx_push, lemma_key_idx_remove, lemma_key_idx_same_keys, lookup};
use crate::message::{BasicGetMessage, Delivery};
use amq_protocol::protocol::basic::AMQPProperties;

verus! {

/// A binding of a queue to an exchange under one routing key. `active` stays
/// false from issuing `queue.bind` until the matching `bind-ok` arrives.
#[derive(Debug, Clone, PartialEq)]
pub struct Binding {
    pub exchange: String,
    pub routing_key: String,
    pub nowait: bool,
    pub active: bool,
}

impl Keyed for Binding {
    type Key = (Seq<char>, Seq<char>);

    open spec fn key(&self) -> (Seq<char>, Seq<char>) {
        (self.exchange@, self.routing_key@)
    }
}

impl Binding {
    pub fn new(exchange: String, routing_key: String, nowait: bool) -> (r: Binding)
        ensures
            r == (Binding { exchange, routing_key, nowait, active: false }),
    {
        Binding { exchange, routing_key, nowait, active: false }
    }
}

/// A queue shadow, keyed by its name within a channel.
#[derive(Debug, Clone, PartialEq)]
pub struct Queue {
    pub name: String,
    /// Message count the broker reported when the queue was declared.
    pub message_count: u32,
    /// Consumer count the broker reported when the queue was declared.
    pub consumer_count: u32,
    pub bindings: Vec<Binding>,
    pub consumers: Vec<Consumer>,
    /// The reply to an outstanding `basic.get`, filled by content frames.
    pub current_get_message: Option<BasicGetMessage>,
}

impl Keyed for Queue {
    type Key = Seq<char>;

    open spec fn key(&self) -> Seq<char> {
        self.name@
    }
}

/// Replacing the binding at `i` (whose key is `k`) with one that again
/// carries `k` leaves every other lookup alone.
proof fn lemma_update_unchanged_except(a: Queue, b: Queue, i: int, k: (Seq<char>, Seq<char>))
    requires
        0 <= i < a.bindings@.len(),
        b.bindings@.len() == a.bindings@.len(),
        a.bindings@[i].key() == k,
        b.bindings@[i].key() == k,
        forall|j: int| 0 <= j < a.bindings@.len() && j != i ==> b.bindings@[j] == a.bindings@[j],
    ensures
        bindings_unchanged_except(a, b, k),
{
    assert forall|k2: (Seq<char>, Seq<char>)| k2 != k implies (#[trigger] has_key(b.bindings@, k2))
        == has_key(a.bindings@, k2) by {
        lemma_key_idx_same_keys(a.bindings@, b.bindings@, k2);
    }
    assert forall|k2: (Seq<char>, Seq<char>)| k2 != k && has_key(a.bindings@, k2) implies (
    #[trigger] lookup(b.bindings@, k2)) == lookup(a.bindings@, k2) by {
        lemma_key_idx_same_keys(a.bindings@, b.bindings@, k2);
        lemma_key_idx(a.bindings@, k2);
    }
}

/// Appending a binding with key `k` leaves every other lookup alone.
proof fn lemma_push_unchanged_except(a: Queue, b: Queue, t: Binding, k: (Seq<char>, Seq<char>))
    requires
        b.bindings@ == a.bindings@.push(t),
        t.key() == k,
    ensures
        bindings_unchanged_except(a, b, k),
{
    assert forall|k2: (Seq<char>, Seq<char>)| k2 != k implies (#[trigger] has_key(b.bindings@, k2))
        == has_key(a.bindings@, k2) by {
        lemma_key_idx_push(a.bindings@, t, k2);
    }
    assert forall|k2: (Seq<char>, Seq<char>)| k2 != k && has_key(a.bindings@, k2) implies (
    #[trigger] lookup(b.bindings@, k2)) == lookup(a.bindings@, k2) by {
        lemma_key_idx_push(a.bindings@, t, k2);
        lemma_key_idx(a.bindings@, k2);
    }
}

/// Removing the binding at `i` (whose key is `k`) leaves every other lookup
/// alone.
proof fn lemma_remove_unchanged_except(a: Queue, b: Queue, i: int, k: (Seq<char>, Seq<char>))
    requires
        keys_unique(a.bindings@),
        0 <= i < a.bindings@.len(),
        a.bindings@[i].key() == k,
        b.bindings@ == a.bindings@.remove(i),
    ensures
        bindings_unchanged_except(a, b, k),
{
    assert forall|k2: (Seq<char>, Seq<char>)| k2 != k implies (#[trigger] has_key(b.bindings@, k2))
        == has_key(a.bindings@, k2) by {
        lemma_key_idx_remove(a.bindings@, i, k2);
    }
    assert forall|k2: (Seq<char>, Seq<char>)| k2 != k && has_key(a.bindings@, k2) implies (
    #[trigger] lookup(b.bindings@, k2)) == lookup(a.bindings@, k2) by {
        lemma_key_idx_remove(a.bindings@, i, k2);
    }
}

/// Lookups for every binding key other than `k` agree between `a` and `b`.
pub open spec fn bindings_unchanged_except(a: Queue, b: Queue, k: (Seq<char>, Seq<char>)) -> bool {
    &&& forall|k2: (Seq<char>, Seq<char>)|
        k2 != k ==> (#[trigger] has_key(b.bindings@, k2)) == has_key(a.bindings@, k2)
    &&& forall|k2: (Seq<char>, Seq<char>)|
        k2 != k && has_key(a.bindings@, k2) ==> (#[trigger] lookup(b.bindings@, k2)) == lookup(
            a.bindings@,
            k2,
        )
}

/// Lookups for every consumer tag other than `tag` agree between `a` and `b`.
pub open spec fn consumers_unchanged_except(a: Queue, b: Queue, tag: Seq<char>) -> bool {
    &&& forall|t2: Seq<char>|
        t2 != tag ==> (#[trigger] has_key(b.consumers@, t2)) == has_key(a.consumers@, t2)
    &&& forall|t2: Seq<char>|
        t2 != tag && has_key(a.consumers@, t2) ==> (#[trigger] lookup(b.consumers@, t2)) == lookup(
            a.consumers@,
            t2,
        )
}

impl Queue {
    /// Internal consistency: bindings and consumers are directories, one
    /// entry per key.
    pub open spec fn wf(self) -> bool {
        &&& keys_unique(self.bindings@)
        &&& keys_unique(self.consumers@)
    }

    pub open spec fn has_binding(self, k: (Seq<char>, Seq<char>)) -> bool {
        has_key(self.bindings@, k)
    }

    pub open spec fn binding(self, k: (Seq<char>, Seq<char>)) -> Binding {
        lookup(self.bindings@, k)
    }

    pub open spec fn has_consumer(self, tag: Seq<char>) -> bool {
        has_key(self.consumers@, tag)
    }

    pub open spec fn consumer(self, tag: Seq<char>) -> Consumer {
        lookup(self.consumers@, tag)
    }

    /// A fresh shadow with the counters the broker reported.
    pub fn new(name: String, message_count: u32, consumer_count: u32) -> (r: Queue)
        ensures
            r == (Queue {
                name,
                message_count,
                consumer_count,
                bindings: r.bindings,
                consumers: r.consumers,
                current_get_message: None,
            }),
            r.bindings@ == Seq::<Binding>::empty(),
            r.consumers@ == Seq::<Consumer>::empty(),
            r.wf(),
    {
        Queue {
            name,
            message_count,
            consumer_count,
            bindings: Vec::new(),
            consumers: Vec::new(),
            current_get_message: None,
        }
    }

    /// Index of the binding `(exchange, routing_key)`, if one exists.
    #[verifier::loop_isolation(false)]
    fn find_binding(&self, exchange: &String, routing_key: &String) -> (r: Option<usize>)
        ensures
            match r {
                Some(i) => 0 <= i < self.bindings@.len() && key_idx(
                    self.bindings@,
                    (exchange@, routing_key@),
                ) == i,
                None => !self.has_binding((exchange@, routing_key@)),
            },
    {
        let ghost k = (exchange@, routing_key@);
        let mut i: usize = 0;
        while i < self.bindings.len()
            invariant
                0 <= i <= self.bindings@.len(),
                forall|j: int| 0 <= j < i ==> (#[trigger] self.bindings@[j]).key() != k,
            decreases self.bindings@.len() - i,
        {
            if self.bindings[i].exchange == *exchange && self.bindings[i].routing_key
                == *routing_key {
                proof {
                    lemma_key_idx_is(self.bindings@, k, i as int);
                }
                return Some(i);
            }
            i += 1;
        }
        proof {
            lemma_key_idx(self.bindings@, k);
        }
        None
    }

    /// Record the binding a `queue.bind` announced: not yet active, replacing
    /// any previous binding under the same key.
    pub fn upsert_binding(&mut self, exchange: String, routing_key: String, nowait: bool)
        requires
            old(self).wf(),
        ensures
            final(self).wf(),
            *final(self) == (Queue { bindings: final(self).bindings, ..*old(self) }),
            final(self).has_binding((exchange@, routing_key@)),
            final(self).binding((exchange@, routing_key@)) == (Binding {
                exchange,
                routing_key,
                nowait,
                active: false,
            }),
            bindings_unchanged_except(*old(self), *final(self), (exchange@, routing_key@)),
    {
        let ghost k = (exchange@, routing_key@);
        let ghost s0 = self.bindings@;
        let found = self.find_binding(&exchange, &routing_key);
        let b = Binding::new(exchange, routing_key, nowait);
        match found {
            Some(i) => {
                let slot = &mut self.bindings[i];
                *slot = b;
                proof {
                    assert(self.bindings@ == s0.update(i as int, b));
                    lemma_key_idx(s0, k);
                    lemma_key_idx_same_keys(s0, self.bindings@, k);
                    lemma_update_unchanged_except(*old(self), *self, i as int, k);
                }
            },
            None => {
                proof {
                    lemma_key_idx(s0, k);
                }
                self.bindings.push(b);
                proof {
                    let ghost s1 = self.bindings@;
                    lemma_key_idx_push(s0, b, k);
                    assert(has_key(s1, k));
                    assert(lookup(s1, k) == b);
                    lemma_push_unchanged_except(*old(self), *self, b, k);
                    assert forall|i: int, j: int| 0 <= i < j < s1.len() implies (
                    #[trigger] s1[i]).key() != (#[trigger] s1[j]).key() by {
                        if j == s0.len() {
                            assert(s1[j] == b);
                            assert(s1[i] == s0[i]);
                        }
                    }
                }
            },
        }
    }

    /// Mark the binding under `k` active, if it exists (the effect of
    /// `queue.bind-ok` on one queue).
    pub fn set_binding_active(&mut self, exchange: &String, routing_key: &String)
        requires
            old(self).wf(),
        ensures
            final(self).wf(),
            *final(self) == (Queue { bindings: final(self).bindings, ..*old(self) }),
            final(self).has_binding((exchange@, routing_key@)) == old(self).has_binding(
                (exchange@, routing_key@),
            ),
            old(self).has_binding((exchange@, routing_key@)) ==> final(self).binding(
                (exchange@, routing_key@),
            ) == (Binding { active: true, ..old(self).binding((exchange@, routing_key@)) }),
            bindings_unchanged_except(*old(self), *final(self), (exchange@, routing_key@)),
    {
        let ghost k = (exchange@, routing_key@);
        let ghost s0 = self.bindings@;
        let found = self.find_binding(exchange, routing_key);
        match found {
            Some(i) => {
                let slot = &mut self.bindings[i];
                slot.active = true;
                proof {
                    lemma_key_idx(s0, k);
                    lemma_key_idx_same_keys(s0, self.bindings@, k);
                    lemma_update_unchanged_except(*old(self), *self, i as int, k);
                }
            },
            None => {},
        }
    }

    /// Remove the binding under `k`, if it exists (the effect of
    /// `queue.unbind-ok` on one queue).
    pub fn remove_binding(&mut self, exchange: &String, routing_key: &String)
        requires
            old(self).wf(),
        ensures
            final(self).wf(),
            *final(self) == (Queue { bindings: final(self).bindings, ..*old(self) }),
            !final(self).has_binding((exchange@, routing_key@)),
            bindings_unchanged_except(*old(self), *final(self), (exchange@, routing_key@)),
    {
        let ghost k = (exchange@, routing_key@);
        let ghost s0 = self.bindings@;
        let found = self.find_binding(exchange, routing_key);
        match found {
            Some(i) => {
                self.bindings.remove(i);
                proof {
                    let s1 = self.bindings@;
                    lemma_key_idx(s0, k);
                    assert forall|i2: int, j2: int| 0 <= i2 < j2 < s1.len() implies (
                    #[trigger] s1[i2]).key() != (#[trigger] s1[j2]).key() by {
                        let a2 = if i2 < i as int {
                            i2
                        } else {
                            i2 + 1
                        };
                        let b2 = if j2 < i as int {
                            j2
                        } else {
                            j2 + 1
                        };
                        assert(s1[i2] == s0[a2]);
                        assert(s1[j2] == s0[b2]);
                    }
                    lemma_remove_unchanged_except(*old(self), *self, i as int, k);
                    assert(!has_key(s1, k)) by {
                        lemma_key_idx_remove(s0, i as int, k);
                    }
                }
            },
            None => {},
        }
    }
}


/// Replacing the consumer at `i` (whose tag is `tag`) with one that again
/// carries `tag` leaves every other lookup alone.
proof fn lemma_consumer_update_unchanged_except(a: Queue, b: Queue, i: int, tag: Seq<char>)
    requires
        0 <= i < a.consumers@.len(),
        b.consumers@.len() == a.consumers@.len(),
        a.consumers@[i].key() == tag,
        b.consumers@[i].key() == tag,
        forall|j: int| 0 <= j < a.consumers@.len() && j != i ==> b.consumers@[j] == a.consumers@[j],
    ensures
        consumers_unchanged_except(a, b, tag),
{
    assert forall|t2: Seq<char>| t2 != tag implies (#[trigger] has_key(b.consumers@, t2))
        == has_key(a.consumers@, t2) by {
        lemma_key_idx_same_keys(a.consumers@, b.consumers@, t2);
    }
    assert forall|t2: Seq<char>| t2 != tag && has_key(a.consumers@, t2) implies (#[trigger] lookup(
        b.consumers@,
        t2,
    )) == lookup(a.consumers@, t2) by {
        lemma_key_idx_same_keys(a.consumers@, b.consumers@, t2);
        lemma_key_idx(a.consumers@, t2);
    }
}

impl Queue {
    /// Index of the consumer with `tag`, if one exists.
    #[verifier::loop_isolation(false)]
    fn find_consumer(&self, tag: &String) -> (r: Option<usize>)
        ensures
            match r {
                Some(i) => 0 <= i < self.consumers@.len() && key_idx(self.consumers@, tag@) == i,
                None => !self.has_consumer(tag@),
            },
    {
        let mut i: usize = 0;
        while i < self.consumers.len()
            invariant
                0 <= i <= self.consumers@.len(),
                forall|j: int| 0 <= j < i ==> (#[trigger] self.consumers@[j]).key() != tag@,
            decreases self.consumers@.len() - i,
        {
            if self.consumers[i].tag == *tag {
                proof {
                    lemma_key_idx_is(self.consumers@, tag@, i as int);
                }
                return Some(i);
            }
            i += 1;
        }
        proof {
            lemma_key_idx(self.consumers@, tag@);
        }
        None
    }

    /// Does this queue hold a consumer with `tag`?
    pub(crate) fn contains_consumer(&self, tag: &String) -> (r: bool)
        ensures
            r == self.has_consumer(tag@),
    {
        self.find_consumer(tag).is_some()
    }

    /// Register the consumer a `basic.consume-ok` confirmed, replacing any
    /// previous consumer under the same tag.
    pub fn upsert_consumer(&mut self, consumer: Consumer)
        requires
            old(self).wf(),
        ensures
            final(self).wf(),
            *final(self) == (Queue { consumers: final(self).consumers, ..*old(self) }),
            final(self).has_consumer(consumer.tag@),
            final(self).consumer(consumer.tag@) == consumer,
            consumers_unchanged_except(*old(self), *final(self), consumer.tag@),
    {
        let ghost tag = consumer.tag@;
        let ghost s0 = self.consumers@;
        let found = self.find_consumer(&consumer.tag);
        match found {
            Some(i) => {
                let slot = &mut self.consumers[i];
                *slot = consumer;
                proof {
                    lemma_key_idx(s0, tag);
                    lemma_key_idx_same_keys(s0, self.consumers@, tag);
                    lemma_consumer_update_unchanged_except(*old(self), *self, i as int, tag);
                }
            },
            None => {
                proof {
                    lemma_key_idx(s0, tag);
                }
                self.consumers.push(consumer);
                proof {
                    let ghost s1 = self.consumers@;
                    lemma_key_idx_push(s0, consumer, tag);
                    assert forall|t2: Seq<char>| t2 != tag implies (#[trigger] has_key(s1, t2))
                        == has_key(s0, t2) by {
                        lemma_key_idx_push(s0, consumer, t2);
                    }
                    assert forall|t2: Seq<char>| t2 != tag && has_key(s0, t2) implies (
                    #[trigger] lookup(s1, t2)) == lookup(s0, t2) by {
                        lemma_key_idx_push(s0, consumer, t2);
                        lemma_key_idx(s0, t2);
                    }
                    assert forall|i2: int, j2: int| 0 <= i2 < j2 < s1.len() implies (
                    #[trigger] s1[i2]).key() != (#[trigger] s1[j2]).key() by {
                        if j2 == s0.len() {
                            assert(s1[j2] == consumer);
                            assert(s1[i2] == s0[i2]);
                        }
                    }
                }
            },
        }
    }

    /// Remove the consumer with `tag`, if present; report whether it was.
    pub fn remove_consumer(&mut self, tag: &String) -> (removed: bool)
        requires
            old(self).wf(),
        ensures
            final(self).wf(),
            *final(self) == (Queue { consumers: final(self).consumers, ..*old(self) }),
            removed == old(self).has_consumer(tag@),
            !final(self).has_consumer(tag@),
            consumers_unchanged_except(*old(self), *final(self), tag@),
    {
        let ghost s0 = self.consumers@;
        let found = self.find_consumer(tag);
        match found {
            Some(i) => {
                self.consumers.remove(i);
                proof {
                    let ghost s1 = self.consumers@;
                    lemma_key_idx(s0, tag@);
                    assert forall|i2: int, j2: int| 0 <= i2 < j2 < s1.len() implies (
                    #[trigger] s1[i2]).key() != (#[trigger] s1[j2]).key() by {
                        let a2 = if i2 < i as int { i2 } else { i2 + 1 };
                        let b2 = if j2 < i as int { j2 } else { j2 + 1 };
                        assert(s1[i2] == s0[a2]);
                        assert(s1[j2] == s0[b2]);
                    }
                    assert forall|t2: Seq<char>| t2 != tag@ implies (#[trigger] has_key(s1, t2))
                        == has_key(s0, t2) by {
                        lemma_key_idx_remove(s0, i as int, t2);
                    }
                    assert forall|t2: Seq<char>| t2 != tag@ && has_key(s0, t2) implies (
                    #[trigger] lookup(s1, t2)) == lookup(s0, t2) by {
                        lemma_key_idx_remove(s0, i as int, t2);
                    }
                    assert(!has_key(s1, tag@)) by {
                        lemma_key_idx_remove(s0, i as int, tag@);
                    }
                }
                true
            },
            None => false,
        }
    }

    /// Begin receiving a delivery for the consumer with `tag` (the effect of
    /// `basic.deliver`).
    pub fn start_consumer_delivery(&mut self, tag: &String, delivery: Delivery) -> (found: bool)
        requires
            old(self).wf(),
        ensures
            final(self).wf(),
            found == old(self).has_consumer(tag@),
            !found ==> *final(self) == *old(self),
            found ==> *final(self) == (Queue { consumers: final(self).consumers, ..*old(self) }),
            found ==> final(self).has_consumer(tag@),
            found ==> final(self).consumer(tag@) == (Consumer {
                current_message: Some(delivery),
                ..old(self).consumer(tag@)
            }),
            consumers_unchanged_except(*old(self), *final(self), tag@),
    {
        let ghost s0 = self.consumers@;
        let found = self.find_consumer(tag);
        match found {
            Some(i) => {
                let slot = &mut self.consumers[i];
                slot.current_message = Some(delivery);
                proof {
                    lemma_key_idx(s0, tag@);
                    lemma_key_idx_same_keys(s0, self.consumers@, tag@);
                    lemma_consumer_update_unchanged_except(*old(self), *self, i as int, tag@);
                }
                true
            },
            None => false,
        }
    }

    /// Store the content-header properties on the delivery being received
    /// for the consumer with `tag`.
    pub fn set_consumer_properties(&mut self, tag: &String, properties: AMQPProperties) -> (found:
        bool)
        requires
            old(self).wf(),
        ensures
            final(self).wf(),
            found == old(self).has_consumer(tag@),
            !found ==> *final(self) == *old(self),
            found ==> *final(self) == (Queue { consumers: final(self).consumers, ..*old(self) }),
            found ==> final(self).has_consumer(tag@),
            found && old(self).consumer(tag@).current_message is None ==> final(self).consumer(tag@)
                == old(self).consumer(tag@),
            found && old(self).consumer(tag@).current_message is Some ==> final(self).consumer(tag@)
                == (Consumer {
                current_message: Some(
                    (Delivery {
                        properties,
                        ..old(self).consumer(tag@).current_message->Some_0
                    }),
                ),
                ..old(self).consumer(tag@)
            }),
            consumers_unchanged_except(*old(self), *final(self), tag@),
    {
        let ghost s0 = self.consumers@;
        let found = self.find_consumer(tag);
        match found {
            Some(i) => {
                let slot = &mut self.consumers[i];
                match &mut slot.current_message {
                    Some(m) => {
                        m.properties = properties;
                    },
                    None => {},
                }
                proof {
                    lemma_key_idx(s0, tag@);
                    lemma_key_idx_same_keys(s0, self.consumers@, tag@);
                    lemma_consumer_update_unchanged_except(*old(self), *self, i as int, tag@);
                }
                true
            },
            None => false,
        }
    }

    /// Append one body frame to the delivery being received for the consumer
    /// with `tag`.
    pub fn append_consumer_content(&mut self, tag: &String, data: Vec<u8>) -> (found: bool)
        requires
            old(self).wf(),
        ensures
            final(self).wf(),
            found == old(self).has_consumer(tag@),
            !found ==> *final(self) == *old(self),
            found ==> *final(self) == (Queue { consumers: final(self).consumers, ..*old(self) }),
            found ==> final(self).has_consumer(tag@),
            found && old(self).consumer(tag@).current_message is None ==> final(self).consumer(tag@)
                == old(self).consumer(tag@),
            found && old(self).consumer(tag@).current_message is Some ==> final(self).consumer(tag@)
                == (Consumer {
                current_message: Some(
                    (Delivery {
                        data: final(self).consumer(tag@).current_message->Some_0.data,
                        ..old(self).consumer(tag@).current_message->Some_0
                    }),
                ),
                ..old(self).consumer(tag@)
            }),
            found && old(self).consumer(tag@).current_message is Some ==> final(self).consumer(
                tag@,
            ).current_message->Some_0.data@ == old(self).consumer(
                tag@,
            ).current_message->Some_0.data@ + data@,
            consumers_unchanged_except(*old(self), *final(self), tag@),
    {
        let ghost s0 = self.consumers@;
        let found = self.find_consumer(tag);
        match found {
            Some(i) => {
                let slot = &mut self.consumers[i];
                match &mut slot.current_message {
                    Some(m) => {
                        m.receive_content(data);
                    },
                    None => {},
                }
                proof {
                    lemma_key_idx(s0, tag@);
                    lemma_key_idx_same_keys(s0, self.consumers@, tag@);
                    lemma_consumer_update_unchanged_except(*old(self), *self, i as int, tag@);
                }
                true
            },
            None => false,
        }
    }

    /// Move the completed delivery of the consumer with `tag` into its
    /// buffer of messages awaiting user code.
    pub fn finish_consumer_delivery(&mut self, tag: &String) -> (found: bool)
        requires
            old(self).wf(),
        ensures
            final(self).wf(),
            found == old(self).has_consumer(tag@),
            !found ==> *final(self) == *old(self),
            found ==> *final(self) == (Queue { consumers: final(self).consumers, ..*old(self) }),
            found ==> final(self).has_consumer(tag@),
            found && old(self).consumer(tag@).current_message is None ==> final(self).consumer(tag@)
                == old(self).consumer(tag@),
            found && old(self).consumer(tag@).current_message is Some ==> final(self).consumer(tag@)
                == (Consumer {
                current_message: None,
                deliveries: final(self).consumer(tag@).deliveries,
                ..old(self).consumer(tag@)
            }),
            found && old(self).consumer(tag@).current_message is Some ==> final(self).consumer(
                tag@,
            ).deliveries@ == old(self).consumer(tag@).deliveries@.push(
                old(self).consumer(tag@).current_message->Some_0,
            ),
            consumers_unchanged_except(*old(self), *final(self), tag@),
    {
        let ghost s0 = self.consumers@;
        let found = self.find_consumer(tag);
        match found {
            Some(i) => {
                let slot = &mut self.consumers[i];
                let taken = slot.current_message.take();
                match taken {
                    Some(m) => {
                        slot.deliveries.push(m);
                    },
                    None => {},
                }
                proof {
                    lemma_key_idx(s0, tag@);
                    lemma_key_idx_same_keys(s0, self.consumers@, tag@);
                    lemma_consumer_update_unchanged_except(*old(self), *self, i as int, tag@);
                }
                true
            },
            None => false,
        }
    }

    /// Forget every buffered message of every consumer of this queue.
    #[verifier::loop_isolation(false)]
    pub fn drop_prefetched_messages(&mut self)
        requires
            old(self).wf(),
        ensures
            final(self).wf(),
            *final(self) == (Queue { consumers: final(self).consumers, ..*old(self) }),
            final(self).consumers@.len() == old(self).consumers@.len(),
            forall|i: int|
                0 <= i < old(self).consumers@.len() ==> #[trigger] final(self).consumers@[i] == (
                Consumer {
                    deliveries: final(self).consumers@[i].deliveries,
                    ..old(self).consumers@[i]
                }),
            forall|i: int|
                0 <= i < old(self).consumers@.len() ==> #[trigger] final(self).consumers@[i].deliveries@.len() == 0,
    {
        let n = self.consumers.len();
        let mut i: usize = 0;
        while i < n
            invariant
                self.consumers@.len() == n,
                0 <= i <= n,
                *self == (Queue { consumers: self.consumers, ..*old(self) }),
                forall|j: int|
                    0 <= j < i ==> #[trigger] self.consumers@[j] == (Consumer {
                        deliveries: self.consumers@[j].deliveries,
                        ..old(self).consumers@[j]
                    }),
                forall|j: int|
                    0 <= j < i ==> #[trigger] self.consumers@[j].deliveries@.len() == 0,
                forall|j: int| i <= j < n ==> self.consumers@[j] == old(self).consumers@[j],
            decreases n - i,
        {
            let slot = &mut self.consumers[i];
            slot.drop_prefetched_messages();
            i += 1;
        }
        proof {
            lemma_key_idx_same_keys(old(self).consumers@, self.consumers@, Seq::<char>::empty());
            assert forall|i2: int, j2: int| 0 <= i2 < j2 < self.consumers@.len() implies (
            #[trigger] self.consumers@[i2]).key() != (#[trigger] self.consumers@[j2]).key() by {}
        }
    }

    /// Store the reply a `basic.get-ok` announced; content frames fill it.
    pub fn set_get_message(&mut self, message: BasicGetMessage)
        ensures
            *final(self) == (Queue {
                current_get_message: Some(message),
                ..*old(self)
            }),
    {
        self.current_get_message = Some(message);
    }

    /// Store the content-header properties on the pending `basic.get` reply.
    pub fn set_get_properties(&mut self, properties: AMQPProperties)
        ensures
            old(self).current_get_message is None ==> *final(self) == *old(self),
            old(self).current_get_message is Some ==> *final(self) == (Queue {
                current_get_message: Some(
                    (BasicGetMessage {
                        delivery: (Delivery {
                            properties,
                            ..old(self).current_get_message->Some_0.delivery
                        }),
                        ..old(self).current_get_message->Some_0
                    }),
                ),
                ..*old(self)
            }),
    {
        match &mut self.current_get_message {
            Some(m) => {
                m.delivery.properties = properties;
            },
            None => {},
        }
    }

    /// Append one body frame to the pending `basic.get` reply.
    pub fn append_get_content(&mut self, data: Vec<u8>)
        ensures
            old(self).current_get_message is None ==> *final(self) == *old(self),
            old(self).current_get_message is Some ==> *final(self) == (Queue {
                current_get_message: Some(
                    (BasicGetMessage {
                        delivery: (Delivery {
                            data: final(self).current_get_message->Some_0.delivery.data,
                            ..old(self).current_get_message->Some_0.delivery
                        }),
                        ..old(self).current_get_message->Some_0
                    }),
                ),
                ..*old(self)
            }),
            old(self).current_get_message is Some ==> final(self).current_get_message->Some_0.delivery.data@ == old(self).current_get_message->Some_0.delivery.data@ + data@,
    {
        match &mut self.current_get_message {
            Some(m) => {
                m.delivery.receive_content(data);
            },
            None => {},
        }
    }
}

} // verus!
