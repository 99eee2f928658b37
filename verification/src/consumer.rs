//! The client-side record of one `basic.consume` subscription.

use vstd::prelude::*;

use crate::keyed::Keyed;
use crate::message::Delivery;

verus! {

/// A consumer on a queue: its tag, the flags it was registered with, the
/// message currently being received for it, and the completed messages its
/// buffer holds until user code accepts them.
#[derive(Debug, Clone, PartialEq)]
pub struct Consumer {
    pub tag: String,
    pub no_local: bool,
    pub no_ack: bool,
    pub exclusive: bool,
    pub nowait: bool,
    /// The delivery announced by `basic.deliver` whose content frames are
    /// still arriving.
    pub current_message: Option<Delivery>,
    /// Completed deliveries not yet accepted by user code (the prefetch
    /// buffer).
    pub deliveries: Vec<Delivery>,
}

impl Keyed for Consumer {
    type Key = Seq<char>;

    open spec fn key(&self) -> Seq<char> {
        self.tag@
    }
}

impl Consumer {
    pub fn new(tag: String, no_local: bool, no_ack: bool, exclusive: bool, nowait: bool) -> (r:
        Consumer)
        ensures
            r == (Consumer {
                tag,
                no_local,
                no_ack,
                exclusive,
                nowait,
                current_message: None,
                deliveries: r.deliveries,
            }),
            r.deliveries@ == Seq::<Delivery>::empty(),
    {
        Consumer {
            tag,
            no_local,
            no_ack,
            exclusive,
            nowait,
            current_message: None,
            deliveries: Vec::new(),
        }
    }

    /// Forget every buffered message user code has not accepted yet.
    pub fn drop_prefetched_messages(&mut self)
        ensures
            *final(self) == (Consumer { deliveries: final(self).deliveries, ..*old(self) }),
            final(self).deliveries@ == Seq::<Delivery>::empty(),
    {
        self.deliveries.clear();
    }
}

} // verus!
