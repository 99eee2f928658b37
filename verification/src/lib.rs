//! The sans-I/O core of an AMQP 0-9-1 client: the connection and channel
//! state machine, the request/reply bookkeeping for every method the client
//! issues or receives, and the client-side shadows of queues, bindings,
//! consumers, in-flight deliveries and publisher confirms.
//!
//! The core never performs I/O. Issuers append typed method frames to an
//! outbound buffer for the frame layer to drain; the dispatcher accepts
//! decoded inbound methods and applies their effects to the model. Every
//! request that expects a reply records an expected-reply token in the
//! channel's FIFO — AMQP answers in issue order per channel — and any reply
//! out of order, or any method in the wrong state, sends the channel to its
//! terminal `Error` state.

pub mod amqp;
pub mod api;
pub mod channel;
pub mod connection;
pub mod consumer;
pub mod error;
pub mod keyed;
pub mod laws;
pub mod message;
pub mod method;
pub mod queue;
pub mod tags;

use vstd::prelude::*;

verus! {

/// Identifier handed back for every client-initiated request that expects a
/// broker reply; unique and monotonically allocated per connection.
pub type RequestId = u64;

} // verus!
