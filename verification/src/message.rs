//! Received messages: consumer deliveries, `basic.get` replies, and
//! returned (unroutable) publishes.

use vstd::prelude::*;

use crate::amqp::{default_properties, error_from_id, is_amqp_error_code};
use amq_protocol::protocol::AMQPError;
use amq_protocol::protocol::basic::AMQPProperties;

verus! {

/// A received AMQP message, filled progressively: `basic.deliver` or
/// `basic.get-ok` creates it, the following content header supplies the
/// properties, and body frames append to `data` until the announced size is
/// reached.
#[derive(Debug, Clone, PartialEq)]
pub struct Delivery {
    /// The delivery tag of the message, used to acknowledge it.
    pub delivery_tag: u64,
    /// The exchange the message was published to; empty for the default
    /// exchange.
    pub exchange: String,
    /// The routing key of the message; may be empty.
    pub routing_key: String,
    /// Whether this message was redelivered.
    pub redelivered: bool,
    /// The content properties and headers of the message.
    pub properties: AMQPProperties,
    /// The payload of the message.
    pub data: Vec<u8>,
}

impl Delivery {
    /// A fresh delivery with empty properties and no payload yet.
    pub fn new(delivery_tag: u64, exchange: String, routing_key: String, redelivered: bool) -> (r:
        Delivery)
        ensures
            r.delivery_tag == delivery_tag,
            r.exchange == exchange,
            r.routing_key == routing_key,
            r.redelivered == redelivered,
            r.data@ == Seq::<u8>::empty(),
    {
        Delivery {
            delivery_tag,
            exchange,
            routing_key,
            redelivered,
            properties: default_properties(),
            data: Vec::new(),
        }
    }

    /// Append one body frame's bytes to the payload.
    pub fn receive_content(&mut self, mut data: Vec<u8>)
        ensures
            final(self).data@ == old(self).data@ + data@,
            final(self).delivery_tag == old(self).delivery_tag,
            final(self).exchange == old(self).exchange,
            final(self).routing_key == old(self).routing_key,
            final(self).redelivered == old(self).redelivered,
            final(self).properties == old(self).properties,
    {
        self.data.append(&mut data);
    }
}

/// The reply to a successful `basic.get`: the delivery together with the
/// number of messages left on the queue.
#[derive(Debug, Clone, PartialEq)]
pub struct BasicGetMessage {
    pub delivery: Delivery,
    pub message_count: u32,
}

impl BasicGetMessage {
    pub fn new(
        delivery_tag: u64,
        exchange: String,
        routing_key: String,
        redelivered: bool,
        message_count: u32,
    ) -> (r: BasicGetMessage)
        ensures
            r.delivery.delivery_tag == delivery_tag,
            r.delivery.exchange == exchange,
            r.delivery.routing_key == routing_key,
            r.delivery.redelivered == redelivered,
            r.delivery.data@ == Seq::<u8>::empty(),
            r.message_count == message_count,
    {
        BasicGetMessage {
            delivery: Delivery::new(delivery_tag, exchange, routing_key, redelivered),
            message_count,
        }
    }
}

/// A published message the broker sent back as unroutable
/// (`basic.return`), with the reply code and text explaining why.
#[derive(Debug, Clone, PartialEq)]
pub struct BasicReturnMessage {
    pub delivery: Delivery,
    pub reply_code: u16,
    pub reply_text: String,
}

impl BasicReturnMessage {
    pub fn new(exchange: String, routing_key: String, reply_code: u16, reply_text: String) -> (r:
        BasicReturnMessage)
        ensures
            r.delivery.delivery_tag == 0,
            r.delivery.exchange == exchange,
            r.delivery.routing_key == routing_key,
            r.delivery.redelivered == false,
            r.delivery.data@ == Seq::<u8>::empty(),
            r.reply_code == reply_code,
            r.reply_text == reply_text,
    {
        BasicReturnMessage {
            delivery: Delivery::new(0, exchange, routing_key, false),
            reply_code,
            reply_text,
        }
    }

    /// The protocol error carried by the reply code, if it names one.
    pub fn error(&self) -> (r: Option<AMQPError>)
        ensures
            r.is_some() == is_amqp_error_code(self.reply_code),
    {
        error_from_id(self.reply_code, self.reply_text.clone())
    }
}

} // verus!
