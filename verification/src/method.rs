//! Typed AMQP methods, as the core sees them.
//!
//! One variant per method the client can send or receive. Field order and
//! meaning follow AMQP 0-9-1; string fields are plain `String`s and the
//! optional argument tables travel through as opaque `FieldTable` values.
//! The frame layer owns the byte codecs; the core only builds and matches
//! these values.

use vstd::prelude::*;

use amq_protocol::types::FieldTable;

verus! {

/// A decoded AMQP method.
#[derive(Debug, Clone, PartialEq)]
pub enum Method {
    ChannelOpen { out_of_band: String },
    ChannelOpenOk,
    ChannelFlow { active: bool },
    ChannelFlowOk { active: bool },
    ChannelClose { reply_code: u16, reply_text: String, class_id: u16, method_id: u16 },
    ChannelCloseOk,
    AccessRequest {
        realm: String,
        exclusive: bool,
        passive: bool,
        active: bool,
        write: bool,
        read: bool,
    },
    AccessRequestOk,
    ExchangeDeclare {
        ticket: u16,
        exchange: String,
        exchange_type: String,
        passive: bool,
        durable: bool,
        auto_delete: bool,
        internal: bool,
        nowait: bool,
        arguments: FieldTable,
    },
    ExchangeDeclareOk,
    ExchangeDelete { ticket: u16, exchange: String, if_unused: bool, nowait: bool },
    ExchangeDeleteOk,
    ExchangeBind {
        ticket: u16,
        destination: String,
        source: String,
        routing_key: String,
        nowait: bool,
        arguments: FieldTable,
    },
    ExchangeBindOk,
    ExchangeUnbind {
        ticket: u16,
        destination: String,
        source: String,
        routing_key: String,
        nowait: bool,
        arguments: FieldTable,
    },
    ExchangeUnbindOk,
    QueueDeclare {
        ticket: u16,
        queue: String,
        passive: bool,
        durable: bool,
        exclusive: bool,
        auto_delete: bool,
        nowait: bool,
        arguments: FieldTable,
    },
    QueueDeclareOk { queue: String, message_count: u32, consumer_count: u32 },
    QueueBind {
        ticket: u16,
        queue: String,
        exchange: String,
        routing_key: String,
        nowait: bool,
        arguments: FieldTable,
    },
    QueueBindOk,
    QueuePurge { ticket: u16, queue: String, nowait: bool },
    QueuePurgeOk { message_count: u32 },
    QueueDelete { ticket: u16, queue: String, if_unused: bool, if_empty: bool, nowait: bool },
    QueueDeleteOk { message_count: u32 },
    QueueUnbind {
        ticket: u16,
        queue: String,
        exchange: String,
        routing_key: String,
        arguments: FieldTable,
    },
    QueueUnbindOk,
    BasicQos { prefetch_size: u32, prefetch_count: u16, global: bool },
    BasicQosOk,
    BasicConsume {
        ticket: u16,
        queue: String,
        consumer_tag: String,
        no_local: bool,
        no_ack: bool,
        exclusive: bool,
        nowait: bool,
        arguments: FieldTable,
    },
    BasicConsumeOk { consumer_tag: String },
    BasicCancel { consumer_tag: String, nowait: bool },
    BasicCancelOk { consumer_tag: String },
    BasicPublish {
        ticket: u16,
        exchange: String,
        routing_key: String,
        mandatory: bool,
        immediate: bool,
    },
    BasicDeliver {
        consumer_tag: String,
        delivery_tag: u64,
        redelivered: bool,
        exchange: String,
        routing_key: String,
    },
    BasicGet { ticket: u16, queue: String, no_ack: bool },
    BasicGetOk {
        delivery_tag: u64,
        redelivered: bool,
        exchange: String,
        routing_key: String,
        message_count: u32,
    },
    BasicGetEmpty,
    BasicAck { delivery_tag: u64, multiple: bool },
    BasicReject { delivery_tag: u64, requeue: bool },
    BasicRecoverAsync { requeue: bool },
    BasicRecover { requeue: bool },
    BasicRecoverOk,
    BasicNack { delivery_tag: u64, multiple: bool, requeue: bool },
    ConfirmSelect { nowait: bool },
    ConfirmSelectOk,
}

/// One outbound frame: a method to be sent on a channel. The connection
/// appends these to its outbound buffer; the frame layer drains the buffer
/// and puts the methods on the wire.
#[derive(Debug, Clone, PartialEq)]
pub struct Frame {
    pub channel_id: u16,
    pub method: Method,
}

} // verus!
