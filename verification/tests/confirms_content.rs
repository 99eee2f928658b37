//! Publisher confirms bookkeeping and the content-transfer sub-states.

use amq_protocol::protocol::basic::AMQPProperties;
use amq_protocol::types::FieldTable;
use amqp_core::channel::{Channel, ChannelState};
use amqp_core::connection::Connection;
use amqp_core::error::Error;
use amqp_core::method::Method;

fn chan(conn: &Connection, id: u16) -> &Channel {
    conn.channels.iter().find(|c| c.id == id).expect("channel")
}

fn sorted(v: &Vec<u64>) -> Vec<u64> {
    let mut s = v.clone();
    s.sort();
    s
}

fn confirming() -> Connection {
    let mut conn = Connection::new();
    conn.create_channel(1).unwrap();
    conn.channel_open(1, String::new()).unwrap();
    conn.receive_method(1, Method::ChannelOpenOk).unwrap();
    conn.confirm_select(1, false).unwrap();
    conn.receive_method(1, Method::ConfirmSelectOk).unwrap();
    assert!(chan(&conn, 1).confirm);
    assert_eq!(chan(&conn, 1).message_count, 1);
    conn
}

fn publish(conn: &mut Connection) -> u64 {
    conn.basic_publish(1, 0, "ex".to_string(), "rk".to_string(), false, false).unwrap()
}

#[test]
fn multiple_ack_moves_the_hull() {
    let mut conn = confirming();
    assert_eq!(publish(&mut conn), 1);
    assert_eq!(publish(&mut conn), 2);
    assert_eq!(publish(&mut conn), 3);
    conn.receive_method(1, Method::BasicAck { delivery_tag: 2, multiple: true }).unwrap();
    let c = chan(&conn, 1);
    assert_eq!(sorted(&c.acked), vec![1, 2]);
    assert_eq!(sorted(&c.unacked), vec![3]);
    assert!(c.nacked.is_empty());
}

#[test]
fn single_ack_moves_one_tag() {
    let mut conn = confirming();
    publish(&mut conn);
    publish(&mut conn);
    conn.receive_method(1, Method::BasicAck { delivery_tag: 2, multiple: false }).unwrap();
    let c = chan(&conn, 1);
    assert_eq!(sorted(&c.unacked), vec![1]);
    assert_eq!(sorted(&c.acked), vec![2]);
}

#[test]
fn nack_lands_in_nacked() {
    let mut conn = confirming();
    publish(&mut conn);
    publish(&mut conn);
    publish(&mut conn);
    conn.receive_method(
        1,
        Method::BasicNack { delivery_tag: 2, multiple: true, requeue: false },
    )
    .unwrap();
    let c = chan(&conn, 1);
    assert_eq!(sorted(&c.nacked), vec![1, 2]);
    assert_eq!(sorted(&c.unacked), vec![3]);
    assert!(c.acked.is_empty());
}

#[test]
fn confirm_accounting_stays_balanced() {
    let mut conn = confirming();
    for _ in 0..5 {
        publish(&mut conn);
    }
    conn.receive_method(1, Method::BasicAck { delivery_tag: 2, multiple: true }).unwrap();
    conn.receive_method(
        1,
        Method::BasicNack { delivery_tag: 4, multiple: false, requeue: true },
    )
    .unwrap();
    let c = chan(&conn, 1);
    assert_eq!(
        c.unacked.len() + c.acked.len() + c.nacked.len(),
        (c.message_count - 1) as usize,
    );
    for t in c.unacked.iter() {
        assert!(!c.acked.contains(t));
        assert!(!c.nacked.contains(t));
    }
    for t in c.acked.iter() {
        assert!(!c.nacked.contains(t));
    }
}

#[test]
fn ack_of_forgotten_tag_is_dropped() {
    let mut conn = confirming();
    publish(&mut conn);
    conn.receive_method(1, Method::BasicAck { delivery_tag: 1, multiple: false }).unwrap();
    conn.basic_publish(1, 0, "ex".to_string(), "rk".to_string(), false, false).unwrap();
    conn.receive_method(1, Method::BasicAck { delivery_tag: 1, multiple: false }).unwrap();
    let c = chan(&conn, 1);
    assert_eq!(sorted(&c.acked), vec![1]);
    assert_eq!(sorted(&c.unacked), vec![2]);
}

#[test]
fn unconfirmed_publish_returns_zero() {
    let mut conn = Connection::new();
    conn.create_channel(1).unwrap();
    conn.channel_open(1, String::new()).unwrap();
    conn.receive_method(1, Method::ChannelOpenOk).unwrap();
    let tag = conn.basic_publish(1, 0, "ex".to_string(), "rk".to_string(), false, false).unwrap();
    assert_eq!(tag, 0);
    assert!(chan(&conn, 1).awaiting.is_empty());
    assert!(chan(&conn, 1).unacked.is_empty());
}

fn consuming() -> Connection {
    let mut conn = Connection::new();
    conn.create_channel(1).unwrap();
    conn.channel_open(1, String::new()).unwrap();
    conn.receive_method(1, Method::ChannelOpenOk).unwrap();
    conn.queue_declare(
        1,
        0,
        "q".to_string(),
        false,
        false,
        false,
        false,
        false,
        FieldTable::default(),
    )
    .unwrap();
    conn.receive_method(
        1,
        Method::QueueDeclareOk { queue: "q".to_string(), message_count: 0, consumer_count: 0 },
    )
    .unwrap();
    conn.basic_consume(
        1,
        0,
        "q".to_string(),
        "tag".to_string(),
        false,
        false,
        false,
        false,
        FieldTable::default(),
    )
    .unwrap();
    conn.receive_method(1, Method::BasicConsumeOk { consumer_tag: "tag".to_string() }).unwrap();
    conn
}

#[test]
fn deliver_then_content_fills_the_consumer_buffer() {
    let mut conn = consuming();
    conn.receive_method(
        1,
        Method::BasicDeliver {
            consumer_tag: "tag".to_string(),
            delivery_tag: 7,
            redelivered: false,
            exchange: "ex".to_string(),
            routing_key: "rk".to_string(),
        },
    )
    .unwrap();
    assert_eq!(
        conn.channel_state(1),
        Some(&ChannelState::WillReceiveContent("q".to_string(), Some("tag".to_string()))),
    );
    conn.handle_content_header_frame(1, 5, AMQPProperties::default()).unwrap();
    assert_eq!(
        conn.channel_state(1),
        Some(&ChannelState::ReceivingContent("q".to_string(), Some("tag".to_string()), 5)),
    );
    conn.handle_body_frame(1, vec![104, 101]).unwrap();
    assert_eq!(
        conn.channel_state(1),
        Some(&ChannelState::ReceivingContent("q".to_string(), Some("tag".to_string()), 3)),
    );
    conn.handle_body_frame(1, vec![108, 108, 111]).unwrap();
    assert_eq!(conn.channel_state(1), Some(&ChannelState::Connected));
    let q = chan(&conn, 1).queues.iter().find(|q| q.name == "q").unwrap();
    let consumer = q.consumers.iter().find(|c| c.tag == "tag").unwrap();
    assert!(consumer.current_message.is_none());
    assert_eq!(consumer.deliveries.len(), 1);
    let d = &consumer.deliveries[0];
    assert_eq!(d.delivery_tag, 7);
    assert_eq!(d.exchange, "ex");
    assert_eq!(d.routing_key, "rk");
    assert!(!d.redelivered);
    assert_eq!(d.data, vec![104, 101, 108, 108, 111]);
}

#[test]
fn get_ok_then_content_fills_the_queue_slot() {
    let mut conn = consuming();
    let rid = conn.basic_get(1, 0, "q".to_string(), false).unwrap();
    conn.receive_method(
        1,
        Method::BasicGetOk {
            delivery_tag: 9,
            redelivered: true,
            exchange: "ex".to_string(),
            routing_key: "rk".to_string(),
            message_count: 4,
        },
    )
    .unwrap();
    assert_eq!(conn.get_request_finished(rid), Some(true));
    assert_eq!(
        conn.channel_state(1),
        Some(&ChannelState::WillReceiveContent("q".to_string(), None)),
    );
    conn.handle_content_header_frame(1, 3, AMQPProperties::default()).unwrap();
    conn.handle_body_frame(1, vec![1, 2, 3]).unwrap();
    assert_eq!(conn.channel_state(1), Some(&ChannelState::Connected));
    let q = chan(&conn, 1).queues.iter().find(|q| q.name == "q").unwrap();
    let m = q.current_get_message.as_ref().expect("pending get reply");
    assert_eq!(m.message_count, 4);
    assert_eq!(m.delivery.delivery_tag, 9);
    assert!(m.delivery.redelivered);
    assert_eq!(m.delivery.data, vec![1, 2, 3]);
}

#[test]
fn empty_body_completes_at_the_header() {
    let mut conn = consuming();
    conn.receive_method(
        1,
        Method::BasicDeliver {
            consumer_tag: "tag".to_string(),
            delivery_tag: 1,
            redelivered: false,
            exchange: String::new(),
            routing_key: "rk".to_string(),
        },
    )
    .unwrap();
    conn.handle_content_header_frame(1, 0, AMQPProperties::default()).unwrap();
    assert_eq!(conn.channel_state(1), Some(&ChannelState::Connected));
    let q = chan(&conn, 1).queues.iter().find(|q| q.name == "q").unwrap();
    let consumer = q.consumers.iter().find(|c| c.tag == "tag").unwrap();
    assert_eq!(consumer.deliveries.len(), 1);
    assert!(consumer.deliveries[0].data.is_empty());
}

#[test]
fn oversized_body_frame_is_a_protocol_error() {
    let mut conn = consuming();
    conn.receive_method(
        1,
        Method::BasicDeliver {
            consumer_tag: "tag".to_string(),
            delivery_tag: 1,
            redelivered: false,
            exchange: String::new(),
            routing_key: String::new(),
        },
    )
    .unwrap();
    conn.handle_content_header_frame(1, 2, AMQPProperties::default()).unwrap();
    let r = conn.handle_body_frame(1, vec![1, 2, 3]);
    assert!(matches!(r, Err(Error::UnexpectedAnswer)));
    assert_eq!(conn.channel_state(1), Some(&ChannelState::Error));
}

#[test]
fn body_frame_without_header_is_a_protocol_error() {
    let mut conn = consuming();
    let r = conn.handle_body_frame(1, vec![1]);
    assert!(matches!(r, Err(Error::UnexpectedAnswer)));
    assert_eq!(conn.channel_state(1), Some(&ChannelState::Error));
}

#[test]
fn sending_content_counts_down() {
    let mut conn = consuming();
    conn.basic_publish(1, 0, "ex".to_string(), "rk".to_string(), false, false).unwrap();
    conn.start_sending_content(1, 4).unwrap();
    assert_eq!(conn.channel_state(1), Some(&ChannelState::SendingContent(4)));
    conn.notify_content_sent(1, 3).unwrap();
    assert_eq!(conn.channel_state(1), Some(&ChannelState::SendingContent(1)));
    conn.notify_content_sent(1, 1).unwrap();
    assert_eq!(conn.channel_state(1), Some(&ChannelState::Connected));
}

#[test]
fn recover_drops_prefetched_messages() {
    let mut conn = consuming();
    conn.receive_method(
        1,
        Method::BasicDeliver {
            consumer_tag: "tag".to_string(),
            delivery_tag: 1,
            redelivered: false,
            exchange: String::new(),
            routing_key: String::new(),
        },
    )
    .unwrap();
    conn.handle_content_header_frame(1, 1, AMQPProperties::default()).unwrap();
    conn.handle_body_frame(1, vec![42]).unwrap();
    {
        let q = chan(&conn, 1).queues.iter().find(|q| q.name == "q").unwrap();
        assert_eq!(q.consumers[0].deliveries.len(), 1);
    }
    conn.basic_recover_async(1, true).unwrap();
    let q = chan(&conn, 1).queues.iter().find(|q| q.name == "q").unwrap();
    assert!(q.consumers[0].deliveries.is_empty());
}

#[test]
fn ack_all_drops_prefetched_messages() {
    let mut conn = consuming();
    conn.receive_method(
        1,
        Method::BasicDeliver {
            consumer_tag: "tag".to_string(),
            delivery_tag: 1,
            redelivered: false,
            exchange: String::new(),
            routing_key: String::new(),
        },
    )
    .unwrap();
    conn.handle_content_header_frame(1, 1, AMQPProperties::default()).unwrap();
    conn.handle_body_frame(1, vec![42]).unwrap();
    conn.basic_ack(1, 0, true).unwrap();
    let q = chan(&conn, 1).queues.iter().find(|q| q.name == "q").unwrap();
    assert!(q.consumers[0].deliveries.is_empty());
}

#[test]
fn nack_of_forgotten_tag_is_dropped() {
    let mut conn = confirming();
    publish(&mut conn);
    conn.receive_method(
        1,
        Method::BasicNack { delivery_tag: 1, multiple: false, requeue: false },
    )
    .unwrap();
    conn.basic_publish(1, 0, "ex".to_string(), "rk".to_string(), false, false).unwrap();
    conn.receive_method(
        1,
        Method::BasicNack { delivery_tag: 1, multiple: false, requeue: false },
    )
    .unwrap();
    let c = chan(&conn, 1);
    assert_eq!(sorted(&c.nacked), vec![1]);
    assert_eq!(sorted(&c.unacked), vec![2]);
}

#[test]
fn content_before_header_or_wrong_state_errors() {
    let mut conn = confirming();
    let r = conn.handle_content_header_frame(1, 1, AMQPProperties::default());
    assert!(matches!(r, Err(Error::UnexpectedAnswer)));
    assert_eq!(conn.channel_state(1), Some(&ChannelState::Error));
}
