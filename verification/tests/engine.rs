//! End-to-end scenarios for the method-exchange engine: issuing requests,
//! delivering replies, and the error discipline.

use amq_protocol::types::FieldTable;
use amqp_core::channel::{Answer, Channel, ChannelState};
use amqp_core::connection::Connection;
use amqp_core::error::Error;
use amqp_core::message::BasicReturnMessage;
use amqp_core::method::Method;

fn chan(conn: &Connection, id: u16) -> &Channel {
    conn.channels.iter().find(|c| c.id == id).expect("channel")
}

fn opened() -> Connection {
    let mut conn = Connection::new();
    conn.create_channel(1).unwrap();
    let rid = conn.channel_open(1, String::new()).unwrap();
    assert_eq!(rid, 1);
    conn.receive_method(1, Method::ChannelOpenOk).unwrap();
    assert_eq!(conn.channel_state(1), Some(&ChannelState::Connected));
    conn
}

#[test]
fn open_declare_close() {
    let mut conn = opened();
    let rid = conn
        .queue_declare(
            1,
            0,
            "q".to_string(),
            false,
            false,
            false,
            false,
            false,
            FieldTable::default(),
        )
        .unwrap();
    conn.receive_method(
        1,
        Method::QueueDeclareOk { queue: "q".to_string(), message_count: 0, consumer_count: 0 },
    )
    .unwrap();
    assert_eq!(conn.request_finished(rid), Some(true));
    let q = chan(&conn, 1).queues.iter().find(|q| q.name == "q").expect("queue shadow");
    assert_eq!(q.message_count, 0);
    assert_eq!(q.consumer_count, 0);
    conn.channel_close(1, 200, "ok".to_string(), 0, 0).unwrap();
    conn.receive_method(1, Method::ChannelCloseOk).unwrap();
    assert_eq!(conn.channel_state(1), Some(&ChannelState::Closed));
}

#[test]
fn out_of_order_reply_is_protocol_error() {
    let mut conn = opened();
    conn.queue_declare(
        1,
        0,
        "q".to_string(),
        false,
        false,
        false,
        false,
        false,
        FieldTable::default(),
    )
    .unwrap();
    conn.queue_bind(
        1,
        0,
        "q".to_string(),
        "ex".to_string(),
        "rk".to_string(),
        false,
        FieldTable::default(),
    )
    .unwrap();
    let r = conn.receive_method(1, Method::QueueBindOk);
    assert!(matches!(r, Err(Error::UnexpectedAnswer)));
    assert_eq!(conn.channel_state(1), Some(&ChannelState::Error));
}

#[test]
fn server_assigned_queue_name() {
    let mut conn = opened();
    let rid = conn
        .queue_declare(
            1,
            0,
            String::new(),
            false,
            false,
            false,
            false,
            false,
            FieldTable::default(),
        )
        .unwrap();
    conn.receive_method(
        1,
        Method::QueueDeclareOk {
            queue: "amq.gen-abc".to_string(),
            message_count: 0,
            consumer_count: 0,
        },
    )
    .unwrap();
    assert_eq!(conn.generated_name(rid), Some(&"amq.gen-abc".to_string()));
    assert!(chan(&conn, 1).queues.iter().any(|q| q.name == "amq.gen-abc"));
}

#[test]
fn replies_in_issue_order_succeed() {
    let mut conn = opened();
    conn.channel_flow(1, true).unwrap();
    conn.queue_declare(
        1,
        0,
        "q".to_string(),
        false,
        false,
        false,
        false,
        false,
        FieldTable::default(),
    )
    .unwrap();
    assert!(conn.receive_method(1, Method::ChannelFlowOk { active: true }).is_ok());
    assert!(
        conn.receive_method(
            1,
            Method::QueueDeclareOk { queue: "q".to_string(), message_count: 0, consumer_count: 0 },
        )
        .is_ok()
    );
    assert!(chan(&conn, 1).awaiting.is_empty());
}

#[test]
fn wrong_state_goes_to_error_without_other_changes() {
    let mut conn = opened();
    conn.channel_close(1, 200, "bye".to_string(), 0, 0).unwrap();
    conn.receive_method(1, Method::ChannelCloseOk).unwrap();
    assert_eq!(conn.channel_state(1), Some(&ChannelState::Closed));
    let before_queues = chan(&conn, 1).queues.len();
    let r = conn.receive_method(
        1,
        Method::QueueDeclareOk { queue: "q".to_string(), message_count: 0, consumer_count: 0 },
    );
    assert!(matches!(r, Err(Error::UnexpectedAnswer)));
    assert_eq!(conn.channel_state(1), Some(&ChannelState::Error));
    assert_eq!(chan(&conn, 1).queues.len(), before_queues);
}

#[test]
fn inbound_on_initial_channel_needs_open_ok() {
    let mut conn = Connection::new();
    conn.create_channel(1).unwrap();
    let r = conn.receive_method(1, Method::BasicQosOk);
    assert!(matches!(r, Err(Error::UnexpectedAnswer)));
    assert_eq!(conn.channel_state(1), Some(&ChannelState::Error));
}

#[test]
fn unbind_twice_leaves_no_binding() {
    let mut conn = opened();
    conn.queue_declare(
        1,
        0,
        "q".to_string(),
        false,
        false,
        false,
        false,
        false,
        FieldTable::default(),
    )
    .unwrap();
    conn.receive_method(
        1,
        Method::QueueDeclareOk { queue: "q".to_string(), message_count: 0, consumer_count: 0 },
    )
    .unwrap();
    conn.queue_bind(
        1,
        0,
        "q".to_string(),
        "ex".to_string(),
        "rk".to_string(),
        false,
        FieldTable::default(),
    )
    .unwrap();
    conn.receive_method(1, Method::QueueBindOk).unwrap();
    {
        let q = chan(&conn, 1).queues.iter().find(|q| q.name == "q").unwrap();
        assert_eq!(q.bindings.len(), 1);
        assert!(q.bindings[0].active);
    }
    conn.queue_unbind(
        1,
        0,
        "q".to_string(),
        "ex".to_string(),
        "rk".to_string(),
        FieldTable::default(),
    )
    .unwrap();
    conn.receive_method(1, Method::QueueUnbindOk).unwrap();
    conn.queue_unbind(
        1,
        0,
        "q".to_string(),
        "ex".to_string(),
        "rk".to_string(),
        FieldTable::default(),
    )
    .unwrap();
    conn.receive_method(1, Method::QueueUnbindOk).unwrap();
    let q = chan(&conn, 1).queues.iter().find(|q| q.name == "q").unwrap();
    assert!(q.bindings.is_empty());
}

#[test]
fn bindings_start_inactive() {
    let mut conn = opened();
    conn.queue_declare(
        1,
        0,
        "q".to_string(),
        false,
        false,
        false,
        false,
        false,
        FieldTable::default(),
    )
    .unwrap();
    conn.receive_method(
        1,
        Method::QueueDeclareOk { queue: "q".to_string(), message_count: 0, consumer_count: 0 },
    )
    .unwrap();
    conn.queue_bind(
        1,
        0,
        "q".to_string(),
        "ex".to_string(),
        "rk".to_string(),
        false,
        FieldTable::default(),
    )
    .unwrap();
    let q = chan(&conn, 1).queues.iter().find(|q| q.name == "q").unwrap();
    assert_eq!(q.bindings.len(), 1);
    assert!(!q.bindings[0].active);
}

#[test]
fn cancel_drops_consumer_and_notifies_once() {
    let mut conn = opened();
    conn.queue_declare(
        1,
        0,
        "q".to_string(),
        false,
        false,
        false,
        false,
        false,
        FieldTable::default(),
    )
    .unwrap();
    conn.receive_method(
        1,
        Method::QueueDeclareOk { queue: "q".to_string(), message_count: 0, consumer_count: 0 },
    )
    .unwrap();
    conn.basic_consume(
        1,
        0,
        "q".to_string(),
        "tag".to_string(),
        false,
        false,
        false,
        false,
        FieldTable::default(),
    )
    .unwrap();
    conn.receive_method(1, Method::BasicConsumeOk { consumer_tag: "tag".to_string() }).unwrap();
    assert!(
        chan(&conn, 1).queues.iter().any(|q| q.consumers.iter().any(|c| c.tag == "tag"))
    );
    conn.basic_cancel(1, "tag".to_string(), false).unwrap();
    conn.receive_method(1, Method::BasicCancelOk { consumer_tag: "tag".to_string() }).unwrap();
    assert!(
        !chan(&conn, 1).queues.iter().any(|q| q.consumers.iter().any(|c| c.tag == "tag"))
    );
    assert_eq!(conn.cancellations, vec!["tag".to_string()]);
}

#[test]
fn get_empty_latches_false() {
    let mut conn = opened();
    let rid = conn.basic_get(1, 0, "q".to_string(), false).unwrap();
    conn.receive_method(1, Method::BasicGetEmpty).unwrap();
    assert_eq!(conn.get_request_finished(rid), Some(false));
    assert_eq!(conn.request_finished(rid), None);
}

#[test]
fn invalid_channel_everywhere() {
    let mut conn = Connection::new();
    let r = conn.channel_open(7, String::new());
    assert!(matches!(r, Err(Error::InvalidChannel(7))));
    let r = conn.receive_method(7, Method::ChannelOpenOk);
    assert!(matches!(r, Err(Error::InvalidChannel(7))));
    conn.create_channel(3).unwrap();
    let r = conn.create_channel(3);
    assert!(matches!(r, Err(Error::InvalidChannel(3))));
}

#[test]
fn issuer_requires_connected() {
    let mut conn = Connection::new();
    conn.create_channel(1).unwrap();
    let r = conn.queue_declare(
        1,
        0,
        "q".to_string(),
        false,
        false,
        false,
        false,
        false,
        FieldTable::default(),
    );
    assert!(matches!(r, Err(Error::NotConnected)));
    assert_eq!(conn.channel_state(1), Some(&ChannelState::Initial));
}

#[test]
fn broker_only_methods_are_refused() {
    let mut conn = opened();
    let r = conn.receive_method(1, Method::ChannelOpen { out_of_band: String::new() });
    assert!(matches!(r, Err(Error::InvalidMethod(Method::ChannelOpen { .. }))));
    assert_eq!(conn.channel_state(1), Some(&ChannelState::Connected));
}

#[test]
fn return_message_maps_reply_codes() {
    let m = BasicReturnMessage::new("ex".to_string(), "rk".to_string(), 312, "NO_ROUTE".to_string());
    let err = m.error().expect("312 names an AMQP error");
    assert_eq!(err.get_id(), 312);
    let ok = BasicReturnMessage::new("ex".to_string(), "rk".to_string(), 200, "ok".to_string());
    assert!(ok.error().is_none());
}

#[test]
fn flow_from_broker_is_confirmed() {
    let mut conn = opened();
    conn.receive_method(1, Method::ChannelFlow { active: false }).unwrap();
    assert!(!chan(&conn, 1).send_flow);
    let frames = conn.take_frames();
    assert_eq!(frames.last().unwrap().method, Method::ChannelFlowOk { active: false });
    assert_eq!(frames.last().unwrap().channel_id, 1);
}

#[test]
fn close_from_broker_is_confirmed() {
    let mut conn = opened();
    conn.receive_method(
        1,
        Method::ChannelClose {
            reply_code: 406,
            reply_text: "precondition".to_string(),
            class_id: 0,
            method_id: 0,
        },
    )
    .unwrap();
    assert_eq!(conn.channel_state(1), Some(&ChannelState::Closed));
    let frames = conn.take_frames();
    assert_eq!(frames.last().unwrap().method, Method::ChannelCloseOk);
}

#[test]
fn qos_applies_where_asked() {
    let mut conn = opened();
    conn.basic_qos(1, 1024, 10, true).unwrap();
    conn.receive_method(1, Method::BasicQosOk).unwrap();
    assert_eq!(conn.prefetch_size, 1024);
    assert_eq!(conn.prefetch_count, 10);
    conn.basic_qos(1, 2048, 20, false).unwrap();
    conn.receive_method(1, Method::BasicQosOk).unwrap();
    assert_eq!(chan(&conn, 1).prefetch_size, 2048);
    assert_eq!(chan(&conn, 1).prefetch_count, 20);
    assert_eq!(conn.prefetch_size, 1024);
}

#[test]
fn queue_delete_drops_shadow() {
    let mut conn = opened();
    conn.queue_declare(
        1,
        0,
        "q".to_string(),
        false,
        false,
        false,
        false,
        false,
        FieldTable::default(),
    )
    .unwrap();
    conn.receive_method(
        1,
        Method::QueueDeclareOk { queue: "q".to_string(), message_count: 0, consumer_count: 0 },
    )
    .unwrap();
    conn.queue_delete(1, 0, "q".to_string(), false, false, false).unwrap();
    conn.receive_method(1, Method::QueueDeleteOk { message_count: 0 }).unwrap();
    assert!(chan(&conn, 1).queues.is_empty());
}

#[test]
fn exchange_and_access_requests_complete() {
    let mut conn = opened();
    let r1 = conn
        .exchange_declare(
            1,
            0,
            "ex".to_string(),
            "direct".to_string(),
            false,
            false,
            false,
            false,
            false,
            FieldTable::default(),
        )
        .unwrap();
    conn.receive_method(1, Method::ExchangeDeclareOk).unwrap();
    assert_eq!(conn.request_finished(r1), Some(true));
    let r2 = conn
        .access_request(1, "/data".to_string(), false, false, true, true, true)
        .unwrap();
    conn.receive_method(1, Method::AccessRequestOk).unwrap();
    assert_eq!(conn.request_finished(r2), Some(true));
    let r3 = conn.basic_recover(1, true).unwrap();
    conn.receive_method(1, Method::BasicRecoverOk).unwrap();
    assert_eq!(conn.request_finished(r3), Some(true));
}

#[test]
fn request_ids_are_monotonic_and_unique() {
    let mut conn = opened();
    let a = conn.channel_flow(1, true).unwrap();
    let b = conn
        .queue_declare(
            1,
            0,
            "q".to_string(),
            false,
            false,
            false,
            false,
            false,
            FieldTable::default(),
        )
        .unwrap();
    assert!(a < b);
    let answers = &chan(&conn, 1).awaiting;
    assert_eq!(answers.len(), 2);
    assert_eq!(answers[0], Answer::AwaitingChannelFlowOk(a));
    assert_eq!(answers[1], Answer::AwaitingQueueDeclareOk(b));
}

#[test]
fn emitted_frames_carry_the_methods() {
    let mut conn = opened();
    let before = conn.take_frames();
    assert_eq!(before.last().unwrap().method, Method::ChannelOpen { out_of_band: String::new() });
    conn.basic_reject(1, 9, true).unwrap();
    let frames = conn.take_frames();
    assert_eq!(frames.len(), 1);
    assert_eq!(frames[0].method, Method::BasicReject { delivery_tag: 9, requeue: true });
    assert!(conn.take_frames().is_empty());
}

#[test]
fn exchange_bind_and_unbind_complete() {
    let mut conn = opened();
    let r1 = conn
        .exchange_bind(
            1,
            0,
            "dst".to_string(),
            "src".to_string(),
            "rk".to_string(),
            false,
            FieldTable::default(),
        )
        .unwrap();
    conn.receive_method(1, Method::ExchangeBindOk).unwrap();
    assert_eq!(conn.request_finished(r1), Some(true));
    let r2 = conn
        .exchange_unbind(
            1,
            0,
            "dst".to_string(),
            "src".to_string(),
            "rk".to_string(),
            false,
            FieldTable::default(),
        )
        .unwrap();
    conn.receive_method(1, Method::ExchangeUnbindOk).unwrap();
    assert_eq!(conn.request_finished(r2), Some(true));
    let r3 = conn.exchange_delete(1, 0, "dst".to_string(), false, false).unwrap();
    conn.receive_method(1, Method::ExchangeDeleteOk).unwrap();
    assert_eq!(conn.request_finished(r3), Some(true));
}

#[test]
fn queue_purge_completes() {
    let mut conn = opened();
    let rid = conn.queue_purge(1, 0, "q".to_string(), false).unwrap();
    conn.receive_method(1, Method::QueuePurgeOk { message_count: 3 }).unwrap();
    assert_eq!(conn.request_finished(rid), Some(true));
}

#[test]
fn cancel_on_two_queues_notifies_twice() {
    let mut conn = opened();
    for name in ["a", "b"] {
        conn.queue_declare(
            1,
            0,
            name.to_string(),
            false,
            false,
            false,
            false,
            false,
            FieldTable::default(),
        )
        .unwrap();
        conn.receive_method(
            1,
            Method::QueueDeclareOk {
                queue: name.to_string(),
                message_count: 0,
                consumer_count: 0,
            },
        )
        .unwrap();
        conn.basic_consume(
            1,
            0,
            name.to_string(),
            "shared".to_string(),
            false,
            false,
            false,
            false,
            FieldTable::default(),
        )
        .unwrap();
        conn.receive_method(1, Method::BasicConsumeOk { consumer_tag: "shared".to_string() })
            .unwrap();
    }
    conn.basic_cancel(1, "shared".to_string(), false).unwrap();
    conn.receive_method(1, Method::BasicCancelOk { consumer_tag: "shared".to_string() }).unwrap();
    assert_eq!(conn.cancellations.len(), 2);
    assert!(conn.cancellations.iter().all(|t| t == "shared"));
}

#[test]
fn broker_confirm_out_of_order_is_refused() {
    let mut conn = opened();
    conn.queue_declare(
        1,
        0,
        "q".to_string(),
        false,
        false,
        false,
        false,
        false,
        FieldTable::default(),
    )
    .unwrap();
    let r = conn.receive_method(1, Method::BasicAck { delivery_tag: 1, multiple: false });
    assert!(matches!(r, Err(Error::UnexpectedAnswer)));
    assert_eq!(conn.channel_state(1), Some(&ChannelState::Error));
}

#[test]
fn latches_are_read_and_forget() {
    let mut conn = opened();
    let rid = conn
        .queue_declare(
            1,
            0,
            String::new(),
            false,
            false,
            false,
            false,
            false,
            FieldTable::default(),
        )
        .unwrap();
    conn.receive_method(
        1,
        Method::QueueDeclareOk {
            queue: "amq.gen-xyz".to_string(),
            message_count: 0,
            consumer_count: 0,
        },
    )
    .unwrap();
    assert_eq!(conn.take_request_finished(rid), Some(true));
    assert_eq!(conn.take_request_finished(rid), None);
    assert_eq!(conn.take_generated_name(rid), Some("amq.gen-xyz".to_string()));
    assert_eq!(conn.take_generated_name(rid), None);
    let grid = conn.basic_get(1, 0, "q".to_string(), true).unwrap();
    conn.receive_method(1, Method::BasicGetEmpty).unwrap();
    assert_eq!(conn.take_get_request_finished(grid), Some(false));
    assert_eq!(conn.take_get_request_finished(grid), None);
}
