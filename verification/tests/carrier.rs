use futures::task::noop_waker_ref;
use mpc_carrier::channels::{Callback, Polled, SendError};
use mpc_carrier::messages::{NodeRequest, NodeResponse};
use mpc_carrier::table::Table;
use mpc_carrier::{Carrier, CHANNEL_CAPACITY};
use std::task::Context;

fn directory(nodes: &[(&str, u16)]) -> Table<String, u16> {
    let mut table = Table::new();
    for (node, port) in nodes {
        table.insert(node.to_string(), *port);
    }
    table
}

fn request(id: u8) -> NodeRequest {
    NodeRequest { request_id: vec![id], distance_list: vec![1, 2, 3] }
}

#[test]
fn envelope_holds_the_message_and_its_return_channel() {
    let (callback, mut rx) = Callback::<NodeRequest, NodeResponse>::new(request(3));
    assert_eq!(callback.message, request(3));
    assert_eq!(rx.try_recv(), Ok(None));
    callback.callback.send(NodeResponse { request_id: vec![3] }).unwrap();
    assert_eq!(rx.try_recv(), Ok(Some(NodeResponse { request_id: vec![3] })));
}

#[test]
fn send_errors() {
    assert!(SendError::forwarded(true).is_ok());
    assert!(matches!(SendError::forwarded(false), Err(SendError::ForwardClosed)));
    assert_eq!(SendError::returned::<u8>(Ok(5)).unwrap(), 5);
    assert!(matches!(
        SendError::returned::<u8>(Err(futures::channel::oneshot::Canceled)),
        Err(SendError::ReturnClosed(_))
    ));
}

#[test]
fn plan_has_one_connection_for_each_node() {
    let (carrier, _incoming, _outgoing) =
        Carrier::new(directory(&[("a.example", 9000), ("b.example", 9001), ("10.0.0.3", 9002)]));
    let plan = carrier.run();
    assert_eq!(plan.incoming.count(), 3);
    assert_eq!(plan.outgoing.len(), 3);
    let nodes: Vec<(String, u16)> =
        plan.outgoing.iter().map(|connection| (connection.node.clone(), connection.port)).collect();
    assert_eq!(
        nodes,
        vec![
            ("a.example".to_string(), 9000),
            ("b.example".to_string(), 9001),
            ("10.0.0.3".to_string(), 9002)
        ]
    );
    for connection in &plan.outgoing {
        assert_eq!(connection.dnsname.to_str(), connection.node);
        assert!(plan.incoming.contains_key(&connection.node));
    }
}

#[test]
fn node_without_a_server_name_is_not_run() {
    let (carrier, _incoming, _outgoing) =
        Carrier::new(directory(&[("a.example", 9000), ("not a name", 9001)]));
    assert!(carrier.try_run().is_none());
    let (carrier, _incoming, _outgoing) = Carrier::new(directory(&[("", 9000)]));
    assert!(carrier.try_run().is_none());
}

#[test]
fn carrier_without_nodes_has_nothing_to_connect_to() {
    let (carrier, mut incoming, outgoing) = Carrier::new(directory(&[]));
    assert!(!outgoing.knows(&"a".to_string()));
    let mut cx = Context::from_waker(noop_waker_ref());
    assert!(matches!(incoming.recv(&mut cx), Polled::Ready(None)));
    let plan = carrier.run();
    assert!(plan.outgoing.is_empty());
    assert!(plan.incoming.is_empty());
}

#[test]
fn outgoing_request_reaches_the_connection_of_its_node() {
    let (carrier, _incoming, mut outgoing) =
        Carrier::new(directory(&[("a.example", 9000), ("b.example", 9001)]));
    assert!(outgoing.knows(&"a.example".to_string()));
    assert!(outgoing.knows(&"b.example".to_string()));
    assert!(!outgoing.knows(&"c.example".to_string()));
    let (queue, envelope, mut reply) = outgoing.send(&"b.example".to_string(), request(5));
    queue.try_send(envelope).unwrap();
    let mut plan = carrier.run();
    assert!(plan.outgoing[0].outgoing.try_next().is_err());
    let envelope = plan.outgoing[1].outgoing.try_next().unwrap().unwrap();
    assert_eq!(envelope.message, request(5));
    envelope.callback.send(NodeResponse { request_id: vec![5] }).unwrap();
    assert_eq!(reply.try_recv(), Ok(Some(NodeResponse { request_id: vec![5] })));
}

#[test]
fn incoming_request_is_received_with_the_name_of_its_node() {
    let (carrier, mut incoming, _outgoing) =
        Carrier::new(directory(&[("a.example", 9000), ("b.example", 9001)]));
    let plan = carrier.run();
    let mut cx = Context::from_waker(noop_waker_ref());
    assert!(matches!(incoming.recv(&mut cx), Polled::Pending));
    let (envelope, _rx) = Callback::new(request(8));
    plan.incoming.get(&"b.example".to_string()).unwrap().clone().try_send(envelope).unwrap();
    match incoming.recv(&mut cx) {
        Polled::Ready(Some((node, envelope))) => {
            assert_eq!(node, "b.example");
            assert_eq!(envelope.message, request(8));
        },
        _ => panic!("no request"),
    }
    assert!(matches!(incoming.recv(&mut cx), Polled::Pending));
}

#[test]
fn no_node_is_passed_over_for_ever() {
    let (carrier, mut incoming, _outgoing) =
        Carrier::new(directory(&[("a.example", 9000), ("b.example", 9001)]));
    let plan = carrier.run();
    let mut a = plan.incoming.get(&"a.example".to_string()).unwrap().clone();
    let mut b = plan.incoming.get(&"b.example".to_string()).unwrap().clone();
    for id in 0..4u8 {
        a.try_send(Callback::new(request(id)).0).unwrap();
        b.try_send(Callback::new(request(id)).0).unwrap();
    }
    let mut cx = Context::from_waker(noop_waker_ref());
    let mut nodes = Vec::new();
    for _ in 0..8 {
        match incoming.recv(&mut cx) {
            Polled::Ready(Some((node, _))) => nodes.push(node),
            _ => panic!("no request"),
        }
    }
    assert_eq!(
        nodes,
        vec![
            "a.example", "b.example", "a.example", "b.example", "a.example", "b.example",
            "a.example", "b.example"
        ]
    );
}

#[test]
fn end_is_reported_when_every_queue_has_ended() {
    let (carrier, mut incoming, _outgoing) =
        Carrier::new(directory(&[("a.example", 9000), ("b.example", 9001)]));
    let mut plan = carrier.run();
    let mut cx = Context::from_waker(noop_waker_ref());
    let a = plan.incoming.remove(&"a.example".to_string());
    drop(a);
    assert!(matches!(incoming.recv(&mut cx), Polled::Pending));
    drop(plan);
    assert!(matches!(incoming.recv(&mut cx), Polled::Ready(None)));
}

#[test]
fn queue_at_capacity() {
    assert_eq!(CHANNEL_CAPACITY, 64);
    let (carrier, _incoming, mut outgoing) = Carrier::new(directory(&[("a.example", 9000)]));
    let mut taken: usize = 0;
    loop {
        let (queue, envelope, _reply) = outgoing.send(&"a.example".to_string(), request(taken as u8));
        match queue.try_send(envelope) {
            Ok(()) => taken += 1,
            Err(error) => {
                assert!(error.is_full());
                break;
            },
        }
    }
    // The buffer is taken, and at most the slot that a sender has of its own.
    assert!(taken >= CHANNEL_CAPACITY);
    assert!(taken <= CHANNEL_CAPACITY + 1);
    let mut plan = carrier.run();
    for id in 0..taken {
        let envelope = plan.outgoing[0].outgoing.try_next().unwrap().unwrap();
        assert_eq!(envelope.message.request_id, vec![id as u8]);
    }
    assert!(plan.outgoing[0].outgoing.try_next().is_err());
    let (queue, envelope, _reply) = outgoing.send(&"a.example".to_string(), request(0));
    assert!(queue.try_send(envelope).is_ok());
}

#[test]
fn queue_that_has_ended_is_not_waited_for() {
    let (carrier, mut incoming, _outgoing) =
        Carrier::new(directory(&[("a.example", 9000), ("b.example", 9001), ("c.example", 9002)]));
    let mut plan = carrier.run();
    let mut cx = Context::from_waker(noop_waker_ref());
    drop(plan.incoming.remove(&"a.example".to_string()));
    drop(plan.incoming.remove(&"c.example".to_string()));
    assert!(matches!(incoming.recv(&mut cx), Polled::Pending));
    let mut b = plan.incoming.get(&"b.example".to_string()).unwrap().clone();
    drop(plan);
    b.try_send(Callback::new(request(1)).0).unwrap();
    b.try_send(Callback::new(request(2)).0).unwrap();
    for id in [1u8, 2] {
        match incoming.recv(&mut cx) {
            Polled::Ready(Some((node, envelope))) => {
                assert_eq!(node, "b.example");
                assert_eq!(envelope.message.request_id, vec![id]);
            },
            _ => panic!("no request"),
        }
    }
    assert!(matches!(incoming.recv(&mut cx), Polled::Pending));
    drop(b);
    assert!(matches!(incoming.recv(&mut cx), Polled::Ready(None)));
    assert!(matches!(incoming.recv(&mut cx), Polled::Ready(None)));
}

#[test]
fn round_begins_behind_the_queue_that_gave_the_last_message() {
    let (carrier, mut incoming, _outgoing) =
        Carrier::new(directory(&[("a.example", 9000), ("b.example", 9001), ("c.example", 9002)]));
    let plan = carrier.run();
    let mut a = plan.incoming.get(&"a.example".to_string()).unwrap().clone();
    let mut b = plan.incoming.get(&"b.example".to_string()).unwrap().clone();
    let mut c = plan.incoming.get(&"c.example".to_string()).unwrap().clone();
    let mut cx = Context::from_waker(noop_waker_ref());
    let mut next = |incoming: &mut mpc_carrier::channels::Incoming| match incoming.recv(&mut cx) {
        Polled::Ready(Some((node, _))) => node,
        _ => panic!("no request"),
    };
    b.try_send(Callback::new(request(0)).0).unwrap();
    assert_eq!(next(&mut incoming), "b.example");
    // The round begins at c now, and goes on at a.
    a.try_send(Callback::new(request(1)).0).unwrap();
    b.try_send(Callback::new(request(2)).0).unwrap();
    assert_eq!(next(&mut incoming), "a.example");
    assert_eq!(next(&mut incoming), "b.example");
    a.try_send(Callback::new(request(3)).0).unwrap();
    c.try_send(Callback::new(request(4)).0).unwrap();
    assert_eq!(next(&mut incoming), "c.example");
    assert_eq!(next(&mut incoming), "a.example");
}

#[test]
fn nodes_with_server_names_are_run() {
    let (carrier, _incoming, _outgoing) =
        Carrier::new(directory(&[("a.example", 9000), ("192.168.0.7", 9001)]));
    let plan = carrier.try_run().unwrap();
    assert_eq!(plan.outgoing.len(), 2);
    assert_eq!(plan.outgoing[0].node, "a.example");
    assert_eq!(plan.outgoing[1].node, "192.168.0.7");
    assert_eq!(plan.outgoing[1].port, 9001);
    assert_eq!(plan.outgoing[1].dnsname.to_str(), "192.168.0.7");
}

#[test]
fn round_tries_the_queues_from_the_turn_on() {
    let (_carrier, mut incoming, _outgoing) =
        Carrier::new(directory(&[("a.example", 9000), ("b.example", 9001), ("c.example", 9002)]));
    assert_eq!(incoming.to_poll(0), Some(0));
    assert_eq!(incoming.to_poll(1), Some(1));
    assert_eq!(incoming.to_poll(2), Some(2));
    // The queue of b gives a message: the next round begins at c.
    let (envelope, _rx) = Callback::new(request(1));
    match incoming.answered(1, Polled::Ready(Some(envelope))) {
        Some((node, envelope)) => {
            assert_eq!(node, "b.example");
            assert_eq!(envelope.message, request(1));
        },
        None => panic!("no request"),
    }
    assert_eq!(incoming.to_poll(0), Some(2));
    assert_eq!(incoming.to_poll(1), Some(0));
    assert_eq!(incoming.to_poll(2), Some(1));
    // The queue of c gives a message: the next round begins at a again.
    let (envelope, _rx) = Callback::new(request(2));
    assert!(incoming.answered(2, Polled::Ready(Some(envelope))).is_some());
    assert_eq!(incoming.to_poll(0), Some(0));
    assert_eq!(incoming.to_poll(1), Some(1));
    assert_eq!(incoming.to_poll(2), Some(2));
}

#[test]
fn queue_that_told_its_end_is_not_polled_again() {
    let (_carrier, mut incoming, _outgoing) =
        Carrier::new(directory(&[("a.example", 9000), ("b.example", 9001)]));
    assert!(matches!(incoming.quiet(), Polled::Pending));
    assert!(incoming.answered(0, Polled::Pending).is_none());
    assert_eq!(incoming.to_poll(0), Some(0));
    assert!(incoming.answered(0, Polled::Ready(None)).is_none());
    assert_eq!(incoming.to_poll(0), None);
    assert_eq!(incoming.to_poll(1), Some(1));
    assert!(matches!(incoming.quiet(), Polled::Pending));
    assert!(incoming.answered(1, Polled::Ready(None)).is_none());
    assert_eq!(incoming.to_poll(1), None);
    assert!(matches!(incoming.quiet(), Polled::Ready(None)));
}
