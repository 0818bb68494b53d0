use relay_bus::channel;
use relay_bus::channel::Upstream;
use relay_bus::connection::{ActorMessage, Connection, Effect};
use relay_bus::mailbox::new_mailbox;
use relay_bus::topology::{build, Node, Topology};

fn pump_node(n: &mut Node) -> usize {
    let mut moved: usize = 0;
    while let Ok(m) = n.inbox.try_recv() {
        let out = n.node.handle(m);
        // The driving task relays an upward payload through the node's
        // recorded parent, exactly as instructed.
        if let Some(text) = out.sent_up {
            if let Upstream::Parent { handle, .. } = &n.node.upstream {
                handle
                    .send_message(relay_bus::channel::ActorMessage::Aggregate(text))
                    .unwrap();
            }
        }
        moved += 1;
    }
    moved
}

fn settle(t: &mut Topology) {
    loop {
        let mut moved: usize = pump_node(&mut t.root);
        for m in t.mids.iter_mut() {
            moved += pump_node(m);
        }
        for b in t.bottoms.iter_mut() {
            moved += pump_node(b);
        }
        if moved == 0 {
            break;
        }
    }
}

fn attach_session(
    t: &mut Topology,
    point: &relay_bus::balancer::AttachPoint,
    cap: usize,
) -> (Connection, tokio::sync::mpsc::Receiver<ActorMessage>) {
    let id = t.ids.fresh();
    let (tx, rx) = new_mailbox::<ActorMessage>(cap);
    let conn = Connection::attach(id, point.duplicate().handle, tx).unwrap();
    (conn, rx)
}

// Performs the decided effect against the parent relay, as the session's
// task would; returns whether the session asked to stop.
fn step(conn: &Connection, msg: ActorMessage) -> bool {
    match conn.handle(msg) {
        Effect::Forward(m) => {
            conn.upstream.send_message(m).unwrap();
            false
        }
        Effect::Write(_) => false,
        Effect::Stop(m) => {
            conn.upstream.send_message(m).unwrap();
            true
        }
    }
}

fn drain(rx: &mut tokio::sync::mpsc::Receiver<ActorMessage>) -> Vec<String> {
    let mut texts = Vec::new();
    while let Ok(m) = rx.try_recv() {
        match m {
            ActorMessage::Outbound(t) => texts.push(t),
            _ => panic!("a session mailbox only ever receives outbound text"),
        }
    }
    texts
}

#[test]
fn ping_reaches_both_sessions() {
    // A single bottom relay under a single root path; A and B attached.
    let mut topo = build(1, 1, 64).unwrap();
    let points = topo.attachment_points();
    assert_eq!(points.len(), 1);
    let (conn_a, mut rx_a) = attach_session(&mut topo, &points[0], 8);
    let (conn_b, mut rx_b) = attach_session(&mut topo, &points[0], 8);
    settle(&mut topo);
    assert_eq!(topo.bottoms[0].node.member_count(), 2);

    // A sends "ping": the session decides on exactly one upward
    // Aggregate with the payload unchanged, and its task performs it.
    match conn_a.handle(ActorMessage::Inbound(String::from("ping"))) {
        Effect::Forward(channel::ActorMessage::Aggregate(t)) => {
            assert_eq!(t, "ping");
            conn_a
                .upstream
                .send_message(channel::ActorMessage::Aggregate(t))
                .unwrap();
        }
        _ => panic!("inbound text must become one upward aggregate"),
    }
    settle(&mut topo);
    let got_a = drain(&mut rx_a);
    let got_b = drain(&mut rx_b);
    assert_eq!(got_a, vec![String::from("ping")]);
    assert_eq!(got_b, vec![String::from("ping")]);

    // Delivering the outbound text is a write request to the transport.
    match conn_b.handle(ActorMessage::Outbound(String::from("ping"))) {
        Effect::Write(t) => assert_eq!(t, "ping"),
        _ => panic!("outbound text must become a transport write"),
    }
}

#[test]
fn disconnect_unsubscribes_the_leaver() {
    let mut topo = build(1, 1, 64).unwrap();
    let points = topo.attachment_points();
    let (conn_a, mut rx_a) = attach_session(&mut topo, &points[0], 8);
    let (conn_b, mut rx_b) = attach_session(&mut topo, &points[0], 8);
    settle(&mut topo);
    assert_eq!(topo.bottoms[0].node.member_count(), 2);

    // A's transport closes: the session decides on exactly one Leave
    // under its own identity, and asks to stop.
    match conn_a.handle(ActorMessage::Closed) {
        Effect::Stop(channel::ActorMessage::Leave(id)) => {
            assert_eq!(id, conn_a.get_id());
            conn_a
                .upstream
                .send_message(channel::ActorMessage::Leave(id))
                .unwrap();
        }
        _ => panic!("a closed transport must become one upward leave"),
    }
    settle(&mut topo);
    assert_eq!(topo.bottoms[0].node.member_count(), 1);
    assert_eq!(
        topo.bottoms[0].node.member_id_list(),
        vec![conn_b.get_id()]
    );

    // B sends "hello": only B receives it.
    assert!(!step(&conn_b, ActorMessage::Inbound(String::from("hello"))));
    settle(&mut topo);
    assert_eq!(drain(&mut rx_a), Vec::<String>::new());
    assert_eq!(drain(&mut rx_b), vec![String::from("hello")]);
}

#[test]
fn attach_fails_when_the_relay_mailbox_is_gone() {
    let mut topo = build(1, 1, 4).unwrap();
    let points = topo.attachment_points();
    // Drop the bottom relay entirely: its mailbox closes.
    topo.bottoms.clear();
    let id = topo.ids.fresh();
    let (tx, _rx) = new_mailbox::<ActorMessage>(4);
    let r = Connection::attach(id, points[0].duplicate().handle, tx);
    assert!(matches!(r, Err(relay_bus::mailbox::SendError::Closed)));
}

#[test]
fn flat_shape_attaches_at_the_root() {
    // Zero internal layers reproduce the flat, single-hub case.
    let mut topo = build(0, 0, 16).unwrap();
    let points = topo.attachment_points();
    assert_eq!(points.len(), 1);
    assert_eq!(points[0].id, topo.root.node.node_id());
    let (conn_a, mut rx_a) = attach_session(&mut topo, &points[0], 8);
    let (_conn_b, mut rx_b) = attach_session(&mut topo, &points[0], 8);
    settle(&mut topo);
    assert_eq!(topo.root.node.member_count(), 2);
    assert!(!step(&conn_a, ActorMessage::Inbound(String::from("hi"))));
    settle(&mut topo);
    assert_eq!(drain(&mut rx_a), vec![String::from("hi")]);
    assert_eq!(drain(&mut rx_b), vec![String::from("hi")]);
}

#[test]
fn channel_message_paths_are_exercised_end_to_end() {
    // A broadcast travels root -> mid -> bottom -> session.
    let mut topo = build(2, 2, 64).unwrap();
    let points = topo.attachment_points();
    assert_eq!(points.len(), 4);
    let (_conn, mut rx) = attach_session(&mut topo, &points[3], 8);
    settle(&mut topo);
    // Hand the root an aggregate directly, as if it bubbled all the way up.
    topo.root
        .node
        .handle(channel::ActorMessage::Aggregate(String::from("down")));
    settle(&mut topo);
    assert_eq!(drain(&mut rx), vec![String::from("down")]);
}
