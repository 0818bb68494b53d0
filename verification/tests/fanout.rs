use relay_bus::channel::Upstream;
use relay_bus::connection::{ActorMessage, Connection, Effect};
use relay_bus::mailbox::new_mailbox;
use relay_bus::topology::{build, Node, Topology};

fn pump_node(n: &mut Node) -> usize {
    let mut moved: usize = 0;
    while let Ok(m) = n.inbox.try_recv() {
        let out = n.node.handle(m);
        // The driving task relays an upward payload through the node's
        // recorded parent, exactly as instructed.
        if let Some(text) = out.sent_up {
            if let Upstream::Parent { handle, .. } = &n.node.upstream {
                handle
                    .send_message(relay_bus::channel::ActorMessage::Aggregate(text))
                    .unwrap();
            }
        }
        moved += 1;
    }
    moved
}

fn settle_tree(t: &mut Topology) {
    loop {
        let mut moved: usize = pump_node(&mut t.root);
        for m in t.mids.iter_mut() {
            moved += pump_node(m);
        }
        for b in t.bottoms.iter_mut() {
            moved += pump_node(b);
        }
        if moved == 0 {
            break;
        }
    }
}

#[test]
fn one_inbound_reaches_all_250_sessions_once() {
    // The reference shape: 5 intermediate relays, 50 bottom relays under
    // each, one session under each of the 250 bottom relays.
    let mut topo = build(5, 50, 128).unwrap();
    let points = topo.attachment_points();
    assert_eq!(points.len(), 250);

    let mut sessions: Vec<(Connection, tokio::sync::mpsc::Receiver<ActorMessage>)> = Vec::new();
    for p in points.iter() {
        let id = topo.ids.fresh();
        let (tx, rx) = new_mailbox::<ActorMessage>(8);
        let conn = Connection::attach(id, p.duplicate().handle, tx).unwrap();
        sessions.push((conn, rx));
    }
    settle_tree(&mut topo);
    for b in topo.bottoms.iter() {
        assert_eq!(b.node.member_count(), 1);
    }

    // One message from one arbitrary session; its task performs the
    // decided upward forward.
    match sessions[137].0.handle(ActorMessage::Inbound(String::from("fan"))) {
        Effect::Forward(m) => sessions[137].0.upstream.send_message(m).unwrap(),
        _ => panic!("inbound text must become one upward aggregate"),
    }
    settle_tree(&mut topo);

    // Exactly 250 outbound deliveries, one per session, sender included.
    let mut total: usize = 0;
    for (_, rx) in sessions.iter_mut() {
        let mut here: usize = 0;
        while let Ok(m) = rx.try_recv() {
            match m {
                ActorMessage::Outbound(t) => {
                    assert_eq!(t, "fan");
                    here += 1;
                }
                _ => panic!("a session mailbox only ever receives outbound text"),
            }
        }
        assert_eq!(here, 1);
        total += here;
    }
    assert_eq!(total, 250);
}
