use relay_bus::balancer::{AttachPoint, Balancer};
use relay_bus::channel::Upstream;
use relay_bus::connection::{ActorMessage, Connection};
use relay_bus::mailbox::new_mailbox;
use relay_bus::topology::build;

#[test]
fn built_tree_has_the_requested_shape() {
    let topo = build(2, 3, 64).unwrap();
    assert!(topo.root.node.at_root());
    assert_eq!(topo.mids.len(), 2);
    assert_eq!(topo.bottoms.len(), 6);

    // Identities are pairwise distinct: the sequence counter never reuses.
    let mut ids = vec![topo.root.node.node_id()];
    for m in topo.mids.iter() {
        ids.push(m.node.node_id());
    }
    for b in topo.bottoms.iter() {
        ids.push(b.node.node_id());
    }
    let mut sorted = ids.clone();
    sorted.sort();
    sorted.dedup();
    assert_eq!(sorted.len(), ids.len());
    assert_eq!(ids.len(), 9);

    // Every intermediate node hangs under the root, and the k-th bottom
    // node under intermediate node k / 3.
    for m in topo.mids.iter() {
        match &m.node.upstream {
            Upstream::Parent { pid, .. } => assert_eq!(*pid, topo.root.node.node_id()),
            Upstream::Root => panic!("an intermediate node must have a parent"),
        }
    }
    for (k, b) in topo.bottoms.iter().enumerate() {
        match &b.node.upstream {
            Upstream::Parent { pid, .. } => {
                assert_eq!(*pid, topo.mids[k / 3].node.node_id())
            }
            Upstream::Root => panic!("a bottom node must have a parent"),
        }
    }

    // Session identities continue after the skeleton's: never a collision.
    assert!(ids.iter().all(|&i| i < topo.ids.next));
}

#[test]
fn attachment_points_are_the_bottom_layer() {
    let topo = build(2, 3, 64).unwrap();
    let points = topo.attachment_points();
    let point_ids: Vec<u64> = points.iter().map(|p| p.id).collect();
    let bottom_ids: Vec<u64> = topo.bottoms.iter().map(|b| b.node.node_id()).collect();
    assert_eq!(point_ids, bottom_ids);
}

#[test]
fn attachment_points_fall_back_to_the_mid_layer() {
    let topo = build(3, 0, 64).unwrap();
    let points = topo.attachment_points();
    let point_ids: Vec<u64> = points.iter().map(|p| p.id).collect();
    let mid_ids: Vec<u64> = topo.mids.iter().map(|m| m.node.node_id()).collect();
    assert_eq!(point_ids, mid_ids);
}

#[test]
fn pick_from_an_empty_pool_is_none() {
    let balancer = Balancer::new(Vec::new());
    assert!(balancer.pick().is_none());
}

#[test]
fn pick_returns_a_pool_member() {
    let topo = build(1, 1, 16).unwrap();
    let points = topo.attachment_points();
    let only_id = points[0].id;
    let balancer = Balancer::new(points);
    // With one point in the pool, the random pick can only return it.
    let picked = balancer.pick().unwrap();
    assert_eq!(picked.id, only_id);
}

#[test]
fn pick_stays_within_a_larger_pool() {
    let topo = build(2, 2, 64).unwrap();
    let points = topo.attachment_points();
    let ids: Vec<u64> = points.iter().map(|p| p.id).collect();
    let balancer = Balancer::new(points);
    for _ in 0..32 {
        let picked = balancer.pick().unwrap();
        assert!(ids.contains(&picked.id));
    }
}

#[test]
fn a_handle_enqueues_for_its_node() {
    let mut topo = build(1, 1, 8).unwrap();
    let bottom = &mut topo.bottoms[0];
    assert_eq!(
        bottom
            .handle
            .send_message(relay_bus::channel::ActorMessage::Leave(42)),
        Ok(())
    );
    match bottom.inbox.try_recv() {
        Ok(relay_bus::channel::ActorMessage::Leave(id)) => assert_eq!(id, 42),
        _ => panic!("the message must arrive in this node's mailbox"),
    }
}

#[test]
fn a_session_knows_its_identity() {
    let mut topo = build(1, 1, 16).unwrap();
    let points = topo.attachment_points();
    let id = topo.ids.fresh();
    let (tx, _rx) = new_mailbox::<ActorMessage>(4);
    let conn = Connection::attach(id, points[0].duplicate().handle, tx).unwrap();
    assert_eq!(conn.get_id(), id);
}

#[test]
fn duplicated_points_reach_the_same_mailbox() {
    // A duplicate is a capability on the same queue, not a new queue.
    let mut topo = build(1, 1, 16).unwrap();
    let points = topo.attachment_points();
    let dup: AttachPoint = points[0].duplicate();
    let id = topo.ids.fresh();
    let (tx, _rx) = new_mailbox::<ActorMessage>(4);
    Connection::attach(id, dup.handle, tx).unwrap();
    // The join sent through the duplicate arrives at the original node.
    let bottom = &mut topo.bottoms[0];
    let mut joined: usize = 0;
    while let Ok(m) = bottom.inbox.try_recv() {
        bottom.node.handle(m);
        joined += 1;
    }
    assert_eq!(joined, 1);
    assert_eq!(bottom.node.member_id_list(), vec![id]);
}
