use relay_bus::channel::{ActorMessage, Channel, ChildHandle, Upstream};
use relay_bus::connection;
use relay_bus::mailbox::{mailbox_send, new_mailbox, SendError};

fn session_handle(cap: usize) -> (
    ChildHandle,
    tokio::sync::mpsc::Receiver<connection::ActorMessage>,
) {
    let (tx, rx) = new_mailbox::<connection::ActorMessage>(cap);
    (ChildHandle::Session(tx), rx)
}

#[test]
fn join_twice_keeps_one_entry() {
    let mut node = Channel::new_root(0);
    let (h1, _rx1) = session_handle(8);
    let (h1b, _rx1b) = session_handle(8);
    node.handle(ActorMessage::Join(7, h1));
    assert_eq!(node.member_count(), 1);
    node.handle(ActorMessage::Join(7, h1b));
    assert_eq!(node.member_count(), 1);
    assert_eq!(node.member_id_list(), vec![7]);
}

#[test]
fn leave_absent_is_noop() {
    let mut node = Channel::new_root(0);
    let (h1, _rx1) = session_handle(8);
    node.handle(ActorMessage::Join(7, h1));
    node.handle(ActorMessage::Leave(99));
    assert_eq!(node.member_count(), 1);
    assert_eq!(node.member_id_list(), vec![7]);
}

#[test]
fn leave_present_removes_exactly_one() {
    let mut node = Channel::new_root(0);
    let (h1, _rx1) = session_handle(8);
    let (h2, _rx2) = session_handle(8);
    node.handle(ActorMessage::Join(1, h1));
    node.handle(ActorMessage::Join(2, h2));
    assert_eq!(node.member_count(), 2);
    node.handle(ActorMessage::Leave(1));
    assert_eq!(node.member_id_list(), vec![2]);
}

#[test]
fn send_to_full_mailbox_reports_full() {
    let (tx, _rx) = new_mailbox::<connection::ActorMessage>(1);
    assert_eq!(
        mailbox_send(&tx, connection::ActorMessage::Outbound(String::from("a"))),
        Ok(())
    );
    assert_eq!(
        mailbox_send(&tx, connection::ActorMessage::Outbound(String::from("b"))),
        Err(SendError::Full)
    );
}

#[test]
fn send_to_dropped_receiver_reports_closed() {
    let (tx, rx) = new_mailbox::<connection::ActorMessage>(4);
    drop(rx);
    assert_eq!(
        mailbox_send(&tx, connection::ActorMessage::Closed),
        Err(SendError::Closed)
    );
}

#[test]
fn closed_member_is_pruned_on_the_failing_pass() {
    let mut node = Channel::new_root(0);
    let (h1, mut rx1) = session_handle(8);
    let (h2, rx2) = session_handle(8);
    node.handle(ActorMessage::Join(1, h1));
    node.handle(ActorMessage::Join(2, h2));
    drop(rx2);
    let out = node.handle(ActorMessage::Aggregate(String::from("x")));
    assert_eq!(out.delivered, vec![1]);
    assert_eq!(out.pruned, vec![2]);
    assert_eq!(node.member_id_list(), vec![1]);
    assert_eq!(
        rx1.try_recv(),
        Ok(connection::ActorMessage::Outbound(String::from("x")))
    );
    // The next pass no longer attempts the pruned member.
    let out2 = node.handle(ActorMessage::Aggregate(String::from("y")));
    assert_eq!(out2.delivered, vec![1]);
    assert_eq!(out2.pruned, Vec::<u64>::new());
}

#[test]
fn full_member_is_pruned_like_a_closed_one() {
    let mut node = Channel::new_root(0);
    let (h1, _rx1) = session_handle(1);
    node.handle(ActorMessage::Join(1, h1));
    let first = node.handle(ActorMessage::Aggregate(String::from("fills"))); // fills the mailbox
    assert_eq!(first.delivered, vec![1]);
    let second = node.handle(ActorMessage::Aggregate(String::from("overflows")));
    assert_eq!(second.delivered, Vec::<u64>::new());
    assert_eq!(second.pruned, vec![1]);
    assert_eq!(node.member_count(), 0);
}

#[test]
fn non_root_aggregate_keeps_members_untouched() {
    // A child relay under a parent: its Aggregate goes upward, not out.
    let mut topo = relay_bus::topology::build(1, 0, 8).unwrap();
    let mut child = topo.mids.pop().unwrap();
    // The creation Join is already in the parent's mailbox.
    assert!(matches!(
        topo.root.inbox.try_recv(),
        Ok(ActorMessage::Join(1, _))
    ));
    let (h1, _rx1) = session_handle(8);
    child.node.handle(ActorMessage::Join(10, h1));
    let out = child.node.handle(ActorMessage::Aggregate(String::from("up")));
    // A non-root node delivers nothing locally; it hands the unchanged
    // payload back for its task to relay upward.
    assert_eq!(out.sent_up, Some(String::from("up")));
    assert_eq!(out.delivered, Vec::<u64>::new());
    assert_eq!(child.node.member_count(), 1);
    if let Some(text) = out.sent_up {
        match &child.node.upstream {
            Upstream::Parent { handle, .. } => {
                handle.send_message(ActorMessage::Aggregate(text)).unwrap()
            }
            Upstream::Root => panic!("this node has a parent"),
        }
    }
    match topo.root.inbox.try_recv() {
        Ok(ActorMessage::Aggregate(t)) => assert_eq!(t, "up"),
        _ => panic!("expected the aggregate upward"),
    }
}
