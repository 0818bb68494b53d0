//! The relay node: a non-leaf actor of the broadcast tree. It keeps a
//! membership set of children, aggregates inbound text toward its
//! upstream, and fans outbound text down to every member, pruning any
//! member whose mailbox can no longer take a message.

use vstd::prelude::*;
use crate::connection;
use crate::mailbox::{mailbox_send, RelayHandle, SendError};

verus! {

/// A capability to deliver a broadcast to one member: either a further
/// relay node, or a leaf session.
pub enum ChildHandle {
    Relay(RelayHandle),
    Session(tokio::sync::mpsc::Sender<connection::ActorMessage>),
}

impl ChildHandle {
    /// A further capability on the same member's mailbox — the same
    /// handle as a value, so an entry built from it still names the same
    /// member.
    pub fn duplicate(&self) -> (r: ChildHandle)
        ensures
            r == *self,
    {
        match self {
            ChildHandle::Relay(h) => ChildHandle::Relay(h.duplicate()),
            ChildHandle::Session(s) => ChildHandle::Session(s.clone()),
        }
    }

    /// Hands `text` to the member: a relay child receives it as a
    /// `Broadcast` to pass further down, a session child as an `Outbound`
    /// to write to its client — in both shapes the payload handed to the
    /// mailbox is built by a constructor whose contract pins it to `text`
    /// unchanged.
    fn deliver(&self, text: &String) -> Result<(), SendError> {
        match self {
            ChildHandle::Relay(h) => mailbox_send(h.raw(), broadcast_of(text)),
            ChildHandle::Session(s) => mailbox_send(s, connection::outbound_of(text)),
        }
    }
}

/// The messages a relay node takes, one at a time, in arrival order.
pub enum ActorMessage {
    /// A child announces itself under a stable identity; a repeat for the
    /// same identity only replaces the stored handle.
    Join(u64, ChildHandle),
    /// A child withdraws; an identity not in the set is a no-op.
    Leave(u64),
    /// Text bubbling up from a child toward the root.
    Aggregate(String),
    /// Text coming down from the parent, to be delivered to every member.
    Broadcast(String),
}

/// A relay node's place in the tree: the unique root, or a child of the
/// relay node with the given identity.
pub enum Upstream {
    Root,
    Parent { pid: u64, handle: RelayHandle },
}

/// One membership entry: a member's stable identity and the capability to
/// reach its mailbox.
pub struct Member {
    pub id: u64,
    pub handle: ChildHandle,
}

/// The relay node's state: its own identity, its place in the tree, and
/// the membership set, held exclusively by this node.
pub struct Channel {
    pub id: u64,
    pub upstream: Upstream,
    pub members: Vec<Member>,
}

/// What one processed message did: which members took the delivery,
/// which were pruned because their mailbox refused it, and — for a node
/// with a parent — the text to be relayed upward unchanged, as data for
/// the caller to hand to the upstream mailbox.
pub struct Outcome {
    pub delivered: Vec<u64>,
    pub pruned: Vec<u64>,
    pub sent_up: Option<String>,
}

/// The membership set after a `Join`: unchanged as a set of identities if
/// the identity was present (the handle is replaced), otherwise grown by
/// exactly that identity.
pub open spec fn join_ids(s: Seq<u64>, id: u64) -> Seq<u64> {
    if s.contains(id) {
        s
    } else {
        s.push(id)
    }
}

/// The membership set after a `Leave`: the one entry for the identity is
/// gone if it was present, and nothing changes otherwise.
pub open spec fn leave_ids(s: Seq<u64>, id: u64) -> Seq<u64> {
    if s.contains(id) {
        s.remove(s.index_of(id))
    } else {
        s
    }
}

/// The identities of a membership list, in order.
pub open spec fn ids_of_members(s: Seq<Member>) -> Seq<u64> {
    s.map_values(|m: Member| m.id)
}

/// Whether some entry carries this identity.
pub open spec fn has_member(s: Seq<Member>, id: u64) -> bool {
    exists|i: int| 0 <= i < s.len() && s[i].id == id
}

/// The index of the entry carrying this identity; with unique keys there
/// is exactly one.
pub open spec fn member_index(s: Seq<Member>, id: u64) -> int {
    choose|i: int| 0 <= i < s.len() && s[i].id == id
}

/// The whole membership — identities with their stored handles — after a
/// `Join`: the entry for a present identity is overwritten with the newly
/// joined handle, every other entry untouched; an absent identity is
/// appended with its handle.
pub open spec fn join_members(s: Seq<Member>, id: u64, h: ChildHandle) -> Seq<Member> {
    if has_member(s, id) {
        s.update(member_index(s, id), Member { id, handle: h })
    } else {
        s.push(Member { id, handle: h })
    }
}

/// The whole membership after a `Leave`: the one entry for a present
/// identity is gone, every other entry untouched with its handle; an
/// absent identity changes nothing at all.
pub open spec fn leave_members(s: Seq<Member>, id: u64) -> Seq<Member> {
    if has_member(s, id) {
        s.remove(member_index(s, id))
    } else {
        s
    }
}

/// The entry `m` is one of the entries of `pre`, identity and stored
/// handle both.
pub open spec fn entry_from(pre: Seq<Member>, m: Member) -> bool {
    exists|k: int| 0 <= k < pre.len() && m == #[trigger] pre[k]
}

/// Every entry of `post` is one of the entries of `pre`, identity and
/// stored handle both: nothing was invented, and no surviving member's
/// handle changed.
pub open spec fn entries_kept(pre: Seq<Member>, post: Seq<Member>) -> bool {
    forall|j: int| 0 <= j < post.len() ==> entry_from(pre, #[trigger] post[j])
}

/// The announcement a joining member sends to its parent relay: its
/// stable identity together with its own mailbox.
pub fn join_announcement(id: u64, handle: ChildHandle) -> (m: ActorMessage)
    ensures
        m == ActorMessage::Join(id, handle),
{
    ActorMessage::Join(id, handle)
}

/// The message one broadcast pass hands to a relay child: the broadcast
/// payload, unchanged, to be passed further down.
pub fn broadcast_of(text: &String) -> (m: ActorMessage)
    ensures
        m == ActorMessage::Broadcast(*text),
{
    ActorMessage::Broadcast(text.clone())
}

/// One broadcast pass over the membership identities `pre`: every member
/// is attempted exactly once; `delivered` are those whose mailbox took the
/// message, `pruned` those whose mailbox refused it and who are therefore
/// no longer members; `post` is the membership left behind.
pub open spec fn broadcast_post(
    pre: Seq<u64>,
    delivered: Seq<u64>,
    pruned: Seq<u64>,
    post: Seq<u64>,
) -> bool {
    &&& post == delivered
    &&& delivered.no_duplicates()
    &&& pruned.no_duplicates()
    &&& (forall|x: u64| delivered.contains(x) ==> pre.contains(x))
    &&& (forall|x: u64| pruned.contains(x) ==> pre.contains(x))
    &&& (forall|x: u64| pre.contains(x) ==> delivered.contains(x) || pruned.contains(x))
    &&& (forall|x: u64| !(delivered.contains(x) && pruned.contains(x)))
    &&& delivered.len() + pruned.len() == pre.len()
}

impl Channel {
    /// The membership set as the sequence of member identities.
    pub open spec fn member_ids(self) -> Seq<u64> {
        self.members@.map_values(|m: Member| m.id)
    }

    /// Identities are keys: each appears at most once.
    pub open spec fn wf(self) -> bool {
        self.member_ids().no_duplicates()
    }

    pub open spec fn is_root(self) -> bool {
        self.upstream is Root
    }

    /// The identity of the parent relay node, if any.
    pub open spec fn parent(self) -> Option<u64> {
        match self.upstream {
            Upstream::Root => None,
            Upstream::Parent { pid, .. } => Some(pid),
        }
    }

    /// The unique root relay: no upstream, an empty membership set.
    pub fn new_root(id: u64) -> (c: Channel)
        ensures
            c.wf(),
            c.id == id,
            c.is_root(),
            c.member_ids() =~= Seq::<u64>::empty(),
    {
        Channel { id, upstream: Upstream::Root, members: Vec::new() }
    }

    /// A relay node created under a parent: the very capability handed
    /// in is what it stores as its upstream, so its aggregates can only
    /// go to that parent. As its first act it announces its own mailbox
    /// upward with a `Join`; if even that enqueue fails, the node is
    /// never considered part of the tree and the error is handed back.
    pub fn new_under(
        id: u64,
        parent_id: u64,
        parent: &RelayHandle,
        own: RelayHandle,
    ) -> (r: Result<Channel, SendError>)
        ensures
            r matches Ok(c) ==> {
                &&& c.wf()
                &&& c.id == id
                &&& c.upstream == (Upstream::Parent { pid: parent_id, handle: *parent })
                &&& c.parent() == Some(parent_id)
                &&& c.member_ids() =~= Seq::<u64>::empty()
            },
    {
        match mailbox_send(parent.raw(), join_announcement(id, ChildHandle::Relay(own))) {
            Ok(_) => Ok(
                Channel {
                    id,
                    upstream: Upstream::Parent { pid: parent_id, handle: parent.duplicate() },
                    members: Vec::new(),
                },
            ),
            Err(e) => Err(e),
        }
    }

    /// The index of the member with this identity, if present.
    fn find_member(&self, id: u64) -> (r: Option<usize>)
        ensures
            match r {
                Some(i) => i < self.members@.len() && self.members@[i as int].id == id,
                None => !self.member_ids().contains(id),
            },
    {
        let n = self.members.len();
        let mut i: usize = 0;
        while i < n
            invariant
                i <= n,
                n == self.members@.len(),
                forall|j: int| 0 <= j < i ==> self.members@[j].id != id,
            decreases n - i,
        {
            if self.members[i].id == id {
                return Some(i);
            }
            i += 1;
        }
        assert(forall|j: int| 0 <= j < self.member_ids().len() ==> self.member_ids()[j] != id);
        None
    }

    /// Inserts or replaces the member under `id`: a repeat Join for a
    /// present identity overwrites the stored handle with the newly
    /// joined one and touches nothing else; a fresh identity is appended
    /// with its handle.
    fn join(&mut self, id: u64, handle: ChildHandle)
        requires
            old(self).wf(),
        ensures
            final(self).wf(),
            final(self).id == old(self).id,
            final(self).upstream == old(self).upstream,
            final(self).member_ids() == join_ids(old(self).member_ids(), id),
            final(self).members@ == join_members(old(self).members@, id, handle),
    {
        let ghost s = old(self).members@;
        let found = self.find_member(id);
        match found {
            Some(i) => {
                proof {
                    assert(old(self).member_ids().contains(id)) by {
                        assert(old(self).member_ids()[i as int] == id);
                    }
                    assert(has_member(s, id)) by {
                        assert(s[i as int].id == id);
                    }
                    assert(member_index(s, id) == i as int) by {
                        let w = member_index(s, id);
                        assert(0 <= w < s.len() && s[w].id == id);
                        if w != i as int {
                            assert(old(self).member_ids()[w] == old(self).member_ids()[i as int]);
                            assert(!old(self).member_ids().no_duplicates());
                        }
                    }
                }
                self.members.set(i, Member { id, handle });
                assert(self.member_ids() =~= old(self).member_ids());
            },
            None => {
                proof {
                    assert(!has_member(s, id)) by {
                        if has_member(s, id) {
                            let w = member_index(s, id);
                            assert(old(self).member_ids()[w] == id);
                            assert(old(self).member_ids().contains(id));
                        }
                    }
                }
                self.members.push(Member { id, handle });
                assert(self.member_ids() =~= old(self).member_ids().push(id));
                assert(self.wf()) by {
                    let pre = old(self).member_ids();
                    assert(forall|j: int, k: int|
                        0 <= j < self.member_ids().len() && 0 <= k < j
                            ==> self.member_ids()[j] != self.member_ids()[k]) by {
                        assert(forall|j: int| 0 <= j < pre.len() ==> self.member_ids()[j] == pre[j]);
                    }
                }
            },
        }
    }

    /// Removes the member under `id` if present, leaving every other
    /// entry untouched with its handle; a `Leave` for an absent identity
    /// is a no-op on the whole state, not an error.
    fn leave(&mut self, id: u64)
        requires
            old(self).wf(),
        ensures
            final(self).wf(),
            final(self).id == old(self).id,
            final(self).upstream == old(self).upstream,
            final(self).member_ids() == leave_ids(old(self).member_ids(), id),
            final(self).members@ == leave_members(old(self).members@, id),
    {
        let ghost s = old(self).members@;
        let found = self.find_member(id);
        match found {
            Some(i) => {
                let pre = Ghost(old(self).member_ids());
                self.members.remove(i);
                proof {
                    assert(pre@.contains(id)) by {
                        assert(pre@[i as int] == id);
                    }
                    assert(pre@.index_of(id) == i as int) by {
                        let w = pre@.index_of(id);
                        assert(pre@[w] == id && 0 <= w < pre@.len());
                        if w != i as int {
                            assert(pre@[w] == pre@[i as int]);
                            assert(!pre@.no_duplicates());
                        }
                    }
                    assert(has_member(s, id)) by {
                        assert(s[i as int].id == id);
                    }
                    assert(member_index(s, id) == i as int) by {
                        let w = member_index(s, id);
                        assert(0 <= w < s.len() && s[w].id == id);
                        if w != i as int {
                            assert(pre@[w] == pre@[i as int]);
                            assert(!pre@.no_duplicates());
                        }
                    }
                    assert(self.member_ids() =~= pre@.remove(i as int));
                    assert(self.member_ids().no_duplicates());
                }
            },
            None => {
                proof {
                    assert(!has_member(s, id)) by {
                        if has_member(s, id) {
                            let w = member_index(s, id);
                            assert(old(self).member_ids()[w] == id);
                            assert(old(self).member_ids().contains(id));
                        }
                    }
                }
            },
        }
    }

    /// One broadcast pass: delivery of `text` is attempted for every
    /// current member exactly once, iterating the point-in-time
    /// membership; a member whose mailbox refuses the message is pruned
    /// from the live set on that very attempt, so the membership left
    /// behind is exactly the members that took the delivery.
    fn fan_out(&mut self, text: &String) -> (r: Outcome)
        requires
            old(self).wf(),
        ensures
            final(self).wf(),
            final(self).id == old(self).id,
            final(self).upstream == old(self).upstream,
            broadcast_post(
                old(self).member_ids(),
                r.delivered@,
                r.pruned@,
                final(self).member_ids(),
            ),
            entries_kept(old(self).members@, final(self).members@),
            r.sent_up is None,
    {
        broadcast use vstd::seq_lib::group_seq_properties;
        broadcast use vstd::prelude::Seq::lemma_take_succ_push;

        let ghost pre = old(self).member_ids();
        let mut survivors: Vec<Member> = Vec::new();
        let mut delivered: Vec<u64> = Vec::new();
        let mut pruned: Vec<u64> = Vec::new();
        let n = self.members.len();
        let mut k: usize = 0;
        while k < n
            invariant
                k <= n,
                self.members@ == old(self).members@,
                n == self.members@.len(),
                pre == self.member_ids(),
                pre.no_duplicates(),
                survivors@.map_values(|m: Member| m.id) == delivered@,
                entries_kept(self.members@, survivors@),
                delivered@.len() + pruned@.len() == k,
                forall|x: u64| delivered@.contains(x) ==> pre.take(k as int).contains(x),
                forall|x: u64| pruned@.contains(x) ==> pre.take(k as int).contains(x),
                forall|j: int| 0 <= j < k ==> delivered@.contains(pre[j]) || pruned@.contains(pre[j]),
                forall|x: u64| !(delivered@.contains(x) && pruned@.contains(x)),
                delivered@.no_duplicates(),
                pruned@.no_duplicates(),
            decreases n - k,
        {
            let ghost k0 = k as int;
            let ghost d0 = delivered@;
            let ghost p0 = pruned@;
            let m_id = self.members[k].id;
            proof {
                assert(pre[k0] == m_id);
                if d0.contains(m_id) || p0.contains(m_id) {
                    let s = pre.take(k0);
                    let j = choose|j: int| 0 <= j < s.len() && s[j] == m_id;
                    assert(pre[j] == pre[k0]);
                    assert(false);
                }
            }
            let ghost s0 = survivors@;
            let ok = self.members[k].handle.deliver(text).is_ok();
            if ok {
                let h = self.members[k].handle.duplicate();
                survivors.push(Member { id: m_id, handle: h });
                delivered.push(m_id);
                proof {
                    assert(survivors@.map_values(|m: Member| m.id) =~= delivered@);
                    assert(survivors@[s0.len() as int] == self.members@[k0]);
                    assert forall|j: int| 0 <= j < survivors@.len() implies entry_from(
                        self.members@,
                        survivors@[j],
                    ) by {
                        if j < s0.len() {
                            assert(survivors@[j] == s0[j]);
                            assert(entry_from(self.members@, s0[j]));
                        } else {
                            assert(survivors@[j] == self.members@[k0]);
                        }
                    }
                }
            } else {
                pruned.push(m_id);
            }
            k += 1;
            proof {
                assert(pre.take(k0 + 1) =~= pre.take(k0).push(m_id));
                assert forall|x: u64| delivered@.contains(x) implies pre.take(
                    k0 + 1,
                ).contains(x) by {
                    vstd::seq_lib::lemma_seq_contains_after_push(d0, m_id, x);
                    vstd::seq_lib::lemma_seq_contains_after_push(pre.take(k0), m_id, x);
                }
                assert forall|x: u64| pruned@.contains(x) implies pre.take(k0 + 1).contains(
                    x,
                ) by {
                    vstd::seq_lib::lemma_seq_contains_after_push(p0, m_id, x);
                    vstd::seq_lib::lemma_seq_contains_after_push(pre.take(k0), m_id, x);
                }
                assert forall|j: int| 0 <= j < k implies delivered@.contains(pre[j])
                    || pruned@.contains(pre[j]) by {
                    vstd::seq_lib::lemma_seq_contains_after_push(d0, m_id, pre[j]);
                    vstd::seq_lib::lemma_seq_contains_after_push(p0, m_id, pre[j]);
                }
                assert forall|x: u64| !(delivered@.contains(x) && pruned@.contains(x)) by {
                    vstd::seq_lib::lemma_seq_contains_after_push(d0, m_id, x);
                    vstd::seq_lib::lemma_seq_contains_after_push(p0, m_id, x);
                }
                assert(delivered@.no_duplicates() && pruned@.no_duplicates()) by {
                    if ok {
                        assert forall|i: int, j: int|
                            0 <= i < delivered@.len() && 0 <= j < delivered@.len() && i != j
                            implies delivered@[i] != delivered@[j] by {
                            if delivered@[i] == m_id && j < d0.len() {
                                assert(d0.contains(delivered@[j]) ==> pre.take(k0).contains(
                                    delivered@[j],
                                ));
                                assert(d0[j] == delivered@[j]);
                                assert(d0.contains(d0[j]));
                            }
                            if delivered@[j] == m_id && i < d0.len() {
                                assert(d0[i] == delivered@[i]);
                                assert(d0.contains(d0[i]));
                            }
                        }
                    } else {
                        assert forall|i: int, j: int|
                            0 <= i < pruned@.len() && 0 <= j < pruned@.len() && i != j
                            implies pruned@[i] != pruned@[j] by {
                            if pruned@[i] == m_id && j < p0.len() {
                                assert(p0[j] == pruned@[j]);
                                assert(p0.contains(p0[j]));
                            }
                            if pruned@[j] == m_id && i < p0.len() {
                                assert(p0[i] == pruned@[i]);
                                assert(p0.contains(p0[i]));
                            }
                        }
                    }
                }
            }
        }
        proof {
            assert(pre.take(n as int) =~= pre);
            assert forall|x: u64| delivered@.contains(x) implies pre.contains(x) by {}
            assert forall|x: u64| pre.contains(x) implies delivered@.contains(x)
                || pruned@.contains(x) by {
                let j = choose|j: int| 0 <= j < pre.len() && pre[j] == x;
            }
        }
        self.members = survivors;
        Outcome { delivered, pruned, sent_up: None }
    }

    /// Processes one message, in arrival order, with exclusive access to
    /// this node's state.
    ///
    /// `Join` and `Leave` edit the membership set and deliver nothing.
    /// At a node with a parent, `Aggregate` leaves the state untouched
    /// and comes back as `sent_up`: the unchanged payload, which the
    /// task driving this node hands to the parent's mailbox; at the
    /// root its arrival is the broadcast trigger. A `Broadcast` — and
    /// an `Aggregate` arriving at the root — is delivered to every
    /// current member, pruning every member whose mailbox refuses it.
    /// Failures during a broadcast never propagate to the sender of the
    /// original message; only the failing member is affected.
    pub fn handle(&mut self, msg: ActorMessage) -> (r: Outcome)
        requires
            old(self).wf(),
        ensures
            final(self).wf(),
            final(self).id == old(self).id,
            final(self).upstream == old(self).upstream,
            match msg {
                ActorMessage::Join(id, h) => {
                    &&& final(self).members@ == join_members(old(self).members@, id, h)
                    &&& final(self).member_ids() == join_ids(old(self).member_ids(), id)
                    &&& r.delivered@.len() == 0
                    &&& r.pruned@.len() == 0
                    &&& r.sent_up is None
                },
                ActorMessage::Leave(id) => {
                    &&& final(self).members@ == leave_members(old(self).members@, id)
                    &&& final(self).member_ids() == leave_ids(old(self).member_ids(), id)
                    &&& r.delivered@.len() == 0
                    &&& r.pruned@.len() == 0
                    &&& r.sent_up is None
                },
                ActorMessage::Aggregate(t) => if old(self).is_root() {
                    &&& broadcast_post(
                        old(self).member_ids(),
                        r.delivered@,
                        r.pruned@,
                        final(self).member_ids(),
                    )
                    &&& entries_kept(old(self).members@, final(self).members@)
                    &&& r.sent_up is None
                } else {
                    &&& final(self).members@ == old(self).members@
                    &&& r.delivered@.len() == 0
                    &&& r.pruned@.len() == 0
                    &&& r.sent_up == Some(t)
                },
                ActorMessage::Broadcast(_) => {
                    &&& broadcast_post(
                        old(self).member_ids(),
                        r.delivered@,
                        r.pruned@,
                        final(self).member_ids(),
                    )
                    &&& entries_kept(old(self).members@, final(self).members@)
                    &&& r.sent_up is None
                },
            },
    {
        match msg {
            ActorMessage::Join(id, h) => {
                self.join(id, h);
                Outcome { delivered: Vec::new(), pruned: Vec::new(), sent_up: None }
            },
            ActorMessage::Leave(id) => {
                self.leave(id);
                Outcome { delivered: Vec::new(), pruned: Vec::new(), sent_up: None }
            },
            ActorMessage::Aggregate(t) => {
                let root = matches!(self.upstream, Upstream::Root);
                if root {
                    self.fan_out(&t)
                } else {
                    Outcome { delivered: Vec::new(), pruned: Vec::new(), sent_up: Some(t) }
                }
            },
            ActorMessage::Broadcast(t) => self.fan_out(&t),
        }
    }

    /// This relay node's own identity.
    pub fn node_id(&self) -> (r: u64)
        ensures
            r == self.id,
    {
        self.id
    }

    /// Whether this node is the unique root relay.
    pub fn at_root(&self) -> (r: bool)
        ensures
            r == self.is_root(),
    {
        matches!(self.upstream, Upstream::Root)
    }

    /// How many members are currently in the set.
    pub fn member_count(&self) -> (r: usize)
        ensures
            r == self.member_ids().len(),
    {
        self.members.len()
    }

    /// Decides well-formedness at run time, for callers outside the
    /// verified world that must check it before handing messages in:
    /// true exactly when no member identity appears twice.
    pub fn is_wf(&self) -> (r: bool)
        ensures
            r == self.wf(),
    {
        let n = self.members.len();
        let mut i: usize = 0;
        while i < n
            invariant
                i <= n,
                n == self.members@.len(),
                forall|a: int, b: int|
                    0 <= a < b < i ==> self.member_ids()[a] != self.member_ids()[b],
            decreases n - i,
        {
            let mut j: usize = 0;
            while j < i
                invariant
                    j <= i,
                    i < n,
                    n == self.members@.len(),
                    forall|a: int| 0 <= a < j ==> self.member_ids()[a] != self.member_ids()[i as int],
                decreases i - j,
            {
                if self.members[j].id == self.members[i].id {
                    proof {
                        assert(self.member_ids()[j as int] == self.member_ids()[i as int]);
                        assert(!self.wf());
                    }
                    return false;
                }
                j += 1;
            }
            i += 1;
        }
        proof {
            assert forall|a: int, b: int|
                0 <= a < self.member_ids().len() && 0 <= b < self.member_ids().len() && a != b
                implies self.member_ids()[a] != self.member_ids()[b] by {
                if a < b {
                } else {
                    assert(0 <= b < a < n);
                }
            }
        }
        true
    }

    /// The current member identities, in insertion order.
    pub fn member_id_list(&self) -> (r: Vec<u64>)
        ensures
            r@ == self.member_ids(),
    {
        let n = self.members.len();
        let mut out: Vec<u64> = Vec::new();
        let mut i: usize = 0;
        while i < n
            invariant
                i <= n,
                n == self.members@.len(),
                out@ =~= self.member_ids().take(i as int),
            decreases n - i,
        {
            out.push(self.members[i].id);
            proof {
                assert(out@ =~= self.member_ids().take(i as int + 1));
            }
            i += 1;
        }
        proof {
            assert(out@ =~= self.member_ids());
        }
        out
    }
}

/// Law: within one broadcast pass triggered by a single aggregate
/// message, each currently-joined member takes the payload at most once —
/// the identities delivered to are pairwise distinct.
pub proof fn lemma_no_duplicate_delivery(
    pre: Seq<u64>,
    delivered: Seq<u64>,
    pruned: Seq<u64>,
    post: Seq<u64>,
)
    requires
        broadcast_post(pre, delivered, pruned, post),
    ensures
        delivered.no_duplicates(),
{
}

/// Law: a member whose mailbox refused a delivery is out of the
/// membership set when that same broadcast pass ends — pruning takes
/// effect on the very attempt that failed, not on some later cycle.
pub proof fn lemma_failed_member_pruned(
    pre: Seq<u64>,
    delivered: Seq<u64>,
    pruned: Seq<u64>,
    post: Seq<u64>,
    x: u64,
)
    requires
        broadcast_post(pre, delivered, pruned, post),
        pruned.contains(x),
    ensures
        !post.contains(x),
{
    assert(!(delivered.contains(x) && pruned.contains(x)));
}

/// Law: when no delivery fails, one broadcast pass reaches every current
/// member exactly once — as many deliveries as members, to exactly the
/// member identities, and the membership set is untouched as a set.
pub proof fn lemma_full_fan_out(
    pre: Seq<u64>,
    delivered: Seq<u64>,
    pruned: Seq<u64>,
    post: Seq<u64>,
)
    requires
        broadcast_post(pre, delivered, pruned, post),
        pruned.len() == 0,
    ensures
        delivered.len() == pre.len(),
        delivered.to_set() =~= pre.to_set(),
        post == delivered,
{
    broadcast use vstd::seq_lib::group_seq_properties;

    assert forall|x: u64| pre.to_set().contains(x) implies delivered.to_set().contains(x) by {
        assert(pre.contains(x));
        assert(!pruned.contains(x));
    }
    assert forall|x: u64| delivered.to_set().contains(x) implies pre.to_set().contains(x) by {
        assert(delivered.contains(x));
    }
}

/// Law: joining the same identity twice leaves the membership set exactly
/// as one join leaves it, with exactly one entry under that identity.
pub proof fn lemma_join_idempotent(s: Seq<u64>, id: u64)
    requires
        s.no_duplicates(),
    ensures
        join_ids(join_ids(s, id), id) == join_ids(s, id),
        join_ids(s, id).no_duplicates(),
        join_ids(s, id).to_multiset().count(id) == 1,
{
    broadcast use vstd::seq_lib::group_seq_properties;

    let t = join_ids(s, id);
    assert(t.contains(id)) by {
        if !s.contains(id) {
            vstd::seq_lib::lemma_seq_contains_after_push(s, id, id);
        }
    }
    assert(t.no_duplicates()) by {
        if !s.contains(id) {
            assert forall|i: int, j: int|
                0 <= i < t.len() && 0 <= j < t.len() && i != j implies t[i] != t[j] by {
                if i < s.len() && j < s.len() {
                } else if j == s.len() && i < s.len() {
                    assert(s.contains(s[i]));
                } else if i == s.len() && j < s.len() {
                    assert(s.contains(s[j]));
                }
            }
        }
    }
    t.lemma_multiset_has_no_duplicates();
    assert(t.to_multiset().contains(id)) by {
        vstd::seq_lib::to_multiset_contains(t, id);
    }
}

/// Law: joining the same identity twice leaves the membership exactly as
/// a single join with the later handle leaves it — the repeat `Join`
/// only overwrites the stored handle, and every other entry keeps its
/// identity and its handle.
pub proof fn lemma_join_overwrites_handle(
    s: Seq<Member>,
    id: u64,
    h1: ChildHandle,
    h2: ChildHandle,
)
    requires
        ids_of_members(s).no_duplicates(),
    ensures
        join_members(join_members(s, id, h1), id, h2) == join_members(s, id, h2),
{
    let t1 = join_members(s, id, h1);
    if has_member(s, id) {
        let i = member_index(s, id);
        assert(0 <= i < s.len() && s[i].id == id);
        assert(t1 == s.update(i, Member { id, handle: h1 }));
        assert(has_member(t1, id)) by {
            assert(t1[i].id == id);
        }
        assert(member_index(t1, id) == i) by {
            let w = member_index(t1, id);
            assert(0 <= w < t1.len() && t1[w].id == id);
            if w != i {
                assert(t1[w] == s[w]);
                assert(ids_of_members(s)[w] == ids_of_members(s)[i]);
                assert(!ids_of_members(s).no_duplicates());
            }
        }
        assert(t1.update(i, Member { id, handle: h2 }) =~= s.update(
            i,
            Member { id, handle: h2 },
        ));
    } else {
        assert(t1 == s.push(Member { id, handle: h1 }));
        assert(has_member(t1, id)) by {
            assert(t1[s.len() as int].id == id);
        }
        assert(member_index(t1, id) == s.len() as int) by {
            let w = member_index(t1, id);
            assert(0 <= w < t1.len() && t1[w].id == id);
            if w != s.len() as int {
                assert(t1[w] == s[w]);
                assert(has_member(s, id)) by {
                    assert(s[w].id == id);
                }
            }
        }
        assert(t1.update(s.len() as int, Member { id, handle: h2 }) =~= s.push(
            Member { id, handle: h2 },
        ));
    }
}

/// Law: a `Leave` for an identity that is not in the membership set is a
/// no-op — it does not alter the set at all, in particular not its size.
pub proof fn lemma_leave_absent_noop(s: Seq<u64>, id: u64)
    requires
        !s.contains(id),
    ensures
        leave_ids(s, id) == s,
{
}

/// Law: after a `Leave` for a present identity, that identity is gone and
/// exactly one entry was removed.
pub proof fn lemma_leave_removes(s: Seq<u64>, id: u64)
    requires
        s.no_duplicates(),
        s.contains(id),
    ensures
        !leave_ids(s, id).contains(id),
        leave_ids(s, id).len() == s.len() - 1,
{
    let i = s.index_of(id);
    let t = leave_ids(s, id);
    assert(t =~= s.take(i) + s.skip(i + 1));
    if t.contains(id) {
        let j = choose|j: int| 0 <= j < t.len() && t[j] == id;
        if j < i {
            assert(s[j] == id);
        } else {
            assert(s[j + 1] == id);
        }
    }
}

} // verus!
