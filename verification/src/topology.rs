//! The topology builder: constructs, once at startup, the fixed relay
//! skeleton — a root relay, `l1` intermediate relays under it, and `l2`
//! bottom relays under each of those — and exposes the bottom layer as
//! attachment points for new sessions. Only the leaf population changes
//! at runtime; the skeleton keeps its shape for the life of the process.

use vstd::prelude::*;
use crate::balancer::{ids_of_points, AttachPoint};
use crate::channel;
use crate::channel::{Channel, Upstream};
use crate::mailbox::{new_mailbox, RelayHandle, SendError};

verus! {

/// Hands out member identities, never reusing one: a plain sequence
/// counter. Identities for the relay skeleton come first; the same
/// generator then serves the leaf sessions, so a session identity can
/// never collide with a node identity.
pub struct IdGen {
    pub next: u64,
}

impl IdGen {
    pub fn new() -> (g: IdGen)
        ensures
            g.next == 0,
    {
        IdGen { next: 0 }
    }

    /// The next identity; strictly larger than every identity handed out
    /// before, hence fresh.
    pub fn fresh(&mut self) -> (r: u64)
        requires
            old(self).next < u64::MAX,
        ensures
            r == old(self).next,
            final(self).next == old(self).next + 1,
    {
        let r = self.next;
        self.next = self.next + 1;
        r
    }
}

/// One relay node as built: its state, the receiving half of its mailbox
/// (to be drained by the task that will run it), and a sending capability
/// to it.
pub struct Node {
    pub node: Channel,
    pub inbox: tokio::sync::mpsc::Receiver<channel::ActorMessage>,
    pub handle: RelayHandle,
}

/// The identities of a layer of nodes, in build order.
pub open spec fn ids_of(nodes: Seq<Node>) -> Seq<u64> {
    nodes.map_values(|n: Node| n.node.id)
}

/// The attachment points a layer of nodes offers, in build order: each
/// node's identity paired with that very node's mailbox capability.
pub open spec fn points_of(nodes: Seq<Node>) -> Seq<AttachPoint> {
    nodes.map_values(|n: Node| AttachPoint { id: n.node.id, handle: n.handle })
}

/// Every identity in `s` is below the bound `b`.
pub open spec fn below(s: Seq<u64>, b: u64) -> bool {
    forall|k: int| 0 <= k < s.len() ==> s[k] < b
}

/// The built tree: the root relay, the intermediate layer, the bottom
/// layer, the fan-out parameters it was built with, and the identity
/// generator to carry on with for sessions.
pub struct Topology {
    pub root: Node,
    pub mids: Vec<Node>,
    pub bottoms: Vec<Node>,
    pub l1: usize,
    pub l2: usize,
    pub ids: IdGen,
}

impl Topology {
    pub open spec fn mid_ids(self) -> Seq<u64> {
        ids_of(self.mids@)
    }

    pub open spec fn bottom_ids(self) -> Seq<u64> {
        ids_of(self.bottoms@)
    }

    /// Every node identity of the skeleton: the root's first, then the
    /// intermediate layer's, then the bottom layer's.
    pub open spec fn node_ids(self) -> Seq<u64> {
        seq![self.root.node.id] + self.mid_ids() + self.bottom_ids()
    }

    /// The skeleton is a tree of the built shape: the root has no
    /// upstream, every intermediate node's parent is the root, the `k`th
    /// bottom node's parent is intermediate node `k / l2` — each child
    /// holding, as its stored upstream, its parent's very mailbox
    /// capability, so aggregates can only travel along those edges —
    /// node identities are pairwise distinct, and every identity handed
    /// out so far is below the generator's next one.
    pub open spec fn wf(self) -> bool {
        &&& self.root.node.is_root()
        &&& self.mids@.len() == self.l1 as int
        &&& self.bottoms@.len() == self.l1 as int * self.l2 as int
        &&& self.node_ids().no_duplicates()
        &&& (forall|i: int|
            0 <= i < self.mids@.len() ==> (#[trigger] self.mids@[i]).node.upstream == (
            Upstream::Parent { pid: self.root.node.id, handle: self.root.handle }))
        &&& (forall|k: int|
            0 <= k < self.bottoms@.len() ==> (#[trigger] self.bottoms@[k]).node.upstream == (
            Upstream::Parent {
                pid: self.mid_ids()[k / (self.l2 as int)],
                handle: self.mids@[k / (self.l2 as int)].handle,
            }))
        &&& (forall|i: int|
            0 <= i < self.mids@.len() ==> (#[trigger] self.mids@[i]).node.parent() == Some(
                self.root.node.id,
            ))
        &&& (forall|k: int|
            0 <= k < self.bottoms@.len() ==> (#[trigger] self.bottoms@[k]).node.parent() == Some(
                self.mid_ids()[k / (self.l2 as int)],
            ))
        &&& below(self.node_ids(), self.ids.next)
    }

    /// Just built: every membership set of the skeleton is still empty —
    /// the internal `Join`s sit in the parents' mailboxes, to be
    /// processed as soon as each node's task starts draining.
    pub open spec fn fresh_tree(self) -> bool {
        &&& self.root.node.member_ids() == Seq::<u64>::empty()
        &&& (forall|i: int|
            0 <= i < self.mids@.len() ==> (#[trigger] self.mids@[i]).node.member_ids()
                == Seq::<u64>::empty())
        &&& (forall|k: int|
            0 <= k < self.bottoms@.len() ==> (#[trigger] self.bottoms@[k]).node.member_ids()
                == Seq::<u64>::empty())
    }

    /// Where new sessions attach: the deepest layer that exists — the
    /// bottom layer normally, the intermediate layer if the bottom fan-out
    /// is zero, and the root itself for the flat, depth-zero shape.
    pub open spec fn attach_ids(self) -> Seq<u64> {
        if self.bottoms@.len() > 0 {
            self.bottom_ids()
        } else if self.mids@.len() > 0 {
            self.mid_ids()
        } else {
            seq![self.root.node.id]
        }
    }

    /// The attachment points of that same layer, whole: each node's
    /// identity paired with that very node's mailbox capability.
    pub open spec fn attach_points(self) -> Seq<AttachPoint> {
        if self.bottoms@.len() > 0 {
            points_of(self.bottoms@)
        } else if self.mids@.len() > 0 {
            points_of(self.mids@)
        } else {
            seq![AttachPoint { id: self.root.node.id, handle: self.root.handle }]
        }
    }

    /// The attachment points for new sessions, one per node of the
    /// deepest layer, in build order: each point carries the node's
    /// identity together with that very node's mailbox capability.
    pub fn attachment_points(&self) -> (r: Vec<AttachPoint>)
        ensures
            r@ == self.attach_points(),
            ids_of_points(r@) == self.attach_ids(),
    {
        let mut out: Vec<AttachPoint> = Vec::new();
        if self.bottoms.len() > 0 {
            let ghost pts = points_of(self.bottoms@);
            let n = self.bottoms.len();
            let mut i: usize = 0;
            while i < n
                invariant
                    i <= n,
                    n == self.bottoms@.len(),
                    pts == points_of(self.bottoms@),
                    pts.len() == n,
                    out@ =~= pts.take(i as int),
                decreases n - i,
            {
                let ghost out_pre = out@;
                let pid = self.bottoms[i].node.node_id();
                let ph = self.bottoms[i].handle.duplicate();
                out.push(AttachPoint { id: pid, handle: ph });
                proof {
                    assert(pts.take(i as int).len() == i as int);
                    assert(out_pre.len() == i as int);
                    assert(out@[i as int] == pts[i as int]) by {
                        assert(pts[i as int] == (AttachPoint {
                            id: self.bottoms@[i as int].node.id,
                            handle: self.bottoms@[i as int].handle,
                        }));
                    }
                    assert forall|j: int| 0 <= j < out@.len() implies out@[j] == pts.take(
                        i as int + 1,
                    )[j] by {
                        if j < out_pre.len() {
                            assert(out@[j] == out_pre[j]);
                            assert(out_pre[j] == pts.take(i as int)[j]);
                        }
                    }
                    assert(out@ =~= pts.take(i as int + 1));
                }
                i += 1;
            }
            proof {
                assert(out@ =~= pts);
                assert(ids_of_points(out@) =~= self.bottom_ids()) by {
                    assert forall|j: int| 0 <= j < out@.len() implies ids_of_points(out@)[j]
                        == self.bottom_ids()[j] by {
                        assert(out@[j] == pts[j]);
                    }
                }
            }
        } else if self.mids.len() > 0 {
            let ghost pts = points_of(self.mids@);
            let n = self.mids.len();
            let mut i: usize = 0;
            while i < n
                invariant
                    i <= n,
                    n == self.mids@.len(),
                    self.bottoms@.len() == 0,
                    pts == points_of(self.mids@),
                    pts.len() == n,
                    out@ =~= pts.take(i as int),
                decreases n - i,
            {
                let ghost out_pre = out@;
                let pid = self.mids[i].node.node_id();
                let ph = self.mids[i].handle.duplicate();
                out.push(AttachPoint { id: pid, handle: ph });
                proof {
                    assert(pts.take(i as int).len() == i as int);
                    assert(out_pre.len() == i as int);
                    assert(out@[i as int] == pts[i as int]) by {
                        assert(pts[i as int] == (AttachPoint {
                            id: self.mids@[i as int].node.id,
                            handle: self.mids@[i as int].handle,
                        }));
                    }
                    assert forall|j: int| 0 <= j < out@.len() implies out@[j] == pts.take(
                        i as int + 1,
                    )[j] by {
                        if j < out_pre.len() {
                            assert(out@[j] == out_pre[j]);
                            assert(out_pre[j] == pts.take(i as int)[j]);
                        }
                    }
                    assert(out@ =~= pts.take(i as int + 1));
                }
                i += 1;
            }
            proof {
                assert(out@ =~= pts);
                assert(ids_of_points(out@) =~= self.mid_ids()) by {
                    assert forall|j: int| 0 <= j < out@.len() implies ids_of_points(out@)[j]
                        == self.mid_ids()[j] by {
                        assert(out@[j] == pts[j]);
                    }
                }
            }
        } else {
            out.push(
                AttachPoint { id: self.root.node.node_id(), handle: self.root.handle.duplicate() },
            );
            proof {
                assert(out@ =~= seq![
                    AttachPoint { id: self.root.node.id, handle: self.root.handle },
                ]);
                assert(ids_of_points(out@) =~= seq![self.root.node.id]);
            }
        }
        out
    }
}

/// A freshly assigned identity is distinct from everything below it, so
/// pushing it keeps a layer's identities pairwise distinct and bounded.
proof fn lemma_push_fresh(s: Seq<u64>, v: u64)
    requires
        s.no_duplicates(),
        below(s, v),
    ensures
        s.push(v).no_duplicates(),
        forall|b: u64| v < b ==> below(s.push(v), b),
        !s.contains(v),
{
    assert forall|i: int, j: int|
        0 <= i < s.push(v).len() && 0 <= j < s.push(v).len() && i != j implies s.push(v)[i]
        != s.push(v)[j] by {
        if i < s.len() && j < s.len() {
        } else if j == s.len() as int && i < s.len() {
            assert(s[i] < v);
        } else if i == s.len() as int && j < s.len() {
            assert(s[j] < v);
        }
    }
    if s.contains(v) {
        let j = choose|j: int| 0 <= j < s.len() && s[j] == v;
        assert(s[j] < v);
    }
}

/// Two layers whose identities all sit below a fresh one stay disjoint
/// when the fresh one joins either of them.
proof fn lemma_push_keeps_disjoint(s: Seq<u64>, t: Seq<u64>, v: u64)
    requires
        s.disjoint(t),
        below(t, v),
    ensures
        s.push(v).disjoint(t),
{
    assert forall|i: int, j: int|
        0 <= i < s.push(v).len() && 0 <= j < t.len() implies s.push(v)[i] != t[j] by {
        if i == s.len() as int {
            assert(t[j] < v);
        }
    }
}

/// Pairwise-distinct layers with nothing in common, and a root in
/// neither, make one pairwise-distinct list of node identities.
proof fn lemma_node_ids_distinct(r: u64, ms: Seq<u64>, bs: Seq<u64>)
    requires
        ms.no_duplicates(),
        bs.no_duplicates(),
        ms.disjoint(bs),
        !ms.contains(r),
        !bs.contains(r),
    ensures
        (seq![r] + ms + bs).no_duplicates(),
{
    let all = seq![r] + ms + bs;
    assert forall|i: int, j: int|
        0 <= i < all.len() && 0 <= j < all.len() && i != j implies all[i] != all[j] by {
        if 1 <= i < 1 + ms.len() {
            assert(all[i] == ms[i - 1]);
            assert(ms.contains(ms[i - 1]));
        }
        if 1 <= j < 1 + ms.len() {
            assert(all[j] == ms[j - 1]);
            assert(ms.contains(ms[j - 1]));
        }
        if 1 + ms.len() <= i {
            assert(all[i] == bs[i - 1 - ms.len()]);
            assert(bs.contains(bs[i - 1 - ms.len()]));
        }
        if 1 + ms.len() <= j {
            assert(all[j] == bs[j - 1 - ms.len()]);
            assert(bs.contains(bs[j - 1 - ms.len()]));
        }
    }
}

/// Builds the relay skeleton: the root, then each intermediate node and,
/// right after it, its `l2` bottom nodes, each node announcing itself
/// upward with a `Join` the moment it is created, so that every internal
/// edge is already enqueued at the parent by the time building ends.
///
/// `Err` exactly when one of those internal `Join`s could not be
/// enqueued; the flat shape with no internal layer sends none, so there
/// building always succeeds.
pub fn build(l1: usize, l2: usize, cap: usize) -> (r: Result<Topology, SendError>)
    requires
        1 <= cap <= usize::MAX >> 3,
        1 + l1 as int + (l1 as int) * (l2 as int) <= u64::MAX as int,
    ensures
        r matches Ok(t) ==> {
            &&& t.wf()
            &&& t.fresh_tree()
            &&& t.l1 == l1
            &&& t.l2 == l2
        },
        l1 == 0 ==> r is Ok,
{
    let mut ids = IdGen::new();
    let (root_tx, root_rx) = new_mailbox::<channel::ActorMessage>(cap);
    let root_handle = RelayHandle::new(root_tx);
    let root_id = ids.fresh();
    let root = Channel::new_root(root_id);
    let mut mids: Vec<Node> = Vec::new();
    let mut bottoms: Vec<Node> = Vec::new();
    let ghost gl1 = l1 as int;
    let ghost gl2 = l2 as int;
    let mut i: usize = 0;
    while i < l1
        invariant
            i <= l1,
            1 <= cap <= usize::MAX >> 3,
            1 + gl1 + gl1 * gl2 <= u64::MAX as int,
            gl1 == l1 as int,
            gl2 == l2 as int,
            root.is_root(),
            root.id == root_id,
            root.member_ids() == Seq::<u64>::empty(),
            mids@.len() == i as int,
            bottoms@.len() == i as int * gl2,
            ids.next as int == 1 + mids@.len() + bottoms@.len(),
            root_id < ids.next,
            below(ids_of(mids@), ids.next),
            below(ids_of(bottoms@), ids.next),
            ids_of(mids@).no_duplicates(),
            ids_of(bottoms@).no_duplicates(),
            ids_of(mids@).disjoint(ids_of(bottoms@)),
            !ids_of(mids@).contains(root_id),
            !ids_of(bottoms@).contains(root_id),
            forall|a: int|
                0 <= a < mids@.len() ==> (#[trigger] mids@[a]).node.upstream == (
                Upstream::Parent { pid: root_id, handle: root_handle }),
            forall|k: int|
                0 <= k < bottoms@.len() ==> (#[trigger] bottoms@[k]).node.upstream == (
                Upstream::Parent { pid: ids_of(mids@)[k / gl2], handle: mids@[k / gl2].handle }),
            forall|a: int|
                0 <= a < mids@.len() ==> (#[trigger] mids@[a]).node.parent() == Some(root_id),
            forall|k: int|
                0 <= k < bottoms@.len() ==> (#[trigger] bottoms@[k]).node.parent() == Some(
                    ids_of(mids@)[k / gl2],
                ),
            forall|a: int|
                0 <= a < mids@.len() ==> (#[trigger] mids@[a]).node.member_ids()
                    == Seq::<u64>::empty(),
            forall|k: int|
                0 <= k < bottoms@.len() ==> (#[trigger] bottoms@[k]).node.member_ids()
                    == Seq::<u64>::empty(),
        decreases l1 - i,
    {
        proof {
            assert((i as int) * gl2 <= (gl1 - 1) * gl2) by (nonlinear_arith)
                requires
                    0 <= (i as int) <= gl1 - 1,
                    0 <= gl2,
            ;
            assert((gl1 - 1) * gl2 + gl2 == gl1 * gl2) by (nonlinear_arith);
        }
        let (tx, rx) = new_mailbox::<channel::ActorMessage>(cap);
        let h = RelayHandle::new(tx);
        let mid_id = ids.fresh();
        let mid = match Channel::new_under(mid_id, root_id, &root_handle, h.duplicate()) {
            Ok(c) => c,
            Err(e) => return Err(e),
        };
        proof {
            lemma_push_fresh(ids_of(mids@), mid_id);
            lemma_push_keeps_disjoint(ids_of(bottoms@), ids_of(mids@), mid_id);
        }
        let ghost mids_pre = mids@;
        mids.push(Node { node: mid, inbox: rx, handle: h.duplicate() });
        proof {
            assert(ids_of(mids@) =~= ids_of(mids_pre).push(mid_id));
            assert forall|k: int| 0 <= k < bottoms@.len() implies (#[trigger] bottoms@[k]).node.parent()
                == Some(ids_of(mids@)[k / gl2]) && bottoms@[k].node.upstream == (
            Upstream::Parent { pid: ids_of(mids@)[k / gl2], handle: mids@[k / gl2].handle }) by {
                assert(gl2 * (i as int) == (i as int) * gl2) by (nonlinear_arith);
                assert(gl2 > 0) by (nonlinear_arith)
                    requires
                        0 <= k,
                        0 <= i as int,
                        k < (i as int) * gl2,
                ;
                vstd::arithmetic::div_mod::lemma_multiply_divide_lt(k, gl2, i as int);
                vstd::arithmetic::div_mod::lemma_div_pos_is_pos(k, gl2);
                assert(ids_of(mids@)[k / gl2] == ids_of(mids_pre)[k / gl2]);
                assert(mids@[k / gl2] == mids_pre[k / gl2]);
            }
            assert(ids_of(bottoms@).disjoint(ids_of(mids@))) by {
                assert forall|a: int, b: int|
                    0 <= a < ids_of(bottoms@).len() && 0 <= b < ids_of(mids@).len()
                    implies ids_of(bottoms@)[a] != ids_of(mids@)[b] by {
                    if b == ids_of(mids@).len() - 1 {
                        assert(ids_of(bottoms@)[a] < mid_id);
                    }
                }
            }
            assert(ids_of(mids@).disjoint(ids_of(bottoms@))) by {
                assert forall|a: int, b: int|
                    0 <= a < ids_of(mids@).len() && 0 <= b < ids_of(bottoms@).len()
                    implies ids_of(mids@)[a] != ids_of(bottoms@)[b] by {
                    assert(ids_of(bottoms@).disjoint(ids_of(mids@)));
                }
            }
        }
        let ghost mcount = mids@.len();
        let mut j: usize = 0;
        while j < l2
            invariant
                j <= l2,
                1 <= cap <= usize::MAX >> 3,
                1 + gl1 + gl1 * gl2 <= u64::MAX as int,
                gl1 == l1 as int,
                gl2 == l2 as int,
                i < l1,
                root.is_root(),
                root.id == root_id,
                root.member_ids() == Seq::<u64>::empty(),
                mcount == mids@.len(),
                mids@.len() == i as int + 1,
                ids_of(mids@)[mids@.len() - 1] == mid_id,
                mids@[mids@.len() - 1].handle == h,
                bottoms@.len() == i as int * gl2 + j as int,
                ids.next as int == 1 + mids@.len() + bottoms@.len(),
                root_id < ids.next,
                below(ids_of(mids@), ids.next),
                below(ids_of(bottoms@), ids.next),
                ids_of(mids@).no_duplicates(),
                ids_of(bottoms@).no_duplicates(),
                ids_of(mids@).disjoint(ids_of(bottoms@)),
                !ids_of(mids@).contains(root_id),
                !ids_of(bottoms@).contains(root_id),
                forall|a: int|
                    0 <= a < mids@.len() ==> (#[trigger] mids@[a]).node.upstream == (
                    Upstream::Parent { pid: root_id, handle: root_handle }),
                forall|k: int|
                    0 <= k < bottoms@.len() ==> (#[trigger] bottoms@[k]).node.upstream == (
                    Upstream::Parent { pid: ids_of(mids@)[k / gl2], handle: mids@[k / gl2].handle }),
                forall|a: int|
                    0 <= a < mids@.len() ==> (#[trigger] mids@[a]).node.parent() == Some(root_id),
                forall|k: int|
                    0 <= k < bottoms@.len() ==> (#[trigger] bottoms@[k]).node.parent() == Some(
                        ids_of(mids@)[k / gl2],
                    ),
                forall|a: int|
                    0 <= a < mids@.len() ==> (#[trigger] mids@[a]).node.member_ids()
                        == Seq::<u64>::empty(),
                forall|k: int|
                    0 <= k < bottoms@.len() ==> (#[trigger] bottoms@[k]).node.member_ids()
                        == Seq::<u64>::empty(),
            decreases l2 - j,
        {
            proof {
                assert(((i as int) * gl2 + (j as int)) < gl1 * gl2) by (nonlinear_arith)
                    requires
                        0 <= (i as int) < gl1,
                        0 <= (j as int) < gl2,
                ;
            }
            let (btx, brx) = new_mailbox::<channel::ActorMessage>(cap);
            let bh = RelayHandle::new(btx);
            let bot_id = ids.fresh();
            let bot = match Channel::new_under(bot_id, mid_id, &h, bh.duplicate()) {
                Ok(c) => c,
                Err(e) => return Err(e),
            };
            proof {
                lemma_push_fresh(ids_of(bottoms@), bot_id);
                lemma_push_keeps_disjoint(ids_of(mids@), ids_of(bottoms@), bot_id);
            }
            let ghost bots_pre = bottoms@;
            bottoms.push(Node { node: bot, inbox: brx, handle: bh });
            proof {
                assert(ids_of(bottoms@) =~= ids_of(bots_pre).push(bot_id));
                let k0 = bottoms@.len() - 1;
                vstd::arithmetic::div_mod::lemma_fundamental_div_mod_converse(
                    k0,
                    gl2,
                    i as int,
                    j as int,
                );
                assert(k0 / gl2 == i as int);
                assert(bottoms@[k0].node.parent() == Some(ids_of(mids@)[k0 / gl2]));
                assert(bottoms@[k0].node.upstream == (Upstream::Parent {
                    pid: ids_of(mids@)[k0 / gl2],
                    handle: mids@[k0 / gl2].handle,
                }));
            }
            j += 1;
        }
        proof {
            assert((i as int) * gl2 + gl2 == (i as int + 1) * gl2) by (nonlinear_arith);
        }
        i += 1;
    }
    proof {
        lemma_node_ids_distinct(root_id, ids_of(mids@), ids_of(bottoms@));
    }
    let t = Topology {
        root: Node { node: root, inbox: root_rx, handle: root_handle },
        mids,
        bottoms,
        l1,
        l2,
        ids,
    };
    proof {
        assert(t.node_ids() =~= seq![root_id] + ids_of(t.mids@) + ids_of(t.bottoms@));
        assert(below(t.node_ids(), t.ids.next));
    }
    Ok(t)
}

/// The attached leaf population as a model: which session identity hangs
/// under which bottom node. Session identities are disjoint from the
/// skeleton's — the shared identity generator guarantees that — and every
/// session's parent is a bottom node.
pub open spec fn sessions_wf(t: Topology, sessions: Map<u64, u64>) -> bool {
    &&& (forall|s: u64| sessions.dom().contains(s) ==> !t.node_ids().contains(s))
    &&& (forall|s: u64|
        sessions.dom().contains(s) ==> t.attach_ids().contains(#[trigger] sessions[s]))
}

/// The parent of an identity in the whole tree — leaf sessions included:
/// a session's parent is the bottom node it is attached to, a bottom
/// node's parent its intermediate node, an intermediate node's parent the
/// root, and the root has none.
pub open spec fn tree_parent(t: Topology, sessions: Map<u64, u64>, id: u64) -> Option<u64> {
    if sessions.dom().contains(id) {
        Some(sessions[id])
    } else if id == t.root.node.id {
        None
    } else if t.mid_ids().contains(id) {
        Some(t.root.node.id)
    } else if t.bottom_ids().contains(id) {
        t.bottoms@[t.bottom_ids().index_of(id)].node.parent()
    } else {
        None
    }
}

/// A chain of identities climbing parent links from its first element up
/// to the root.
pub open spec fn is_root_chain(t: Topology, sessions: Map<u64, u64>, p: Seq<u64>) -> bool {
    &&& p.len() > 0
    &&& p[p.len() - 1] == t.root.node.id
    &&& (forall|i: int|
        0 <= i < p.len() - 1 ==> #[trigger] tree_parent(t, sessions, p[i]) == Some(p[i + 1]))
}

/// The three layers of node identities have nothing in common: they are
/// segments of one pairwise-distinct list.
proof fn lemma_layers_disjoint(t: Topology)
    requires
        t.node_ids().no_duplicates(),
    ensures
        !t.mid_ids().contains(t.root.node.id),
        !t.bottom_ids().contains(t.root.node.id),
        forall|x: u64| t.mid_ids().contains(x) ==> !t.bottom_ids().contains(x),
        forall|x: u64| t.mid_ids().contains(x) ==> t.node_ids().contains(x),
        forall|x: u64| t.bottom_ids().contains(x) ==> t.node_ids().contains(x),
{
    let all = t.node_ids();
    let nm = t.mid_ids().len() as int;
    assert(all[0] == t.root.node.id);
    assert forall|x: u64| t.mid_ids().contains(x) implies t.node_ids().contains(x) by {
        let a = choose|a: int| 0 <= a < t.mid_ids().len() && t.mid_ids()[a] == x;
        assert(all[1 + a] == x);
    }
    assert forall|x: u64| t.bottom_ids().contains(x) implies t.node_ids().contains(x) by {
        let b = choose|b: int| 0 <= b < t.bottom_ids().len() && t.bottom_ids()[b] == x;
        assert(all[1 + nm + b] == x);
    }
    if t.mid_ids().contains(t.root.node.id) {
        let a = choose|a: int|
            0 <= a < t.mid_ids().len() && t.mid_ids()[a] == t.root.node.id;
        assert(all[1 + a] == all[0]);
        assert(false);
    }
    if t.bottom_ids().contains(t.root.node.id) {
        let b = choose|b: int|
            0 <= b < t.bottom_ids().len() && t.bottom_ids()[b] == t.root.node.id;
        assert(all[1 + nm + b] == all[0]);
        assert(false);
    }
    assert forall|x: u64| t.mid_ids().contains(x) implies !t.bottom_ids().contains(x) by {
        if t.bottom_ids().contains(x) {
            let a = choose|a: int| 0 <= a < t.mid_ids().len() && t.mid_ids()[a] == x;
            let b = choose|b: int| 0 <= b < t.bottom_ids().len() && t.bottom_ids()[b] == x;
            assert(all[1 + a] == all[1 + nm + b]);
            assert(false);
        }
    }
}

/// Law: the relay skeleton plus any well-formed leaf population forms a
/// tree — from every attached session there is exactly one chain of
/// parent links to the root, and that chain passes no identity twice, so
/// there are no cycles.
pub proof fn lemma_unique_root_path(t: Topology, sessions: Map<u64, u64>, leaf: u64)
    requires
        t.wf(),
        t.l1 > 0,
        t.l2 > 0,
        sessions_wf(t, sessions),
        sessions.dom().contains(leaf),
    ensures
        ({
            let b = sessions[leaf];
            let kb = t.bottom_ids().index_of(b);
            let m = t.mid_ids()[kb / (t.l2 as int)];
            let path = seq![leaf, b, m, t.root.node.id];
            &&& is_root_chain(t, sessions, path)
            &&& path.no_duplicates()
            &&& (forall|q: Seq<u64>|
                #[trigger] is_root_chain(t, sessions, q) && q[0] == leaf ==> q == path)
        }),
{
    lemma_layers_disjoint(t);
    let root = t.root.node.id;
    let b = sessions[leaf];
    assert((t.l1 as int) * (t.l2 as int) > 0) by (nonlinear_arith)
        requires
            t.l1 as int > 0,
            t.l2 as int > 0,
    ;
    assert(t.bottom_ids().contains(b));
    let kb = t.bottom_ids().index_of(b);
    assert(0 <= kb < t.bottom_ids().len() && t.bottom_ids()[kb] == b);
    let gl2 = t.l2 as int;
    assert(gl2 * (t.l1 as int) == (t.l1 as int) * gl2) by (nonlinear_arith);
    vstd::arithmetic::div_mod::lemma_multiply_divide_lt(kb, gl2, t.l1 as int);
    vstd::arithmetic::div_mod::lemma_div_pos_is_pos(kb, gl2);
    let km = kb / gl2;
    let m = t.mid_ids()[km];
    let path = seq![leaf, b, m, root];

    // The skeleton identities are not session identities.
    assert(t.node_ids().contains(b));
    assert(t.mid_ids().contains(m)) by {
        assert(t.mid_ids()[km] == m);
    }
    assert(t.node_ids().contains(m));
    assert(t.node_ids().contains(root)) by {
        assert(t.node_ids()[0] == root);
    }
    assert(!sessions.dom().contains(b));
    assert(!sessions.dom().contains(m));
    assert(!sessions.dom().contains(root));

    // Each parent link of the chain.
    assert(tree_parent(t, sessions, leaf) == Some(b));
    assert(tree_parent(t, sessions, b) == Some(m)) by {
        assert(b != root);
        assert(!t.mid_ids().contains(b));
        assert(t.bottoms@[kb].node.parent() == Some(t.mid_ids()[kb / gl2]));
    }
    assert(tree_parent(t, sessions, m) == Some(root)) by {
        assert(m != root);
    }
    assert(tree_parent(t, sessions, root) is None);
    assert(is_root_chain(t, sessions, path)) by {
        assert(path[3] == root);
        assert(tree_parent(t, sessions, path[0]) == Some(path[1]));
        assert(tree_parent(t, sessions, path[1]) == Some(path[2]));
        assert(tree_parent(t, sessions, path[2]) == Some(path[3]));
    }

    // No identity repeats: the leaf is no node, and the three node
    // layers are disjoint.
    assert(path.no_duplicates()) by {
        assert(leaf != b && leaf != m && leaf != root);
        assert(b != m && b != root && m != root);
    }

    // Uniqueness: parent links are a function, the chain ends only at
    // the root, and the root has no parent, so any chain from the leaf
    // is this one.
    assert forall|q: Seq<u64>|
        #[trigger] is_root_chain(t, sessions, q) && q[0] == leaf implies q == path by {
        assert(q.len() > 1) by {
            if q.len() == 1 {
                assert(q[0] == root);
                assert(t.node_ids().contains(leaf));
            }
        }
        assert(tree_parent(t, sessions, q[0]) == Some(q[1]));
        assert(q[1] == b);
        assert(q.len() > 2) by {
            if q.len() == 2 {
                assert(q[1] == root);
            }
        }
        assert(tree_parent(t, sessions, q[1]) == Some(q[2]));
        assert(q[2] == m);
        assert(q.len() > 3) by {
            if q.len() == 3 {
                assert(q[2] == root);
            }
        }
        assert(tree_parent(t, sessions, q[2]) == Some(q[3]));
        assert(q[3] == root);
        assert(q.len() == 4) by {
            if q.len() > 4 {
                assert(tree_parent(t, sessions, q[3]) == Some(q[4]));
            }
        }
        assert(q =~= path);
    }
}

/// Law: a session whose attachment point was the single root — the
/// flat, depth-zero shape — also has exactly one chain to the root: the
/// direct edge.
pub proof fn lemma_unique_root_path_flat(t: Topology, sessions: Map<u64, u64>, leaf: u64)
    requires
        t.wf(),
        t.l1 == 0,
        sessions_wf(t, sessions),
        sessions.dom().contains(leaf),
    ensures
        ({
            let path = seq![leaf, t.root.node.id];
            &&& sessions[leaf] == t.root.node.id
            &&& is_root_chain(t, sessions, path)
            &&& path.no_duplicates()
            &&& (forall|q: Seq<u64>|
                #[trigger] is_root_chain(t, sessions, q) && q[0] == leaf ==> q == path)
        }),
{
    let root = t.root.node.id;
    assert((t.l1 as int) * (t.l2 as int) == 0) by (nonlinear_arith)
        requires
            t.l1 as int == 0,
    ;
    assert(t.attach_ids() =~= seq![root]);
    assert(t.attach_ids().contains(sessions[leaf]));
    assert(sessions[leaf] == root) by {
        let j = choose|j: int| 0 <= j < 1 && t.attach_ids()[j] == sessions[leaf];
    }
    let path = seq![leaf, root];
    assert(t.node_ids().contains(root)) by {
        assert(t.node_ids()[0] == root);
    }
    assert(!sessions.dom().contains(root));
    assert(tree_parent(t, sessions, leaf) == Some(root));
    assert(tree_parent(t, sessions, root) is None);
    assert(is_root_chain(t, sessions, path)) by {
        assert(path[1] == root);
        assert(tree_parent(t, sessions, path[0]) == Some(path[1]));
    }
    assert(path.no_duplicates()) by {
        assert(leaf != root);
    }
    assert forall|q: Seq<u64>|
        #[trigger] is_root_chain(t, sessions, q) && q[0] == leaf implies q == path by {
        assert(q.len() > 1) by {
            if q.len() == 1 {
                assert(q[0] == root);
                assert(t.node_ids().contains(leaf));
            }
        }
        assert(tree_parent(t, sessions, q[0]) == Some(q[1]));
        assert(q[1] == root);
        assert(q.len() == 2) by {
            if q.len() > 2 {
                assert(tree_parent(t, sessions, q[1]) == Some(q[2]));
            }
        }
        assert(q =~= path);
    }
}

/// Law: a session attached at the intermediate layer — the shape with no
/// bottom fan-out — has exactly one chain to the root, through its
/// intermediate node.
pub proof fn lemma_unique_root_path_one_layer(t: Topology, sessions: Map<u64, u64>, leaf: u64)
    requires
        t.wf(),
        t.l1 > 0,
        t.l2 == 0,
        sessions_wf(t, sessions),
        sessions.dom().contains(leaf),
    ensures
        ({
            let m = sessions[leaf];
            let path = seq![leaf, m, t.root.node.id];
            &&& t.mid_ids().contains(m)
            &&& is_root_chain(t, sessions, path)
            &&& path.no_duplicates()
            &&& (forall|q: Seq<u64>|
                #[trigger] is_root_chain(t, sessions, q) && q[0] == leaf ==> q == path)
        }),
{
    lemma_layers_disjoint(t);
    let root = t.root.node.id;
    assert((t.l1 as int) * (t.l2 as int) == 0) by (nonlinear_arith)
        requires
            t.l2 as int == 0,
    ;
    assert(t.attach_ids() == t.mid_ids());
    let m = sessions[leaf];
    assert(t.mid_ids().contains(m));
    let path = seq![leaf, m, root];
    assert(t.node_ids().contains(m));
    assert(t.node_ids().contains(root)) by {
        assert(t.node_ids()[0] == root);
    }
    assert(!sessions.dom().contains(m));
    assert(!sessions.dom().contains(root));
    assert(tree_parent(t, sessions, leaf) == Some(m));
    assert(tree_parent(t, sessions, m) == Some(root)) by {
        assert(m != root);
    }
    assert(tree_parent(t, sessions, root) is None);
    assert(is_root_chain(t, sessions, path)) by {
        assert(path[2] == root);
        assert(tree_parent(t, sessions, path[0]) == Some(path[1]));
        assert(tree_parent(t, sessions, path[1]) == Some(path[2]));
    }
    assert(path.no_duplicates()) by {
        assert(leaf != m && leaf != root && m != root);
    }
    assert forall|q: Seq<u64>|
        #[trigger] is_root_chain(t, sessions, q) && q[0] == leaf implies q == path by {
        assert(q.len() > 1) by {
            if q.len() == 1 {
                assert(q[0] == root);
                assert(t.node_ids().contains(leaf));
            }
        }
        assert(tree_parent(t, sessions, q[0]) == Some(q[1]));
        assert(q[1] == m);
        assert(q.len() > 2) by {
            if q.len() == 2 {
                assert(q[1] == root);
            }
        }
        assert(tree_parent(t, sessions, q[1]) == Some(q[2]));
        assert(q[2] == root);
        assert(q.len() == 3) by {
            if q.len() > 3 {
                assert(tree_parent(t, sessions, q[2]) == Some(q[3]));
            }
        }
        assert(q =~= path);
    }
}

/// Law: attaching a fresh session at an attachment point keeps the leaf
/// population well formed — the tree shape is preserved by a `Join`.
pub proof fn lemma_attach_keeps_sessions_wf(
    t: Topology,
    sessions: Map<u64, u64>,
    s: u64,
    b: u64,
)
    requires
        sessions_wf(t, sessions),
        !t.node_ids().contains(s),
        t.attach_ids().contains(b),
    ensures
        sessions_wf(t, sessions.insert(s, b)),
{
    assert forall|x: u64| sessions.insert(s, b).dom().contains(x) implies t.attach_ids().contains(
        #[trigger] sessions.insert(s, b)[x],
    ) by {
        if x != s {
            assert(sessions[x] == sessions.insert(s, b)[x]);
        }
    }
}

/// Law: detaching a session — its own `Leave`, or pruning after a failed
/// delivery — keeps the leaf population well formed.
pub proof fn lemma_detach_keeps_sessions_wf(t: Topology, sessions: Map<u64, u64>, s: u64)
    requires
        sessions_wf(t, sessions),
    ensures
        sessions_wf(t, sessions.remove(s)),
{
    assert forall|x: u64| sessions.remove(s).dom().contains(x) implies t.attach_ids().contains(
        #[trigger] sessions.remove(s)[x],
    ) by {
        assert(sessions[x] == sessions.remove(s)[x]);
    }
}

} // verus!
