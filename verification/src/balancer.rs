//! Attachment-point selection: the pool of bottom-layer relay nodes to
//! which new leaf sessions attach, with a pluggable pick policy. The
//! policy here is uniform random, for load spreading; it is deliberately
//! decoupled from relay behaviour and may be swapped without touching it.

use vstd::prelude::*;
use crate::mailbox::RelayHandle;

verus! {

/// One place a new session may attach: a relay node's identity and the
/// capability to reach its mailbox.
pub struct AttachPoint {
    pub id: u64,
    pub handle: RelayHandle,
}

impl AttachPoint {
    /// A further capability on the same attachment point — the same
    /// value, so the identity still pairs with its own node's mailbox.
    pub fn duplicate(&self) -> (r: AttachPoint)
        ensures
            r == *self,
    {
        AttachPoint { id: self.id, handle: self.handle.duplicate() }
    }
}

/// Relies on rand::thread_rng and rand::Rng::gen_range over `0..n`: the
/// draw is uniform in that range and panics on an empty range, so a zero
/// bound is excluded here. Which index comes back depends on the
/// generator's state, so only the bound is stated.
#[verifier::external_body]
fn random_below(n: usize) -> (r: usize)
    requires
        n >= 1,
    ensures
        r < n,
{
    rand::Rng::gen_range(&mut rand::thread_rng(), 0..n)
}

/// The identities of a pool of attachment points, in order.
pub open spec fn ids_of_points(s: Seq<AttachPoint>) -> Seq<u64> {
    s.map_values(|p: AttachPoint| p.id)
}

/// The pool of attachment points for new sessions.
pub struct Balancer {
    pub points: Vec<AttachPoint>,
}

impl Balancer {
    pub open spec fn point_ids(self) -> Seq<u64> {
        ids_of_points(self.points@)
    }

    pub fn new(points: Vec<AttachPoint>) -> (b: Balancer)
        ensures
            b.points == points,
    {
        Balancer { points }
    }

    /// Picks an attachment point for one new session, uniformly at
    /// random; `None` exactly when the pool is empty. What comes back is
    /// one of the pool's entries whole — its identity paired with that
    /// very node's handle.
    pub fn pick(&self) -> (r: Option<AttachPoint>)
        ensures
            r is Some <==> self.points@.len() > 0,
            r matches Some(p) ==> exists|i: int|
                0 <= i < self.points@.len() && p == #[trigger] self.points@[i],
            r matches Some(p) ==> self.point_ids().contains(p.id),
    {
        if self.points.len() == 0 {
            None
        } else {
            let i = random_below(self.points.len());
            let p = self.points[i].duplicate();
            proof {
                assert(self.point_ids()[i as int] == p.id);
            }
            Some(p)
        }
    }
}

} // verus!
