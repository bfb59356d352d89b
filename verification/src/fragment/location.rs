//! Where a node is mounted.

use vstd::prelude::*;
use crate::host::Host;
use crate::host::model::{Failure, HostView, NodeId};

verus! {

/// A mount target: a host parent and, optionally, the child before which new nodes are
/// inserted. Without an anchor, new nodes become the last children.
#[derive(Clone, Copy, Debug, PartialEq, Eq, Structural)]
pub struct Location {
    pub parent: NodeId,
    pub anchor: Option<NodeId>,
}

impl Location {
    /// The location before `anchor`, if the anchor is in the tree.
    pub open spec fn before(host: HostView, anchor: NodeId) -> Result<Location, Failure> {
        match host.parent_of(anchor) {
            Some(parent) => Ok(Location { parent, anchor: Some(anchor) }),
            None => Err(Failure::Detached),
        }
    }

    /// The location in front of `anchor`, below the parent that the anchor has now. Fails with
    /// [`Failure::Detached`] if the anchor is not in the tree.
    pub fn anchor(host: &Host, anchor: NodeId) -> (r: Result<Location, Failure>)
        ensures
            r == Location::before(host@, anchor),
    {
        match host.get_parent(anchor) {
            Some(parent) => Ok(Location { parent, anchor: Some(anchor) }),
            None => Err(Failure::Detached),
        }
    }

    /// The location behind the last child of `parent`.
    pub fn parent(parent: NodeId) -> (location: Location)
        ensures
            location == (Location { parent, anchor: None }),
    {
        Location { parent, anchor: None }
    }

    /// The location below `parent`, in front of `anchor` if there is one.
    pub fn anchored_parent(parent: NodeId, anchor: Option<NodeId>) -> (location: Location)
        ensures
            location == (Location { parent, anchor }),
    {
        Location { parent, anchor }
    }

    /// Inserts `node` at this location.
    pub fn mount(&self, host: &mut Host, node: NodeId) -> (r: Result<(), Failure>)
        requires
            old(host)@.wf(),
        ensures
            final(host)@.wf(),
            match old(host)@.insert_failure(self.parent, node, self.anchor) {
                Some(failure) => r == Err::<(), Failure>(failure) && final(host)@ == old(host)@,
                None => r is Ok && final(host)@ == old(host)@.inserted(
                    self.parent,
                    node,
                    self.anchor,
                ),
            },
    {
        host.insert_before(self.parent, node, self.anchor)
    }
}

} // verus!
