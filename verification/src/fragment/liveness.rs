//! A fragment in good standing can always be detached.
//!
//! A fragment is in good standing when no node is owned twice below it, and when what is
//! mounted below it is really in the tree: every exposed node has a parent. A fragment is so
//! when it has been built, and stays so through every mount, update and detach that
//! succeeds. A detach at the top level of such a fragment never fails.

use vstd::prelude::*;
use crate::component::Component;
use crate::fragment::aside::{fits, undisturbed};
use crate::fragment::exposure::apart;
use crate::fragment::builder::{BuilderView, PartKind};
use crate::fragment::event_registry::RegistryView;
use crate::fragment::exposure::{lemma_unhook_takes, lemma_unhooked_then, rows_exposed, unhooked};
use crate::fragment::location::Location;
use crate::fragment::model::{fragments_detached, place, selects, unhook};
use crate::fragment::model::{ControllerView, FragmentView, PartView, World};
use crate::fragment::ownership::{between, rows_owned, within};
use crate::host::model::{Failure, HostView, NodeId};

verus! {

/// No node is owned by two fragments of the list, and by none of them twice.
pub open spec fn rows_spread<C: Component>(fragments: Seq<FragmentView<C>>) -> bool
    decreases fragments, 0nat,
{
    &&& forall|i: int| 0 <= i < fragments.len() ==> (#[trigger] fragments[i]).spread()
    &&& forall|a: int, b: int|
        0 <= a < fragments.len() && 0 <= b < fragments.len() && a != b ==> (
        #[trigger] fragments[a]).owned().disjoint((#[trigger] fragments[b]).owned())
}

/// Every fragment of the list is mounted and sound.
pub open spec fn rows_sound<C: Component>(fragments: Seq<FragmentView<C>>, host: HostView) -> bool
    decreases fragments, 0nat,
{
    forall|i: int|
        0 <= i < fragments.len() ==> (#[trigger] fragments[i]).mounted && fragments[i].sound(host)
}

impl<C: Component> FragmentView<C> {
    /// No node is owned twice: the static nodes differ from each other and from the nodes of
    /// the parts, no two parts own the same node, and the same holds within each part.
    pub open spec fn spread(self) -> bool
        decreases self, 1nat,
    {
        &&& forall|a: int, b: int|
            0 <= a < self.statics.len() && 0 <= b < self.statics.len() && a != b ==> (
            #[trigger] self.statics[a]).1 != (#[trigger] self.statics[b]).1
        &&& forall|k: int, j: int|
            0 <= k < self.statics.len() && 0 <= j < self.parts.len() ==> !(
            #[trigger] self.parts[j]).1.owned().contains((#[trigger] self.statics[k]).1)
        &&& forall|a: int, b: int|
            0 <= a < self.parts.len() && 0 <= b < self.parts.len() && a != b ==> (
            #[trigger] self.parts[a]).1.owned().disjoint((#[trigger] self.parts[b]).1.owned())
        &&& forall|j: int| 0 <= j < self.parts.len() ==> (#[trigger] self.parts[j]).1.spread()
    }

    /// Nothing is mounted: not the fragment, and nothing below it.
    pub open spec fn rested(self) -> bool
        decreases self, 1nat,
    {
        &&& !self.mounted
        &&& forall|j: int| 0 <= j < self.parts.len() ==> (#[trigger] self.parts[j]).1.rested()
    }

    /// What is mounted is in the tree. Of a mounted fragment, the static nodes at the top
    /// have parents and the parts are sound; a fragment that is not mounted is at rest.
    pub open spec fn sound(self, host: HostView) -> bool
        decreases self, 1nat,
    {
        if self.mounted {
            &&& forall|k: int|
                0 <= k < self.statics.len() && (#[trigger] self.statics[k]).0 is None
                    ==> host.parent_of(self.statics[k].1) is Some
            &&& forall|j: int| 0 <= j < self.parts.len() ==> (#[trigger] self.parts[j]).1.sound(host)
        } else {
            self.rested()
        }
    }
}

impl<C: Component> PartView<C> {
    pub open spec fn spread(self) -> bool
        decreases self, 0nat,
    {
        match self {
            PartView::Updatable { .. } => true,
            PartView::Conditional { fragment, anchor, .. } => !fragment.owned().contains(anchor)
                && fragment.spread(),
            PartView::Each { mounted_fragments, anchor, .. } => !rows_owned(
                mounted_fragments,
                mounted_fragments.len(),
            ).contains(anchor) && rows_spread(mounted_fragments),
            PartView::Component { controller, .. } => controller.fragment.spread(),
        }
    }

    pub open spec fn rested(self) -> bool
        decreases self, 0nat,
    {
        match self {
            PartView::Updatable { .. } => true,
            PartView::Conditional { fragment, fragment_mounted, .. } => !fragment_mounted
                && fragment.rested(),
            PartView::Each { mounted_fragments, .. } => mounted_fragments.len() == 0,
            PartView::Component { controller, .. } => controller.fragment.rested(),
        }
    }

    /// The part of a mounted fragment is in the tree: its own node has a parent, and the
    /// fragments below it are mounted and sound where the part says so, and at rest where
    /// not.
    pub open spec fn sound(self, host: HostView) -> bool
        decreases self, 0nat,
    {
        match self {
            PartView::Updatable { text_node, .. } => host.parent_of(text_node) is Some,
            PartView::Conditional { fragment, anchor, fragment_mounted, .. } => {
                &&& host.parent_of(anchor) is Some
                &&& if fragment_mounted {
                    fragment.mounted && fragment.sound(host)
                } else {
                    fragment.rested()
                }
            },
            PartView::Each { mounted_fragments, anchor, .. } => host.parent_of(anchor) is Some
                && rows_sound(mounted_fragments, host),
            PartView::Component { controller, .. } => controller.fragment.mounted
                && controller.fragment.sound(host),
        }
    }
}

/// Every node of the set is a node of the host.
pub open spec fn hosted(nodes: Set<NodeId>, host: HostView) -> bool {
    forall|node: NodeId| #[trigger] nodes.contains(node) ==> host.has(node)
}

/// The nodes of the set have the parents they had.
pub open spec fn unmoved(nodes: Set<NodeId>, host: HostView, after: HostView) -> bool {
    forall|node: NodeId|
        nodes.contains(node) ==> #[trigger] after.parent_of(node) == host.parent_of(node)
}

// ======================================================================================
// Soundness is a matter of the owned nodes
// ======================================================================================
pub proof fn lemma_rows_sound_unmoved<C: Component>(
    fragments: Seq<FragmentView<C>>,
    host: HostView,
    after: HostView,
)
    requires
        rows_sound(fragments, host),
        unmoved(rows_owned(fragments, fragments.len()), host, after),
    ensures
        rows_sound(fragments, after),
    decreases fragments, 0nat,
{
    assert forall|i: int| 0 <= i < fragments.len() implies (#[trigger] fragments[i]).mounted
        && fragments[i].sound(after) by {
        assert forall|node: NodeId| fragments[i].owned().contains(node) implies #[trigger] after.parent_of(
            node,
        ) == host.parent_of(node) by {
            assert(rows_owned(fragments, fragments.len()).contains(node));
        }
        fragments[i].lemma_sound_unmoved(host, after);
    }
}

impl<C: Component> FragmentView<C> {
    /// A fragment whose nodes have not moved is as sound as it was.
    pub proof fn lemma_sound_unmoved(self, host: HostView, after: HostView)
        requires
            self.sound(host),
            unmoved(self.owned(), host, after),
        ensures
            self.sound(after),
        decreases self, 1nat,
    {
        if self.mounted {
            assert forall|k: int|
                0 <= k < self.statics.len() && (#[trigger] self.statics[k]).0
                    is None implies after.parent_of(self.statics[k].1) is Some by {
                assert(self.own_statics(self.statics.len()).contains(self.statics[k].1));
                assert(self.owned().contains(self.statics[k].1));
            }
            assert forall|j: int| 0 <= j < self.parts.len() implies (
            #[trigger] self.parts[j]).1.sound(after) by {
                assert forall|node: NodeId| self.parts[j].1.owned().contains(
                    node,
                ) implies #[trigger] after.parent_of(node) == host.parent_of(node) by {
                    assert(self.parts_owned(self.parts.len()).contains(node));
                    assert(self.owned().contains(node));
                }
                self.parts[j].1.lemma_sound_unmoved(host, after);
            }
        }
    }
}

impl<C: Component> PartView<C> {
    pub proof fn lemma_sound_unmoved(self, host: HostView, after: HostView)
        requires
            self.sound(host),
            unmoved(self.owned(), host, after),
        ensures
            self.sound(after),
        decreases self, 0nat,
    {
        match self {
            PartView::Updatable { text_node, .. } => {
                assert(self.owned().contains(text_node));
            },
            PartView::Conditional { fragment, anchor, fragment_mounted, .. } => {
                assert(self.owned().contains(anchor));
                if fragment_mounted {
                    assert forall|node: NodeId| fragment.owned().contains(
                        node,
                    ) implies #[trigger] after.parent_of(node) == host.parent_of(node) by {
                        assert(self.owned().contains(node));
                    }
                    fragment.lemma_sound_unmoved(host, after);
                }
            },
            PartView::Each { mounted_fragments, anchor, .. } => {
                assert(self.owned().contains(anchor));
                assert forall|node: NodeId|
                    rows_owned(mounted_fragments, mounted_fragments.len()).contains(
                        node,
                    ) implies #[trigger] after.parent_of(node) == host.parent_of(node) by {
                    assert(self.owned().contains(node));
                }
                lemma_rows_sound_unmoved(mounted_fragments, host, after);
            },
            PartView::Component { controller, .. } => {
                controller.fragment.lemma_sound_unmoved(host, after);
            },
        }
    }
}


// ======================================================================================
// A sound fragment can be detached
// ======================================================================================
/// A node that has a parent can be unhooked.
pub proof fn lemma_unhook_succeeds(host: HostView, node: NodeId)
    requires
        host.wf(),
        host.parent_of(node) is Some,
    ensures
        unhook(host, node).1 is None,
{
    assert(host.has(node));
    assert(host.node_wf(node));
}

pub proof fn lemma_rows_detach_succeed<C: Component>(
    fragments: Seq<FragmentView<C>>,
    host: HostView,
    k: nat,
)
    requires
        host.wf(),
        k <= fragments.len(),
        rows_sound(fragments, host),
        rows_spread(fragments),
    ensures
        fragments_detached(fragments, host, true, k).1 is None,
    decreases fragments, 0nat, k,
{
    if k > 0 {
        lemma_rows_detach_succeed(fragments, host, (k - 1) as nat);
        crate::fragment::exposure::lemma_rows_detached_unhook(fragments, host, (k - 1) as nat);
        let (before, failure) = fragments_detached(fragments, host, true, (k - 1) as nat);
        let row = fragments[k - 1];
        let gone = rows_exposed(fragments, (k - 1) as nat);
        assert forall|node: NodeId| row.owned().contains(node) implies #[trigger] before.parent_of(
            node,
        ) == host.parent_of(node) by {
            if gone.contains(node) {
                let i = choose|i: int|
                    0 <= i < k - 1 && i < fragments.len() && (
                    #[trigger] fragments[i]).exposed().contains(node);
                fragments[i].lemma_exposed_owned();
                assert(fragments[i].owned().disjoint(fragments[k - 1].owned()));
                assert(fragments[i].owned().contains(node));
            }
            if host.has(node) {
            } else {
                assert(host.parent_of(node) is None);
                assert(before.parent_of(node) is None);
            }
        }
        row.lemma_sound_unmoved(host, before);
        row.lemma_detach_succeeds(before);
    }
}

impl<C: Component> FragmentView<C> {
    proof fn lemma_statics_detach_succeed(self, host: HostView, k: nat)
        requires
            host.wf(),
            k <= self.statics.len(),
            self.mounted,
            self.sound(host),
            self.spread(),
        ensures
            self.statics_detached(host, k).1 is None,
        decreases k,
    {
        if k > 0 {
            self.lemma_statics_detach_succeed(host, (k - 1) as nat);
            self.lemma_statics_detached_unhook(host, (k - 1) as nat);
            let (before, failure) = self.statics_detached(host, (k - 1) as nat);
            let node = self.statics[k - 1].1;
            if self.statics[k - 1].0 is None {
                let gone = self.top_statics((k - 1) as nat);
                if gone.contains(node) {
                    let i = choose|i: int|
                        0 <= i < k - 1 && i < self.statics.len() && (#[trigger] self.statics[i]).0
                            is None && self.statics[i].1 == node;
                    assert(self.statics[i].1 != self.statics[k - 1].1);
                }
                assert(host.parent_of(node) is Some);
                assert(host.has(node));
                assert(before.parent_of(node) == host.parent_of(node));
                lemma_unhook_succeeds(before, node);
            }
        }
    }

    proof fn lemma_parts_detach_succeed(self, host: HostView, cleared: HostView, j: nat)
        requires
            host.wf(),
            cleared.wf(),
            j <= self.parts.len(),
            self.mounted,
            self.sound(host),
            self.spread(),
            unhooked(self.top_statics(self.statics.len()), host, cleared),
        ensures
            self.parts_detached(cleared, true, j).1 is None,
            forall|i: int| 0 <= i < j ==> (#[trigger] self.part_detached(cleared, true, i)).rested(),
        decreases self, 0nat, j,
    {
        if j > 0 {
            self.lemma_parts_detach_succeed(host, cleared, (j - 1) as nat);
            self.lemma_parts_detached_unhook(cleared, (j - 1) as nat);
            let (before, failure) = self.parts_detached(cleared, true, (j - 1) as nat);
            let part = self.parts[j - 1].1;
            let gone = self.parts_exposed((j - 1) as nat);
            let top = self.top_statics(self.statics.len());
            assert forall|node: NodeId| part.owned().contains(node) implies #[trigger] before.parent_of(
                node,
            ) == host.parent_of(node) by {
                if top.contains(node) {
                    let k = choose|k: int|
                        0 <= k < self.statics.len() && k < self.statics.len() && (
                        #[trigger] self.statics[k]).0 is None && self.statics[k].1 == node;
                    assert(!self.parts[j - 1].1.owned().contains(self.statics[k].1));
                }
                if gone.contains(node) {
                    let i = choose|i: int|
                        0 <= i < j - 1 && i < self.parts.len() && (
                        #[trigger] self.parts[i]).1.exposed().contains(node);
                    self.parts[i].1.lemma_exposed_owned();
                    assert(self.parts[i].1.owned().disjoint(self.parts[j - 1].1.owned()));
                    assert(self.parts[i].1.owned().contains(node));
                }
                if host.has(node) {
                    assert(cleared.parent_of(node) == host.parent_of(node));
                    assert(cleared.has(node));
                    assert(before.parent_of(node) == cleared.parent_of(node));
                } else {
                    assert(host.parent_of(node) is None);
                    assert(before.parent_of(node) is None);
                }
            }
            assert(part.sound(host));
            part.lemma_sound_unmoved(host, before);
            part.lemma_detach_succeeds(before);
            part.lemma_detached_rests(before);
            assert forall|i: int| 0 <= i < j implies (#[trigger] self.part_detached(
                cleared,
                true,
                i,
            )).rested() by {
                if i == j - 1 {
                    assert(self.part_detached(cleared, true, i) == part.detached(before, true).0);
                }
            }
        }
    }

    /// A detach at the top level never fails on a fragment that is sound and spread, and
    /// leaves the fragment at rest.
    pub proof fn lemma_detach_succeeds(self, host: HostView)
        requires
            host.wf(),
            self.sound(host),
            self.spread(),
        ensures
            self.detached(host, true).2 is None,
            self.detached(host, true).0.rested(),
        decreases self, 1nat, 0nat,
    {
        if self.mounted {
            self.lemma_statics_detach_succeed(host, self.statics.len());
            self.lemma_statics_detached_unhook(host, self.statics.len());
            let (cleared, failure) = self.statics_detached(host, self.statics.len());
            self.lemma_parts_detach_succeed(host, cleared, self.parts.len());
            let done = self.detached(host, true).0;
            assert forall|j: int| 0 <= j < done.parts.len() implies (
            #[trigger] done.parts[j]).1.rested() by {
                assert(done.parts[j].1 == self.part_detached(cleared, true, j));
            }
        }
    }
}

impl<C: Component> PartView<C> {
    pub proof fn lemma_detach_succeeds(self, host: HostView)
        requires
            host.wf(),
            self.sound(host),
            self.spread(),
        ensures
            self.detached(host, true).2 is None,
        decreases self, 1nat, 0nat,
    {
        match self {
            PartView::Updatable { text_node, .. } => {
                lemma_unhook_succeeds(host, text_node);
            },
            PartView::Conditional { fragment, anchor, fragment_mounted, .. } => {
                lemma_unhook_succeeds(host, anchor);
                lemma_unhook_takes(host, anchor);
                let cleared = unhook(host, anchor).0;
                if fragment_mounted {
                    assert forall|node: NodeId| fragment.owned().contains(
                        node,
                    ) implies #[trigger] cleared.parent_of(node) == host.parent_of(node) by {
                        if host.has(node) {
                        } else {
                            assert(host.parent_of(node) is None);
                            assert(cleared.parent_of(node) is None);
                        }
                    }
                    fragment.lemma_sound_unmoved(host, cleared);
                    fragment.lemma_detach_succeeds(cleared);
                }
            },
            PartView::Each { mounted_fragments, anchor, .. } => {
                lemma_rows_detach_succeed(mounted_fragments, host, mounted_fragments.len());
                crate::fragment::exposure::lemma_rows_detached_unhook(
                    mounted_fragments,
                    host,
                    mounted_fragments.len(),
                );
                crate::fragment::ownership::lemma_rows_exposed_owned(
                    mounted_fragments,
                    mounted_fragments.len(),
                );
                let (cleared, failure) = fragments_detached(
                    mounted_fragments,
                    host,
                    true,
                    mounted_fragments.len(),
                );
                assert(host.has(anchor));
                assert(cleared.parent_of(anchor) == host.parent_of(anchor));
                lemma_unhook_succeeds(cleared, anchor);
            },
            PartView::Component { controller, .. } => {
                controller.fragment.lemma_detach_succeeds(host);
            },
        }
    }

    /// After a detach at the top level that succeeded, nothing is mounted below the part.
    pub proof fn lemma_detached_rests(self, host: HostView)
        requires
            host.wf(),
            self.sound(host),
            self.spread(),
        ensures
            self.detached(host, true).0.rested(),
        decreases self, 1nat, 1nat,
    {
        self.lemma_detach_succeeds(host);
        match self {
            PartView::Updatable { .. } => {},
            PartView::Conditional { fragment, anchor, fragment_mounted, .. } => {
                lemma_unhook_takes(host, anchor);
                let cleared = unhook(host, anchor).0;
                if fragment_mounted {
                    assert forall|node: NodeId| fragment.owned().contains(
                        node,
                    ) implies #[trigger] cleared.parent_of(node) == host.parent_of(node) by {
                        if host.has(node) {
                        } else {
                            assert(host.parent_of(node) is None);
                            assert(cleared.parent_of(node) is None);
                        }
                    }
                    fragment.lemma_sound_unmoved(host, cleared);
                    fragment.lemma_detach_succeeds(cleared);
                }
            },
            PartView::Each { .. } => {},
            PartView::Component { controller, .. } => {
                controller.fragment.lemma_detach_succeeds(host);
            },
        }
    }
}


// ======================================================================================
// A built fragment is in good standing
// ======================================================================================
/// What stays within nodes of the host stays with nodes of the later host.
pub proof fn lemma_hosted_after(before: Set<NodeId>, owned: Set<NodeId>, host: HostView, after: HostView)
    requires
        within(before, owned, host, after),
        hosted(before, host),
    ensures
        hosted(owned, after),
{
    assert forall|node: NodeId| #[trigger] owned.contains(node) implies after.has(node) by {
        if before.contains(node) {
            assert(host.has(node));
        }
    }
}

impl<C: Component> BuilderView<C> {
    /// A fragment is at rest when it has been built.
    pub proof fn lemma_built_rests(self, levels: nat, world: World)
        requires
            self.built(levels, world).failure is None,
        ensures
            self.built(levels, world).state.rested(),
        decreases levels, self, 1nat, 0nat,
    {
        let built = self.built(levels, world);
        let with_nodes = self.nodes_built(world, self.nodes.len());
        assert forall|j: int| 0 <= j < built.state.parts.len() implies (
        #[trigger] built.state.parts[j]).1.rested() by {
            self.lemma_parts_all_built(levels, with_nodes, j as nat, self.parts.len());
            self.lemma_parts_all_built(levels, with_nodes, (j + 1) as nat, self.parts.len());
            let before = self.parts_built(levels, with_nodes, j as nat).0;
            self.parts[j].kind.lemma_built_rests(levels, before);
        }
    }

    /// No node is owned twice in a fragment that has been built.
    pub proof fn lemma_built_spread(self, levels: nat, world: World)
        requires
            world.host.wf(),
            self.built(levels, world).failure is None,
            fits(self.built(levels, world).world.host),
        ensures
            self.built(levels, world).state.spread(),
            hosted(self.built(levels, world).state.owned(), self.built(levels, world).world.host),
        decreases levels, self, 1nat, 0nat,
    {
        let built = self.built(levels, world);
        let done = built.state;
        let first = world.host.nodes.len();
        let count = self.nodes.len();
        let parts = self.parts.len();
        self.lemma_built(levels, world);
        self.lemma_built_owned(levels, world);
        self.lemma_nodes_built(world, count);
        let with_nodes = self.nodes_built(world, count);
        self.lemma_parts_built(levels, with_nodes, parts);
        assert forall|k: int| 0 <= k < count implies (#[trigger] done.statics[k]).1 == first + k by {
            self.lemma_nodes_built(world, k as nat);
        }
        assert forall|j: int| 0 <= j < parts implies between(
            (#[trigger] done.parts[j]).1.owned(),
            self.seam(levels, with_nodes, j as nat),
            self.seam(levels, with_nodes, (j + 1) as nat),
        ) && first + count <= self.seam(levels, with_nodes, j as nat) && done.parts[j].1.spread() by {
            self.lemma_part_built_owned(levels, with_nodes, j);
            self.lemma_parts_grow(levels, with_nodes, 0, j as nat);
            self.lemma_parts_all_built(levels, with_nodes, j as nat, parts);
            self.lemma_parts_all_built(levels, with_nodes, (j + 1) as nat, parts);
            self.lemma_parts_built(levels, with_nodes, j as nat);
            self.lemma_parts_grow(levels, with_nodes, (j + 1) as nat, parts);
            let before = self.parts_built(levels, with_nodes, j as nat).0;
            self.parts[j].kind.lemma_built_spread(levels, before);
        }
        assert forall|k: int, j: int| 0 <= k < count && 0 <= j < parts implies !(
        #[trigger] done.parts[j]).1.owned().contains((#[trigger] done.statics[k]).1) by {
            if done.parts[j].1.owned().contains(done.statics[k].1) {
                assert(self.seam(levels, with_nodes, j as nat) <= done.statics[k].1);
            }
        }
        assert forall|a: int, b: int| 0 <= a < parts && 0 <= b < parts && a != b implies (
        #[trigger] done.parts[a]).1.owned().disjoint((#[trigger] done.parts[b]).1.owned()) by {
            assert forall|node: NodeId| !(done.parts[a].1.owned().contains(node)
                && done.parts[b].1.owned().contains(node)) by {
                if done.parts[a].1.owned().contains(node) && done.parts[b].1.owned().contains(node) {
                    if a < b {
                        self.lemma_parts_grow(levels, with_nodes, (a + 1) as nat, b as nat);
                    } else {
                        self.lemma_parts_grow(levels, with_nodes, (b + 1) as nat, a as nat);
                    }
                }
            }
        }
        assert forall|node: NodeId| #[trigger] done.owned().contains(node) implies built.world.host.has(
            node,
        ) by {}
    }
}

impl<C: Component> PartKind<C> {
    pub proof fn lemma_built_rests(self, levels: nat, world: World)
        requires
            self.built(levels, world).failure is None,
        ensures
            self.built(levels, world).state.rested(),
        decreases levels, self, 0nat, 0nat,
    {
        match self {
            PartKind::Updatable { .. } => {},
            PartKind::Conditional { fragment, .. } => {
                fragment.lemma_built_rests((levels - 1) as nat, world);
            },
            PartKind::Each { .. } => {},
            PartKind::Component { component, register_event, .. } => {
                let own = RegistryView { owner: register_event, closures: Map::empty() };
                component.rendered().lemma_built_rests(
                    (levels - 1) as nat,
                    World { host: world.host, registry: own },
                );
            },
        }
    }

    pub proof fn lemma_built_spread(self, levels: nat, world: World)
        requires
            world.host.wf(),
            self.built(levels, world).failure is None,
            fits(self.built(levels, world).world.host),
        ensures
            self.built(levels, world).state.spread(),
        decreases levels, self, 0nat, 0nat,
    {
        match self {
            PartKind::Updatable { .. } => {},
            PartKind::Conditional { fragment, .. } => {
                fragment.lemma_built((levels - 1) as nat, world);
                let nested = fragment.built((levels - 1) as nat, world);
                nested.world.host.lemma_created(false, Seq::empty());
                fragment.lemma_built_owned((levels - 1) as nat, world);
                fragment.lemma_built_spread((levels - 1) as nat, world);
            },
            PartKind::Each { .. } => {
                assert(rows_owned(Seq::<FragmentView<C>>::empty(), 0) =~= Set::empty());
            },
            PartKind::Component { component, register_event, .. } => {
                let own = RegistryView { owner: register_event, closures: Map::empty() };
                component.rendered().lemma_built_spread(
                    (levels - 1) as nat,
                    World { host: world.host, registry: own },
                );
            },
        }
    }
}


// ======================================================================================
// Steps beside each other
// ======================================================================================
/// A step that stays within some nodes moves no node of a set that is apart from them.
pub proof fn lemma_others_unmoved(
    before: Set<NodeId>,
    owned: Set<NodeId>,
    others: Set<NodeId>,
    host: HostView,
    after: HostView,
)
    requires
        within(before, owned, host, after),
        hosted(others, host),
        others.disjoint(before),
    ensures
        unmoved(others, host, after),
        hosted(others, after),
{
    assert forall|node: NodeId| others.contains(node) implies #[trigger] after.parent_of(node)
        == host.parent_of(node) by {
        assert(host.has(node));
        assert(!before.contains(node));
    }
    assert forall|node: NodeId| #[trigger] others.contains(node) implies after.has(node) by {
        assert(host.has(node));
    }
}

pub proof fn lemma_unmoved_then(nodes: Set<NodeId>, host: HostView, mid: HostView, after: HostView)
    requires
        unmoved(nodes, host, mid),
        unmoved(nodes, mid, after),
    ensures
        unmoved(nodes, host, after),
{
    assert forall|node: NodeId| nodes.contains(node) implies #[trigger] after.parent_of(node)
        == host.parent_of(node) by {
        assert(mid.parent_of(node) == host.parent_of(node));
    }
}

/// What is hosted stays hosted when the host grows.
pub proof fn lemma_hosted_later(nodes: Set<NodeId>, host: HostView, after: HostView)
    requires
        hosted(nodes, host),
        host.nodes.len() <= after.nodes.len(),
    ensures
        hosted(nodes, after),
{
    assert forall|node: NodeId| #[trigger] nodes.contains(node) implies after.has(node) by {
        assert(host.has(node));
    }
}

/// Two sets that have grown from sets apart, each by new nodes of its own time, are apart.
pub proof fn lemma_grown_apart(
    one: Set<NodeId>,
    one_after: Set<NodeId>,
    other: Set<NodeId>,
    other_after: Set<NodeId>,
    start: nat,
    one_from: nat,
    one_to: nat,
    other_from: nat,
    other_to: nat,
)
    requires
        one.disjoint(other),
        between(one, 0, start),
        between(other, 0, start),
        start <= one_from <= one_to,
        one_to <= other_from,
        forall|node: NodeId| #[trigger]
            one_after.contains(node) ==> one.contains(node) || one_from <= node < one_to,
        forall|node: NodeId| #[trigger]
            other_after.contains(node) ==> other.contains(node) || other_from <= node < other_to,
    ensures
        one_after.disjoint(other_after),
{
    assert forall|node: NodeId| one_after.contains(node) implies !other_after.contains(node) by {
        if other_after.contains(node) {
            assert(other.contains(node) || other_from <= node < other_to);
            assert(one.contains(node) || one_from <= node < one_to);
            if one.contains(node) {
                assert(node < start);
                assert(!other.contains(node));
            } else if other.contains(node) {
                assert(node < start);
            }
        }
    }
}

// ======================================================================================
// Detaching owns nothing twice
// ======================================================================================
impl<C: Component> FragmentView<C> {
    /// A fragment that owned no node twice owns none twice after a detach.
    pub proof fn lemma_detached_spread(self, host: HostView)
        requires
            self.spread(),
        ensures
            self.detached(host, true).0.spread(),
        decreases self, 1nat, 0nat,
    {
        let done = self.detached(host, true).0;
        if done != self {
            let cleared = self.statics_detached(host, self.statics.len()).0;
            assert forall|j: int| 0 <= j < done.parts.len() implies (
            #[trigger] done.parts[j]).1.spread() && done.parts[j].1.owned().subset_of(
                self.parts[j].1.owned(),
            ) by {
                assert(done.parts[j].1 == self.part_detached(cleared, true, j));
                let before = self.parts_detached(cleared, true, j as nat).0;
                if done.parts[j].1 != self.parts[j].1 {
                    self.parts[j].1.lemma_detached_spread(before);
                    self.parts[j].1.lemma_detached_owns_less(before);
                }
            }
            assert forall|k: int, j: int|
                0 <= k < done.statics.len() && 0 <= j < done.parts.len() implies !(
            #[trigger] done.parts[j]).1.owned().contains((#[trigger] done.statics[k]).1) by {
                assert(!self.parts[j].1.owned().contains(self.statics[k].1));
            }
            assert forall|a: int, b: int|
                0 <= a < done.parts.len() && 0 <= b < done.parts.len() && a != b implies (
            #[trigger] done.parts[a]).1.owned().disjoint((#[trigger] done.parts[b]).1.owned()) by {
                assert(self.parts[a].1.owned().disjoint(self.parts[b].1.owned()));
                assert(done.parts[a].1.owned().subset_of(self.parts[a].1.owned()));
                assert(done.parts[b].1.owned().subset_of(self.parts[b].1.owned()));
            }
        }
    }
}

impl<C: Component> PartView<C> {
    pub proof fn lemma_detached_spread(self, host: HostView)
        requires
            self.spread(),
        ensures
            self.detached(host, true).0.spread(),
        decreases self, 0nat, 0nat,
    {
        match self {
            PartView::Updatable { .. } => {},
            PartView::Conditional { fragment, anchor, .. } => {
                let cleared = unhook(host, anchor).0;
                fragment.lemma_detached_spread(cleared);
                fragment.lemma_detached_owns_less(cleared);
            },
            PartView::Each { .. } => {
                assert(rows_owned(Seq::<FragmentView<C>>::empty(), 0) =~= Set::empty());
            },
            PartView::Component { controller, .. } => {
                controller.fragment.lemma_detached_spread(host);
            },
        }
    }
}

// ======================================================================================
// The host grows along the parts
// ======================================================================================
impl<C: Component> FragmentView<C> {
    pub proof fn lemma_parts_mounted_grow(
        self,
        levels: nat,
        host: HostView,
        at: Location,
        j: nat,
        later: nat,
    )
        requires
            host.wf(),
            j <= later <= self.parts.len(),
        ensures
            self.parts_mounted(levels, host, at, j).0.nodes.len() <= self.parts_mounted(
                levels,
                host,
                at,
                later,
            ).0.nodes.len(),
        decreases later - j,
    {
        if j < later {
            self.lemma_parts_mounted_grow(levels, host, at, j, (later - 1) as nat);
            if later <= self.parts.len() {
                self.lemma_parts_mounted_keep(levels, host, at, (later - 1) as nat);
                let (before, failure) = self.parts_mounted(levels, host, at, (later - 1) as nat);
                if failure is None {
                    match self.target(self.parts[later - 1].0, at) {
                        Ok(target) => {
                            self.parts[later - 1].1.lemma_mounted_keeps(levels, before, target);
                        },
                        Err(_) => {},
                    }
                }
            }
        }
    }

    pub proof fn lemma_parts_updated_grow(
        self,
        levels: nat,
        world: World,
        context: C,
        changed: Seq<usize>,
        j: nat,
        later: nat,
    )
        requires
            world.host.wf(),
            j <= later <= self.parts.len(),
        ensures
            self.parts_updated(levels, world, context, changed, j).0.host.nodes.len()
                <= self.parts_updated(levels, world, context, changed, later).0.host.nodes.len(),
        decreases later - j,
    {
        if j < later {
            self.lemma_parts_updated_grow(levels, world, context, changed, j, (later - 1) as nat);
            if later <= self.parts.len() {
                self.lemma_parts_updated_keep(levels, world, context, changed, (later - 1) as nat);
                let (before, failure) = self.parts_updated(
                    levels,
                    world,
                    context,
                    changed,
                    (later - 1) as nat,
                );
                self.parts[later - 1].1.lemma_updated_keeps(levels, before, context, changed);
            }
        }
    }

    /// After the static nodes were mounted, those at the top have parents, and no node but
    /// a static node has moved.
    pub proof fn lemma_statics_mounted_stand(self, host: HostView, at: Location, k: nat)
        requires
            host.wf(),
            k <= self.statics.len(),
            self.statics_mounted(host, at, k).1 is None,
            self.spread(),
        ensures
            forall|i: int|
                0 <= i < k ==> self.statics_mounted(host, at, k).0.parent_of(
                    (#[trigger] self.statics[i]).1,
                ) is Some,
        decreases k,
    {
        if k > 0 {
            self.lemma_statics_mounted_stand(host, at, (k - 1) as nat);
            self.lemma_statics_mounted_keep(host, at, (k - 1) as nat);
            let (before, failure) = self.statics_mounted(host, at, (k - 1) as nat);
            let after = self.statics_mounted(host, at, k).0;
            let target = self.target(self.statics[k - 1].0, at);
            let node = self.statics[k - 1].1;
            crate::fragment::exposure::lemma_place_exposes(before, target, node, Set::empty(), 0);
            crate::fragment::ownership::lemma_place_within(before, target, node, set![node]);
            assert forall|i: int| 0 <= i < k implies after.parent_of((#[trigger] self.statics[i]).1)
                is Some by {
                if i < k - 1 {
                    assert(self.statics[i].1 != self.statics[k - 1].1);
                    assert(before.parent_of(self.statics[i].1) is Some);
                    assert(before.has(self.statics[i].1));
                    assert(after.parent_of(self.statics[i].1) == before.parent_of(
                        self.statics[i].1,
                    ));
                }
            }
        }
    }
}


// ======================================================================================
// Mounting puts a fragment at rest into good standing
// ======================================================================================
impl<C: Component> FragmentView<C> {
    /// The fragment owns no node twice, its nodes are nodes of the host, and what is
    /// mounted of it is in the tree.
    pub open spec fn stands(self, host: HostView) -> bool {
        self.spread() && hosted(self.owned(), host) && self.sound(host)
    }

    /// Where all parts were mounted, each one was.
    pub proof fn lemma_parts_mounted_all(
        self,
        levels: nat,
        host: HostView,
        at: Location,
        j: nat,
        all: nat,
    )
        requires
            j <= all <= self.parts.len(),
            self.parts_mounted(levels, host, at, all).1 is None,
        ensures
            self.parts_mounted(levels, host, at, j).1 is None,
    {
        if self.parts_mounted(levels, host, at, j).1 is Some {
            self.lemma_parts_mounted_stops(levels, host, at, j, all);
        }
    }

    /// What the mount of one part does, seen from the mount of all parts.
    pub proof fn lemma_part_mounted_at(
        self,
        levels: nat,
        host: HostView,
        at: Location,
        i: int,
        all: nat,
    )
        requires
            host.wf(),
            0 <= i < all <= self.parts.len(),
            self.parts_mounted(levels, host, at, all).1 is None,
            fits(self.parts_mounted(levels, host, at, all).0),
        ensures
            within(
                self.parts[i].1.owned(),
                self.part_mounted(levels, host, at, i).owned(),
                self.parts_mounted(levels, host, at, i as nat).0,
                self.parts_mounted(levels, host, at, (i + 1) as nat).0,
            ),
            host.nodes.len() <= self.parts_mounted(levels, host, at, i as nat).0.nodes.len(),
            self.parts_mounted(levels, host, at, (i + 1) as nat).0.nodes.len()
                <= self.parts_mounted(levels, host, at, all).0.nodes.len(),
            self.parts_mounted(levels, host, at, i as nat).0.wf(),
            self.parts_mounted(levels, host, at, (i + 1) as nat).0.wf(),
    {
        self.lemma_parts_mounted_all(levels, host, at, i as nat, all);
        self.lemma_parts_mounted_all(levels, host, at, (i + 1) as nat, all);
        self.lemma_parts_mounted_keep(levels, host, at, i as nat);
        self.lemma_parts_mounted_keep(levels, host, at, (i + 1) as nat);
        self.lemma_parts_mounted_grow(levels, host, at, (i + 1) as nat, all);
        let before = self.parts_mounted(levels, host, at, i as nat).0;
        let target = self.target(self.parts[i].0, at)->Ok_0;
        self.parts[i].1.lemma_mounted_within(levels, before, target);
    }

    pub proof fn lemma_parts_mounted_stand(
        self,
        levels: nat,
        host: HostView,
        at: Location,
        j: nat,
    )
        requires
            host.wf(),
            j <= self.parts.len(),
            self.parts_mounted(levels, host, at, j).1 is None,
            fits(self.parts_mounted(levels, host, at, j).0),
            self.spread(),
            hosted(self.owned(), host),
            self.rested(),
        ensures
            forall|i: int|
                0 <= i < j ==> (#[trigger] self.part_mounted(levels, host, at, i)).stands(
                    self.parts_mounted(levels, host, at, j).0,
                ),
            unmoved(
                self.own_statics(self.statics.len()),
                host,
                self.parts_mounted(levels, host, at, j).0,
            ),
        decreases levels, self, 0nat, j,
    {
        let own = self.own_statics(self.statics.len());
        if j > 0 {
            let last = j - 1;
            self.lemma_part_mounted_at(levels, host, at, last, j);
            let before = self.parts_mounted(levels, host, at, last as nat).0;
            let after = self.parts_mounted(levels, host, at, j).0;
            let part = self.parts[last].1;
            let target = self.target(self.parts[last].0, at)->Ok_0;
            self.lemma_parts_mounted_all(levels, host, at, last as nat, j);
            self.lemma_parts_mounted_stand(levels, host, at, last as nat);
            assert(hosted(part.owned(), host)) by {
                assert forall|node: NodeId| #[trigger] part.owned().contains(node) implies host.has(
                    node,
                ) by {
                    assert(self.parts_owned(self.parts.len()).contains(node));
                    assert(self.owned().contains(node));
                }
            }
            lemma_hosted_later(part.owned(), host, before);
            part.lemma_mounted_stands(levels, before, target);
            // The static nodes.
            assert(own.disjoint(part.owned())) by {
                assert forall|node: NodeId| own.contains(node) implies !part.owned().contains(
                    node,
                ) by {
                    let k = choose|k: int|
                        0 <= k < self.statics.len() && k < self.statics.len() && (
                        #[trigger] self.statics[k]).1 == node;
                    assert(!self.parts[last].1.owned().contains(self.statics[k].1));
                }
            }
            assert(hosted(own, host)) by {
                assert forall|node: NodeId| #[trigger] own.contains(node) implies host.has(node) by {
                    assert(self.owned().contains(node));
                }
            }
            lemma_hosted_later(own, host, before);
            lemma_others_unmoved(
                part.owned(),
                self.part_mounted(levels, host, at, last).owned(),
                own,
                before,
                after,
            );
            lemma_unmoved_then(own, host, before, after);
            // The parts before.
            assert forall|i: int| 0 <= i < j implies (#[trigger] self.part_mounted(
                levels,
                host,
                at,
                i,
            )).stands(after) by {
                if i < last {
                    let end = self.part_mounted(levels, host, at, i);
                    self.lemma_part_mounted_at(levels, host, at, i, j);
                    self.lemma_parts_mounted_grow(levels, host, at, (i + 1) as nat, last as nat);
                    assert(hosted(self.parts[i].1.owned(), host)) by {
                        assert forall|node: NodeId| #[trigger]
                            self.parts[i].1.owned().contains(node) implies host.has(node) by {
                            assert(self.parts_owned(self.parts.len()).contains(node));
                            assert(self.owned().contains(node));
                        }
                    }
                    assert(self.parts[i].1.owned().disjoint(self.parts[last].1.owned()));
                    lemma_grown_apart(
                        self.parts[i].1.owned(),
                        end.owned(),
                        part.owned(),
                        part.owned(),
                        host.nodes.len(),
                        self.parts_mounted(levels, host, at, i as nat).0.nodes.len(),
                        self.parts_mounted(levels, host, at, (i + 1) as nat).0.nodes.len(),
                        before.nodes.len(),
                        before.nodes.len(),
                    );
                    assert(end.stands(before));
                    lemma_others_unmoved(
                        part.owned(),
                        self.part_mounted(levels, host, at, last).owned(),
                        end.owned(),
                        before,
                        after,
                    );
                    end.lemma_sound_unmoved(before, after);
                }
            }
        }
    }

    /// Mounting puts a fragment that was at rest into good standing.
    pub proof fn lemma_mounted_stands(self, levels: nat, host: HostView, at: Location)
        requires
            host.wf(),
            self.mounted_at(levels, host, at).2 is None,
            fits(self.mounted_at(levels, host, at).1),
            self.spread(),
            hosted(self.owned(), host),
            self.rested(),
        ensures
            self.mounted_at(levels, host, at).0.stands(self.mounted_at(levels, host, at).1),
            self.mounted_at(levels, host, at).0.mounted,
        decreases levels, self, 1nat, 0nat,
    {
        let (done, after, failure) = self.mounted_at(levels, host, at);
        let count = self.statics.len();
        let parts = self.parts.len();
        let own = self.own_statics(count);
        self.lemma_statics_mounted_stand(host, at, count);
        self.lemma_statics_mounted_keep(host, at, count);
        self.lemma_statics_mounted_within(host, at, count);
        let (placed, _) = self.statics_mounted(host, at, count);
        lemma_hosted_later(self.owned(), host, placed);
        self.lemma_parts_mounted_stand(levels, placed, at, parts);
        self.lemma_mounted_within(levels, host, at);
        lemma_hosted_after(self.owned(), done.owned(), host, after);
        // What is mounted is in the tree.
        assert forall|k: int|
            0 <= k < done.statics.len() && (#[trigger] done.statics[k]).0
                is None implies after.parent_of(done.statics[k].1) is Some by {
            assert(own.contains(self.statics[k].1));
            assert(placed.parent_of(self.statics[k].1) is Some);
        }
        assert forall|j: int| 0 <= j < done.parts.len() implies (#[trigger] done.parts[j]).1.sound(
            after,
        ) && done.parts[j].1.spread() by {
            assert(done.parts[j].1 == self.part_mounted(levels, placed, at, j));
            assert(self.part_mounted(levels, placed, at, j).stands(after));
        }
        // No node is owned twice.
        assert forall|k: int, j: int|
            0 <= k < done.statics.len() && 0 <= j < done.parts.len() implies !(
        #[trigger] done.parts[j]).1.owned().contains((#[trigger] done.statics[k]).1) by {
            self.lemma_part_mounted_at(levels, placed, at, j, parts);
            assert(!self.parts[j].1.owned().contains(self.statics[k].1));
            assert(own.contains(self.statics[k].1));
            assert(self.owned().contains(self.statics[k].1));
            assert(host.has(self.statics[k].1));
        }
        assert forall|a: int, b: int|
            0 <= a < done.parts.len() && 0 <= b < done.parts.len() && a != b implies (
        #[trigger] done.parts[a]).1.owned().disjoint((#[trigger] done.parts[b]).1.owned()) by {
            if a < b {
                self.lemma_parts_apart(levels, placed, at, a, b);
            } else {
                self.lemma_parts_apart(levels, placed, at, b, a);
            }
        }
    }

    /// Two parts own no node in common after the mount.
    proof fn lemma_parts_apart(self, levels: nat, host: HostView, at: Location, a: int, b: int)
        requires
            host.wf(),
            0 <= a < b < self.parts.len(),
            self.parts_mounted(levels, host, at, self.parts.len()).1 is None,
            fits(self.parts_mounted(levels, host, at, self.parts.len()).0),
            self.spread(),
            hosted(self.owned(), host),
        ensures
            self.part_mounted(levels, host, at, a).owned().disjoint(
                self.part_mounted(levels, host, at, b).owned(),
            ),
            self.part_mounted(levels, host, at, b).owned().disjoint(
                self.part_mounted(levels, host, at, a).owned(),
            ),
    {
        let parts = self.parts.len();
        self.lemma_part_mounted_at(levels, host, at, a, parts);
        self.lemma_part_mounted_at(levels, host, at, b, parts);
        self.lemma_parts_mounted_grow(levels, host, at, (a + 1) as nat, b as nat);
        assert(self.parts[a].1.owned().disjoint(self.parts[b].1.owned()));
        assert forall|node: NodeId| #[trigger]
            self.parts[a].1.owned().contains(node) implies host.has(node) by {
            assert(self.parts_owned(parts).contains(node));
            assert(self.owned().contains(node));
        }
        assert forall|node: NodeId| #[trigger]
            self.parts[b].1.owned().contains(node) implies host.has(node) by {
            assert(self.parts_owned(parts).contains(node));
            assert(self.owned().contains(node));
        }
        lemma_grown_apart(
            self.parts[a].1.owned(),
            self.part_mounted(levels, host, at, a).owned(),
            self.parts[b].1.owned(),
            self.part_mounted(levels, host, at, b).owned(),
            host.nodes.len(),
            self.parts_mounted(levels, host, at, a as nat).0.nodes.len(),
            self.parts_mounted(levels, host, at, (a + 1) as nat).0.nodes.len(),
            self.parts_mounted(levels, host, at, b as nat).0.nodes.len(),
            self.parts_mounted(levels, host, at, (b + 1) as nat).0.nodes.len(),
        );
    }
}

impl<C: Component> ControllerView<C> {
    pub proof fn lemma_mounted_stands(self, levels: nat, host: HostView, at: Location)
        requires
            host.wf(),
            self.mounted_at(levels, host, at).failure is None,
            fits(self.mounted_at(levels, host, at).world.host),
            self.fragment.spread(),
            hosted(self.fragment.owned(), host),
            self.fragment.rested(),
        ensures
            self.mounted_at(levels, host, at).state.fragment.stands(
                self.mounted_at(levels, host, at).world.host,
            ),
            self.mounted_at(levels, host, at).state.fragment.mounted,
        decreases levels + 1, self, 0nat, 0nat,
    {
        self.fragment.lemma_mounted_keeps(levels, host, at);
        let (fragment, placed, failure) = self.fragment.mounted_at(levels, host, at);
        let world = World { host: placed, registry: self.registry };
        fragment.lemma_updated_keeps(levels, world, self.component, fragment.known);
        self.fragment.lemma_mounted_stands(levels, host, at);
        fragment.lemma_updated_stands(levels, world, self.component, fragment.known);
    }
}

impl<C: Component> PartView<C> {
    /// The part owns no node twice, its nodes are nodes of the host, and it is in the tree
    /// with what is mounted below it.
    pub open spec fn stands(self, host: HostView) -> bool {
        self.spread() && hosted(self.owned(), host) && self.sound(host)
    }

    pub proof fn lemma_mounted_stands(self, levels: nat, host: HostView, at: Location)
        requires
            host.wf(),
            self.mounted_at(levels, host, at).2 is None,
            fits(self.mounted_at(levels, host, at).1),
            self.spread(),
            hosted(self.owned(), host),
            self.rested(),
        ensures
            self.mounted_at(levels, host, at).0.stands(self.mounted_at(levels, host, at).1),
        decreases levels, self, 1nat, 0nat,
    {
        let (done, after, failure) = self.mounted_at(levels, host, at);
        self.lemma_mounted_keeps(levels, host, at);
        self.lemma_mounted_within(levels, host, at);
        lemma_hosted_after(self.owned(), done.owned(), host, after);
        match self {
            PartView::Updatable { text_node, .. } => {
                crate::fragment::exposure::lemma_place_exposes(
                    host,
                    Ok(at),
                    text_node,
                    Set::empty(),
                    0,
                );
            },
            PartView::Conditional { anchor, .. } => {
                crate::fragment::exposure::lemma_place_exposes(host, Ok(at), anchor, Set::empty(), 0);
            },
            PartView::Each { anchor, mounted_fragments, .. } => {
                crate::fragment::exposure::lemma_place_exposes(host, Ok(at), anchor, Set::empty(), 0);
            },
            PartView::Component { controller, .. } => {
                controller.lemma_mounted_stands((levels - 1) as nat, host, at);
            },
        }
    }
}


// ======================================================================================
// Updating keeps a fragment in good standing
// ======================================================================================
impl<C: Component> FragmentView<C> {
    /// Where all parts were updated, each one was.
    pub proof fn lemma_parts_updated_all(
        self,
        levels: nat,
        world: World,
        context: C,
        changed: Seq<usize>,
        j: nat,
        all: nat,
    )
        requires
            j <= all <= self.parts.len(),
            self.parts_updated(levels, world, context, changed, all).1 is None,
        ensures
            self.parts_updated(levels, world, context, changed, j).1 is None,
    {
        if self.parts_updated(levels, world, context, changed, j).1 is Some {
            self.lemma_parts_updated_stops(levels, world, context, changed, j, all);
        }
    }

    /// What the update of one part does, seen from the update of all parts.
    pub proof fn lemma_part_updated_at(
        self,
        levels: nat,
        world: World,
        context: C,
        changed: Seq<usize>,
        i: int,
        all: nat,
    )
        requires
            world.host.wf(),
            0 <= i < all <= self.parts.len(),
            self.parts_updated(levels, world, context, changed, all).1 is None,
            fits(self.parts_updated(levels, world, context, changed, all).0.host),
        ensures
            within(
                self.parts[i].1.owned(),
                self.part_updated(levels, world, context, changed, i).owned(),
                self.parts_updated(levels, world, context, changed, i as nat).0.host,
                self.parts_updated(levels, world, context, changed, (i + 1) as nat).0.host,
            ),
            world.host.nodes.len() <= self.parts_updated(
                levels,
                world,
                context,
                changed,
                i as nat,
            ).0.host.nodes.len(),
            self.parts_updated(levels, world, context, changed, (i + 1) as nat).0.host.nodes.len()
                <= self.parts_updated(levels, world, context, changed, all).0.host.nodes.len(),
            self.parts_updated(levels, world, context, changed, i as nat).0.host.wf(),
            self.parts_updated(levels, world, context, changed, (i + 1) as nat).0.host.wf(),
    {
        self.lemma_parts_updated_all(levels, world, context, changed, i as nat, all);
        self.lemma_parts_updated_all(levels, world, context, changed, (i + 1) as nat, all);
        self.lemma_parts_updated_keep(levels, world, context, changed, i as nat);
        self.lemma_parts_updated_keep(levels, world, context, changed, (i + 1) as nat);
        self.lemma_parts_updated_grow(levels, world, context, changed, (i + 1) as nat, all);
        let before = self.parts_updated(levels, world, context, changed, i as nat).0;
        if selects(self.dependencies, changed, i as usize) {
            self.parts[i].1.lemma_updated_within(levels, before, context, changed);
        } else {
            crate::fragment::ownership::lemma_within_same(self.parts[i].1.owned(), before.host);
        }
    }

    /// The nodes of one part are nodes of the host, as all nodes of the fragment are.
    proof fn lemma_part_hosted(self, host: HostView, i: int)
        requires
            0 <= i < self.parts.len(),
            hosted(self.owned(), host),
        ensures
            hosted(self.parts[i].1.owned(), host),
            hosted(self.own_statics(self.statics.len()), host),
    {
        assert forall|node: NodeId| #[trigger] self.parts[i].1.owned().contains(node) implies host.has(
            node,
        ) by {
            assert(self.parts_owned(self.parts.len()).contains(node));
            assert(self.owned().contains(node));
        }
        assert forall|node: NodeId| #[trigger]
            self.own_statics(self.statics.len()).contains(node) implies host.has(node) by {
            assert(self.owned().contains(node));
        }
    }

    /// No part owns a static node.
    proof fn lemma_statics_apart(self, i: int)
        requires
            0 <= i < self.parts.len(),
            self.spread(),
        ensures
            self.own_statics(self.statics.len()).disjoint(self.parts[i].1.owned()),
    {
        assert forall|node: NodeId|
            self.own_statics(self.statics.len()).contains(node) implies !self.parts[i].1.owned().contains(
            node,
        ) by {
            let k = choose|k: int|
                0 <= k < self.statics.len() && k < self.statics.len() && (
                #[trigger] self.statics[k]).1 == node;
            assert(!self.parts[i].1.owned().contains(self.statics[k].1));
        }
    }

    pub proof fn lemma_parts_updated_stand(
        self,
        levels: nat,
        world: World,
        context: C,
        changed: Seq<usize>,
        j: nat,
    )
        requires
            world.host.wf(),
            j <= self.parts.len(),
            self.parts_updated(levels, world, context, changed, j).1 is None,
            fits(self.parts_updated(levels, world, context, changed, j).0.host),
            self.mounted,
            self.stands(world.host),
        ensures
            forall|i: int|
                0 <= i < j ==> (#[trigger] self.part_updated(levels, world, context, changed, i)).stands(
                    self.parts_updated(levels, world, context, changed, j).0.host,
                ),
            forall|i: int|
                j <= i < self.parts.len() ==> (#[trigger] self.parts[i]).1.stands(
                    self.parts_updated(levels, world, context, changed, j).0.host,
                ),
            unmoved(
                self.own_statics(self.statics.len()),
                world.host,
                self.parts_updated(levels, world, context, changed, j).0.host,
            ),
        decreases levels, self, 0nat, j,
    {
        let own = self.own_statics(self.statics.len());
        let host = world.host;
        if j > 0 {
            let last = j - 1;
            self.lemma_part_updated_at(levels, world, context, changed, last, j);
            let before = self.parts_updated(levels, world, context, changed, last as nat).0;
            let after = self.parts_updated(levels, world, context, changed, j).0;
            let part = self.parts[last].1;
            let end = self.part_updated(levels, world, context, changed, last);
            self.lemma_parts_updated_all(levels, world, context, changed, last as nat, j);
            self.lemma_parts_updated_stand(levels, world, context, changed, last as nat);
            assert(part.stands(before.host));
            if selects(self.dependencies, changed, last as usize) {
                part.lemma_updated_stands(levels, before, context, changed);
            }
            assert(end.stands(after.host));
            // The static nodes.
            self.lemma_part_hosted(host, last);
            self.lemma_statics_apart(last);
            lemma_hosted_later(own, host, before.host);
            lemma_others_unmoved(part.owned(), end.owned(), own, before.host, after.host);
            lemma_unmoved_then(own, host, before.host, after.host);
            // The parts before.
            assert forall|i: int| 0 <= i < j implies (#[trigger] self.part_updated(
                levels,
                world,
                context,
                changed,
                i,
            )).stands(after.host) by {
                if i < last {
                    let earlier = self.part_updated(levels, world, context, changed, i);
                    self.lemma_part_updated_at(levels, world, context, changed, i, j);
                    self.lemma_parts_updated_grow(
                        levels,
                        world,
                        context,
                        changed,
                        (i + 1) as nat,
                        last as nat,
                    );
                    self.lemma_part_hosted(host, i);
                    assert(self.parts[i].1.owned().disjoint(self.parts[last].1.owned()));
                    lemma_grown_apart(
                        self.parts[i].1.owned(),
                        earlier.owned(),
                        part.owned(),
                        part.owned(),
                        host.nodes.len(),
                        self.parts_updated(levels, world, context, changed, i as nat).0.host.nodes.len(),
                        self.parts_updated(
                            levels,
                            world,
                            context,
                            changed,
                            (i + 1) as nat,
                        ).0.host.nodes.len(),
                        before.host.nodes.len(),
                        before.host.nodes.len(),
                    );
                    assert(earlier.stands(before.host));
                    lemma_others_unmoved(
                        part.owned(),
                        end.owned(),
                        earlier.owned(),
                        before.host,
                        after.host,
                    );
                    earlier.lemma_sound_unmoved(before.host, after.host);
                }
            }
            // The parts to come.
            assert forall|i: int| j <= i < self.parts.len() implies (#[trigger] self.parts[i]).1.stands(
                after.host,
            ) by {
                let later = self.parts[i].1;
                assert(later.stands(before.host));
                assert(self.parts[i].1.owned().disjoint(self.parts[last].1.owned()));
                lemma_others_unmoved(part.owned(), end.owned(), later.owned(), before.host, after.host);
                later.lemma_sound_unmoved(before.host, after.host);
            }
        } else {
            assert forall|i: int| 0 <= i < self.parts.len() implies (#[trigger] self.parts[i]).1.stands(
                host,
            ) by {
                self.lemma_part_hosted(host, i);
            }
        }
    }

    /// Two parts own no node in common after the update.
    proof fn lemma_parts_apart_updated(
        self,
        levels: nat,
        world: World,
        context: C,
        changed: Seq<usize>,
        a: int,
        b: int,
    )
        requires
            world.host.wf(),
            0 <= a < b < self.parts.len(),
            self.parts_updated(levels, world, context, changed, self.parts.len()).1 is None,
            fits(self.parts_updated(levels, world, context, changed, self.parts.len()).0.host),
            self.spread(),
            hosted(self.owned(), world.host),
        ensures
            self.part_updated(levels, world, context, changed, a).owned().disjoint(
                self.part_updated(levels, world, context, changed, b).owned(),
            ),
            self.part_updated(levels, world, context, changed, b).owned().disjoint(
                self.part_updated(levels, world, context, changed, a).owned(),
            ),
    {
        let parts = self.parts.len();
        self.lemma_part_updated_at(levels, world, context, changed, a, parts);
        self.lemma_part_updated_at(levels, world, context, changed, b, parts);
        self.lemma_parts_updated_grow(levels, world, context, changed, (a + 1) as nat, b as nat);
        assert(self.parts[a].1.owned().disjoint(self.parts[b].1.owned()));
        self.lemma_part_hosted(world.host, a);
        self.lemma_part_hosted(world.host, b);
        lemma_grown_apart(
            self.parts[a].1.owned(),
            self.part_updated(levels, world, context, changed, a).owned(),
            self.parts[b].1.owned(),
            self.part_updated(levels, world, context, changed, b).owned(),
            world.host.nodes.len(),
            self.parts_updated(levels, world, context, changed, a as nat).0.host.nodes.len(),
            self.parts_updated(levels, world, context, changed, (a + 1) as nat).0.host.nodes.len(),
            self.parts_updated(levels, world, context, changed, b as nat).0.host.nodes.len(),
            self.parts_updated(levels, world, context, changed, (b + 1) as nat).0.host.nodes.len(),
        );
    }

    /// Updating keeps a fragment in good standing.
    pub proof fn lemma_updated_stands(self, levels: nat, world: World, context: C, changed: Seq<usize>)
        requires
            world.host.wf(),
            self.updated(levels, world, context, changed).failure is None,
            fits(self.updated(levels, world, context, changed).world.host),
            self.stands(world.host),
        ensures
            self.updated(levels, world, context, changed).state.stands(
                self.updated(levels, world, context, changed).world.host,
            ),
            self.updated(levels, world, context, changed).state.mounted == self.mounted,
        decreases levels, self, 1nat, 0nat,
    {
        let step = self.updated(levels, world, context, changed);
        let done = step.state;
        let after = step.world.host;
        if self.mounted {
            let parts = self.parts.len();
            let own = self.own_statics(self.statics.len());
            self.lemma_parts_updated_stand(levels, world, context, changed, parts);
            self.lemma_updated_within(levels, world, context, changed);
            lemma_hosted_after(self.owned(), done.owned(), world.host, after);
            assert forall|k: int|
                0 <= k < done.statics.len() && (#[trigger] done.statics[k]).0
                    is None implies after.parent_of(done.statics[k].1) is Some by {
                assert(own.contains(self.statics[k].1));
                assert(world.host.parent_of(self.statics[k].1) is Some);
            }
            assert forall|j: int| 0 <= j < done.parts.len() implies (
            #[trigger] done.parts[j]).1.sound(after) && done.parts[j].1.spread() by {
                assert(done.parts[j].1 == self.part_updated(levels, world, context, changed, j));
                assert(self.part_updated(levels, world, context, changed, j).stands(after));
            }
            assert forall|k: int, j: int|
                0 <= k < done.statics.len() && 0 <= j < done.parts.len() implies !(
            #[trigger] done.parts[j]).1.owned().contains((#[trigger] done.statics[k]).1) by {
                self.lemma_part_updated_at(levels, world, context, changed, j, parts);
                assert(!self.parts[j].1.owned().contains(self.statics[k].1));
                assert(own.contains(self.statics[k].1));
                assert(self.owned().contains(self.statics[k].1));
                assert(world.host.has(self.statics[k].1));
            }
            assert forall|a: int, b: int|
                0 <= a < done.parts.len() && 0 <= b < done.parts.len() && a != b implies (
            #[trigger] done.parts[a]).1.owned().disjoint((#[trigger] done.parts[b]).1.owned()) by {
                if a < b {
                    self.lemma_parts_apart_updated(levels, world, context, changed, a, b);
                } else {
                    self.lemma_parts_apart_updated(levels, world, context, changed, b, a);
                }
            }
        }
    }
}

impl<C: Component> PartView<C> {
    /// A row that was made is in good standing, mounted, and made of new nodes.
    pub proof fn lemma_row_stands(
        self,
        levels: nat,
        world: World,
        context: C,
        anchor: NodeId,
        item: BuilderView<C>,
    )
        requires
            world.host.wf(),
            self.row(levels, world, context, anchor, item).failure is None,
            fits(self.row(levels, world, context, anchor, item).world.host),
        ensures
            self.row(levels, world, context, anchor, item).state.stands(
                self.row(levels, world, context, anchor, item).world.host,
            ),
            self.row(levels, world, context, anchor, item).state.mounted,
        decreases levels, self, 0nat, 0nat,
    {
        let at = Location::before(world.host, anchor)->Ok_0;
        item.lemma_built((levels - 1) as nat, world);
        let made = item.built((levels - 1) as nat, world);
        made.state.lemma_mounted_keeps((levels - 1) as nat, made.world.host, at);
        let (fragment, placed, failure) = made.state.mounted_at(
            (levels - 1) as nat,
            made.world.host,
            at,
        );
        fragment.lemma_updated_keeps(
            (levels - 1) as nat,
            made.world.on(placed),
            context,
            fragment.known,
        );
        item.lemma_built_rests((levels - 1) as nat, world);
        item.lemma_built_spread((levels - 1) as nat, world);
        made.state.lemma_mounted_stands((levels - 1) as nat, made.world.host, at);
        fragment.lemma_updated_stands(
            (levels - 1) as nat,
            made.world.on(placed),
            context,
            fragment.known,
        );
    }

    /// The rows that were made are in good standing, and made of new nodes.
    pub proof fn lemma_rows_stand(
        self,
        levels: nat,
        world: World,
        context: C,
        anchor: NodeId,
        items: Seq<BuilderView<C>>,
        k: nat,
    )
        requires
            world.host.wf(),
            k <= items.len(),
            self.rows(levels, world, context, anchor, items, k).failure is None,
            fits(self.rows(levels, world, context, anchor, items, k).world.host),
        ensures
            self.rows(levels, world, context, anchor, items, k).state.len() == k,
            rows_spread(self.rows(levels, world, context, anchor, items, k).state),
            rows_sound(
                self.rows(levels, world, context, anchor, items, k).state,
                self.rows(levels, world, context, anchor, items, k).world.host,
            ),
            between(
                rows_owned(self.rows(levels, world, context, anchor, items, k).state, k),
                world.host.nodes.len(),
                self.rows(levels, world, context, anchor, items, k).world.host.nodes.len(),
            ),
            unmoved(
                Set::new(|node: NodeId| world.host.has(node)),
                world.host,
                self.rows(levels, world, context, anchor, items, k).world.host,
            ),
        decreases levels, self, 0nat, k + 1,
    {
        let done = self.rows(levels, world, context, anchor, items, k);
        let old = Set::new(|node: NodeId| world.host.has(node));
        if k > 0 {
            let before = self.rows(levels, world, context, anchor, items, (k - 1) as nat);
            self.lemma_rows_keep(levels, world, context, anchor, items, (k - 1) as nat);
            self.lemma_row_keeps(levels, before.world, context, anchor, items[k - 1]);
            self.lemma_rows_stand(levels, world, context, anchor, items, (k - 1) as nat);
            self.lemma_row_stands(levels, before.world, context, anchor, items[k - 1]);
            self.lemma_row_within(levels, before.world, context, anchor, items[k - 1]);
            self.lemma_rows_within(levels, world, context, anchor, items, k);
            let made = self.row(levels, before.world, context, anchor, items[k - 1]);
            assert(done.state == before.state.push(made.state));
            let earlier = rows_owned(before.state, (k - 1) as nat);
            assert forall|node: NodeId| made.state.owned().contains(
                node,
            ) implies before.world.host.nodes.len() <= node < done.world.host.nodes.len() by {}
            assert forall|node: NodeId| old.contains(node) implies #[trigger] done.world.host.parent_of(
                node,
            ) == world.host.parent_of(node) by {
                assert(before.world.host.parent_of(node) == world.host.parent_of(node));
                assert(before.world.host.has(node));
            }
            assert forall|i: int| 0 <= i < done.state.len() implies (#[trigger] done.state[i]).mounted
                && done.state[i].sound(done.world.host) && done.state[i].spread() by {
                if i < k - 1 {
                    let row = before.state[i];
                    assert(done.state[i] == row);
                    assert forall|node: NodeId| row.owned().contains(
                        node,
                    ) implies #[trigger] done.world.host.parent_of(node)
                        == before.world.host.parent_of(node) by {
                        assert(earlier.contains(node));
                        assert(before.world.host.has(node));
                    }
                    row.lemma_sound_unmoved(before.world.host, done.world.host);
                } else {
                    assert(done.state[i] == made.state);
                }
            }
            assert forall|a: int, b: int|
                0 <= a < done.state.len() && 0 <= b < done.state.len() && a != b implies (
            #[trigger] done.state[a]).owned().disjoint((#[trigger] done.state[b]).owned()) by {
                if a < k - 1 && b < k - 1 {
                    assert(before.state[a].owned().disjoint(before.state[b].owned()));
                } else {
                    let low = if a < b {
                        a
                    } else {
                        b
                    };
                    assert(done.state[low] == before.state[low]);
                    assert forall|node: NodeId| done.state[low].owned().contains(node) implies node
                        < before.world.host.nodes.len() by {
                        assert(earlier.contains(node));
                    }
                    assert forall|node: NodeId| done.state[a].owned().contains(
                        node,
                    ) implies !done.state[b].owned().contains(node) by {}
                }
            }
            assert forall|node: NodeId| #[trigger]
                rows_owned(done.state, k).contains(node) implies world.host.nodes.len() <= node
                < done.world.host.nodes.len() by {
                let i = choose|i: int|
                    0 <= i < k && i < done.state.len() && (#[trigger] done.state[i]).owned().contains(
                        node,
                    );
                if i < k - 1 {
                    assert(before.state[i] == done.state[i]);
                    assert(earlier.contains(node));
                } else {
                    assert(done.state[i] == made.state);
                }
            }
        } else {
            assert(rows_owned(done.state, 0) =~= Set::empty());
        }
    }

    /// Updating keeps a part in good standing.
    pub proof fn lemma_updated_stands(self, levels: nat, world: World, context: C, changed: Seq<usize>)
        requires
            world.host.wf(),
            self.updated(levels, world, context, changed).failure is None,
            fits(self.updated(levels, world, context, changed).world.host),
            self.stands(world.host),
        ensures
            self.updated(levels, world, context, changed).state.stands(
                self.updated(levels, world, context, changed).world.host,
            ),
        decreases levels, self, 1nat, 0nat,
    {
        let step = self.updated(levels, world, context, changed);
        let host = world.host;
        let after = step.world.host;
        self.lemma_updated_keeps(levels, world, context, changed);
        self.lemma_updated_within(levels, world, context, changed);
        lemma_hosted_after(self.owned(), step.state.owned(), host, after);
        match self {
            PartView::Updatable { get_text, text_node } => {
                host.lemma_text_keeps_tree(text_node, context.text_of(get_text));
                assert(host.has(text_node));
                assert(after.parent_of(text_node) == host.parent_of(text_node));
            },
            PartView::Conditional { check_condition, fragment, anchor, fragment_mounted } => {
                let shows = context.holds(check_condition);
                assert(self.owned().contains(anchor));
                assert(host.has(anchor));
                assert(hosted(fragment.owned(), host)) by {
                    assert forall|node: NodeId| #[trigger] fragment.owned().contains(
                        node,
                    ) implies host.has(node) by {
                        assert(self.owned().contains(node));
                    }
                }
                if shows && !fragment_mounted {
                    let at = Location::before(host, anchor)->Ok_0;
                    fragment.lemma_mounted_keeps((levels - 1) as nat, host, at);
                    let (nested, placed, failure) = fragment.mounted_at((levels - 1) as nat, host, at);
                    nested.lemma_updated_keeps(
                        (levels - 1) as nat,
                        world.on(placed),
                        context,
                        nested.known,
                    );
                    fragment.lemma_mounted_stands((levels - 1) as nat, host, at);
                    nested.lemma_updated_stands(
                        (levels - 1) as nat,
                        world.on(placed),
                        context,
                        nested.known,
                    );
                    fragment.lemma_mounted_within((levels - 1) as nat, host, at);
                    nested.lemma_updated_within(
                        (levels - 1) as nat,
                        world.on(placed),
                        context,
                        nested.known,
                    );
                    let shown = nested.fully_updated((levels - 1) as nat, world.on(placed), context);
                    crate::fragment::ownership::lemma_within_then(
                        fragment.owned(),
                        nested.owned(),
                        shown.state.owned(),
                        host,
                        placed,
                        after,
                    );
                    assert(after.parent_of(anchor) == host.parent_of(anchor));
                    assert(!shown.state.owned().contains(anchor));
                } else if !shows && fragment_mounted {
                    fragment.lemma_detach_succeeds(host);
                    fragment.lemma_detached_spread(host);
                    fragment.lemma_detached_owns_less(host);
                    fragment.lemma_detached_unhooks(host);
                    fragment.lemma_exposed_owned();
                    fragment.lemma_detached_keeps(host, true);
                    let done = fragment.detached(host, true).0;
                    assert(!fragment.exposed().contains(anchor));
                    assert(after.parent_of(anchor) == host.parent_of(anchor));
                    assert(!done.owned().contains(anchor));
                } else if fragment_mounted {
                    fragment.lemma_updated_stands((levels - 1) as nat, world, context, changed);
                    fragment.lemma_updated_within((levels - 1) as nat, world, context, changed);
                    let passed = fragment.updated((levels - 1) as nat, world, context, changed);
                    assert(after.parent_of(anchor) == host.parent_of(anchor));
                    assert(!passed.state.owned().contains(anchor));
                }
            },
            PartView::Each { get_items, mounted_fragments, anchor } => {
                assert(self.owned().contains(anchor));
                assert(host.has(anchor));
                crate::fragment::exposure::lemma_rows_detached_unhook(
                    mounted_fragments,
                    host,
                    mounted_fragments.len(),
                );
                crate::fragment::frame::lemma_fragments_detached_keep(
                    mounted_fragments,
                    host,
                    true,
                    mounted_fragments.len(),
                );
                crate::fragment::ownership::lemma_rows_exposed_owned(
                    mounted_fragments,
                    mounted_fragments.len(),
                );
                let (cleared, failure) = fragments_detached(
                    mounted_fragments,
                    host,
                    true,
                    mounted_fragments.len(),
                );
                assert(cleared.parent_of(anchor) == host.parent_of(anchor));
                let items = context.items_of(get_items);
                self.lemma_rows_stand(levels, world.on(cleared), context, anchor, items, items.len());
                let made = self.rows(levels, world.on(cleared), context, anchor, items, items.len());
                assert(Set::new(|node: NodeId| cleared.has(node)).contains(anchor));
                assert(after.parent_of(anchor) == cleared.parent_of(anchor));
                assert(!rows_owned(made.state, made.state.len()).contains(anchor));
            },
            PartView::Component { controller, update } => {
                match context.passed_on(update, controller.component, changed) {
                    Some(ids) => {
                        controller.fragment.lemma_updated_stands(
                            (levels - 1) as nat,
                            World { host, registry: controller.registry },
                            context.adapted(update, controller.component, changed),
                            ids,
                        );
                    },
                    None => {},
                }
            },
        }
    }
}


// ======================================================================================
// The life of a fragment
// ======================================================================================
impl<C: Component> BuilderView<C> {
    /// A fragment is in good standing when it has been built: it owns no node twice, it owns
    /// nodes that were created for it, and it is at rest.
    pub proof fn lemma_built_stands(self, levels: nat, world: World)
        requires
            world.host.wf(),
            self.built(levels, world).failure is None,
            fits(self.built(levels, world).world.host),
        ensures
            self.built(levels, world).state.stands(self.built(levels, world).world.host),
            self.built(levels, world).state.rested(),
            self.built(levels, world).state.kempt(
                self.built(levels, world).world.host,
                world.host.nodes.len(),
            ),
    {
        let built = self.built(levels, world);
        let floor = world.host.nodes.len();
        self.lemma_built(levels, world);
        self.lemma_built_rests(levels, world);
        self.lemma_built_spread(levels, world);
        self.lemma_built_above(levels, world);
        assert forall|node: NodeId|
            built.world.host.has(node) && node >= floor implies built.state.exposed().contains(node)
            || #[trigger] crate::fragment::exposure::inward(built.world.host, node, floor) by {
            let now = built.world.host.nodes[node as int];
        }
    }

    /// Mount and detach are symmetric, and the detach never fails. Whatever a builder
    /// describes, child components included: if the fragment that it builds can be mounted,
    /// it can be detached at the top level afterwards, and then every node that was there
    /// before the fragment was built has the children it had before the mount, node for node
    /// and in the same order. The fragment is at rest again, in good standing, and can be
    /// mounted once more.
    pub proof fn lemma_built_mounts_then_detaches(
        self,
        levels: nat,
        world: World,
        depth: nat,
        at: Location,
    )
        requires
            world.host.wf(),
            self.built(levels, world).failure is None,
            self.built(levels, world).state.mounted_at(
                depth,
                self.built(levels, world).world.host,
                at,
            ).2 is None,
            fits(
                self.built(levels, world).state.mounted_at(
                    depth,
                    self.built(levels, world).world.host,
                    at,
                ).1,
            ),
        ensures
            ({
                let built = self.built(levels, world);
                let (mounted, placed, failure) = built.state.mounted_at(depth, built.world.host, at);
                let (detached, after, failed) = mounted.detached(placed, true);
                &&& failed is None
                &&& detached.rested()
                &&& detached.stands(after)
                &&& detached.kempt(after, world.host.nodes.len())
                &&& forall|node: NodeId|
                    world.host.has(node) ==> #[trigger] after.children_of(node)
                        == built.world.host.children_of(node) && after.children_of(node)
                        == world.host.children_of(node)
            }),
    {
        let built = self.built(levels, world);
        let floor = world.host.nodes.len();
        let host = built.world.host;
        let (mounted, placed, failure) = built.state.mounted_at(depth, host, at);
        self.lemma_built(levels, world);
        built.state.lemma_mounted_keeps(depth, host, at);
        self.lemma_built_stands(levels, world);
        built.state.lemma_mounted_stands(depth, host, at);
        mounted.lemma_detach_succeeds(placed);
        mounted.lemma_detached_keeps(placed, true);
        mounted.lemma_detached_spread(placed);
        mounted.lemma_detached_within(placed);
        let (detached, after, failed) = mounted.detached(placed, true);
        lemma_hosted_after(mounted.owned(), detached.owned(), placed, after);
        built.state.lemma_mount_keeps_kempt(depth, host, at, floor);
        mounted.lemma_detach_keeps_kempt(placed, floor);
        self.lemma_built_then_mounted_then_detached(levels, world, depth, at);
    }
}

impl<C: Component> FragmentView<C> {
    /// A fragment in good standing can always be detached: a detach at the top level of a
    /// fragment that stands never fails, whatever mounts and updates the fragment has been
    /// through, and leaves the fragment at rest and in good standing.
    pub proof fn lemma_standing_detaches(self, host: HostView)
        requires
            host.wf(),
            self.stands(host),
        ensures
            self.detached(host, true).2 is None,
            self.detached(host, true).0.rested(),
            self.detached(host, true).0.stands(self.detached(host, true).1),
    {
        self.lemma_detach_succeeds(host);
        self.lemma_detached_keeps(host, true);
        self.lemma_detached_spread(host);
        self.lemma_detached_within(host);
        lemma_hosted_after(
            self.owned(),
            self.detached(host, true).0.owned(),
            host,
            self.detached(host, true).1,
        );
    }

    /// A fragment in good standing stays so through an update, and the older nodes stay as
    /// they are: every update that succeeds leaves the fragment standing and kempt, so that
    /// it can be updated again and detached whenever that is wanted.
    pub proof fn lemma_standing_updates(
        self,
        levels: nat,
        world: World,
        context: C,
        changed: Seq<usize>,
        floor: nat,
    )
        requires
            world.host.wf(),
            self.stands(world.host),
            self.kempt(world.host, floor),
            self.updated(levels, world, context, changed).failure is None,
            fits(self.updated(levels, world, context, changed).world.host),
        ensures
            self.updated(levels, world, context, changed).state.stands(
                self.updated(levels, world, context, changed).world.host,
            ),
            self.updated(levels, world, context, changed).state.kempt(
                self.updated(levels, world, context, changed).world.host,
                floor,
            ),
            undisturbed(
                world.host,
                self.updated(levels, world, context, changed).world.host,
                floor,
            ),
            self.updated(levels, world, context, changed).world.host.wf(),
    {
        self.lemma_updated_keeps(levels, world, context, changed);
        self.lemma_updated_stands(levels, world, context, changed);
        self.lemma_update_keeps_kempt(levels, world, context, changed, floor);
    }

    /// A fragment at rest and in good standing comes into good standing by a mount that
    /// succeeds, and the older nodes stay as they are.
    pub proof fn lemma_resting_mounts(self, levels: nat, host: HostView, at: Location, floor: nat)
        requires
            host.wf(),
            self.stands(host),
            self.rested(),
            self.kempt(host, floor),
            self.mounted_at(levels, host, at).2 is None,
            fits(self.mounted_at(levels, host, at).1),
        ensures
            self.mounted_at(levels, host, at).0.stands(self.mounted_at(levels, host, at).1),
            self.mounted_at(levels, host, at).0.mounted,
            self.mounted_at(levels, host, at).0.kempt(self.mounted_at(levels, host, at).1, floor),
            undisturbed(host, self.mounted_at(levels, host, at).1, floor),
            self.mounted_at(levels, host, at).1.wf(),
    {
        self.lemma_mounted_keeps(levels, host, at);
        self.lemma_mounted_stands(levels, host, at);
        self.lemma_mount_keeps_kempt(levels, host, at, floor);
    }

    /// The end of a life: a fragment that stands and is kempt is detached at the top level
    /// without fail, and then every node that is older than the fragment, and has not been
    /// disturbed since a host `since`, has the children it had in that host.
    pub proof fn lemma_standing_detaches_clean(self, since: HostView, host: HostView, floor: nat)
        requires
            since.wf(),
            apart(since, floor),
            undisturbed(since, host, floor),
            self.stands(host),
            self.kempt(host, floor),
        ensures
            self.detached(host, true).2 is None,
            self.detached(host, true).0.rested(),
            self.detached(host, true).0.stands(self.detached(host, true).1),
            self.detached(host, true).0.kempt(self.detached(host, true).1, floor),
            forall|node: NodeId|
                since.has(node) && node < floor ==> #[trigger] self.detached(
                    host,
                    true,
                ).1.children_of(node) == since.children_of(node),
    {
        let after = self.detached(host, true).1;
        self.lemma_standing_detaches(host);
        self.lemma_detach_keeps_kempt(host, floor);
        crate::fragment::aside::lemma_undisturbed_twice(since, host, after, floor);
        assert forall|node: NodeId| since.has(node) && node < floor implies #[trigger] after.children_of(
            node,
        ) == since.children_of(node) by {
            Self::lemma_apart_restores(since, after, floor, node);
        }
    }
}

} // verus!
