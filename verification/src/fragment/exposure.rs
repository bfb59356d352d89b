//! What a fragment has put into the tree, it takes out again.
//!
//! A mounted fragment stands in the tree with the nodes that a detach at the top level
//! removes: its static nodes at the top, the nodes of its parts, and the same of every
//! fragment that is mounted below it. These are its exposed nodes. All its other nodes hang
//! below nodes of its own or nowhere. The operations keep it so, and a detach at the top
//! level removes exactly the exposed nodes.

use vstd::prelude::*;
use crate::component::Component;
use crate::fragment::aside::{elders, fits, lemma_elders_all, undisturbed};
use crate::fragment::builder::BuilderView;
use crate::fragment::growth::grown;
use crate::fragment::model::selects;
use crate::fragment::location::Location;
use crate::fragment::model::{fragments_detached, place, unhook};
use crate::fragment::model::{ControllerView, FragmentView, PartView, World};
use crate::host::model::{lemma_others_coarser, lemma_others_remove, others};
use crate::host::model::{Failure, HostView, NodeId};

verus! {

/// The node hangs nowhere, or below a node with a handle from `floor` on.
pub open spec fn inward(host: HostView, node: NodeId, floor: nat) -> bool {
    match host.parent_of(node) {
        None => true,
        Some(parent) => parent >= floor,
    }
}

/// After a step from `host` to `after`, the node is accounted for: it is exposed, or it is
/// inward, or the step was none of its business and left it where it was.
pub open spec fn settled(
    before: Set<NodeId>,
    exposed: Set<NodeId>,
    host: HostView,
    after: HostView,
    floor: nat,
    node: NodeId,
) -> bool {
    ||| exposed.contains(node)
    ||| inward(after, node, floor)
    ||| (host.has(node) && !before.contains(node) && after.parent_of(node) == host.parent_of(node))
}

/// A step from `host` to `after`, which turns the exposed nodes `before` into `exposed`,
/// accounts for every node.
pub open spec fn settles(
    before: Set<NodeId>,
    exposed: Set<NodeId>,
    host: HostView,
    after: HostView,
    floor: nat,
) -> bool {
    &&& host.nodes.len() <= after.nodes.len()
    &&& forall|node: NodeId|
        after.has(node) ==> #[trigger] settled(before, exposed, host, after, floor, node)
}

/// Two steps, one after the other.
pub proof fn lemma_settles_then(
    first: Set<NodeId>,
    second: Set<NodeId>,
    third: Set<NodeId>,
    host: HostView,
    mid: HostView,
    after: HostView,
    floor: nat,
)
    requires
        settles(first, second, host, mid, floor),
        settles(second, third, mid, after, floor),
    ensures
        settles(first, third, host, after, floor),
{
    assert forall|node: NodeId| after.has(node) implies #[trigger] settled(
        first,
        third,
        host,
        after,
        floor,
        node,
    ) by {
        assert(settled(second, third, mid, after, floor, node));
        if mid.has(node) {
            assert(settled(first, second, host, mid, floor, node));
        }
    }
}

/// A step beside other exposed nodes, which it does not touch or leaves exposed.
pub proof fn lemma_settles_beside(
    before: Set<NodeId>,
    exposed: Set<NodeId>,
    others: Set<NodeId>,
    host: HostView,
    after: HostView,
    floor: nat,
)
    requires
        settles(before, exposed, host, after, floor),
    ensures
        settles(before + others, exposed + others, host, after, floor),
{
    assert forall|node: NodeId| after.has(node) implies #[trigger] settled(
        before + others,
        exposed + others,
        host,
        after,
        floor,
        node,
    ) by {
        assert(settled(before, exposed, host, after, floor, node));
    }
}

/// A step accounts for the nodes also when fewer were exposed before and more are after.
pub proof fn lemma_settles_wider(
    before: Set<NodeId>,
    exposed: Set<NodeId>,
    fewer: Set<NodeId>,
    more: Set<NodeId>,
    host: HostView,
    after: HostView,
    floor: nat,
)
    requires
        settles(before, exposed, host, after, floor),
        fewer.subset_of(before),
        exposed.subset_of(more),
    ensures
        settles(fewer, more, host, after, floor),
{
    assert forall|node: NodeId| after.has(node) implies #[trigger] settled(
        fewer,
        more,
        host,
        after,
        floor,
        node,
    ) by {
        assert(settled(before, exposed, host, after, floor, node));
    }
}

/// A step that moves no node and makes new nodes without parents only.
pub proof fn lemma_grown_settles(exposed: Set<NodeId>, host: HostView, after: HostView, floor: nat)
    requires
        grown(host, after),
    ensures
        settles(exposed, exposed, host, after, floor),
{
    assert forall|node: NodeId| after.has(node) implies #[trigger] settled(
        exposed,
        exposed,
        host,
        after,
        floor,
        node,
    ) by {
        let now = after.nodes[node as int];
    }
}

/// A step that changes no parent.
pub proof fn lemma_still_settles(exposed: Set<NodeId>, host: HostView, after: HostView, floor: nat)
    requires
        host.nodes.len() == after.nodes.len(),
        forall|node: NodeId| host.has(node) ==> #[trigger] after.parent_of(node) == host.parent_of(node),
    ensures
        settles(exposed, exposed, host, after, floor),
{
    assert forall|node: NodeId| after.has(node) implies #[trigger] settled(
        exposed,
        exposed,
        host,
        after,
        floor,
        node,
    ) by {
        assert(after.parent_of(node) == host.parent_of(node));
    }
}

/// The nodes of `gone` have lost their parents, no other node has moved, every node has the
/// text it had, and under every node the children that are not of `gone` are the same, in
/// the same order.
pub open spec fn unhooked(gone: Set<NodeId>, host: HostView, after: HostView) -> bool {
    &&& after.nodes.len() == host.nodes.len()
    &&& forall|node: NodeId|
        host.has(node) ==> #[trigger] after.parent_of(node) == (if gone.contains(node) {
            None
        } else {
            host.parent_of(node)
        })
    &&& forall|node: NodeId| host.has(node) ==> #[trigger] after.data_of(node) == host.data_of(node)
    &&& forall|node: NodeId|
        host.has(node) ==> others(#[trigger] after.children_of(node), gone, host.nodes.len())
            == others(host.children_of(node), gone, host.nodes.len())
}

pub proof fn lemma_unhooked_then(
    first: Set<NodeId>,
    second: Set<NodeId>,
    host: HostView,
    mid: HostView,
    after: HostView,
)
    requires
        unhooked(first, host, mid),
        unhooked(second, mid, after),
    ensures
        unhooked(first + second, host, after),
{
    assert forall|node: NodeId| host.has(node) implies #[trigger] after.parent_of(node) == (if (
    first + second).contains(node) {
        None
    } else {
        host.parent_of(node)
    }) by {
        assert(mid.parent_of(node) == (if first.contains(node) {
            None
        } else {
            host.parent_of(node)
        }));
    }
    assert forall|node: NodeId| host.has(node) implies #[trigger] after.data_of(node)
        == host.data_of(node) by {
        assert(mid.data_of(node) == host.data_of(node));
    }
    let count = host.nodes.len();
    assert forall|node: NodeId| host.has(node) implies others(
        #[trigger] after.children_of(node),
        first + second,
        count,
    ) == others(host.children_of(node), first + second, count) by {
        assert(mid.has(node));
        lemma_others_coarser(
            mid.children_of(node),
            host.children_of(node),
            first,
            count,
            first + second,
            count,
        );
        lemma_others_coarser(
            after.children_of(node),
            mid.children_of(node),
            second,
            count,
            first + second,
            count,
        );
    }
}

/// Once the exposed nodes have lost their parents, none is exposed and all are accounted
/// for.
pub proof fn lemma_unhooked_settles(
    gone: Set<NodeId>,
    others: Set<NodeId>,
    host: HostView,
    after: HostView,
    floor: nat,
)
    requires
        unhooked(gone, host, after),
    ensures
        settles(gone + others, others, host, after, floor),
{
    assert forall|node: NodeId| after.has(node) implies #[trigger] settled(
        gone + others,
        others,
        host,
        after,
        floor,
        node,
    ) by {
        assert(after.parent_of(node) == (if gone.contains(node) {
            None
        } else {
            host.parent_of(node)
        }));
    }
}

/// Placing a node exposes it, and moves no other node.
pub proof fn lemma_place_exposes(
    host: HostView,
    target: Result<Location, Failure>,
    node: NodeId,
    exposed: Set<NodeId>,
    floor: nat,
)
    requires
        host.wf(),
        place(host, target, node).1 is None,
    ensures
        settles(exposed, exposed.insert(node), host, place(host, target, node).0, floor),
        target->Ok_0.parent >= floor ==> settles(
            exposed,
            exposed,
            host,
            place(host, target, node).0,
            floor,
        ),
        place(host, target, node).0.parent_of(node) == Some(target->Ok_0.parent),
{
    let at = target->Ok_0;
    let after = place(host, target, node).0;
    host.lemma_insert_keeps_tree(at.parent, node, at.anchor);
    if at.anchor != Some(node) {
        host.lemma_unlinked(node);
        let cut = host.unlinked(node);
        let position = cut.position(at.parent, at.anchor);
        match at.anchor {
            Some(a) => {
                assert(cut.parent_of(a) == host.parent_of(a));
                assert(cut.node_wf(a));
                assert(cut.nodes[at.parent as int].children.contains(a));
            },
            None => {},
        }
        assert(at.parent != node);
        cut.lemma_linked(at.parent, node, position);
        assert forall|n: NodeId| host.has(n) && n != node implies #[trigger] after.parent_of(n)
            == host.parent_of(n) by {
            assert(cut.parent_of(n) == host.parent_of(n));
            assert(cut.linked(at.parent, node, position).parent_of(n) == cut.parent_of(n));
        }
        assert(after.parent_of(node) == Some(at.parent));
    }
    assert forall|n: NodeId| after.has(n) implies #[trigger] settled(
        exposed,
        exposed.insert(node),
        host,
        after,
        floor,
        n,
    ) by {
        if n != node {
            assert(after.parent_of(n) == host.parent_of(n));
        }
    }
    if at.parent >= floor {
        assert forall|n: NodeId| after.has(n) implies #[trigger] settled(
            exposed,
            exposed,
            host,
            after,
            floor,
            n,
        ) by {
            if n != node {
                assert(after.parent_of(n) == host.parent_of(n));
            }
        }
    }
}

/// Unhooking a node takes its parent away, and moves no other node.
pub proof fn lemma_unhook_takes(host: HostView, node: NodeId)
    requires
        host.wf(),
        unhook(host, node).1 is None,
    ensures
        unhooked(set![node], host, unhook(host, node).0),
        unhook(host, node).0.wf(),
{
    let parent = host.parent_of(node)->0;
    assert(host.has(node));
    host.lemma_remove_attached(node);
    let after = unhook(host, node).0;
    assert forall|n: NodeId| host.has(n) implies #[trigger] after.parent_of(n) == (if set![
        node,
    ].contains(n) {
        None
    } else {
        host.parent_of(n)
    }) by {
        if n != node {
            assert(after.parent_of(n) == host.parent_of(n));
        }
    }
    host.lemma_unlinked(node);
    let cut = host.unlinked(node);
    let count = host.nodes.len();
    assert forall|n: NodeId| host.has(n) implies others(
        #[trigger] after.children_of(n),
        set![node],
        count,
    ) == others(host.children_of(n), set![node], count) by {
        if n == parent {
            let kids = host.nodes[n as int].children;
            assert(host.node_wf(node));
            assert(kids.contains(node));
            let gone = kids.index_of(node);
            assert(after.children_of(n) == kids.remove(gone));
            lemma_others_remove(kids, set![node], count, gone);
        } else {
            assert(cut.children_of(n) == host.children_of(n));
        }
    }
}


// ======================================================================================
// The exposed nodes
// ======================================================================================
/// The exposed nodes of the first `k` fragments of a list.
pub open spec fn rows_exposed<C: Component>(fragments: Seq<FragmentView<C>>, k: nat) -> Set<NodeId>
    decreases fragments, 0nat,
{
    Set::new(
        |node: NodeId|
            exists|i: int|
                0 <= i < k && i < fragments.len() && (#[trigger] fragments[i]).exposed().contains(
                    node,
                ),
    )
}

impl<C: Component> FragmentView<C> {
    /// Of the first `k` static nodes, those that go into no other static node.
    pub open spec fn top_statics(self, k: nat) -> Set<NodeId> {
        Set::new(
            |node: NodeId|
                exists|i: int|
                    0 <= i < k && i < self.statics.len() && (#[trigger] self.statics[i]).0 is None
                        && self.statics[i].1 == node,
        )
    }

    /// The exposed nodes of the first `j` parts.
    pub open spec fn parts_exposed(self, j: nat) -> Set<NodeId>
        decreases self, 0nat,
    {
        Set::new(
            |node: NodeId|
                exists|i: int|
                    0 <= i < j && i < self.parts.len() && (#[trigger] self.parts[i]).1.exposed().contains(
                        node,
                    ),
        )
    }

    /// The nodes that a detach at the top level removes: none if the fragment is not
    /// mounted, else its static nodes at the top and the exposed nodes of its parts.
    pub open spec fn exposed(self) -> Set<NodeId>
        decreases self, 1nat,
    {
        if !self.mounted {
            Set::empty()
        } else {
            self.top_statics(self.statics.len()) + self.parts_exposed(self.parts.len())
        }
    }
}

impl<C: Component> PartView<C> {
    /// The nodes that a detach at the top level removes: the node of the part itself, and
    /// the exposed nodes of the fragments that are mounted below it.
    pub open spec fn exposed(self) -> Set<NodeId>
        decreases self, 1nat,
    {
        match self {
            PartView::Updatable { text_node, .. } => set![text_node],
            PartView::Conditional { fragment, anchor, fragment_mounted, .. } => {
                if fragment_mounted {
                    fragment.exposed().insert(anchor)
                } else {
                    set![anchor]
                }
            },
            PartView::Each { mounted_fragments, anchor, .. } => rows_exposed(
                mounted_fragments,
                mounted_fragments.len(),
            ).insert(anchor),
            PartView::Component { controller, .. } => controller.fragment.exposed(),
        }
    }
}

// ======================================================================================
// A detach at the top level removes the exposed nodes, and only them
// ======================================================================================
pub proof fn lemma_rows_detached_unhook<C: Component>(
    fragments: Seq<FragmentView<C>>,
    host: HostView,
    k: nat,
)
    requires
        host.wf(),
        k <= fragments.len(),
        fragments_detached(fragments, host, true, k).1 is None,
    ensures
        unhooked(rows_exposed(fragments, k), host, fragments_detached(fragments, host, true, k).0),
        fragments_detached(fragments, host, true, k).0.wf(),
    decreases fragments, 0nat, k,
{
    if k > 0 {
        lemma_rows_detached_unhook(fragments, host, (k - 1) as nat);
        let (before, failure) = fragments_detached(fragments, host, true, (k - 1) as nat);
        fragments[k - 1].lemma_detached_unhooks(before);
        let after = fragments_detached(fragments, host, true, k).0;
        lemma_unhooked_then(
            rows_exposed(fragments, (k - 1) as nat),
            fragments[k - 1].exposed(),
            host,
            before,
            after,
        );
        assert(rows_exposed(fragments, (k - 1) as nat) + fragments[k - 1].exposed()
            =~= rows_exposed(fragments, k)) by {
            assert forall|node: NodeId| rows_exposed(fragments, k).contains(node) implies (
            rows_exposed(fragments, (k - 1) as nat) + fragments[k - 1].exposed()).contains(node) by {
                let i = choose|i: int|
                    0 <= i < k && i < fragments.len() && (#[trigger] fragments[i]).exposed().contains(
                        node,
                    );
                if i < k - 1 {
                    assert(rows_exposed(fragments, (k - 1) as nat).contains(node));
                }
            }
            assert forall|node: NodeId|
                (rows_exposed(fragments, (k - 1) as nat) + fragments[k - 1].exposed()).contains(
                    node,
                ) implies rows_exposed(fragments, k).contains(node) by {
                if fragments[k - 1].exposed().contains(node) {
                } else {
                    let i = choose|i: int|
                        0 <= i < k - 1 && i < fragments.len() && (
                        #[trigger] fragments[i]).exposed().contains(node);
                    assert(fragments[i].exposed().contains(node));
                }
            }
        }
    } else {
        assert(rows_exposed(fragments, 0) =~= Set::empty());
    }
}

impl<C: Component> FragmentView<C> {
    pub proof fn lemma_statics_detached_unhook(self, host: HostView, k: nat)
        requires
            host.wf(),
            k <= self.statics.len(),
            self.statics_detached(host, k).1 is None,
        ensures
            unhooked(self.top_statics(k), host, self.statics_detached(host, k).0),
            self.statics_detached(host, k).0.wf(),
        decreases k,
    {
        if k > 0 {
            self.lemma_statics_detached_unhook(host, (k - 1) as nat);
            let (before, failure) = self.statics_detached(host, (k - 1) as nat);
            let after = self.statics_detached(host, k).0;
            let earlier = self.top_statics((k - 1) as nat);
            if self.statics[k - 1].0 is None {
                lemma_unhook_takes(before, self.statics[k - 1].1);
                lemma_unhooked_then(earlier, set![self.statics[k - 1].1], host, before, after);
                assert(earlier + set![self.statics[k - 1].1] =~= self.top_statics(k)) by {
                    assert forall|node: NodeId| self.top_statics(k).contains(node) implies (earlier
                        + set![self.statics[k - 1].1]).contains(node) by {
                        let i = choose|i: int|
                            0 <= i < k && i < self.statics.len() && (#[trigger] self.statics[i]).0
                                is None && self.statics[i].1 == node;
                        if i < k - 1 {
                            assert(earlier.contains(node));
                        }
                    }
                    assert forall|node: NodeId|
                        (earlier + set![self.statics[k - 1].1]).contains(
                            node,
                        ) implies self.top_statics(k).contains(node) by {
                        if node == self.statics[k - 1].1 {
                            assert(self.statics[k - 1].0 is None);
                        } else {
                            let i = choose|i: int|
                                0 <= i < k - 1 && i < self.statics.len() && (
                                #[trigger] self.statics[i]).0 is None && self.statics[i].1 == node;
                            assert(self.statics[i].1 == node);
                        }
                    }
                }
            } else {
                assert(earlier =~= self.top_statics(k)) by {
                    assert forall|node: NodeId| self.top_statics(k).contains(node) implies earlier.contains(
                        node,
                    ) by {
                        let i = choose|i: int|
                            0 <= i < k && i < self.statics.len() && (#[trigger] self.statics[i]).0
                                is None && self.statics[i].1 == node;
                        assert(i < k - 1);
                    }
                    assert forall|node: NodeId| earlier.contains(node) implies self.top_statics(
                        k,
                    ).contains(node) by {
                        let i = choose|i: int|
                            0 <= i < k - 1 && i < self.statics.len() && (
                            #[trigger] self.statics[i]).0 is None && self.statics[i].1 == node;
                        assert(self.statics[i].1 == node);
                    }
                }
            }
        } else {
            assert(self.top_statics(0) =~= Set::empty());
        }
    }

    pub proof fn lemma_parts_detached_unhook(self, host: HostView, j: nat)
        requires
            host.wf(),
            j <= self.parts.len(),
            self.parts_detached(host, true, j).1 is None,
        ensures
            unhooked(self.parts_exposed(j), host, self.parts_detached(host, true, j).0),
            self.parts_detached(host, true, j).0.wf(),
        decreases self, 0nat, j,
    {
        if j > 0 {
            self.lemma_parts_detached_unhook(host, (j - 1) as nat);
            let (before, failure) = self.parts_detached(host, true, (j - 1) as nat);
            self.parts[j - 1].1.lemma_detached_unhooks(before);
            let after = self.parts_detached(host, true, j).0;
            let earlier = self.parts_exposed((j - 1) as nat);
            lemma_unhooked_then(earlier, self.parts[j - 1].1.exposed(), host, before, after);
            assert(earlier + self.parts[j - 1].1.exposed() =~= self.parts_exposed(j)) by {
                assert forall|node: NodeId| self.parts_exposed(j).contains(node) implies (earlier
                    + self.parts[j - 1].1.exposed()).contains(node) by {
                    let i = choose|i: int|
                        0 <= i < j && i < self.parts.len() && (
                        #[trigger] self.parts[i]).1.exposed().contains(node);
                    if i < j - 1 {
                        assert(earlier.contains(node));
                    }
                }
                assert forall|node: NodeId|
                    (earlier + self.parts[j - 1].1.exposed()).contains(
                        node,
                    ) implies self.parts_exposed(j).contains(node) by {
                    if self.parts[j - 1].1.exposed().contains(node) {
                    } else {
                        let i = choose|i: int|
                            0 <= i < j - 1 && i < self.parts.len() && (
                            #[trigger] self.parts[i]).1.exposed().contains(node);
                        assert(self.parts[i].1.exposed().contains(node));
                    }
                }
            }
        } else {
            assert(self.parts_exposed(0) =~= Set::empty());
        }
    }

    /// A detach at the top level that succeeds takes the parents of the exposed nodes away
    /// and moves no other node. Nothing of the fragment is exposed afterwards.
    pub proof fn lemma_detached_unhooks(self, host: HostView)
        requires
            host.wf(),
            self.detached(host, true).2 is None,
        ensures
            unhooked(self.exposed(), host, self.detached(host, true).1),
            self.detached(host, true).1.wf(),
            self.detached(host, true).0.exposed() =~= Set::<NodeId>::empty(),
        decreases self, 1nat, 0nat,
    {
        if self.mounted {
            self.lemma_statics_detached_unhook(host, self.statics.len());
            let (cleared, failure) = self.statics_detached(host, self.statics.len());
            self.lemma_parts_detached_unhook(cleared, self.parts.len());
            lemma_unhooked_then(
                self.top_statics(self.statics.len()),
                self.parts_exposed(self.parts.len()),
                host,
                cleared,
                self.detached(host, true).1,
            );
        } else {
            assert(unhooked(Set::empty(), host, host));
        }
    }
}

impl<C: Component> PartView<C> {
    pub proof fn lemma_detached_unhooks(self, host: HostView)
        requires
            host.wf(),
            self.detached(host, true).2 is None,
        ensures
            unhooked(self.exposed(), host, self.detached(host, true).1),
            self.detached(host, true).1.wf(),
        decreases self, 1nat, 0nat,
    {
        match self {
            PartView::Updatable { text_node, .. } => {
                lemma_unhook_takes(host, text_node);
            },
            PartView::Conditional { fragment, anchor, fragment_mounted, .. } => {
                lemma_unhook_takes(host, anchor);
                let cleared = unhook(host, anchor).0;
                if fragment_mounted {
                    fragment.lemma_detached_unhooks(cleared);
                    lemma_unhooked_then(
                        set![anchor],
                        fragment.exposed(),
                        host,
                        cleared,
                        self.detached(host, true).1,
                    );
                    assert(set![anchor] + fragment.exposed() =~= fragment.exposed().insert(anchor));
                }
            },
            PartView::Each { mounted_fragments, anchor, .. } => {
                lemma_rows_detached_unhook(mounted_fragments, host, mounted_fragments.len());
                let (cleared, failure) = fragments_detached(
                    mounted_fragments,
                    host,
                    true,
                    mounted_fragments.len(),
                );
                lemma_unhook_takes(cleared, anchor);
                let gone = rows_exposed(mounted_fragments, mounted_fragments.len());
                lemma_unhooked_then(gone, set![anchor], host, cleared, self.detached(host, true).1);
                assert(gone + set![anchor] =~= gone.insert(anchor));
            },
            PartView::Component { controller, .. } => {
                controller.fragment.lemma_detached_unhooks(host);
            },
        }
    }
}


// ======================================================================================
// Mounting and updating account for every node
// ======================================================================================
impl<C: Component> FragmentView<C> {
    /// Part `i` while the parts are dealt with one after the other: as it ends if it is among
    /// the first `j`, else as it is.
    pub open spec fn at_step(self, ends: spec_fn(int) -> PartView<C>, j: nat, i: int) -> PartView<
        C,
    > {
        if i < j {
            ends(i)
        } else {
            self.parts[i].1
        }
    }

    /// The exposed nodes of the parts when the first `j` parts are dealt with.
    pub open spec fn meanwhile(self, ends: spec_fn(int) -> PartView<C>, j: nat) -> Set<NodeId> {
        Set::new(
            |node: NodeId|
                exists|i: int|
                    0 <= i < self.parts.len() && (#[trigger] self.at_step(
                        ends,
                        j,
                        i,
                    )).exposed().contains(node),
        )
    }

    /// One part is dealt with.
    pub proof fn lemma_meanwhile_step(
        self,
        ends: spec_fn(int) -> PartView<C>,
        j: nat,
        others: Set<NodeId>,
        host: HostView,
        after: HostView,
        floor: nat,
    )
        requires
            j < self.parts.len(),
            settles(self.parts[j as int].1.exposed(), ends(j as int).exposed(), host, after, floor),
        ensures
            settles(
                self.meanwhile(ends, j) + others,
                self.meanwhile(ends, (j + 1) as nat) + others,
                host,
                after,
                floor,
            ),
    {
        let before = self.meanwhile(ends, j) + others;
        let exposed = self.meanwhile(ends, (j + 1) as nat) + others;
        assert forall|node: NodeId| after.has(node) implies #[trigger] settled(
            before,
            exposed,
            host,
            after,
            floor,
            node,
        ) by {
            assert(settled(
                self.parts[j as int].1.exposed(),
                ends(j as int).exposed(),
                host,
                after,
                floor,
                node,
            ));
            if ends(j as int).exposed().contains(node) {
                assert(self.at_step(ends, (j + 1) as nat, j as int).exposed().contains(node));
            } else if !inward(after, node, floor) && !exposed.contains(node) {
                if self.meanwhile(ends, j).contains(node) {
                    let i = choose|i: int|
                        0 <= i < self.parts.len() && (#[trigger] self.at_step(
                            ends,
                            j,
                            i,
                        )).exposed().contains(node);
                    if i != j {
                        assert(self.at_step(ends, (j + 1) as nat, i) == self.at_step(ends, j, i));
                        assert(self.at_step(ends, (j + 1) as nat, i).exposed().contains(node));
                    } else {
                        assert(self.at_step(ends, j, j as int) == self.parts[j as int].1);
                    }
                }
            }
        }
    }

    /// A part is passed over.
    pub proof fn lemma_meanwhile_skip(self, ends: spec_fn(int) -> PartView<C>, j: nat)
        requires
            j < self.parts.len(),
            ends(j as int) == self.parts[j as int].1,
        ensures
            self.meanwhile(ends, (j + 1) as nat) =~= self.meanwhile(ends, j),
    {
        assert forall|i: int| 0 <= i < self.parts.len() implies self.at_step(
            ends,
            (j + 1) as nat,
            i,
        ) == self.at_step(ends, j, i) by {}
        assert forall|node: NodeId| self.meanwhile(ends, j).contains(node) implies self.meanwhile(
            ends,
            (j + 1) as nat,
        ).contains(node) by {
            let i = choose|i: int|
                0 <= i < self.parts.len() && (#[trigger] self.at_step(
                    ends,
                    j,
                    i,
                )).exposed().contains(node);
            assert(self.at_step(ends, (j + 1) as nat, i).exposed().contains(node));
        }
        assert forall|node: NodeId|
            self.meanwhile(ends, (j + 1) as nat).contains(node) implies self.meanwhile(
            ends,
            j,
        ).contains(node) by {
            let i = choose|i: int|
                0 <= i < self.parts.len() && (#[trigger] self.at_step(
                    ends,
                    (j + 1) as nat,
                    i,
                )).exposed().contains(node);
            assert(self.at_step(ends, j, i).exposed().contains(node));
        }
    }

    /// Before any part is dealt with, the parts expose what they expose; after all are dealt
    /// with, what they expose as they end.
    pub proof fn lemma_meanwhile_ends(self, ends: spec_fn(int) -> PartView<C>, done: FragmentView<C>)
        requires
            done.parts.len() == self.parts.len(),
            forall|i: int| 0 <= i < self.parts.len() ==> (#[trigger] done.parts[i]).1 == ends(i),
        ensures
            self.meanwhile(ends, 0) =~= self.parts_exposed(self.parts.len()),
            self.meanwhile(ends, self.parts.len()) =~= done.parts_exposed(done.parts.len()),
    {
        assert forall|node: NodeId| self.meanwhile(ends, 0).contains(
            node,
        ) implies self.parts_exposed(self.parts.len()).contains(node) by {
            let i = choose|i: int|
                0 <= i < self.parts.len() && (#[trigger] self.at_step(
                    ends,
                    0,
                    i,
                )).exposed().contains(node);
            assert(self.parts[i].1.exposed().contains(node));
        }
        assert forall|node: NodeId| self.parts_exposed(self.parts.len()).contains(
            node,
        ) implies self.meanwhile(ends, 0).contains(node) by {
            let i = choose|i: int|
                0 <= i < self.parts.len() && i < self.parts.len() && (
                #[trigger] self.parts[i]).1.exposed().contains(node);
            assert(self.at_step(ends, 0, i).exposed().contains(node));
        }
        assert forall|node: NodeId| self.meanwhile(ends, self.parts.len()).contains(
            node,
        ) implies done.parts_exposed(done.parts.len()).contains(node) by {
            let i = choose|i: int|
                0 <= i < self.parts.len() && (#[trigger] self.at_step(
                    ends,
                    self.parts.len(),
                    i,
                )).exposed().contains(node);
            assert(done.parts[i].1.exposed().contains(node));
        }
        assert forall|node: NodeId| done.parts_exposed(done.parts.len()).contains(
            node,
        ) implies self.meanwhile(ends, self.parts.len()).contains(node) by {
            let i = choose|i: int|
                0 <= i < done.parts.len() && i < done.parts.len() && (
                #[trigger] done.parts[i]).1.exposed().contains(node);
            assert(ends(i).exposed().contains(node));
            assert(self.at_step(ends, self.parts.len(), i).exposed().contains(node));
        }
    }

    pub proof fn lemma_statics_mounted_settle(self, host: HostView, at: Location, k: nat, floor: nat)
        requires
            host.wf(),
            self.above(floor),
            k <= self.statics.len(),
            self.statics_mounted(host, at, k).1 is None,
        ensures
            settles(
                Set::empty(),
                self.top_statics(k),
                host,
                self.statics_mounted(host, at, k).0,
                floor,
            ),
            self.statics_mounted(host, at, k).0.wf(),
        decreases k,
    {
        if k > 0 {
            self.lemma_statics_mounted_settle(host, at, (k - 1) as nat, floor);
            let (before, failure) = self.statics_mounted(host, at, (k - 1) as nat);
            let after = self.statics_mounted(host, at, k).0;
            let earlier = self.top_statics((k - 1) as nat);
            let target = self.target(self.statics[k - 1].0, at);
            let node = self.statics[k - 1].1;
            lemma_place_exposes(before, target, node, earlier, floor);
            crate::fragment::frame::lemma_place_keeps(before, target, node);
            if self.statics[k - 1].0 is None {
                assert(earlier.insert(node) =~= self.top_statics(k)) by {
                    assert forall|n: NodeId| self.top_statics(k).contains(n) implies earlier.insert(
                        node,
                    ).contains(n) by {
                        let i = choose|i: int|
                            0 <= i < k && i < self.statics.len() && (#[trigger] self.statics[i]).0
                                is None && self.statics[i].1 == n;
                        if i < k - 1 {
                            assert(earlier.contains(n));
                        }
                    }
                    assert forall|n: NodeId| earlier.insert(node).contains(
                        n,
                    ) implies self.top_statics(k).contains(n) by {
                        if n == node {
                            assert(self.statics[k - 1].0 is None);
                        } else {
                            let i = choose|i: int|
                                0 <= i < k - 1 && i < self.statics.len() && (
                                #[trigger] self.statics[i]).0 is None && self.statics[i].1 == n;
                            assert(self.statics[i].1 == n);
                        }
                    }
                }
                lemma_settles_then(
                    Set::empty(),
                    earlier,
                    self.top_statics(k),
                    host,
                    before,
                    after,
                    floor,
                );
            } else {
                let parent = self.statics[k - 1].0->0;
                assert(self.statics[parent as int].1 >= floor);
                assert(earlier =~= self.top_statics(k)) by {
                    assert forall|n: NodeId| self.top_statics(k).contains(n) implies earlier.contains(
                        n,
                    ) by {
                        let i = choose|i: int|
                            0 <= i < k && i < self.statics.len() && (#[trigger] self.statics[i]).0
                                is None && self.statics[i].1 == n;
                        assert(i < k - 1);
                    }
                    assert forall|n: NodeId| earlier.contains(n) implies self.top_statics(
                        k,
                    ).contains(n) by {
                        let i = choose|i: int|
                            0 <= i < k - 1 && i < self.statics.len() && (
                            #[trigger] self.statics[i]).0 is None && self.statics[i].1 == n;
                        assert(self.statics[i].1 == n);
                    }
                }
                lemma_settles_then(Set::empty(), earlier, earlier, host, before, after, floor);
            }
        } else {
            assert(self.top_statics(0) =~= Set::empty());
            lemma_still_settles(Set::empty(), host, host, floor);
        }
    }
}


impl<C: Component> FragmentView<C> {
    /// The parts as they are after the fragment was mounted.
    pub open spec fn mount_ends(self, levels: nat, host: HostView, at: Location) -> spec_fn(
        int,
    ) -> PartView<C> {
        |i: int| self.part_mounted(levels, host, at, i)
    }

    /// The parts as they are after the fragment was updated.
    pub open spec fn update_ends(
        self,
        levels: nat,
        world: World,
        context: C,
        changed: Seq<usize>,
    ) -> spec_fn(int) -> PartView<C> {
        |i: int| self.part_updated(levels, world, context, changed, i)
    }

    pub proof fn lemma_parts_mounted_settle(
        self,
        levels: nat,
        host: HostView,
        at: Location,
        j: nat,
        floor: nat,
        others: Set<NodeId>,
    )
        requires
            host.wf(),
            floor <= host.nodes.len(),
            self.above(floor),
            j <= self.parts.len(),
            self.parts_mounted(levels, host, at, j).1 is None,
            fits(self.parts_mounted(levels, host, at, j).0),
        ensures
            settles(
                self.meanwhile(self.mount_ends(levels, host, at), 0) + others,
                self.meanwhile(self.mount_ends(levels, host, at), j) + others,
                host,
                self.parts_mounted(levels, host, at, j).0,
                floor,
            ),
        decreases levels, self, 0nat, j,
    {
        let ends = self.mount_ends(levels, host, at);
        if j > 0 {
            let (before, failure) = self.parts_mounted(levels, host, at, (j - 1) as nat);
            let after = self.parts_mounted(levels, host, at, j).0;
            let part = self.parts[j - 1].1;
            let target = self.target(self.parts[j - 1].0, at)->Ok_0;
            self.lemma_parts_mounted_keep(levels, host, at, (j - 1) as nat);
            part.lemma_mounted_keeps(levels, before, target);
            self.lemma_parts_mounted_settle(levels, host, at, (j - 1) as nat, floor, others);
            assert(part.above(floor));
            part.lemma_mounted_settles(levels, before, target, floor);
            assert(ends((j - 1) as int) == part.mounted_at(levels, before, target).0);
            self.lemma_meanwhile_step(ends, (j - 1) as nat, others, before, after, floor);
            lemma_settles_then(
                self.meanwhile(ends, 0) + others,
                self.meanwhile(ends, (j - 1) as nat) + others,
                self.meanwhile(ends, j) + others,
                host,
                before,
                after,
                floor,
            );
        } else {
            lemma_still_settles(self.meanwhile(ends, 0) + others, host, host, floor);
        }
    }

    /// Mounting a fragment accounts for every node: the nodes it has put into the tree are
    /// exposed or hang below nodes of the fragment.
    pub proof fn lemma_mounted_settles(self, levels: nat, host: HostView, at: Location, floor: nat)
        requires
            host.wf(),
            floor <= host.nodes.len(),
            self.above(floor),
            self.mounted_at(levels, host, at).2 is None,
            fits(self.mounted_at(levels, host, at).1),
        ensures
            settles(
                self.exposed(),
                self.mounted_at(levels, host, at).0.exposed(),
                host,
                self.mounted_at(levels, host, at).1,
                floor,
            ),
        decreases levels, self, 1nat, 0nat,
    {
        let (done, after, failure) = self.mounted_at(levels, host, at);
        let count = self.statics.len();
        let parts = self.parts.len();
        let ends = self.mount_ends(levels, host, at);
        self.lemma_statics_mounted_settle(host, at, count, floor);
        self.lemma_statics_mounted_keep(host, at, count);
        let (placed, _) = self.statics_mounted(host, at, count);
        let ends = self.mount_ends(levels, placed, at);
        let top = self.top_statics(count);
        self.lemma_parts_mounted_settle(levels, placed, at, parts, floor, top);
        self.lemma_meanwhile_ends(ends, done);
        lemma_settles_wider(
            Set::empty(),
            top,
            Set::empty(),
            self.meanwhile(ends, 0) + top,
            host,
            placed,
            floor,
        );
        lemma_settles_then(
            Set::empty(),
            self.meanwhile(ends, 0) + top,
            self.meanwhile(ends, parts) + top,
            host,
            placed,
            after,
            floor,
        );
        assert(done.top_statics(count) =~= top);
        assert(done.exposed() =~= self.meanwhile(ends, parts) + top);
        assert(self.exposed() =~= Set::empty());
    }

    pub proof fn lemma_parts_updated_settle(
        self,
        levels: nat,
        world: World,
        context: C,
        changed: Seq<usize>,
        j: nat,
        floor: nat,
        others: Set<NodeId>,
    )
        requires
            world.host.wf(),
            floor <= world.host.nodes.len(),
            self.above(floor),
            j <= self.parts.len(),
            self.parts_updated(levels, world, context, changed, j).1 is None,
            fits(self.parts_updated(levels, world, context, changed, j).0.host),
        ensures
            settles(
                self.meanwhile(self.update_ends(levels, world, context, changed), 0) + others,
                self.meanwhile(self.update_ends(levels, world, context, changed), j) + others,
                world.host,
                self.parts_updated(levels, world, context, changed, j).0.host,
                floor,
            ),
        decreases levels, self, 0nat, j,
    {
        let ends = self.update_ends(levels, world, context, changed);
        if j > 0 {
            let (before, failure) = self.parts_updated(
                levels,
                world,
                context,
                changed,
                (j - 1) as nat,
            );
            let after = self.parts_updated(levels, world, context, changed, j).0;
            let part = self.parts[j - 1].1;
            self.lemma_parts_updated_keep(levels, world, context, changed, (j - 1) as nat);
            part.lemma_updated_keeps(levels, before, context, changed);
            self.lemma_parts_updated_settle(
                levels,
                world,
                context,
                changed,
                (j - 1) as nat,
                floor,
                others,
            );
            assert(part.above(floor));
            if selects(self.dependencies, changed, (j - 1) as usize) {
                part.lemma_updated_settles(levels, before, context, changed, floor);
                assert(ends((j - 1) as int) == part.updated(levels, before, context, changed).state);
                self.lemma_meanwhile_step(
                    ends,
                    (j - 1) as nat,
                    others,
                    before.host,
                    after.host,
                    floor,
                );
            } else {
                assert(ends((j - 1) as int) == part);
                self.lemma_meanwhile_skip(ends, (j - 1) as nat);
                lemma_still_settles(
                    self.meanwhile(ends, (j - 1) as nat) + others,
                    before.host,
                    after.host,
                    floor,
                );
            }
            lemma_settles_then(
                self.meanwhile(ends, 0) + others,
                self.meanwhile(ends, (j - 1) as nat) + others,
                self.meanwhile(ends, j) + others,
                world.host,
                before.host,
                after.host,
                floor,
            );
        } else {
            lemma_still_settles(self.meanwhile(ends, 0) + others, world.host, world.host, floor);
        }
    }

    /// Updating a fragment accounts for every node.
    pub proof fn lemma_updated_settles(
        self,
        levels: nat,
        world: World,
        context: C,
        changed: Seq<usize>,
        floor: nat,
    )
        requires
            world.host.wf(),
            floor <= world.host.nodes.len(),
            self.above(floor),
            self.updated(levels, world, context, changed).failure is None,
            fits(self.updated(levels, world, context, changed).world.host),
        ensures
            settles(
                self.exposed(),
                self.updated(levels, world, context, changed).state.exposed(),
                world.host,
                self.updated(levels, world, context, changed).world.host,
                floor,
            ),
        decreases levels, self, 1nat, 0nat,
    {
        let step = self.updated(levels, world, context, changed);
        if self.mounted {
            let count = self.statics.len();
            let parts = self.parts.len();
            let ends = self.update_ends(levels, world, context, changed);
            let top = self.top_statics(count);
            self.lemma_parts_updated_settle(levels, world, context, changed, parts, floor, top);
            self.lemma_meanwhile_ends(ends, step.state);
            assert(step.state.top_statics(count) =~= top);
            assert(step.state.exposed() =~= self.meanwhile(ends, parts) + top);
            assert(self.exposed() =~= self.meanwhile(ends, 0) + top);
        } else {
            lemma_still_settles(self.exposed(), world.host, world.host, floor);
        }
    }
}

impl<C: Component> ControllerView<C> {
    pub proof fn lemma_mounted_settles(self, levels: nat, host: HostView, at: Location, floor: nat)
        requires
            host.wf(),
            floor <= host.nodes.len(),
            self.fragment.above(floor),
            self.mounted_at(levels, host, at).failure is None,
            fits(self.mounted_at(levels, host, at).world.host),
        ensures
            settles(
                self.fragment.exposed(),
                self.mounted_at(levels, host, at).state.fragment.exposed(),
                host,
                self.mounted_at(levels, host, at).world.host,
                floor,
            ),
        decreases levels + 1, self, 0nat, 0nat,
    {
        self.fragment.lemma_mounted_keeps(levels, host, at);
        let (fragment, placed, failure) = self.fragment.mounted_at(levels, host, at);
        let world = World { host: placed, registry: self.registry };
        fragment.lemma_updated_keeps(levels, world, self.component, fragment.known);
        self.fragment.lemma_mounted_aside(levels, host, at, floor);
        self.fragment.lemma_mounted_settles(levels, host, at, floor);
        fragment.lemma_updated_settles(levels, world, self.component, fragment.known, floor);
        lemma_settles_then(
            self.fragment.exposed(),
            fragment.exposed(),
            self.mounted_at(levels, host, at).state.fragment.exposed(),
            host,
            placed,
            self.mounted_at(levels, host, at).world.host,
            floor,
        );
    }
}

impl<C: Component> PartView<C> {
    pub proof fn lemma_mounted_settles(self, levels: nat, host: HostView, at: Location, floor: nat)
        requires
            host.wf(),
            floor <= host.nodes.len(),
            self.above(floor),
            self.mounted_at(levels, host, at).2 is None,
            fits(self.mounted_at(levels, host, at).1),
        ensures
            settles(
                self.exposed(),
                self.mounted_at(levels, host, at).0.exposed(),
                host,
                self.mounted_at(levels, host, at).1,
                floor,
            ),
        decreases levels, self, 1nat, 0nat,
    {
        match self {
            PartView::Updatable { text_node, .. } => {
                lemma_place_exposes(host, Ok(at), text_node, self.exposed(), floor);
                assert(self.exposed().insert(text_node) =~= self.exposed());
            },
            PartView::Conditional { anchor, .. } => {
                lemma_place_exposes(host, Ok(at), anchor, self.exposed(), floor);
                assert(self.exposed().insert(anchor) =~= self.exposed());
            },
            PartView::Each { anchor, .. } => {
                lemma_place_exposes(host, Ok(at), anchor, self.exposed(), floor);
                assert(self.exposed().insert(anchor) =~= self.exposed());
            },
            PartView::Component { controller, .. } => {
                controller.lemma_mounted_settles((levels - 1) as nat, host, at, floor);
            },
        }
    }

    /// Making a row accounts for every node.
    pub proof fn lemma_row_settles(
        self,
        levels: nat,
        world: World,
        context: C,
        anchor: NodeId,
        item: BuilderView<C>,
        floor: nat,
    )
        requires
            world.host.wf(),
            floor <= world.host.nodes.len(),
            self.row(levels, world, context, anchor, item).failure is None,
            fits(self.row(levels, world, context, anchor, item).world.host),
        ensures
            settles(
                Set::empty(),
                self.row(levels, world, context, anchor, item).state.exposed(),
                world.host,
                self.row(levels, world, context, anchor, item).world.host,
                floor,
            ),
        decreases levels, self, 0nat, 0nat,
    {
        let at = Location::before(world.host, anchor)->Ok_0;
        item.lemma_built((levels - 1) as nat, world);
        let made = item.built((levels - 1) as nat, world);
        made.state.lemma_mounted_keeps((levels - 1) as nat, made.world.host, at);
        let (fragment, placed, failure) = made.state.mounted_at(
            (levels - 1) as nat,
            made.world.host,
            at,
        );
        fragment.lemma_updated_keeps(
            (levels - 1) as nat,
            made.world.on(placed),
            context,
            fragment.known,
        );
        item.lemma_built_above((levels - 1) as nat, world);
        made.state.lemma_lower(world.host.nodes.len(), floor);
        made.state.lemma_mounted_aside((levels - 1) as nat, made.world.host, at, floor);
        lemma_grown_settles(Set::empty(), world.host, made.world.host, floor);
        made.state.lemma_mounted_settles((levels - 1) as nat, made.world.host, at, floor);
        assert(made.state.exposed() =~= Set::empty());
        fragment.lemma_updated_settles(
            (levels - 1) as nat,
            made.world.on(placed),
            context,
            fragment.known,
            floor,
        );
        let done = self.row(levels, world, context, anchor, item);
        lemma_settles_then(
            Set::empty(),
            Set::empty(),
            fragment.exposed(),
            world.host,
            made.world.host,
            placed,
            floor,
        );
        lemma_settles_then(
            Set::empty(),
            fragment.exposed(),
            done.state.exposed(),
            world.host,
            placed,
            done.world.host,
            floor,
        );
    }

    /// Making the rows accounts for every node.
    pub proof fn lemma_rows_settle(
        self,
        levels: nat,
        world: World,
        context: C,
        anchor: NodeId,
        items: Seq<BuilderView<C>>,
        k: nat,
        floor: nat,
    )
        requires
            world.host.wf(),
            floor <= world.host.nodes.len(),
            k <= items.len(),
            self.rows(levels, world, context, anchor, items, k).failure is None,
            fits(self.rows(levels, world, context, anchor, items, k).world.host),
        ensures
            self.rows(levels, world, context, anchor, items, k).state.len() == k,
            settles(
                Set::empty(),
                rows_exposed(self.rows(levels, world, context, anchor, items, k).state, k),
                world.host,
                self.rows(levels, world, context, anchor, items, k).world.host,
                floor,
            ),
        decreases levels, self, 0nat, k + 1,
    {
        let done = self.rows(levels, world, context, anchor, items, k);
        if k > 0 {
            let before = self.rows(levels, world, context, anchor, items, (k - 1) as nat);
            self.lemma_rows_keep(levels, world, context, anchor, items, (k - 1) as nat);
            self.lemma_row_keeps(levels, before.world, context, anchor, items[k - 1]);
            self.lemma_rows_settle(levels, world, context, anchor, items, (k - 1) as nat, floor);
            self.lemma_row_settles(levels, before.world, context, anchor, items[k - 1], floor);
            let made = self.row(levels, before.world, context, anchor, items[k - 1]);
            let earlier = rows_exposed(before.state, (k - 1) as nat);
            lemma_settles_beside(
                Set::empty(),
                made.state.exposed(),
                earlier,
                before.world.host,
                done.world.host,
                floor,
            );
            lemma_settles_wider(
                Set::empty(),
                earlier,
                Set::empty(),
                Set::empty() + earlier,
                world.host,
                before.world.host,
                floor,
            );
            lemma_settles_then(
                Set::empty(),
                Set::empty() + earlier,
                made.state.exposed() + earlier,
                world.host,
                before.world.host,
                done.world.host,
                floor,
            );
            assert(made.state.exposed() + earlier =~= rows_exposed(done.state, k)) by {
                assert(done.state == before.state.push(made.state));
                assert forall|node: NodeId| rows_exposed(done.state, k).contains(node) implies (
                made.state.exposed() + earlier).contains(node) by {
                    let i = choose|i: int|
                        0 <= i < k && i < done.state.len() && (
                        #[trigger] done.state[i]).exposed().contains(node);
                    if i < k - 1 {
                        assert(before.state[i] == done.state[i]);
                        assert(earlier.contains(node));
                    }
                }
                assert forall|node: NodeId|
                    (made.state.exposed() + earlier).contains(node) implies rows_exposed(
                    done.state,
                    k,
                ).contains(node) by {
                    if made.state.exposed().contains(node) {
                        assert(done.state[k - 1] == made.state);
                    } else {
                        let i = choose|i: int|
                            0 <= i < k - 1 && i < before.state.len() && (
                            #[trigger] before.state[i]).exposed().contains(node);
                        assert(done.state[i] == before.state[i]);
                        assert(done.state[i].exposed().contains(node));
                    }
                }
            }
        } else {
            assert(rows_exposed(done.state, 0) =~= Set::empty());
            lemma_still_settles(Set::empty(), world.host, world.host, floor);
        }
    }

    /// Updating a part accounts for every node.
    pub proof fn lemma_updated_settles(
        self,
        levels: nat,
        world: World,
        context: C,
        changed: Seq<usize>,
        floor: nat,
    )
        requires
            world.host.wf(),
            floor <= world.host.nodes.len(),
            self.above(floor),
            self.updated(levels, world, context, changed).failure is None,
            fits(self.updated(levels, world, context, changed).world.host),
        ensures
            settles(
                self.exposed(),
                self.updated(levels, world, context, changed).state.exposed(),
                world.host,
                self.updated(levels, world, context, changed).world.host,
                floor,
            ),
        decreases levels, self, 1nat, 0nat,
    {
        let step = self.updated(levels, world, context, changed);
        match self {
            PartView::Updatable { get_text, text_node } => {
                world.host.lemma_text_keeps_tree(text_node, context.text_of(get_text));
                lemma_still_settles(self.exposed(), world.host, step.world.host, floor);
            },
            PartView::Conditional { check_condition, fragment, anchor, fragment_mounted } => {
                let shows = context.holds(check_condition);
                if shows && !fragment_mounted {
                    let at = Location::before(world.host, anchor)->Ok_0;
                    fragment.lemma_mounted_keeps((levels - 1) as nat, world.host, at);
                    let (nested, placed, failure) = fragment.mounted_at(
                        (levels - 1) as nat,
                        world.host,
                        at,
                    );
                    nested.lemma_updated_keeps(
                        (levels - 1) as nat,
                        world.on(placed),
                        context,
                        nested.known,
                    );
                    fragment.lemma_mounted_aside((levels - 1) as nat, world.host, at, floor);
                    fragment.lemma_mounted_settles((levels - 1) as nat, world.host, at, floor);
                    nested.lemma_updated_settles(
                        (levels - 1) as nat,
                        world.on(placed),
                        context,
                        nested.known,
                        floor,
                    );
                    let shown = nested.fully_updated((levels - 1) as nat, world.on(placed), context);
                    assert(fragment.exposed() =~= Set::empty());
                    lemma_settles_then(
                        Set::empty(),
                        nested.exposed(),
                        shown.state.exposed(),
                        world.host,
                        placed,
                        step.world.host,
                        floor,
                    );
                    lemma_settles_beside(
                        Set::empty(),
                        shown.state.exposed(),
                        set![anchor],
                        world.host,
                        step.world.host,
                        floor,
                    );
                    assert(Set::empty() + set![anchor] =~= self.exposed());
                    assert(shown.state.exposed() + set![anchor] =~= step.state.exposed());
                } else if !shows && fragment_mounted {
                    fragment.lemma_detached_unhooks(world.host);
                    lemma_unhooked_settles(
                        fragment.exposed(),
                        set![anchor],
                        world.host,
                        step.world.host,
                        floor,
                    );
                    assert(fragment.exposed() + set![anchor] =~= self.exposed());
                    assert(set![anchor] =~= step.state.exposed());
                } else if fragment_mounted {
                    fragment.lemma_updated_settles(
                        (levels - 1) as nat,
                        world,
                        context,
                        changed,
                        floor,
                    );
                    let passed = fragment.updated((levels - 1) as nat, world, context, changed);
                    lemma_settles_beside(
                        fragment.exposed(),
                        passed.state.exposed(),
                        set![anchor],
                        world.host,
                        step.world.host,
                        floor,
                    );
                    assert(fragment.exposed() + set![anchor] =~= self.exposed());
                    assert(passed.state.exposed() + set![anchor] =~= step.state.exposed());
                } else {
                    lemma_still_settles(self.exposed(), world.host, world.host, floor);
                }
            },
            PartView::Each { get_items, mounted_fragments, anchor } => {
                lemma_rows_detached_unhook(mounted_fragments, world.host, mounted_fragments.len());
                crate::fragment::frame::lemma_fragments_detached_keep(
                    mounted_fragments,
                    world.host,
                    true,
                    mounted_fragments.len(),
                );
                let (cleared, failure) = fragments_detached(
                    mounted_fragments,
                    world.host,
                    true,
                    mounted_fragments.len(),
                );
                let gone = rows_exposed(mounted_fragments, mounted_fragments.len());
                lemma_unhooked_settles(gone, set![anchor], world.host, cleared, floor);
                let items = context.items_of(get_items);
                self.lemma_rows_settle(
                    levels,
                    world.on(cleared),
                    context,
                    anchor,
                    items,
                    items.len(),
                    floor,
                );
                let made = self.rows(levels, world.on(cleared), context, anchor, items, items.len());
                let shown = rows_exposed(made.state, items.len());
                lemma_settles_beside(
                    Set::empty(),
                    shown,
                    set![anchor],
                    cleared,
                    step.world.host,
                    floor,
                );
                assert(Set::empty() + set![anchor] =~= set![anchor]);
                lemma_settles_then(
                    gone + set![anchor],
                    set![anchor],
                    shown + set![anchor],
                    world.host,
                    cleared,
                    step.world.host,
                    floor,
                );
                assert(gone + set![anchor] =~= self.exposed());
                assert(shown + set![anchor] =~= step.state.exposed());
            },
            PartView::Component { controller, update } => {
                match context.passed_on(update, controller.component, changed) {
                    Some(ids) => {
                        controller.fragment.lemma_updated_settles(
                            (levels - 1) as nat,
                            World { host: world.host, registry: controller.registry },
                            context.adapted(update, controller.component, changed),
                            ids,
                            floor,
                        );
                    },
                    None => {
                        lemma_still_settles(self.exposed(), world.host, world.host, floor);
                    },
                }
            },
        }
    }
}


// ======================================================================================
// Mount and detach are symmetric
// ======================================================================================
/// Every node from `floor` on hangs nowhere or below another such node.
pub open spec fn apart(host: HostView, floor: nat) -> bool {
    forall|node: NodeId| host.has(node) && node >= floor ==> #[trigger] inward(host, node, floor)
}

/// Where the nodes from `floor` on are apart, the children of the older nodes are older
/// nodes.
pub proof fn lemma_apart_children(host: HostView, floor: nat, node: NodeId)
    requires
        host.wf(),
        apart(host, floor),
        host.has(node),
        node < floor,
    ensures
        elders(host.children_of(node), floor) == host.children_of(node),
{
    let kids = host.children_of(node);
    assert forall|i: int| 0 <= i < kids.len() implies (#[trigger] kids[i]) < floor by {
        assert(host.node_wf(node));
        assert(host.has(kids[i]) && host.parent_of(kids[i]) == Some(node));
        if kids[i] >= floor {
            assert(inward(host, kids[i], floor));
        }
    }
    lemma_elders_all(kids, floor);
}

impl<C: Component> FragmentView<C> {
    /// The fragment keeps its nodes to itself: all its nodes have handles from `floor` on,
    /// and of the nodes from `floor` on, those that hang below an older node are exposed
    /// nodes of the fragment. This is so when the fragment has just been built, and stays
    /// so whatever is done to the fragment.
    pub open spec fn kempt(self, host: HostView, floor: nat) -> bool {
        &&& host.wf()
        &&& floor <= host.nodes.len()
        &&& self.above(floor)
        &&& forall|node: NodeId|
            host.has(node) && node >= floor ==> self.exposed().contains(node) || #[trigger] inward(
                host,
                node,
                floor,
            )
    }

    /// A step that accounts for every node keeps the fragment kempt.
    proof fn lemma_settled_is_kempt(
        self,
        done: FragmentView<C>,
        host: HostView,
        after: HostView,
        floor: nat,
    )
        requires
            self.kempt(host, floor),
            after.wf(),
            done.above(floor),
            settles(self.exposed(), done.exposed(), host, after, floor),
        ensures
            done.kempt(after, floor),
    {
        assert forall|node: NodeId| after.has(node) && node >= floor implies done.exposed().contains(
            node,
        ) || #[trigger] inward(after, node, floor) by {
            assert(settled(self.exposed(), done.exposed(), host, after, floor, node));
            if host.has(node) {
                assert(self.exposed().contains(node) || inward(host, node, floor));
            }
        }
    }

    /// Mounting keeps a fragment kempt and disturbs nothing that is older than the fragment.
    pub proof fn lemma_mount_keeps_kempt(self, levels: nat, host: HostView, at: Location, floor: nat)
        requires
            self.kempt(host, floor),
            self.mounted_at(levels, host, at).2 is None,
            fits(self.mounted_at(levels, host, at).1),
        ensures
            self.mounted_at(levels, host, at).0.kempt(self.mounted_at(levels, host, at).1, floor),
            undisturbed(host, self.mounted_at(levels, host, at).1, floor),
    {
        self.lemma_mounted_keeps(levels, host, at);
        self.lemma_mounted_aside(levels, host, at, floor);
        self.lemma_mounted_settles(levels, host, at, floor);
        self.lemma_settled_is_kempt(
            self.mounted_at(levels, host, at).0,
            host,
            self.mounted_at(levels, host, at).1,
            floor,
        );
    }

    /// Updating keeps a fragment kempt and disturbs nothing that is older than the fragment.
    pub proof fn lemma_update_keeps_kempt(
        self,
        levels: nat,
        world: World,
        context: C,
        changed: Seq<usize>,
        floor: nat,
    )
        requires
            self.kempt(world.host, floor),
            self.updated(levels, world, context, changed).failure is None,
            fits(self.updated(levels, world, context, changed).world.host),
        ensures
            self.updated(levels, world, context, changed).state.kempt(
                self.updated(levels, world, context, changed).world.host,
                floor,
            ),
            undisturbed(
                world.host,
                self.updated(levels, world, context, changed).world.host,
                floor,
            ),
    {
        self.lemma_updated_keeps(levels, world, context, changed);
        self.lemma_updated_aside(levels, world, context, changed, floor);
        self.lemma_updated_settles(levels, world, context, changed, floor);
        self.lemma_settled_is_kempt(
            self.updated(levels, world, context, changed).state,
            world.host,
            self.updated(levels, world, context, changed).world.host,
            floor,
        );
    }

    /// Detaching at the top level keeps a fragment kempt and disturbs nothing that is older
    /// than the fragment. Afterwards the nodes of the fragment are apart from the older ones.
    pub proof fn lemma_detach_keeps_kempt(self, host: HostView, floor: nat)
        requires
            self.kempt(host, floor),
            self.detached(host, true).2 is None,
        ensures
            self.detached(host, true).0.kempt(self.detached(host, true).1, floor),
            undisturbed(host, self.detached(host, true).1, floor),
            apart(self.detached(host, true).1, floor),
            !self.detached(host, true).0.mounted,
    {
        let (done, after, failure) = self.detached(host, true);
        self.lemma_detached_keeps(host, true);
        self.lemma_detached_aside(host, true, floor);
        self.lemma_detached_unhooks(host);
        assert forall|node: NodeId| after.has(node) && node >= floor implies #[trigger] inward(
            after,
            node,
            floor,
        ) by {
            assert(after.parent_of(node) == (if self.exposed().contains(node) {
                None
            } else {
                host.parent_of(node)
            }));
            assert(self.exposed().contains(node) || inward(host, node, floor));
        }
    }

    /// Where the nodes of a fragment are apart from the older ones, and the older ones were
    /// not disturbed, every older node has the children that it had.
    pub proof fn lemma_apart_restores(before: HostView, after: HostView, floor: nat, node: NodeId)
        requires
            before.wf(),
            apart(before, floor),
            apart(after, floor),
            undisturbed(before, after, floor),
            before.has(node),
            node < floor,
        ensures
            after.children_of(node) == before.children_of(node),
    {
        lemma_apart_children(before, floor, node);
        lemma_apart_children(after, floor, node);
    }

    /// Mount and detach are symmetric. Take a fragment whose nodes all have handles from
    /// `floor` on, and a host in which the nodes from `floor` on are apart from the older
    /// ones, as they are when the fragment has just been built, or was detached at the top
    /// level. If the fragment is mounted, wherever, and what is below it is updated as the
    /// mount requires, and it is then detached at the top level, then every node that is
    /// older than the fragment has the children it had before, node for node and in the same
    /// order: the child list at the location is what it was. The nodes of the fragment are
    /// apart again.
    pub proof fn lemma_mount_then_detach_restores(
        self,
        levels: nat,
        host: HostView,
        at: Location,
        floor: nat,
    )
        requires
            host.wf(),
            floor <= host.nodes.len(),
            self.above(floor),
            apart(host, floor),
            self.mounted_at(levels, host, at).2 is None,
            self.mounted_at(levels, host, at).0.detached(
                self.mounted_at(levels, host, at).1,
                true,
            ).2 is None,
            fits(
                self.mounted_at(levels, host, at).0.detached(
                    self.mounted_at(levels, host, at).1,
                    true,
                ).1,
            ),
        ensures
            ({
                let (mounted, placed, failure) = self.mounted_at(levels, host, at);
                let (detached, after, failed) = mounted.detached(placed, true);
                &&& after.wf()
                &&& apart(after, floor)
                &&& !detached.mounted
                &&& detached.above(floor)
                &&& forall|node: NodeId|
                    host.has(node) && node < floor ==> #[trigger] after.children_of(node)
                        == host.children_of(node)
            }),
    {
        let (mounted, placed, failure) = self.mounted_at(levels, host, at);
        let (detached, after, failed) = mounted.detached(placed, true);
        assert(self.kempt(host, floor));
        self.lemma_mounted_keeps(levels, host, at);
        mounted.lemma_detached_keeps(placed, true);
        self.lemma_mount_keeps_kempt(levels, host, at, floor);
        mounted.lemma_detach_keeps_kempt(placed, floor);
        crate::fragment::aside::lemma_undisturbed_twice(host, placed, after, floor);
        assert forall|node: NodeId| host.has(node) && node < floor implies #[trigger] after.children_of(
            node,
        ) == host.children_of(node) by {
            Self::lemma_apart_restores(host, after, floor, node);
        }
    }

    /// The same through an update: a fragment that is mounted, updated for whatever has
    /// changed, and detached at the top level leaves every older node with the children it
    /// had. Any number of updates can stand in the place of the one, by the lemmas above.
    pub proof fn lemma_mount_update_detach_restores(
        self,
        levels: nat,
        world: World,
        at: Location,
        context: C,
        changed: Seq<usize>,
        floor: nat,
    )
        requires
            world.host.wf(),
            floor <= world.host.nodes.len(),
            self.above(floor),
            apart(world.host, floor),
            self.mounted_at(levels, world.host, at).2 is None,
            self.mounted_at(levels, world.host, at).0.updated(
                levels,
                world.on(self.mounted_at(levels, world.host, at).1),
                context,
                changed,
            ).failure is None,
            self.mounted_at(levels, world.host, at).0.updated(
                levels,
                world.on(self.mounted_at(levels, world.host, at).1),
                context,
                changed,
            ).state.detached(
                self.mounted_at(levels, world.host, at).0.updated(
                    levels,
                    world.on(self.mounted_at(levels, world.host, at).1),
                    context,
                    changed,
                ).world.host,
                true,
            ).2 is None,
            fits(
                self.mounted_at(levels, world.host, at).0.updated(
                    levels,
                    world.on(self.mounted_at(levels, world.host, at).1),
                    context,
                    changed,
                ).state.detached(
                    self.mounted_at(levels, world.host, at).0.updated(
                        levels,
                        world.on(self.mounted_at(levels, world.host, at).1),
                        context,
                        changed,
                    ).world.host,
                    true,
                ).1,
            ),
        ensures
            ({
                let (mounted, placed, failure) = self.mounted_at(levels, world.host, at);
                let shown = mounted.updated(levels, world.on(placed), context, changed);
                let (detached, after, failed) = shown.state.detached(shown.world.host, true);
                forall|node: NodeId|
                    world.host.has(node) && node < floor ==> #[trigger] after.children_of(node)
                        == world.host.children_of(node)
            }),
    {
        let host = world.host;
        let (mounted, placed, failure) = self.mounted_at(levels, host, at);
        let shown = mounted.updated(levels, world.on(placed), context, changed);
        let (detached, after, failed) = shown.state.detached(shown.world.host, true);
        assert(self.kempt(host, floor));
        self.lemma_mounted_keeps(levels, host, at);
        mounted.lemma_updated_keeps(levels, world.on(placed), context, changed);
        shown.state.lemma_detached_keeps(shown.world.host, true);
        self.lemma_mount_keeps_kempt(levels, host, at, floor);
        mounted.lemma_update_keeps_kempt(levels, world.on(placed), context, changed, floor);
        shown.state.lemma_detach_keeps_kempt(shown.world.host, floor);
        crate::fragment::aside::lemma_undisturbed_twice(host, placed, shown.world.host, floor);
        crate::fragment::aside::lemma_undisturbed_twice(host, shown.world.host, after, floor);
        assert forall|node: NodeId| host.has(node) && node < floor implies #[trigger] after.children_of(
            node,
        ) == host.children_of(node) by {
            Self::lemma_apart_restores(host, after, floor, node);
        }
    }
}

impl<C: Component> BuilderView<C> {
    /// Mount and detach are symmetric for every fragment as it comes from its builder:
    /// whatever the builder describes, child components included, if the fragment that it
    /// builds is mounted and then detached at the top level, the children of every node
    /// that was there before the fragment was built are what they were before the mount.
    pub proof fn lemma_built_then_mounted_then_detached(
        self,
        levels: nat,
        world: World,
        depth: nat,
        at: Location,
    )
        requires
            world.host.wf(),
            self.built(levels, world).failure is None,
            self.built(levels, world).state.mounted_at(
                depth,
                self.built(levels, world).world.host,
                at,
            ).2 is None,
            self.built(levels, world).state.mounted_at(
                depth,
                self.built(levels, world).world.host,
                at,
            ).0.detached(
                self.built(levels, world).state.mounted_at(
                    depth,
                    self.built(levels, world).world.host,
                    at,
                ).1,
                true,
            ).2 is None,
            fits(
                self.built(levels, world).state.mounted_at(
                    depth,
                    self.built(levels, world).world.host,
                    at,
                ).0.detached(
                    self.built(levels, world).state.mounted_at(
                        depth,
                        self.built(levels, world).world.host,
                        at,
                    ).1,
                    true,
                ).1,
            ),
        ensures
            ({
                let built = self.built(levels, world);
                let (mounted, placed, failure) = built.state.mounted_at(depth, built.world.host, at);
                let (detached, after, failed) = mounted.detached(placed, true);
                forall|node: NodeId|
                    world.host.has(node) ==> #[trigger] after.children_of(node)
                        == built.world.host.children_of(node) && after.children_of(node)
                        == world.host.children_of(node)
            }),
    {
        let built = self.built(levels, world);
        let floor = world.host.nodes.len();
        let host = built.world.host;
        let (mounted, placed, failure) = built.state.mounted_at(depth, host, at);
        self.lemma_built(levels, world);
        built.state.lemma_mounted_keeps(depth, host, at);
        mounted.lemma_detached_keeps(placed, true);
        self.lemma_built_above(levels, world);
        assert forall|node: NodeId| host.has(node) && node >= floor implies #[trigger] inward(
            host,
            node,
            floor,
        ) by {
            let now = host.nodes[node as int];
        }
        built.state.lemma_mount_then_detach_restores(depth, host, at, floor);
        assert forall|node: NodeId| world.host.has(node) implies host.children_of(node)
            == world.host.children_of(node) by {
            let now = host.nodes[node as int];
        }
    }
}

} // verus!
