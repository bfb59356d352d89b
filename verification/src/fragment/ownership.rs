//! The nodes that a fragment owns, and that nothing it does reaches beyond them.

use vstd::prelude::*;
use crate::component::Component;
use crate::fragment::aside::fits;
use crate::fragment::builder::{BuilderView, PartKind};
use crate::fragment::event_registry::RegistryView;
use crate::fragment::location::Location;
use crate::fragment::model::{fragments_detached, place, selects, unhook};
use crate::fragment::model::{ControllerView, FragmentView, PartView, World};
use crate::host::model::{lemma_others_coarser, lemma_others_insert, lemma_others_remove, others};
use crate::host::model::{Failure, HostView, NodeId};

verus! {

/// The nodes that the first `k` fragments of a list own.
pub open spec fn rows_owned<C: Component>(fragments: Seq<FragmentView<C>>, k: nat) -> Set<NodeId>
    decreases fragments, 0nat,
{
    Set::new(
        |node: NodeId|
            exists|i: int|
                0 <= i < k && i < fragments.len() && (#[trigger] fragments[i]).owned().contains(node),
    )
}

impl<C: Component> FragmentView<C> {
    /// The first `k` static nodes.
    pub open spec fn own_statics(self, k: nat) -> Set<NodeId> {
        Set::new(
            |node: NodeId|
                exists|i: int|
                    0 <= i < k && i < self.statics.len() && (#[trigger] self.statics[i]).1 == node,
        )
    }

    /// The nodes that the first `j` parts own.
    pub open spec fn parts_owned(self, j: nat) -> Set<NodeId>
        decreases self, 0nat,
    {
        Set::new(
            |node: NodeId|
                exists|i: int|
                    0 <= i < j && i < self.parts.len() && (#[trigger] self.parts[i]).1.owned().contains(
                        node,
                    ),
        )
    }

    /// The nodes that the fragment owns: its static nodes, and what its parts own.
    pub open spec fn owned(self) -> Set<NodeId>
        decreases self, 1nat,
    {
        self.own_statics(self.statics.len()) + self.parts_owned(self.parts.len())
    }
}

impl<C: Component> PartView<C> {
    /// The nodes that the part owns: its own node, and what the fragments below it own,
    /// mounted or not.
    pub open spec fn owned(self) -> Set<NodeId>
        decreases self, 1nat,
    {
        match self {
            PartView::Updatable { text_node, .. } => set![text_node],
            PartView::Conditional { fragment, anchor, .. } => fragment.owned().insert(anchor),
            PartView::Each { mounted_fragments, anchor, .. } => rows_owned(
                mounted_fragments,
                mounted_fragments.len(),
            ).insert(anchor),
            PartView::Component { controller, .. } => controller.fragment.owned(),
        }
    }
}

/// A step from `host` to `after` stays within the nodes `before`: what is owned afterwards
/// was owned before or is new, no node of before that was not owned has moved or has another
/// text, and under every node of before, the children of before that were not owned are the
/// same, in the same order.
pub open spec fn within(before: Set<NodeId>, owned: Set<NodeId>, host: HostView, after: HostView)
    -> bool {
    &&& host.nodes.len() <= after.nodes.len()
    &&& forall|node: NodeId| #[trigger]
        owned.contains(node) ==> before.contains(node) || host.nodes.len() <= node
            < after.nodes.len()
    &&& forall|node: NodeId|
        host.has(node) && !before.contains(node) ==> #[trigger] after.parent_of(node)
            == host.parent_of(node)
    &&& forall|node: NodeId|
        host.has(node) && !before.contains(node) ==> #[trigger] after.data_of(node)
            == host.data_of(node)
    &&& forall|node: NodeId|
        host.has(node) ==> others(#[trigger] after.children_of(node), before, host.nodes.len())
            == others(host.children_of(node), before, host.nodes.len())
}

pub proof fn lemma_within_then(
    first: Set<NodeId>,
    second: Set<NodeId>,
    third: Set<NodeId>,
    host: HostView,
    mid: HostView,
    after: HostView,
)
    requires
        within(first, second, host, mid),
        within(second, third, mid, after),
    ensures
        within(first, third, host, after),
{
    assert forall|node: NodeId| #[trigger] third.contains(node) implies first.contains(node)
        || host.nodes.len() <= node < after.nodes.len() by {
        if second.contains(node) {
        }
    }
    assert forall|node: NodeId| host.has(node) && !first.contains(node) implies #[trigger] after.parent_of(
        node,
    ) == host.parent_of(node) by {
        assert(mid.parent_of(node) == host.parent_of(node));
        assert(!second.contains(node));
    }
    assert forall|node: NodeId| host.has(node) && !first.contains(node) implies #[trigger] after.data_of(
        node,
    ) == host.data_of(node) by {
        assert(mid.data_of(node) == host.data_of(node));
        assert(!second.contains(node));
    }
    assert forall|node: NodeId| host.has(node) implies others(
        #[trigger] after.children_of(node),
        first,
        host.nodes.len(),
    ) == others(host.children_of(node), first, host.nodes.len()) by {
        assert(mid.has(node));
        assert forall|x: NodeId| x < host.nodes.len() && !first.contains(x) implies x
            < mid.nodes.len() && !second.contains(x) by {
            if second.contains(x) {
            }
        }
        lemma_others_coarser(
            after.children_of(node),
            mid.children_of(node),
            second,
            mid.nodes.len(),
            first,
            host.nodes.len(),
        );
    }
}

pub proof fn lemma_within_beside(
    before: Set<NodeId>,
    owned: Set<NodeId>,
    others: Set<NodeId>,
    host: HostView,
    after: HostView,
)
    requires
        within(before, owned, host, after),
    ensures
        within(before + others, owned + others, host, after),
{
    assert forall|node: NodeId| #[trigger] (owned + others).contains(node) implies (before
        + others).contains(node) || host.nodes.len() <= node < after.nodes.len() by {
        if owned.contains(node) {
        }
    }
    assert forall|node: NodeId| host.has(node) implies crate::host::model::others(
        #[trigger] after.children_of(node),
        before + others,
        host.nodes.len(),
    ) == crate::host::model::others(host.children_of(node), before + others, host.nodes.len()) by {
        lemma_others_coarser(
            after.children_of(node),
            host.children_of(node),
            before,
            host.nodes.len(),
            before + others,
            host.nodes.len(),
        );
    }
}

/// A step that moves no node of before.
pub proof fn lemma_still_within(owned: Set<NodeId>, host: HostView, after: HostView)
    requires
        host.nodes.len() <= after.nodes.len(),
        forall|node: NodeId| host.has(node) ==> #[trigger] after.parent_of(node) == host.parent_of(node),
        forall|node: NodeId| host.has(node) ==> #[trigger] after.data_of(node) == host.data_of(node),
        forall|node: NodeId|
            host.has(node) ==> #[trigger] after.children_of(node) == host.children_of(node),
    ensures
        within(owned, owned, host, after),
{
}

/// Placing a node moves that node only.
pub proof fn lemma_place_within(
    host: HostView,
    target: Result<Location, Failure>,
    node: NodeId,
    owned: Set<NodeId>,
)
    requires
        host.wf(),
        place(host, target, node).1 is None,
        owned.contains(node),
    ensures
        within(owned, owned, host, place(host, target, node).0),
{
    crate::fragment::exposure::lemma_place_exposes(host, target, node, owned, 0);
    let after = place(host, target, node).0;
    let at = target->Ok_0;
    host.lemma_insert_keeps_tree(at.parent, node, at.anchor);
    if at.anchor != Some(node) {
        host.lemma_unlinked(node);
        let cut = host.unlinked(node);
        let position = cut.position(at.parent, at.anchor);
        match at.anchor {
            Some(a) => {
                assert(cut.parent_of(a) == host.parent_of(a));
                assert(cut.node_wf(a));
                assert(cut.nodes[at.parent as int].children.contains(a));
            },
            None => {},
        }
        cut.lemma_linked(at.parent, node, position);
        assert forall|n: NodeId| host.has(n) && !owned.contains(n) implies #[trigger] after.parent_of(
            n,
        ) == host.parent_of(n) by {
            assert(cut.parent_of(n) == host.parent_of(n));
            assert(cut.linked(at.parent, node, position).parent_of(n) == cut.parent_of(n));
        }
        assert forall|n: NodeId| host.has(n) implies #[trigger] after.data_of(n) == host.data_of(
            n,
        ) by {
            assert(cut.data_of(n) == host.data_of(n));
            assert(cut.linked(at.parent, node, position).data_of(n) == cut.data_of(n));
        }
        let count = host.nodes.len();
        assert forall|n: NodeId| host.has(n) implies others(
            #[trigger] after.children_of(n),
            owned,
            count,
        ) == others(host.children_of(n), owned, count) by {
            assert(others(cut.children_of(n), owned, count) == others(
                host.children_of(n),
                owned,
                count,
            )) by {
                if Some(n) == host.parent_of(node) {
                    let kids = host.nodes[n as int].children;
                    assert(host.node_wf(node));
                    assert(kids.contains(node));
                    let gone = kids.index_of(node);
                    assert(cut.children_of(n) == kids.remove(gone));
                    lemma_others_remove(kids, owned, count, gone);
                } else {
                    assert(cut.children_of(n) == host.children_of(n));
                }
            }
            if n == at.parent {
                assert(after.children_of(n) == cut.children_of(n).insert(position, node));
                lemma_others_insert(cut.children_of(n), owned, count, position, node);
            } else {
                assert(cut.linked(at.parent, node, position).children_of(n) == cut.children_of(n));
                assert(after.children_of(n) == cut.children_of(n));
            }
        }
    }
}

/// A host whose later version has at least its nodes.
pub proof fn lemma_within_same(owned: Set<NodeId>, host: HostView)
    ensures
        within(owned, owned, host, host),
{
}

// ======================================================================================
// What is exposed is owned
// ======================================================================================
pub proof fn lemma_rows_exposed_owned<C: Component>(fragments: Seq<FragmentView<C>>, k: nat)
    ensures
        crate::fragment::exposure::rows_exposed(fragments, k).subset_of(rows_owned(fragments, k)),
    decreases fragments, 0nat,
{
    assert forall|node: NodeId|
        crate::fragment::exposure::rows_exposed(fragments, k).contains(node) implies rows_owned(
        fragments,
        k,
    ).contains(node) by {
        let i = choose|i: int|
            0 <= i < k && i < fragments.len() && (#[trigger] fragments[i]).exposed().contains(node);
        fragments[i].lemma_exposed_owned();
        assert(fragments[i].owned().contains(node));
    }
}

impl<C: Component> FragmentView<C> {
    pub proof fn lemma_exposed_owned(self)
        ensures
            self.exposed().subset_of(self.owned()),
        decreases self, 1nat,
    {
        assert forall|node: NodeId| self.exposed().contains(node) implies self.owned().contains(
            node,
        ) by {
            if self.top_statics(self.statics.len()).contains(node) {
                let i = choose|i: int|
                    0 <= i < self.statics.len() && i < self.statics.len() && (
                    #[trigger] self.statics[i]).0 is None && self.statics[i].1 == node;
                assert(self.statics[i].1 == node);
                assert(self.own_statics(self.statics.len()).contains(node));
            } else {
                let i = choose|i: int|
                    0 <= i < self.parts.len() && i < self.parts.len() && (
                    #[trigger] self.parts[i]).1.exposed().contains(node);
                self.parts[i].1.lemma_exposed_owned();
                assert(self.parts[i].1.owned().contains(node));
                assert(self.parts_owned(self.parts.len()).contains(node));
            }
        }
    }
}

impl<C: Component> PartView<C> {
    pub proof fn lemma_exposed_owned(self)
        ensures
            self.exposed().subset_of(self.owned()),
        decreases self, 0nat,
    {
        match self {
            PartView::Updatable { .. } => {},
            PartView::Conditional { fragment, .. } => {
                fragment.lemma_exposed_owned();
            },
            PartView::Each { mounted_fragments, .. } => {
                lemma_rows_exposed_owned(mounted_fragments, mounted_fragments.len());
            },
            PartView::Component { controller, .. } => {
                controller.fragment.lemma_exposed_owned();
            },
        }
    }
}

// ======================================================================================
// Detaching owns no more than before
// ======================================================================================
impl<C: Component> FragmentView<C> {
    /// A detach at the top level stays within the nodes of the fragment, and the fragment
    /// owns nothing afterwards that it did not own before.
    pub proof fn lemma_detached_within(self, host: HostView)
        requires
            host.wf(),
            self.detached(host, true).2 is None,
        ensures
            within(self.owned(), self.detached(host, true).0.owned(), host, self.detached(host, true).1),
            self.detached(host, true).0.owned().subset_of(self.owned()),
        decreases self, 1nat, 0nat,
    {
        let (done, after, failure) = self.detached(host, true);
        self.lemma_detached_unhooks(host);
        self.lemma_exposed_owned();
        self.lemma_detached_owns_less(host);
        assert forall|node: NodeId| host.has(node) && !self.owned().contains(node) implies #[trigger] after.parent_of(
            node,
        ) == host.parent_of(node) by {
            assert(!self.exposed().contains(node));
        }
        assert forall|node: NodeId| host.has(node) implies others(
            #[trigger] after.children_of(node),
            self.owned(),
            host.nodes.len(),
        ) == others(host.children_of(node), self.owned(), host.nodes.len()) by {
            lemma_others_coarser(
                after.children_of(node),
                host.children_of(node),
                self.exposed(),
                host.nodes.len(),
                self.owned(),
                host.nodes.len(),
            );
        }
    }

    /// A fragment that was detached owns nothing that it did not own before.
    pub proof fn lemma_detached_owns_less(self, host: HostView)
        ensures
            self.detached(host, true).0.owned().subset_of(self.owned()),
        decreases self, 0nat, 1nat,
    {
        let done = self.detached(host, true).0;
        assert forall|node: NodeId| done.owned().contains(node) implies self.owned().contains(
            node,
        ) by {
            if done.own_statics(done.statics.len()).contains(node) {
                assert(done.statics == self.statics);
                let i = choose|i: int|
                    0 <= i < done.statics.len() && i < done.statics.len() && (
                    #[trigger] done.statics[i]).1 == node;
                assert(self.statics[i].1 == node);
                assert(self.own_statics(self.statics.len()).contains(node));
            } else {
                let i = choose|i: int|
                    0 <= i < done.parts.len() && i < done.parts.len() && (
                    #[trigger] done.parts[i]).1.owned().contains(node);
                if done.parts[i] != self.parts[i] {
                    let cleared = self.statics_detached(host, self.statics.len()).0;
                    let before = self.parts_detached(cleared, true, i as nat).0;
                    assert(done.parts[i].1 == self.part_detached(cleared, true, i));
                    if done.parts[i].1 != self.parts[i].1 {
                        self.parts[i].1.lemma_detached_owns_less(before);
                    }
                }
                assert(self.parts[i].1.owned().contains(node));
                assert(self.parts_owned(self.parts.len()).contains(node));
            }
        }
    }
}

impl<C: Component> PartView<C> {
    pub proof fn lemma_detached_owns_less(self, host: HostView)
        ensures
            self.detached(host, true).0.owned().subset_of(self.owned()),
        decreases self, 0nat, 0nat,
    {
        match self {
            PartView::Updatable { .. } => {},
            PartView::Conditional { fragment, anchor, fragment_mounted, .. } => {
                let cleared = unhook(host, anchor).0;
                fragment.lemma_detached_owns_less(cleared);
            },
            PartView::Each { mounted_fragments, anchor, .. } => {
                assert(rows_owned(Seq::<FragmentView<C>>::empty(), 0) =~= Set::empty());
            },
            PartView::Component { controller, .. } => {
                controller.fragment.lemma_detached_owns_less(host);
            },
        }
    }
}


// ======================================================================================
// Building owns new nodes only
// ======================================================================================
/// Every node of the set has a handle from `low` up to, but not including, `high`.
pub open spec fn between(nodes: Set<NodeId>, low: nat, high: nat) -> bool {
    forall|node: NodeId| #[trigger] nodes.contains(node) ==> low <= node < high
}

impl<C: Component> BuilderView<C> {
    /// A built fragment owns exactly nodes that were created while it was built.
    pub proof fn lemma_built_owned(self, levels: nat, world: World)
        requires
            world.host.wf(),
            self.built(levels, world).failure is None,
            fits(self.built(levels, world).world.host),
        ensures
            between(
                self.built(levels, world).state.owned(),
                world.host.nodes.len(),
                self.built(levels, world).world.host.nodes.len(),
            ),
            within(
                Set::empty(),
                self.built(levels, world).state.owned(),
                world.host,
                self.built(levels, world).world.host,
            ),
        decreases levels, self, 1nat, 0nat,
    {
        let built = self.built(levels, world);
        let first = world.host.nodes.len();
        let last = built.world.host.nodes.len();
        let count = self.nodes.len();
        let parts = self.parts.len();
        self.lemma_built(levels, world);
        self.lemma_nodes_built(world, count);
        let with_nodes = self.nodes_built(world, count);
        self.lemma_parts_built(levels, with_nodes, parts);
        assert forall|node: NodeId| #[trigger] built.state.owned().contains(node) implies first
            <= node < last by {
            if built.state.own_statics(count).contains(node) {
                let k = choose|k: int|
                    0 <= k < count && k < built.state.statics.len() && (
                    #[trigger] built.state.statics[k]).1 == node;
                self.lemma_nodes_built(world, k as nat);
            } else {
                let j = choose|j: int|
                    0 <= j < parts && j < built.state.parts.len() && (
                    #[trigger] built.state.parts[j]).1.owned().contains(node);
                self.lemma_part_built_owned(levels, with_nodes, j);
                self.lemma_parts_built(levels, with_nodes, j as nat);
                self.lemma_parts_grow(levels, with_nodes, (j + 1) as nat, parts);
            }
        }
        assert forall|node: NodeId| world.host.has(node) implies #[trigger] built.world.host.parent_of(
            node,
        ) == world.host.parent_of(node) by {
            let now = built.world.host.nodes[node as int];
        }
    }

    /// A built part owns exactly nodes that were created while it was built.
    pub proof fn lemma_part_built_owned(self, levels: nat, world: World, j: int)
        requires
            world.host.wf(),
            0 <= j < self.parts.len(),
            self.parts_built(levels, world, self.parts.len()).1 is None,
            fits(self.parts_built(levels, world, self.parts.len()).0.host),
        ensures
            between(
                self.part_built(levels, world, j).owned(),
                self.seam(levels, world, j as nat),
                self.seam(levels, world, (j + 1) as nat),
            ),
        decreases levels, self, 0nat, 1nat,
    {
        self.lemma_parts_all_built(levels, world, j as nat, self.parts.len());
        self.lemma_parts_all_built(levels, world, (j + 1) as nat, self.parts.len());
        self.lemma_parts_built(levels, world, j as nat);
        self.lemma_parts_grow(levels, world, (j + 1) as nat, self.parts.len());
        let before = self.parts_built(levels, world, j as nat).0;
        self.parts[j].kind.lemma_built_owned(levels, before);
    }
}

impl<C: Component> PartKind<C> {
    pub proof fn lemma_built_owned(self, levels: nat, world: World)
        requires
            world.host.wf(),
            self.built(levels, world).failure is None,
            fits(self.built(levels, world).world.host),
        ensures
            between(
                self.built(levels, world).state.owned(),
                world.host.nodes.len(),
                self.built(levels, world).world.host.nodes.len(),
            ),
        decreases levels, self, 0nat, 0nat,
    {
        match self {
            PartKind::Updatable { .. } => {
                world.host.lemma_created(false, Seq::empty());
            },
            PartKind::Conditional { fragment, .. } => {
                fragment.lemma_built((levels - 1) as nat, world);
                let nested = fragment.built((levels - 1) as nat, world);
                nested.world.host.lemma_created(false, Seq::empty());
                fragment.lemma_built_owned((levels - 1) as nat, world);
            },
            PartKind::Each { .. } => {
                world.host.lemma_created(false, Seq::empty());
                assert(rows_owned(Seq::<FragmentView<C>>::empty(), 0) =~= Set::empty());
            },
            PartKind::Component { component, register_event, .. } => {
                let own = RegistryView { owner: register_event, closures: Map::empty() };
                component.rendered().lemma_built_owned(
                    (levels - 1) as nat,
                    World { host: world.host, registry: own },
                );
            },
        }
    }
}

// ======================================================================================
// Mounting and updating stay within
// ======================================================================================
impl<C: Component> FragmentView<C> {
    /// The nodes that the parts own when the first `j` parts are dealt with.
    pub open spec fn owning(self, ends: spec_fn(int) -> PartView<C>, j: nat) -> Set<NodeId> {
        Set::new(
            |node: NodeId|
                exists|i: int|
                    0 <= i < self.parts.len() && (#[trigger] self.at_step(
                        ends,
                        j,
                        i,
                    )).owned().contains(node),
        )
    }

    pub proof fn lemma_owning_step(
        self,
        ends: spec_fn(int) -> PartView<C>,
        j: nat,
        others: Set<NodeId>,
        host: HostView,
        after: HostView,
    )
        requires
            j < self.parts.len(),
            within(self.parts[j as int].1.owned(), ends(j as int).owned(), host, after),
        ensures
            within(
                self.owning(ends, j) + others,
                self.owning(ends, (j + 1) as nat) + others,
                host,
                after,
            ),
    {
        let before = self.owning(ends, j) + others;
        let owned = self.owning(ends, (j + 1) as nat) + others;
        assert(self.at_step(ends, j, j as int) == self.parts[j as int].1);
        assert forall|node: NodeId| #[trigger] owned.contains(node) implies before.contains(node)
            || host.nodes.len() <= node < after.nodes.len() by {
            if !others.contains(node) {
                let i = choose|i: int|
                    0 <= i < self.parts.len() && (#[trigger] self.at_step(
                        ends,
                        (j + 1) as nat,
                        i,
                    )).owned().contains(node);
                if i != j {
                    assert(self.at_step(ends, j, i) == self.at_step(ends, (j + 1) as nat, i));
                    assert(self.at_step(ends, j, i).owned().contains(node));
                } else {
                    assert(ends(j as int).owned().contains(node));
                    if self.parts[j as int].1.owned().contains(node) {
                        assert(self.at_step(ends, j, j as int).owned().contains(node));
                    }
                }
            }
        }
        assert forall|node: NodeId| host.has(node) && !before.contains(node) implies #[trigger] after.parent_of(
            node,
        ) == host.parent_of(node) by {
            if self.parts[j as int].1.owned().contains(node) {
                assert(self.at_step(ends, j, j as int).owned().contains(node));
                assert(self.owning(ends, j).contains(node));
            }
        }
        assert forall|node: NodeId| self.parts[j as int].1.owned().contains(
            node,
        ) implies before.contains(node) by {
            assert(self.at_step(ends, j, j as int).owned().contains(node));
            assert(self.owning(ends, j).contains(node));
        }
        assert forall|node: NodeId| host.has(node) implies crate::host::model::others(
            #[trigger] after.children_of(node),
            before,
            host.nodes.len(),
        ) == crate::host::model::others(host.children_of(node), before, host.nodes.len()) by {
            lemma_others_coarser(
                after.children_of(node),
                host.children_of(node),
                self.parts[j as int].1.owned(),
                host.nodes.len(),
                before,
                host.nodes.len(),
            );
        }
    }

    pub proof fn lemma_owning_skip(self, ends: spec_fn(int) -> PartView<C>, j: nat)
        requires
            j < self.parts.len(),
            ends(j as int) == self.parts[j as int].1,
        ensures
            self.owning(ends, (j + 1) as nat) =~= self.owning(ends, j),
    {
        assert forall|i: int| 0 <= i < self.parts.len() implies self.at_step(
            ends,
            (j + 1) as nat,
            i,
        ) == self.at_step(ends, j, i) by {}
        assert forall|node: NodeId| self.owning(ends, j).contains(node) implies self.owning(
            ends,
            (j + 1) as nat,
        ).contains(node) by {
            let i = choose|i: int|
                0 <= i < self.parts.len() && (#[trigger] self.at_step(ends, j, i)).owned().contains(
                    node,
                );
            assert(self.at_step(ends, (j + 1) as nat, i).owned().contains(node));
        }
        assert forall|node: NodeId| self.owning(ends, (j + 1) as nat).contains(
            node,
        ) implies self.owning(ends, j).contains(node) by {
            let i = choose|i: int|
                0 <= i < self.parts.len() && (#[trigger] self.at_step(
                    ends,
                    (j + 1) as nat,
                    i,
                )).owned().contains(node);
            assert(self.at_step(ends, j, i).owned().contains(node));
        }
    }

    pub proof fn lemma_owning_ends(self, ends: spec_fn(int) -> PartView<C>, done: FragmentView<C>)
        requires
            done.parts.len() == self.parts.len(),
            forall|i: int| 0 <= i < self.parts.len() ==> (#[trigger] done.parts[i]).1 == ends(i),
        ensures
            self.owning(ends, 0) =~= self.parts_owned(self.parts.len()),
            self.owning(ends, self.parts.len()) =~= done.parts_owned(done.parts.len()),
    {
        assert forall|node: NodeId| self.owning(ends, 0).contains(node) implies self.parts_owned(
            self.parts.len(),
        ).contains(node) by {
            let i = choose|i: int|
                0 <= i < self.parts.len() && (#[trigger] self.at_step(ends, 0, i)).owned().contains(
                    node,
                );
            assert(self.parts[i].1.owned().contains(node));
        }
        assert forall|node: NodeId| self.parts_owned(self.parts.len()).contains(
            node,
        ) implies self.owning(ends, 0).contains(node) by {
            let i = choose|i: int|
                0 <= i < self.parts.len() && i < self.parts.len() && (
                #[trigger] self.parts[i]).1.owned().contains(node);
            assert(self.at_step(ends, 0, i).owned().contains(node));
        }
        assert forall|node: NodeId| self.owning(ends, self.parts.len()).contains(
            node,
        ) implies done.parts_owned(done.parts.len()).contains(node) by {
            let i = choose|i: int|
                0 <= i < self.parts.len() && (#[trigger] self.at_step(
                    ends,
                    self.parts.len(),
                    i,
                )).owned().contains(node);
            assert(done.parts[i].1.owned().contains(node));
        }
        assert forall|node: NodeId| done.parts_owned(done.parts.len()).contains(
            node,
        ) implies self.owning(ends, self.parts.len()).contains(node) by {
            let i = choose|i: int|
                0 <= i < done.parts.len() && i < done.parts.len() && (
                #[trigger] done.parts[i]).1.owned().contains(node);
            assert(ends(i).owned().contains(node));
            assert(self.at_step(ends, self.parts.len(), i).owned().contains(node));
        }
    }

    pub proof fn lemma_statics_mounted_within(self, host: HostView, at: Location, k: nat)
        requires
            host.wf(),
            k <= self.statics.len(),
            self.statics_mounted(host, at, k).1 is None,
        ensures
            within(
                self.own_statics(self.statics.len()),
                self.own_statics(self.statics.len()),
                host,
                self.statics_mounted(host, at, k).0,
            ),
            self.statics_mounted(host, at, k).0.wf(),
        decreases k,
    {
        let own = self.own_statics(self.statics.len());
        if k > 0 {
            self.lemma_statics_mounted_within(host, at, (k - 1) as nat);
            let (before, failure) = self.statics_mounted(host, at, (k - 1) as nat);
            let target = self.target(self.statics[k - 1].0, at);
            let node = self.statics[k - 1].1;
            assert(own.contains(node));
            lemma_place_within(before, target, node, own);
            crate::fragment::frame::lemma_place_keeps(before, target, node);
            lemma_within_then(own, own, own, host, before, self.statics_mounted(host, at, k).0);
        }
    }

    pub proof fn lemma_parts_mounted_within(
        self,
        levels: nat,
        host: HostView,
        at: Location,
        j: nat,
        others: Set<NodeId>,
    )
        requires
            host.wf(),
            j <= self.parts.len(),
            self.parts_mounted(levels, host, at, j).1 is None,
            fits(self.parts_mounted(levels, host, at, j).0),
        ensures
            within(
                self.owning(self.mount_ends(levels, host, at), 0) + others,
                self.owning(self.mount_ends(levels, host, at), j) + others,
                host,
                self.parts_mounted(levels, host, at, j).0,
            ),
        decreases levels, self, 0nat, j,
    {
        let ends = self.mount_ends(levels, host, at);
        if j > 0 {
            let (before, failure) = self.parts_mounted(levels, host, at, (j - 1) as nat);
            let after = self.parts_mounted(levels, host, at, j).0;
            let part = self.parts[j - 1].1;
            let target = self.target(self.parts[j - 1].0, at)->Ok_0;
            self.lemma_parts_mounted_keep(levels, host, at, (j - 1) as nat);
            part.lemma_mounted_keeps(levels, before, target);
            self.lemma_parts_mounted_within(levels, host, at, (j - 1) as nat, others);
            part.lemma_mounted_within(levels, before, target);
            assert(ends((j - 1) as int) == part.mounted_at(levels, before, target).0);
            self.lemma_owning_step(ends, (j - 1) as nat, others, before, after);
            lemma_within_then(
                self.owning(ends, 0) + others,
                self.owning(ends, (j - 1) as nat) + others,
                self.owning(ends, j) + others,
                host,
                before,
                after,
            );
        }
    }

    /// Mounting a fragment stays within the nodes of the fragment.
    pub proof fn lemma_mounted_within(self, levels: nat, host: HostView, at: Location)
        requires
            host.wf(),
            self.mounted_at(levels, host, at).2 is None,
            fits(self.mounted_at(levels, host, at).1),
        ensures
            within(
                self.owned(),
                self.mounted_at(levels, host, at).0.owned(),
                host,
                self.mounted_at(levels, host, at).1,
            ),
        decreases levels, self, 1nat, 0nat,
    {
        let (done, after, failure) = self.mounted_at(levels, host, at);
        let count = self.statics.len();
        let parts = self.parts.len();
        self.lemma_statics_mounted_within(host, at, count);
        self.lemma_statics_mounted_keep(host, at, count);
        let (placed, _) = self.statics_mounted(host, at, count);
        let ends = self.mount_ends(levels, placed, at);
        let own = self.own_statics(count);
        self.lemma_parts_mounted_within(levels, placed, at, parts, own);
        self.lemma_owning_ends(ends, done);
        lemma_within_beside(own, own, self.owning(ends, 0), host, placed);
        assert(own + self.owning(ends, 0) =~= self.owning(ends, 0) + own);
        lemma_within_then(
            self.owning(ends, 0) + own,
            self.owning(ends, 0) + own,
            self.owning(ends, parts) + own,
            host,
            placed,
            after,
        );
        assert(done.own_statics(count) =~= own);
        assert(done.owned() =~= self.owning(ends, parts) + own);
        assert(self.owned() =~= self.owning(ends, 0) + own);
    }

    pub proof fn lemma_parts_updated_within(
        self,
        levels: nat,
        world: World,
        context: C,
        changed: Seq<usize>,
        j: nat,
        others: Set<NodeId>,
    )
        requires
            world.host.wf(),
            j <= self.parts.len(),
            self.parts_updated(levels, world, context, changed, j).1 is None,
            fits(self.parts_updated(levels, world, context, changed, j).0.host),
        ensures
            within(
                self.owning(self.update_ends(levels, world, context, changed), 0) + others,
                self.owning(self.update_ends(levels, world, context, changed), j) + others,
                world.host,
                self.parts_updated(levels, world, context, changed, j).0.host,
            ),
        decreases levels, self, 0nat, j,
    {
        let ends = self.update_ends(levels, world, context, changed);
        if j > 0 {
            let (before, failure) = self.parts_updated(
                levels,
                world,
                context,
                changed,
                (j - 1) as nat,
            );
            let after = self.parts_updated(levels, world, context, changed, j).0;
            let part = self.parts[j - 1].1;
            self.lemma_parts_updated_keep(levels, world, context, changed, (j - 1) as nat);
            part.lemma_updated_keeps(levels, before, context, changed);
            self.lemma_parts_updated_within(levels, world, context, changed, (j - 1) as nat, others);
            if selects(self.dependencies, changed, (j - 1) as usize) {
                part.lemma_updated_within(levels, before, context, changed);
                assert(ends((j - 1) as int) == part.updated(levels, before, context, changed).state);
                self.lemma_owning_step(ends, (j - 1) as nat, others, before.host, after.host);
            } else {
                assert(ends((j - 1) as int) == part);
                self.lemma_owning_skip(ends, (j - 1) as nat);
                lemma_within_same(self.owning(ends, (j - 1) as nat) + others, before.host);
            }
            lemma_within_then(
                self.owning(ends, 0) + others,
                self.owning(ends, (j - 1) as nat) + others,
                self.owning(ends, j) + others,
                world.host,
                before.host,
                after.host,
            );
        }
    }

    /// Updating a fragment stays within the nodes of the fragment.
    pub proof fn lemma_updated_within(self, levels: nat, world: World, context: C, changed: Seq<usize>)
        requires
            world.host.wf(),
            self.updated(levels, world, context, changed).failure is None,
            fits(self.updated(levels, world, context, changed).world.host),
        ensures
            within(
                self.owned(),
                self.updated(levels, world, context, changed).state.owned(),
                world.host,
                self.updated(levels, world, context, changed).world.host,
            ),
        decreases levels, self, 1nat, 0nat,
    {
        let step = self.updated(levels, world, context, changed);
        if self.mounted {
            let count = self.statics.len();
            let parts = self.parts.len();
            let ends = self.update_ends(levels, world, context, changed);
            let own = self.own_statics(count);
            self.lemma_parts_updated_within(levels, world, context, changed, parts, own);
            self.lemma_owning_ends(ends, step.state);
            assert(step.state.own_statics(count) =~= own);
            assert(step.state.owned() =~= self.owning(ends, parts) + own);
            assert(self.owned() =~= self.owning(ends, 0) + own);
        }
    }
}

impl<C: Component> ControllerView<C> {
    pub proof fn lemma_mounted_within(self, levels: nat, host: HostView, at: Location)
        requires
            host.wf(),
            self.mounted_at(levels, host, at).failure is None,
            fits(self.mounted_at(levels, host, at).world.host),
        ensures
            within(
                self.fragment.owned(),
                self.mounted_at(levels, host, at).state.fragment.owned(),
                host,
                self.mounted_at(levels, host, at).world.host,
            ),
        decreases levels + 1, self, 0nat, 0nat,
    {
        self.fragment.lemma_mounted_keeps(levels, host, at);
        let (fragment, placed, failure) = self.fragment.mounted_at(levels, host, at);
        let world = World { host: placed, registry: self.registry };
        fragment.lemma_updated_keeps(levels, world, self.component, fragment.known);
        self.fragment.lemma_mounted_within(levels, host, at);
        fragment.lemma_updated_within(levels, world, self.component, fragment.known);
        lemma_within_then(
            self.fragment.owned(),
            fragment.owned(),
            self.mounted_at(levels, host, at).state.fragment.owned(),
            host,
            placed,
            self.mounted_at(levels, host, at).world.host,
        );
    }
}

impl<C: Component> PartView<C> {
    pub proof fn lemma_mounted_within(self, levels: nat, host: HostView, at: Location)
        requires
            host.wf(),
            self.mounted_at(levels, host, at).2 is None,
            fits(self.mounted_at(levels, host, at).1),
        ensures
            within(
                self.owned(),
                self.mounted_at(levels, host, at).0.owned(),
                host,
                self.mounted_at(levels, host, at).1,
            ),
        decreases levels, self, 1nat, 0nat,
    {
        match self {
            PartView::Updatable { text_node, .. } => {
                lemma_place_within(host, Ok(at), text_node, self.owned());
            },
            PartView::Conditional { anchor, .. } => {
                lemma_place_within(host, Ok(at), anchor, self.owned());
            },
            PartView::Each { anchor, .. } => {
                lemma_place_within(host, Ok(at), anchor, self.owned());
            },
            PartView::Component { controller, .. } => {
                controller.lemma_mounted_within((levels - 1) as nat, host, at);
            },
        }
    }

    /// A row owns new nodes only.
    pub proof fn lemma_row_within(
        self,
        levels: nat,
        world: World,
        context: C,
        anchor: NodeId,
        item: BuilderView<C>,
    )
        requires
            world.host.wf(),
            self.row(levels, world, context, anchor, item).failure is None,
            fits(self.row(levels, world, context, anchor, item).world.host),
        ensures
            within(
                Set::empty(),
                self.row(levels, world, context, anchor, item).state.owned(),
                world.host,
                self.row(levels, world, context, anchor, item).world.host,
            ),
        decreases levels, self, 0nat, 0nat,
    {
        let at = Location::before(world.host, anchor)->Ok_0;
        item.lemma_built((levels - 1) as nat, world);
        let made = item.built((levels - 1) as nat, world);
        made.state.lemma_mounted_keeps((levels - 1) as nat, made.world.host, at);
        let (fragment, placed, failure) = made.state.mounted_at(
            (levels - 1) as nat,
            made.world.host,
            at,
        );
        fragment.lemma_updated_keeps(
            (levels - 1) as nat,
            made.world.on(placed),
            context,
            fragment.known,
        );
        item.lemma_built_owned((levels - 1) as nat, world);
        made.state.lemma_mounted_within((levels - 1) as nat, made.world.host, at);
        fragment.lemma_updated_within(
            (levels - 1) as nat,
            made.world.on(placed),
            context,
            fragment.known,
        );
        let done = self.row(levels, world, context, anchor, item);
        lemma_within_then(
            Set::empty(),
            made.state.owned(),
            fragment.owned(),
            world.host,
            made.world.host,
            placed,
        );
        lemma_within_then(
            Set::empty(),
            fragment.owned(),
            done.state.owned(),
            world.host,
            placed,
            done.world.host,
        );
    }

    /// The rows own new nodes only.
    pub proof fn lemma_rows_within(
        self,
        levels: nat,
        world: World,
        context: C,
        anchor: NodeId,
        items: Seq<BuilderView<C>>,
        k: nat,
    )
        requires
            world.host.wf(),
            k <= items.len(),
            self.rows(levels, world, context, anchor, items, k).failure is None,
            fits(self.rows(levels, world, context, anchor, items, k).world.host),
        ensures
            self.rows(levels, world, context, anchor, items, k).state.len() == k,
            within(
                Set::empty(),
                rows_owned(self.rows(levels, world, context, anchor, items, k).state, k),
                world.host,
                self.rows(levels, world, context, anchor, items, k).world.host,
            ),
        decreases levels, self, 0nat, k + 1,
    {
        let done = self.rows(levels, world, context, anchor, items, k);
        if k > 0 {
            let before = self.rows(levels, world, context, anchor, items, (k - 1) as nat);
            self.lemma_rows_keep(levels, world, context, anchor, items, (k - 1) as nat);
            self.lemma_row_keeps(levels, before.world, context, anchor, items[k - 1]);
            self.lemma_rows_within(levels, world, context, anchor, items, (k - 1) as nat);
            self.lemma_row_within(levels, before.world, context, anchor, items[k - 1]);
            let made = self.row(levels, before.world, context, anchor, items[k - 1]);
            let earlier = rows_owned(before.state, (k - 1) as nat);
            lemma_within_beside(
                Set::empty(),
                made.state.owned(),
                earlier,
                before.world.host,
                done.world.host,
            );
            assert(Set::empty() + earlier =~= earlier);
            lemma_within_then(
                Set::empty(),
                earlier,
                made.state.owned() + earlier,
                world.host,
                before.world.host,
                done.world.host,
            );
            assert(made.state.owned() + earlier =~= rows_owned(done.state, k)) by {
                assert(done.state == before.state.push(made.state));
                assert forall|node: NodeId| rows_owned(done.state, k).contains(node) implies (
                made.state.owned() + earlier).contains(node) by {
                    let i = choose|i: int|
                        0 <= i < k && i < done.state.len() && (
                        #[trigger] done.state[i]).owned().contains(node);
                    if i < k - 1 {
                        assert(before.state[i] == done.state[i]);
                        assert(earlier.contains(node));
                    }
                }
                assert forall|node: NodeId|
                    (made.state.owned() + earlier).contains(node) implies rows_owned(
                    done.state,
                    k,
                ).contains(node) by {
                    if made.state.owned().contains(node) {
                        assert(done.state[k - 1] == made.state);
                    } else {
                        let i = choose|i: int|
                            0 <= i < k - 1 && i < before.state.len() && (
                            #[trigger] before.state[i]).owned().contains(node);
                        assert(done.state[i] == before.state[i]);
                        assert(done.state[i].owned().contains(node));
                    }
                }
            }
        } else {
            assert(rows_owned(done.state, 0) =~= Set::empty());
        }
    }

    /// Updating a part stays within the nodes of the part.
    pub proof fn lemma_updated_within(self, levels: nat, world: World, context: C, changed: Seq<usize>)
        requires
            world.host.wf(),
            self.updated(levels, world, context, changed).failure is None,
            fits(self.updated(levels, world, context, changed).world.host),
        ensures
            within(
                self.owned(),
                self.updated(levels, world, context, changed).state.owned(),
                world.host,
                self.updated(levels, world, context, changed).world.host,
            ),
        decreases levels, self, 1nat, 0nat,
    {
        let step = self.updated(levels, world, context, changed);
        match self {
            PartView::Updatable { get_text, text_node } => {
                world.host.lemma_text_keeps_tree(text_node, context.text_of(get_text));
                assert(self.owned().contains(text_node));
            },
            PartView::Conditional { check_condition, fragment, anchor, fragment_mounted } => {
                let shows = context.holds(check_condition);
                if shows && !fragment_mounted {
                    let at = Location::before(world.host, anchor)->Ok_0;
                    fragment.lemma_mounted_keeps((levels - 1) as nat, world.host, at);
                    let (nested, placed, failure) = fragment.mounted_at(
                        (levels - 1) as nat,
                        world.host,
                        at,
                    );
                    nested.lemma_updated_keeps(
                        (levels - 1) as nat,
                        world.on(placed),
                        context,
                        nested.known,
                    );
                    fragment.lemma_mounted_within((levels - 1) as nat, world.host, at);
                    nested.lemma_updated_within(
                        (levels - 1) as nat,
                        world.on(placed),
                        context,
                        nested.known,
                    );
                    let shown = nested.fully_updated((levels - 1) as nat, world.on(placed), context);
                    lemma_within_then(
                        fragment.owned(),
                        nested.owned(),
                        shown.state.owned(),
                        world.host,
                        placed,
                        step.world.host,
                    );
                    lemma_within_beside(
                        fragment.owned(),
                        shown.state.owned(),
                        set![anchor],
                        world.host,
                        step.world.host,
                    );
                    assert(fragment.owned() + set![anchor] =~= self.owned());
                    assert(shown.state.owned() + set![anchor] =~= step.state.owned());
                } else if !shows && fragment_mounted {
                    fragment.lemma_detached_within(world.host);
                    let done = fragment.detached(world.host, true).0;
                    lemma_within_beside(
                        fragment.owned(),
                        done.owned(),
                        set![anchor],
                        world.host,
                        step.world.host,
                    );
                    assert(fragment.owned() + set![anchor] =~= self.owned());
                    assert(done.owned() + set![anchor] =~= step.state.owned());
                } else if fragment_mounted {
                    fragment.lemma_updated_within((levels - 1) as nat, world, context, changed);
                    let passed = fragment.updated((levels - 1) as nat, world, context, changed);
                    lemma_within_beside(
                        fragment.owned(),
                        passed.state.owned(),
                        set![anchor],
                        world.host,
                        step.world.host,
                    );
                    assert(fragment.owned() + set![anchor] =~= self.owned());
                    assert(passed.state.owned() + set![anchor] =~= step.state.owned());
                } else {
                    lemma_within_same(self.owned(), world.host);
                }
            },
            PartView::Each { get_items, mounted_fragments, anchor } => {
                crate::fragment::exposure::lemma_rows_detached_unhook(
                    mounted_fragments,
                    world.host,
                    mounted_fragments.len(),
                );
                crate::fragment::frame::lemma_fragments_detached_keep(
                    mounted_fragments,
                    world.host,
                    true,
                    mounted_fragments.len(),
                );
                lemma_rows_exposed_owned(mounted_fragments, mounted_fragments.len());
                let (cleared, failure) = fragments_detached(
                    mounted_fragments,
                    world.host,
                    true,
                    mounted_fragments.len(),
                );
                let had = rows_owned(mounted_fragments, mounted_fragments.len());
                let gone = crate::fragment::exposure::rows_exposed(
                    mounted_fragments,
                    mounted_fragments.len(),
                );
                assert(within(had + set![anchor], set![anchor], world.host, cleared)) by {
                    assert forall|node: NodeId|
                        world.host.has(node) && !(had + set![anchor]).contains(
                            node,
                        ) implies #[trigger] cleared.parent_of(node) == world.host.parent_of(node) by {
                        assert(!gone.contains(node));
                    }
                    assert forall|node: NodeId| world.host.has(node) implies others(
                        #[trigger] cleared.children_of(node),
                        had + set![anchor],
                        world.host.nodes.len(),
                    ) == others(
                        world.host.children_of(node),
                        had + set![anchor],
                        world.host.nodes.len(),
                    ) by {
                        lemma_others_coarser(
                            cleared.children_of(node),
                            world.host.children_of(node),
                            gone,
                            world.host.nodes.len(),
                            had + set![anchor],
                            world.host.nodes.len(),
                        );
                    }
                }
                let items = context.items_of(get_items);
                self.lemma_rows_within(levels, world.on(cleared), context, anchor, items, items.len());
                let made = self.rows(levels, world.on(cleared), context, anchor, items, items.len());
                let have = rows_owned(made.state, items.len());
                lemma_within_beside(Set::empty(), have, set![anchor], cleared, step.world.host);
                assert(Set::empty() + set![anchor] =~= set![anchor]);
                lemma_within_then(
                    had + set![anchor],
                    set![anchor],
                    have + set![anchor],
                    world.host,
                    cleared,
                    step.world.host,
                );
                assert(had + set![anchor] =~= self.owned());
                assert(have + set![anchor] =~= step.state.owned());
            },
            PartView::Component { controller, update } => {
                match context.passed_on(update, controller.component, changed) {
                    Some(ids) => {
                        controller.fragment.lemma_updated_within(
                            (levels - 1) as nat,
                            World { host: world.host, registry: controller.registry },
                            context.adapted(update, controller.component, changed),
                            ids,
                        );
                    },
                    None => {
                        lemma_within_same(self.owned(), world.host);
                    },
                }
            },
        }
    }
}

} // verus!
