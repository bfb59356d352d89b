//! A fragment works with its own nodes only: whatever it does, the nodes that were in the
//! tree before it was built stay where they are, in the order they had.

use vstd::prelude::*;
use crate::component::Component;
use crate::fragment::builder::{BuilderView, PartKind};
use crate::fragment::event_registry::RegistryView;
use crate::fragment::frame::{kept, lemma_fragments_detached_keep, lemma_place_keeps, lemma_unhook_keeps};
use crate::fragment::growth::grown;
use crate::fragment::location::Location;
use crate::fragment::model::{fragments_detached, place, unhook};
use crate::fragment::model::{ControllerView, FragmentView, PartView, World};
use crate::host::model::{Failure, HostView, NodeId};

verus! {

/// The nodes of `list` with a handle below `floor`, in the same order.
pub open spec fn elders(list: Seq<NodeId>, floor: nat) -> Seq<NodeId>
    decreases list.len(),
{
    if list.len() == 0 {
        list
    } else if list.last() >= floor {
        elders(list.drop_last(), floor)
    } else {
        elders(list.drop_last(), floor).push(list.last())
    }
}

pub proof fn lemma_elders_add(a: Seq<NodeId>, b: Seq<NodeId>, floor: nat)
    ensures
        elders(a + b, floor) == elders(a, floor) + elders(b, floor),
    decreases b.len(),
{
    if b.len() == 0 {
        assert(a + b =~= a);
        assert(elders(a, floor) + elders(b, floor) =~= elders(a, floor));
    } else {
        assert((a + b).drop_last() =~= a + b.drop_last());
        assert((a + b).last() == b.last());
        lemma_elders_add(a, b.drop_last(), floor);
        assert(elders(a, floor) + elders(b.drop_last(), floor).push(b.last()) =~= (elders(a, floor)
            + elders(b.drop_last(), floor)).push(b.last()));
    }
}

pub proof fn lemma_elders_insert(list: Seq<NodeId>, floor: nat, at: int, node: NodeId)
    requires
        0 <= at <= list.len(),
        node >= floor,
    ensures
        elders(list.insert(at, node), floor) == elders(list, floor),
{
    let front = list.subrange(0, at);
    let back = list.subrange(at, list.len() as int);
    assert(list =~= front + back);
    assert(front.push(node).drop_last() =~= front);
    assert(elders(front.push(node), floor) == elders(front, floor));
    lemma_elders_add(front.push(node), back, floor);
    lemma_elders_add(front, back, floor);
}

pub proof fn lemma_elders_remove(list: Seq<NodeId>, floor: nat, at: int)
    requires
        0 <= at < list.len(),
        list[at] >= floor,
    ensures
        elders(list.remove(at), floor) == elders(list, floor),
{
    let front = list.subrange(0, at);
    let back = list.subrange(at + 1, list.len() as int);
    assert(list =~= front.push(list[at]) + back);
    assert(front.push(list[at]).drop_last() =~= front);
    assert(elders(front.push(list[at]), floor) == elders(front, floor));
    lemma_elders_add(front.push(list[at]), back, floor);
    lemma_elders_add(front, back, floor);
}

/// A list of elders only is its own list of elders.
pub proof fn lemma_elders_all(list: Seq<NodeId>, floor: nat)
    requires
        forall|i: int| 0 <= i < list.len() ==> (#[trigger] list[i]) < floor,
    ensures
        elders(list, floor) == list,
    decreases list.len(),
{
    if list.len() > 0 {
        assert(list[list.len() - 1] < floor);
        assert forall|i: int| 0 <= i < list.drop_last().len() implies (
        #[trigger] list.drop_last()[i]) < floor by {
            assert(list.drop_last()[i] == list[i]);
        }
        lemma_elders_all(list.drop_last(), floor);
        assert(list.drop_last().push(list.last()) =~= list);
    }
}

/// The nodes below `floor` are where they were: under every node, the elders among its
/// children are the same, in the same order.
pub open spec fn undisturbed(before: HostView, after: HostView, floor: nat) -> bool {
    &&& kept(before, after)
    &&& forall|n: NodeId|
        before.has(n) ==> elders(#[trigger] after.children_of(n), floor) == elders(
            before.children_of(n),
            floor,
        )
}

pub proof fn lemma_undisturbed_twice(first: HostView, second: HostView, third: HostView, floor: nat)
    requires
        undisturbed(first, second, floor),
        undisturbed(second, third, floor),
    ensures
        undisturbed(first, third, floor),
{
    assert forall|n: NodeId| first.has(n) implies elders(#[trigger] third.children_of(n), floor)
        == elders(first.children_of(n), floor) by {
        assert(second.has(n));
        assert(elders(second.children_of(n), floor) == elders(first.children_of(n), floor));
    }
}

/// Building disturbs nothing.
pub proof fn lemma_grown_is_undisturbed(before: HostView, after: HostView, floor: nat)
    requires
        grown(before, after),
    ensures
        undisturbed(before, after, floor),
{
    assert forall|n: NodeId| before.has(n) implies elders(#[trigger] after.children_of(n), floor)
        == elders(before.children_of(n), floor) by {
        let now = after.nodes[n as int];
    }
}

impl HostView {
    /// Inserting a node from `floor` on disturbs nothing below.
    pub proof fn lemma_insert_aside(self, parent: NodeId, node: NodeId, anchor: Option<NodeId>, floor: nat)
        requires
            self.wf(),
            node >= floor,
            self.insert_failure(parent, node, anchor) is None,
        ensures
            undisturbed(self, self.inserted(parent, node, anchor), floor),
    {
        self.lemma_insert_keeps_tree(parent, node, anchor);
        let after = self.inserted(parent, node, anchor);
        if anchor != Some(node) {
            self.lemma_unlinked(node);
            let cut = self.unlinked(node);
            let at = cut.position(parent, anchor);
            match anchor {
                Some(a) => {
                    assert(cut.parent_of(a) == self.parent_of(a));
                    assert(cut.node_wf(a));
                    assert(cut.nodes[parent as int].children.contains(a));
                },
                None => {},
            }
            cut.lemma_linked(parent, node, at);
            assert forall|n: NodeId| self.has(n) implies elders(
                #[trigger] after.children_of(n),
                floor,
            ) == elders(self.children_of(n), floor) by {
                // The cut.
                assert(elders(cut.children_of(n), floor) == elders(self.children_of(n), floor)) by {
                    if Some(n) == self.parent_of(node) {
                        let kids = self.nodes[n as int].children;
                        assert(self.node_wf(node));
                        assert(kids.contains(node));
                        let gone = kids.index_of(node);
                        assert(cut.children_of(n) == kids.remove(gone));
                        lemma_elders_remove(kids, floor, gone);
                    } else {
                        assert(cut.children_of(n) == self.children_of(n));
                    }
                }
                // The link.
                if n == parent {
                    assert(after.children_of(n) == cut.children_of(n).insert(at, node));
                    lemma_elders_insert(cut.children_of(n), floor, at, node);
                } else {
                    assert(cut.linked(parent, node, at).children_of(n) == cut.children_of(n));
                    assert(after.children_of(n) == cut.children_of(n));
                }
            }
        }
    }

    /// Removing a node from `floor` on disturbs nothing below.
    pub proof fn lemma_remove_aside(self, parent: NodeId, node: NodeId, floor: nat)
        requires
            self.wf(),
            node >= floor,
            self.remove_failure(parent, node) is None,
        ensures
            undisturbed(self, self.removed(parent, node), floor),
    {
        self.lemma_remove_keeps_tree(parent, node);
        self.lemma_unlinked(node);
        let cut = self.unlinked(node);
        let after = self.removed(parent, node);
        assert forall|n: NodeId| self.has(n) implies elders(#[trigger] after.children_of(n), floor)
            == elders(self.children_of(n), floor) by {
            if n == parent {
                let kids = self.nodes[n as int].children;
                assert(self.node_wf(node));
                assert(kids.contains(node));
                let gone = kids.index_of(node);
                assert(after.children_of(n) == kids.remove(gone));
                lemma_elders_remove(kids, floor, gone);
            } else {
                assert(cut.children_of(n) == self.children_of(n));
            }
        }
    }

    /// Overwriting a text disturbs nothing.
    pub proof fn lemma_text_aside(self, node: NodeId, content: Seq<char>, floor: nat)
        requires
            self.wf(),
            self.text_failure(node) is None,
        ensures
            undisturbed(self, self.text_set(node, content), floor),
    {
        self.lemma_text_keeps_tree(node, content);
        let after = self.text_set(node, content);
        assert forall|n: NodeId| self.has(n) implies elders(#[trigger] after.children_of(n), floor)
            == elders(self.children_of(n), floor) by {
            assert(after.children_of(n) == self.children_of(n));
        }
    }
}

pub proof fn lemma_place_aside(
    host: HostView,
    target: Result<Location, Failure>,
    node: NodeId,
    floor: nat,
)
    requires
        host.wf(),
        node >= floor,
    ensures
        undisturbed(host, place(host, target, node).0, floor),
{
    match target {
        Ok(at) => {
            if host.insert_failure(at.parent, node, at.anchor) is None {
                host.lemma_insert_aside(at.parent, node, at.anchor, floor);
            }
        },
        Err(_) => {},
    }
}

pub proof fn lemma_unhook_aside(host: HostView, node: NodeId, floor: nat)
    requires
        host.wf(),
        node >= floor,
    ensures
        undisturbed(host, unhook(host, node).0, floor),
{
    match host.parent_of(node) {
        Some(parent) => {
            if host.remove_failure(parent, node) is None {
                host.lemma_remove_aside(parent, node, floor);
            }
        },
        None => {},
    }
}


// ======================================================================================
// The nodes of a fragment
// ======================================================================================
impl<C: Component> FragmentView<C> {
    /// Every node of the fragment, and of everything it has below it, has a handle from
    /// `floor` on.
    pub open spec fn above(self, floor: nat) -> bool
        decreases self, 1nat,
    {
        &&& forall|k: int| 0 <= k < self.statics.len() ==> (#[trigger] self.statics[k]).1 >= floor
        &&& forall|j: int|
            0 <= j < self.parts.len() ==> (#[trigger] self.parts[j]).1.above(floor)
    }
}

impl<C: Component> PartView<C> {
    /// Every node of the part, and of everything it has below it, has a handle from `floor`
    /// on.
    pub open spec fn above(self, floor: nat) -> bool
        decreases self, 0nat,
    {
        match self {
            PartView::Updatable { text_node, .. } => text_node >= floor,
            PartView::Conditional { fragment, anchor, .. } => anchor >= floor && fragment.above(
                floor,
            ),
            PartView::Each { mounted_fragments, anchor, .. } => anchor >= floor && forall|i: int|
                0 <= i < mounted_fragments.len() ==> (#[trigger] mounted_fragments[i]).above(floor),
            PartView::Component { controller, .. } => controller.fragment.above(floor),
        }
    }
}

/// The host can take the handles it has given out.
pub open spec fn fits(host: HostView) -> bool {
    host.nodes.len() <= usize::MAX
}

// ======================================================================================
// Building
// ======================================================================================
impl<C: Component> BuilderView<C> {
    /// A fragment is built of new nodes.
    pub proof fn lemma_built_above(self, levels: nat, world: World)
        requires
            world.host.wf(),
            self.built(levels, world).failure is None,
            fits(self.built(levels, world).world.host),
        ensures
            self.built(levels, world).state.above(world.host.nodes.len()),
        decreases levels, self, 1nat, 0nat,
    {
        let floor = world.host.nodes.len();
        let built = self.built(levels, world);
        let count = self.nodes.len();
        let parts = self.parts.len();
        self.lemma_nodes_built(world, count);
        let with_nodes = self.nodes_built(world, count);
        self.lemma_parts_built(levels, with_nodes, parts);
        assert forall|k: int| 0 <= k < built.state.statics.len() implies (
        #[trigger] built.state.statics[k]).1 >= floor by {
            self.lemma_nodes_built(world, k as nat);
        }
        assert forall|j: int| 0 <= j < built.state.parts.len() implies (
        #[trigger] built.state.parts[j]).1.above(floor) by {
            self.lemma_part_built_above(levels, with_nodes, j);
            self.lemma_parts_built(levels, with_nodes, j as nat);
            self.parts[j].kind.lemma_above_lower(
                levels,
                self.parts_built(levels, with_nodes, j as nat).0,
                floor,
            );
        }
    }

    /// Each part is built of new nodes.
    pub proof fn lemma_part_built_above(self, levels: nat, world: World, j: int)
        requires
            world.host.wf(),
            0 <= j < self.parts.len(),
            self.parts_built(levels, world, self.parts.len()).1 is None,
            fits(self.parts_built(levels, world, self.parts.len()).0.host),
        ensures
            self.part_built(levels, world, j).above(
                self.parts_built(levels, world, j as nat).0.host.nodes.len(),
            ),
            self.parts[j].kind.built(
                levels,
                self.parts_built(levels, world, j as nat).0,
            ).failure is None,
            fits(
                self.parts[j].kind.built(
                    levels,
                    self.parts_built(levels, world, j as nat).0,
                ).world.host,
            ),
        decreases levels, self, 0nat, 1nat,
    {
        self.lemma_parts_all_built(levels, world, j as nat, self.parts.len());
        self.lemma_parts_all_built(levels, world, (j + 1) as nat, self.parts.len());
        self.lemma_parts_built(levels, world, j as nat);
        self.lemma_parts_grow(levels, world, (j + 1) as nat, self.parts.len());
        let before = self.parts_built(levels, world, j as nat).0;
        self.parts[j].kind.lemma_built_above(levels, before);
    }
}

impl<C: Component> PartKind<C> {
    /// A part is built of new nodes.
    pub proof fn lemma_built_above(self, levels: nat, world: World)
        requires
            world.host.wf(),
            self.built(levels, world).failure is None,
            fits(self.built(levels, world).world.host),
        ensures
            self.built(levels, world).state.above(world.host.nodes.len()),
        decreases levels, self, 0nat, 0nat,
    {
        let floor = world.host.nodes.len();
        match self {
            PartKind::Updatable { .. } => {
                world.host.lemma_created(false, Seq::empty());
            },
            PartKind::Conditional { fragment, .. } => {
                fragment.lemma_built((levels - 1) as nat, world);
                let nested = fragment.built((levels - 1) as nat, world);
                nested.world.host.lemma_created(false, Seq::empty());
                fragment.lemma_built_above((levels - 1) as nat, world);
            },
            PartKind::Each { .. } => {
                world.host.lemma_created(false, Seq::empty());
                let made = self.built(levels, world).state;
                assert(made->mounted_fragments.len() == 0);
            },
            PartKind::Component { component, register_event, .. } => {
                let own = RegistryView { owner: register_event, closures: Map::empty() };
                component.rendered().lemma_built_above(
                    (levels - 1) as nat,
                    World { host: world.host, registry: own },
                );
            },
        }
    }

    /// What is above a floor is above every lower floor.
    pub proof fn lemma_above_lower(self, levels: nat, world: World, floor: nat)
        requires
            self.built(levels, world).state.above(world.host.nodes.len()),
            floor <= world.host.nodes.len(),
        ensures
            self.built(levels, world).state.above(floor),
    {
        self.built(levels, world).state.lemma_lower(world.host.nodes.len(), floor);
    }
}

impl<C: Component> FragmentView<C> {
    /// What is above a floor is above every lower floor.
    pub proof fn lemma_lower(self, floor: nat, lower: nat)
        requires
            self.above(floor),
            lower <= floor,
        ensures
            self.above(lower),
        decreases self, 1nat,
    {
        assert forall|j: int| 0 <= j < self.parts.len() implies (#[trigger] self.parts[j]).1.above(
            lower,
        ) by {
            self.parts[j].1.lemma_lower(floor, lower);
        }
    }
}

impl<C: Component> PartView<C> {
    /// What is above a floor is above every lower floor.
    pub proof fn lemma_lower(self, floor: nat, lower: nat)
        requires
            self.above(floor),
            lower <= floor,
        ensures
            self.above(lower),
        decreases self, 0nat,
    {
        match self {
            PartView::Updatable { .. } => {},
            PartView::Conditional { fragment, .. } => {
                fragment.lemma_lower(floor, lower);
            },
            PartView::Each { mounted_fragments, .. } => {
                assert forall|i: int| 0 <= i < mounted_fragments.len() implies (
                #[trigger] mounted_fragments[i]).above(lower) by {
                    mounted_fragments[i].lemma_lower(floor, lower);
                }
            },
            PartView::Component { controller, .. } => {
                controller.fragment.lemma_lower(floor, lower);
            },
        }
    }
}


// ======================================================================================
// Detaching
// ======================================================================================
pub proof fn lemma_fragments_detached_aside<C: Component>(
    fragments: Seq<FragmentView<C>>,
    host: HostView,
    top_level: bool,
    k: nat,
    floor: nat,
)
    requires
        host.wf(),
        forall|i: int| 0 <= i < fragments.len() ==> (#[trigger] fragments[i]).above(floor),
    ensures
        undisturbed(host, fragments_detached(fragments, host, top_level, k).0, floor),
    decreases fragments, 0nat, k,
{
    if !(k == 0 || k > fragments.len()) {
        lemma_fragments_detached_aside(fragments, host, top_level, (k - 1) as nat, floor);
        let (before, failure) = fragments_detached(fragments, host, top_level, (k - 1) as nat);
        if failure is None {
            fragments[k - 1].lemma_detached_aside(before, top_level, floor);
            lemma_undisturbed_twice(
                host,
                before,
                fragments_detached(fragments, host, top_level, k).0,
                floor,
            );
        }
    }
}

impl<C: Component> FragmentView<C> {
    pub proof fn lemma_statics_detached_aside(self, host: HostView, k: nat, floor: nat)
        requires
            host.wf(),
            self.above(floor),
        ensures
            undisturbed(host, self.statics_detached(host, k).0, floor),
        decreases k,
    {
        if !(k == 0 || k > self.statics.len()) {
            self.lemma_statics_detached_aside(host, (k - 1) as nat, floor);
            let (before, failure) = self.statics_detached(host, (k - 1) as nat);
            if failure is None && self.statics[k - 1].0 is None {
                lemma_unhook_aside(before, self.statics[k - 1].1, floor);
                lemma_undisturbed_twice(host, before, self.statics_detached(host, k).0, floor);
            }
        }
    }

    pub proof fn lemma_parts_detached_aside(self, host: HostView, top_level: bool, j: nat, floor: nat)
        requires
            host.wf(),
            self.above(floor),
        ensures
            undisturbed(host, self.parts_detached(host, top_level, j).0, floor),
            forall|i: int|
                0 <= i < j && i < self.parts.len() ==> (#[trigger] self.part_detached(
                    host,
                    top_level,
                    i,
                )).above(floor),
        decreases self, 0nat, j,
    {
        if !(j == 0 || j > self.parts.len()) {
            self.lemma_parts_detached_aside(host, top_level, (j - 1) as nat, floor);
            let (before, failure) = self.parts_detached(host, top_level, (j - 1) as nat);
            assert(self.parts[j - 1].1.above(floor));
            if failure is None {
                self.parts[j - 1].1.lemma_detached_aside(before, top_level, floor);
                lemma_undisturbed_twice(
                    host,
                    before,
                    self.parts_detached(host, top_level, j).0,
                    floor,
                );
            }
        } else if j > self.parts.len() {
            self.lemma_parts_detached_aside(host, top_level, self.parts.len(), floor);
        }
    }

    /// Detaching a fragment disturbs nothing below its floor, and leaves it above its floor.
    pub proof fn lemma_detached_aside(self, host: HostView, top_level: bool, floor: nat)
        requires
            host.wf(),
            self.above(floor),
        ensures
            undisturbed(host, self.detached(host, top_level).1, floor),
            self.detached(host, top_level).0.above(floor),
        decreases self, 1nat, 0nat,
    {
        if self.mounted {
            self.lemma_statics_detached_aside(host, self.statics.len(), floor);
            let (cleared, failure) = self.statics_detached(host, self.statics.len());
            if failure is None {
                self.lemma_parts_detached_aside(cleared, top_level, self.parts.len(), floor);
                lemma_undisturbed_twice(host, cleared, self.detached(host, top_level).1, floor);
                let state = self.detached(host, top_level).0;
                assert forall|j: int| 0 <= j < state.parts.len() implies (
                #[trigger] state.parts[j]).1.above(floor) by {
                    assert(state.parts[j].1 == self.part_detached(cleared, top_level, j));
                }
            }
        }
    }
}

impl<C: Component> PartView<C> {
    pub proof fn lemma_detached_aside(self, host: HostView, top_level: bool, floor: nat)
        requires
            host.wf(),
            self.above(floor),
        ensures
            undisturbed(host, self.detached(host, top_level).1, floor),
            self.detached(host, top_level).0.above(floor),
        decreases self, 1nat, 0nat,
    {
        match self {
            PartView::Updatable { text_node, .. } => {
                lemma_unhook_aside(host, text_node, floor);
            },
            PartView::Conditional { fragment, anchor, fragment_mounted, .. } => {
                lemma_unhook_aside(host, anchor, floor);
                let (cleared, failure) = if top_level {
                    unhook(host, anchor)
                } else {
                    (host, None)
                };
                if !(failure is Some || !fragment_mounted) {
                    fragment.lemma_detached_aside(cleared, top_level, floor);
                    lemma_undisturbed_twice(host, cleared, self.detached(host, top_level).1, floor);
                }
            },
            PartView::Each { mounted_fragments, anchor, .. } => {
                lemma_fragments_detached_aside(
                    mounted_fragments,
                    host,
                    top_level,
                    mounted_fragments.len(),
                    floor,
                );
                let (cleared, failure) = fragments_detached(
                    mounted_fragments,
                    host,
                    top_level,
                    mounted_fragments.len(),
                );
                lemma_unhook_aside(cleared, anchor, floor);
                if !(failure is Some || !top_level) {
                    lemma_undisturbed_twice(host, cleared, self.detached(host, top_level).1, floor);
                }
            },
            PartView::Component { controller, .. } => {
                controller.fragment.lemma_detached_aside(host, top_level, floor);
            },
        }
    }
}

// ======================================================================================
// Mounting and updating
// ======================================================================================
impl<C: Component> FragmentView<C> {
    pub proof fn lemma_statics_mounted_aside(self, host: HostView, at: Location, k: nat, floor: nat)
        requires
            host.wf(),
            self.above(floor),
        ensures
            undisturbed(host, self.statics_mounted(host, at, k).0, floor),
        decreases k,
    {
        if !(k == 0 || k > self.statics.len()) {
            self.lemma_statics_mounted_aside(host, at, (k - 1) as nat, floor);
            let (before, failure) = self.statics_mounted(host, at, (k - 1) as nat);
            if failure is None {
                lemma_place_aside(
                    before,
                    self.target(self.statics[k - 1].0, at),
                    self.statics[k - 1].1,
                    floor,
                );
                lemma_undisturbed_twice(host, before, self.statics_mounted(host, at, k).0, floor);
            }
        }
    }

    pub proof fn lemma_parts_mounted_aside(
        self,
        levels: nat,
        host: HostView,
        at: Location,
        j: nat,
        floor: nat,
    )
        requires
            host.wf(),
            floor <= host.nodes.len(),
            self.above(floor),
            j <= self.parts.len(),
            fits(self.parts_mounted(levels, host, at, j).0),
        ensures
            undisturbed(host, self.parts_mounted(levels, host, at, j).0, floor),
            forall|i: int|
                0 <= i < j ==> (#[trigger] self.part_mounted(levels, host, at, i)).above(floor),
        decreases levels, self, 0nat, j,
    {
        if j > 0 {
            let (before, failure) = self.parts_mounted(levels, host, at, (j - 1) as nat);
            self.lemma_parts_mounted_keep(levels, host, at, (j - 1) as nat);
            assert(self.parts[j - 1].1.above(floor));
            if failure is None {
                match self.target(self.parts[j - 1].0, at) {
                    Ok(target) => {
                        self.parts[j - 1].1.lemma_mounted_keeps(levels, before, target);
                        self.lemma_parts_mounted_aside(levels, host, at, (j - 1) as nat, floor);
                        self.parts[j - 1].1.lemma_mounted_aside(levels, before, target, floor);
                        lemma_undisturbed_twice(
                            host,
                            before,
                            self.parts_mounted(levels, host, at, j).0,
                            floor,
                        );
                    },
                    Err(_) => {
                        self.lemma_parts_mounted_aside(levels, host, at, (j - 1) as nat, floor);
                    },
                }
            } else {
                self.lemma_parts_mounted_aside(levels, host, at, (j - 1) as nat, floor);
            }
        }
    }

    /// Mounting a fragment disturbs nothing below its floor, and leaves it above its floor.
    pub proof fn lemma_mounted_aside(self, levels: nat, host: HostView, at: Location, floor: nat)
        requires
            host.wf(),
            floor <= host.nodes.len(),
            self.above(floor),
            fits(self.mounted_at(levels, host, at).1),
        ensures
            undisturbed(host, self.mounted_at(levels, host, at).1, floor),
            self.mounted_at(levels, host, at).0.above(floor),
        decreases levels, self, 1nat, 0nat,
    {
        if !self.mounted {
            self.lemma_statics_mounted_aside(host, at, self.statics.len(), floor);
            self.lemma_statics_mounted_keep(host, at, self.statics.len());
            let (placed, failure) = self.statics_mounted(host, at, self.statics.len());
            if failure is None {
                self.lemma_parts_mounted_aside(levels, placed, at, self.parts.len(), floor);
                lemma_undisturbed_twice(host, placed, self.mounted_at(levels, host, at).1, floor);
                let state = self.mounted_at(levels, host, at).0;
                assert forall|j: int| 0 <= j < state.parts.len() implies (
                #[trigger] state.parts[j]).1.above(floor) by {
                    assert(state.parts[j].1 == self.part_mounted(levels, placed, at, j));
                }
            }
        }
    }

    pub proof fn lemma_parts_updated_aside(
        self,
        levels: nat,
        world: World,
        context: C,
        changed: Seq<usize>,
        j: nat,
        floor: nat,
    )
        requires
            world.host.wf(),
            floor <= world.host.nodes.len(),
            self.above(floor),
            j <= self.parts.len(),
            fits(self.parts_updated(levels, world, context, changed, j).0.host),
        ensures
            undisturbed(
                world.host,
                self.parts_updated(levels, world, context, changed, j).0.host,
                floor,
            ),
            forall|i: int|
                0 <= i < j ==> (#[trigger] self.part_updated(levels, world, context, changed, i)).above(
                    floor,
                ),
        decreases levels, self, 0nat, j,
    {
        if j > 0 {
            let (before, failure) = self.parts_updated(
                levels,
                world,
                context,
                changed,
                (j - 1) as nat,
            );
            self.lemma_parts_updated_keep(levels, world, context, changed, (j - 1) as nat);
            assert(self.parts[j - 1].1.above(floor));
            self.parts[j - 1].1.lemma_updated_keeps(levels, before, context, changed);
            self.lemma_parts_updated_aside(levels, world, context, changed, (j - 1) as nat, floor);
            if !(failure is Some || !crate::fragment::model::selects(
                self.dependencies,
                changed,
                (j - 1) as usize,
            )) {
                self.parts[j - 1].1.lemma_updated_aside(levels, before, context, changed, floor);
                lemma_undisturbed_twice(
                    world.host,
                    before.host,
                    self.parts_updated(levels, world, context, changed, j).0.host,
                    floor,
                );
            }
        }
    }

    /// Updating a fragment disturbs nothing below its floor, and leaves it above its floor.
    pub proof fn lemma_updated_aside(
        self,
        levels: nat,
        world: World,
        context: C,
        changed: Seq<usize>,
        floor: nat,
    )
        requires
            world.host.wf(),
            floor <= world.host.nodes.len(),
            self.above(floor),
            fits(self.updated(levels, world, context, changed).world.host),
        ensures
            undisturbed(
                world.host,
                self.updated(levels, world, context, changed).world.host,
                floor,
            ),
            self.updated(levels, world, context, changed).state.above(floor),
        decreases levels, self, 1nat, 0nat,
    {
        if self.mounted {
            self.lemma_parts_updated_aside(
                levels,
                world,
                context,
                changed,
                self.parts.len(),
                floor,
            );
            let state = self.updated(levels, world, context, changed).state;
            assert forall|j: int| 0 <= j < state.parts.len() implies (
            #[trigger] state.parts[j]).1.above(floor) by {
                assert(state.parts[j].1 == self.part_updated(levels, world, context, changed, j));
            }
        }
    }
}

impl<C: Component> ControllerView<C> {
    pub proof fn lemma_mounted_aside(self, levels: nat, host: HostView, at: Location, floor: nat)
        requires
            host.wf(),
            floor <= host.nodes.len(),
            self.fragment.above(floor),
            fits(self.mounted_at(levels, host, at).world.host),
        ensures
            undisturbed(host, self.mounted_at(levels, host, at).world.host, floor),
            self.mounted_at(levels, host, at).state.fragment.above(floor),
        decreases levels + 1, self, 0nat, 0nat,
    {
        self.fragment.lemma_mounted_keeps(levels, host, at);
        let (fragment, placed, failure) = self.fragment.mounted_at(levels, host, at);
        if failure is None {
            let world = World { host: placed, registry: self.registry };
            fragment.lemma_updated_keeps(levels, world, self.component, fragment.known);
            self.fragment.lemma_mounted_aside(levels, host, at, floor);
            fragment.lemma_updated_aside(levels, world, self.component, fragment.known, floor);
            lemma_undisturbed_twice(
                host,
                placed,
                self.mounted_at(levels, host, at).world.host,
                floor,
            );
        } else {
            self.fragment.lemma_mounted_aside(levels, host, at, floor);
        }
    }
}

impl<C: Component> PartView<C> {
    pub proof fn lemma_mounted_aside(self, levels: nat, host: HostView, at: Location, floor: nat)
        requires
            host.wf(),
            floor <= host.nodes.len(),
            self.above(floor),
            fits(self.mounted_at(levels, host, at).1),
        ensures
            undisturbed(host, self.mounted_at(levels, host, at).1, floor),
            self.mounted_at(levels, host, at).0.above(floor),
        decreases levels, self, 1nat, 0nat,
    {
        match self {
            PartView::Updatable { text_node, .. } => {
                lemma_place_aside(host, Ok(at), text_node, floor);
            },
            PartView::Conditional { anchor, .. } => {
                lemma_place_aside(host, Ok(at), anchor, floor);
            },
            PartView::Each { anchor, .. } => {
                lemma_place_aside(host, Ok(at), anchor, floor);
            },
            PartView::Component { controller, .. } => {
                if levels > 0 {
                    controller.lemma_mounted_aside((levels - 1) as nat, host, at, floor);
                }
            },
        }
    }

    /// Making a row disturbs nothing below the floor, and the row is above the floor.
    pub proof fn lemma_row_aside(
        self,
        levels: nat,
        world: World,
        context: C,
        anchor: NodeId,
        item: BuilderView<C>,
        floor: nat,
    )
        requires
            world.host.wf(),
            floor <= world.host.nodes.len(),
            fits(self.row(levels, world, context, anchor, item).world.host),
        ensures
            undisturbed(
                world.host,
                self.row(levels, world, context, anchor, item).world.host,
                floor,
            ),
            self.row(levels, world, context, anchor, item).failure is None ==> self.row(
                levels,
                world,
                context,
                anchor,
                item,
            ).state.above(floor),
        decreases levels, self, 0nat, 0nat,
    {
        if levels > 0 {
            match Location::before(world.host, anchor) {
                Ok(at) => {
                    item.lemma_built((levels - 1) as nat, world);
                    let made = item.built((levels - 1) as nat, world);
                    lemma_grown_is_undisturbed(world.host, made.world.host, floor);
                    if made.failure is None {
                        made.state.lemma_mounted_keeps((levels - 1) as nat, made.world.host, at);
                        let (fragment, placed, failure) = made.state.mounted_at(
                            (levels - 1) as nat,
                            made.world.host,
                            at,
                        );
                        if failure is None {
                            fragment.lemma_updated_keeps(
                                (levels - 1) as nat,
                                made.world.on(placed),
                                context,
                                fragment.known,
                            );
                        }
                        item.lemma_built_above((levels - 1) as nat, world);
                        made.state.lemma_lower(world.host.nodes.len(), floor);
                        made.state.lemma_mounted_aside(
                            (levels - 1) as nat,
                            made.world.host,
                            at,
                            floor,
                        );
                        lemma_undisturbed_twice(world.host, made.world.host, placed, floor);
                        if failure is None {
                            fragment.lemma_updated_aside(
                                (levels - 1) as nat,
                                made.world.on(placed),
                                context,
                                fragment.known,
                                floor,
                            );
                            lemma_undisturbed_twice(
                                world.host,
                                placed,
                                self.row(levels, world, context, anchor, item).world.host,
                                floor,
                            );
                        }
                    }
                },
                Err(_) => {},
            }
        }
    }

    pub proof fn lemma_rows_aside(
        self,
        levels: nat,
        world: World,
        context: C,
        anchor: NodeId,
        items: Seq<BuilderView<C>>,
        k: nat,
        floor: nat,
    )
        requires
            world.host.wf(),
            floor <= world.host.nodes.len(),
            k <= items.len(),
            fits(self.rows(levels, world, context, anchor, items, k).world.host),
        ensures
            undisturbed(
                world.host,
                self.rows(levels, world, context, anchor, items, k).world.host,
                floor,
            ),
            forall|i: int|
                0 <= i < self.rows(levels, world, context, anchor, items, k).state.len() ==> (
                #[trigger] self.rows(levels, world, context, anchor, items, k).state[i]).above(floor),
        decreases levels, self, 0nat, k + 1,
    {
        if k > 0 {
            let before = self.rows(levels, world, context, anchor, items, (k - 1) as nat);
            self.lemma_rows_keep(levels, world, context, anchor, items, (k - 1) as nat);
            if before.failure is None {
                self.lemma_row_keeps(levels, before.world, context, anchor, items[k - 1]);
                self.lemma_rows_aside(levels, world, context, anchor, items, (k - 1) as nat, floor);
                self.lemma_row_aside(levels, before.world, context, anchor, items[k - 1], floor);
                lemma_undisturbed_twice(
                    world.host,
                    before.world.host,
                    self.rows(levels, world, context, anchor, items, k).world.host,
                    floor,
                );
            } else {
                self.lemma_rows_aside(levels, world, context, anchor, items, (k - 1) as nat, floor);
            }
        }
    }

    pub proof fn lemma_updated_aside(
        self,
        levels: nat,
        world: World,
        context: C,
        changed: Seq<usize>,
        floor: nat,
    )
        requires
            world.host.wf(),
            floor <= world.host.nodes.len(),
            self.above(floor),
            fits(self.updated(levels, world, context, changed).world.host),
        ensures
            undisturbed(
                world.host,
                self.updated(levels, world, context, changed).world.host,
                floor,
            ),
            self.updated(levels, world, context, changed).state.above(floor),
        decreases levels, self, 1nat, 0nat,
    {
        match self {
            PartView::Updatable { get_text, text_node } => {
                if world.host.text_failure(text_node) is None {
                    world.host.lemma_text_aside(text_node, context.text_of(get_text), floor);
                }
            },
            PartView::Conditional { check_condition, fragment, anchor, fragment_mounted } => {
                let shows = context.holds(check_condition);
                if levels > 0 {
                    if shows && !fragment_mounted {
                        match Location::before(world.host, anchor) {
                            Ok(at) => {
                                fragment.lemma_mounted_keeps((levels - 1) as nat, world.host, at);
                                let (nested, placed, failure) = fragment.mounted_at(
                                    (levels - 1) as nat,
                                    world.host,
                                    at,
                                );
                                if failure is None {
                                    nested.lemma_updated_keeps(
                                        (levels - 1) as nat,
                                        world.on(placed),
                                        context,
                                        nested.known,
                                    );
                                }
                                fragment.lemma_mounted_aside(
                                    (levels - 1) as nat,
                                    world.host,
                                    at,
                                    floor,
                                );
                                if failure is None {
                                    nested.lemma_updated_aside(
                                        (levels - 1) as nat,
                                        world.on(placed),
                                        context,
                                        nested.known,
                                        floor,
                                    );
                                    lemma_undisturbed_twice(
                                        world.host,
                                        placed,
                                        self.updated(levels, world, context, changed).world.host,
                                        floor,
                                    );
                                }
                            },
                            Err(_) => {},
                        }
                    } else if !shows && fragment_mounted {
                        fragment.lemma_detached_aside(world.host, true, floor);
                    } else if fragment_mounted {
                        fragment.lemma_updated_aside(
                            (levels - 1) as nat,
                            world,
                            context,
                            changed,
                            floor,
                        );
                    }
                } else if !shows && fragment_mounted {
                    fragment.lemma_detached_aside(world.host, true, floor);
                }
            },
            PartView::Each { get_items, mounted_fragments, anchor } => {
                lemma_fragments_detached_aside(
                    mounted_fragments,
                    world.host,
                    true,
                    mounted_fragments.len(),
                    floor,
                );
                lemma_fragments_detached_keep(
                    mounted_fragments,
                    world.host,
                    true,
                    mounted_fragments.len(),
                );
                let (cleared, failure) = fragments_detached(
                    mounted_fragments,
                    world.host,
                    true,
                    mounted_fragments.len(),
                );
                if failure is None {
                    let items = context.items_of(get_items);
                    self.lemma_rows_aside(
                        levels,
                        world.on(cleared),
                        context,
                        anchor,
                        items,
                        items.len(),
                        floor,
                    );
                    lemma_undisturbed_twice(
                        world.host,
                        cleared,
                        self.updated(levels, world, context, changed).world.host,
                        floor,
                    );
                }
            },
            PartView::Component { controller, update } => {
                if levels > 0 {
                    match context.passed_on(update, controller.component, changed) {
                        Some(ids) => {
                            controller.fragment.lemma_updated_aside(
                                (levels - 1) as nat,
                                World { host: world.host, registry: controller.registry },
                                context.adapted(update, controller.component, changed),
                                ids,
                                floor,
                            );
                        },
                        None => {},
                    }
                }
            },
        }
    }
}

// ======================================================================================
// The place of a fragment
// ======================================================================================
impl<C: Component> FragmentView<C> {
    /// Whatever a fragment does when it is mounted and then detached, the nodes that were at
    /// the location before are all still there, one after the other as they were, and so are
    /// the children of every other node that was there when the fragment was built: what
    /// the fragment has added or taken away are nodes of its own.
    ///
    /// `floor` is the number of nodes that the host had when the fragment was built. Where
    /// the mount and the detach succeed and the fragment has left none of its nodes at the
    /// location, the child list there is therefore exactly what it was.
    pub proof fn lemma_mount_and_detach_aside(
        self,
        levels: nat,
        host: HostView,
        at: Location,
        top_level: bool,
        floor: nat,
        node: NodeId,
    )
        requires
            host.wf(),
            floor <= host.nodes.len(),
            self.above(floor),
            host.has(node),
            forall|i: int|
                0 <= i < host.children_of(node).len() ==> (#[trigger] host.children_of(node)[i])
                    < floor,
            fits(self.mounted_at(levels, host, at).0.detached(
                self.mounted_at(levels, host, at).1,
                top_level,
            ).1),
        ensures
            ({
                let (mounted, placed, failure) = self.mounted_at(levels, host, at);
                let (detached, after, failed) = mounted.detached(placed, top_level);
                &&& elders(placed.children_of(node), floor) == host.children_of(node)
                &&& elders(after.children_of(node), floor) == host.children_of(node)
                &&& after.wf()
                &&& detached.above(floor)
            }),
    {
        let (mounted, placed, failure) = self.mounted_at(levels, host, at);
        self.lemma_mounted_keeps(levels, host, at);
        mounted.lemma_detached_keeps(placed, top_level);
        self.lemma_mounted_aside(levels, host, at, floor);
        mounted.lemma_detached_aside(placed, top_level, floor);
        lemma_elders_all(host.children_of(node), floor);
    }
}

} // verus!
