//! Whatever is done to a fragment, the host stays a well-formed tree and loses no node.

use vstd::prelude::*;
use crate::component::Component;
use crate::fragment::builder::BuilderView;
use crate::fragment::growth::grown;
use crate::fragment::location::Location;
use crate::fragment::model::{fragments_detached, place, unhook};
use crate::fragment::model::{ControllerView, FragmentView, PartView, World};
use crate::host::model::{Failure, HostView, NodeId};

verus! {

/// `after` is a well-formed tree with at least the nodes of `before`.
pub open spec fn kept(before: HostView, after: HostView) -> bool {
    after.wf() && before.nodes.len() <= after.nodes.len()
}

pub proof fn lemma_place_keeps(host: HostView, target: Result<Location, Failure>, node: NodeId)
    requires
        host.wf(),
    ensures
        kept(host, place(host, target, node).0),
        place(host, target, node).0.nodes.len() == host.nodes.len(),
{
    match target {
        Ok(at) => {
            if host.insert_failure(at.parent, node, at.anchor) is None {
                host.lemma_insert_keeps_tree(at.parent, node, at.anchor);
            }
        },
        Err(_) => {},
    }
}

pub proof fn lemma_unhook_keeps(host: HostView, node: NodeId)
    requires
        host.wf(),
    ensures
        kept(host, unhook(host, node).0),
        unhook(host, node).0.nodes.len() == host.nodes.len(),
{
    match host.parent_of(node) {
        Some(parent) => {
            if host.remove_failure(parent, node) is None {
                host.lemma_remove_keeps_tree(parent, node);
            }
        },
        None => {},
    }
}

// ======================================================================================
// Detaching takes no node away
// ======================================================================================
pub proof fn lemma_fragments_detached_keep<C: Component>(
    fragments: Seq<FragmentView<C>>,
    host: HostView,
    top_level: bool,
    k: nat,
)
    requires
        host.wf(),
    ensures
        fragments_detached(fragments, host, top_level, k).0.wf(),
        fragments_detached(fragments, host, top_level, k).0.nodes.len() == host.nodes.len(),
    decreases fragments, 0nat, k,
{
    if !(k == 0 || k > fragments.len()) {
        lemma_fragments_detached_keep(fragments, host, top_level, (k - 1) as nat);
        let (before, failure) = fragments_detached(fragments, host, top_level, (k - 1) as nat);
        if failure is None {
            fragments[k - 1].lemma_detached_keeps(before, top_level);
        }
    }
}

impl<C: Component> FragmentView<C> {
    pub proof fn lemma_statics_detached_keep(self, host: HostView, k: nat)
        requires
            host.wf(),
        ensures
            self.statics_detached(host, k).0.wf(),
            self.statics_detached(host, k).0.nodes.len() == host.nodes.len(),
        decreases k,
    {
        if !(k == 0 || k > self.statics.len()) {
            self.lemma_statics_detached_keep(host, (k - 1) as nat);
            let (before, failure) = self.statics_detached(host, (k - 1) as nat);
            if failure is None && self.statics[k - 1].0 is None {
                lemma_unhook_keeps(before, self.statics[k - 1].1);
            }
        }
    }

    pub proof fn lemma_parts_detached_keep(self, host: HostView, top_level: bool, j: nat)
        requires
            host.wf(),
        ensures
            self.parts_detached(host, top_level, j).0.wf(),
            self.parts_detached(host, top_level, j).0.nodes.len() == host.nodes.len(),
        decreases self, 0nat, j,
    {
        if !(j == 0 || j > self.parts.len()) {
            self.lemma_parts_detached_keep(host, top_level, (j - 1) as nat);
            let (before, failure) = self.parts_detached(host, top_level, (j - 1) as nat);
            if failure is None {
                self.parts[j - 1].1.lemma_detached_keeps(before, top_level);
            }
        }
    }

    /// Detaching a fragment leaves a well-formed tree with the same nodes, and the fragment
    /// with the static nodes, the index and the depth it had.
    pub proof fn lemma_detached_keeps(self, host: HostView, top_level: bool)
        requires
            host.wf(),
        ensures
            self.detached(host, top_level).1.wf(),
            self.detached(host, top_level).1.nodes.len() == host.nodes.len(),
            self.detached(host, top_level).0.statics == self.statics,
            self.detached(host, top_level).0.dependencies == self.dependencies,
            self.detached(host, top_level).0.known == self.known,
            self.detached(host, top_level).0.parts.len() == self.parts.len(),
        decreases self, 1nat, 0nat,
    {
        if self.mounted {
            self.lemma_statics_detached_keep(host, self.statics.len());
            let (cleared, failure) = self.statics_detached(host, self.statics.len());
            if failure is None {
                self.lemma_parts_detached_keep(cleared, top_level, self.parts.len());
            }
        }
    }
}

impl<C: Component> PartView<C> {
    pub proof fn lemma_detached_keeps(self, host: HostView, top_level: bool)
        requires
            host.wf(),
        ensures
            self.detached(host, top_level).1.wf(),
            self.detached(host, top_level).1.nodes.len() == host.nodes.len(),
        decreases self, 1nat, 0nat,
    {
        match self {
            PartView::Updatable { text_node, .. } => {
                lemma_unhook_keeps(host, text_node);
            },
            PartView::Conditional { fragment, anchor, fragment_mounted, .. } => {
                lemma_unhook_keeps(host, anchor);
                let (cleared, failure) = if top_level {
                    unhook(host, anchor)
                } else {
                    (host, None)
                };
                if !(failure is Some || !fragment_mounted) {
                    fragment.lemma_detached_keeps(cleared, top_level);
                }
            },
            PartView::Each { mounted_fragments, anchor, .. } => {
                lemma_fragments_detached_keep(
                    mounted_fragments,
                    host,
                    top_level,
                    mounted_fragments.len(),
                );
                let (cleared, failure) = fragments_detached(
                    mounted_fragments,
                    host,
                    top_level,
                    mounted_fragments.len(),
                );
                lemma_unhook_keeps(cleared, anchor);
            },
            PartView::Component { controller, .. } => {
                controller.fragment.lemma_detached_keeps(host, top_level);
            },
        }
    }
}

// ======================================================================================
// Mounting and updating take no node away
// ======================================================================================
impl<C: Component> FragmentView<C> {
    pub proof fn lemma_statics_mounted_keep(self, host: HostView, at: Location, k: nat)
        requires
            host.wf(),
        ensures
            self.statics_mounted(host, at, k).0.wf(),
            self.statics_mounted(host, at, k).0.nodes.len() == host.nodes.len(),
        decreases k,
    {
        if !(k == 0 || k > self.statics.len()) {
            self.lemma_statics_mounted_keep(host, at, (k - 1) as nat);
            let (before, failure) = self.statics_mounted(host, at, (k - 1) as nat);
            if failure is None {
                lemma_place_keeps(
                    before,
                    self.target(self.statics[k - 1].0, at),
                    self.statics[k - 1].1,
                );
            }
        }
    }

    pub proof fn lemma_parts_mounted_keep(self, levels: nat, host: HostView, at: Location, j: nat)
        requires
            host.wf(),
        ensures
            kept(host, self.parts_mounted(levels, host, at, j).0),
        decreases levels, self, 0nat, j,
    {
        if !(j == 0 || j > self.parts.len()) {
            self.lemma_parts_mounted_keep(levels, host, at, (j - 1) as nat);
            let (before, failure) = self.parts_mounted(levels, host, at, (j - 1) as nat);
            if failure is None {
                match self.target(self.parts[j - 1].0, at) {
                    Ok(target) => {
                        self.parts[j - 1].1.lemma_mounted_keeps(levels, before, target);
                    },
                    Err(_) => {},
                }
            }
        }
    }

    /// Mounting a fragment leaves a well-formed tree that has lost no node, and the fragment
    /// with the static nodes, the index and the depth it had.
    pub proof fn lemma_mounted_keeps(self, levels: nat, host: HostView, at: Location)
        requires
            host.wf(),
        ensures
            kept(host, self.mounted_at(levels, host, at).1),
            self.mounted_at(levels, host, at).0.statics == self.statics,
            self.mounted_at(levels, host, at).0.dependencies == self.dependencies,
            self.mounted_at(levels, host, at).0.known == self.known,
            self.mounted_at(levels, host, at).0.parts.len() == self.parts.len(),
        decreases levels, self, 1nat, 0nat,
    {
        if !self.mounted {
            self.lemma_statics_mounted_keep(host, at, self.statics.len());
            let (placed, failure) = self.statics_mounted(host, at, self.statics.len());
            if failure is None {
                self.lemma_parts_mounted_keep(levels, placed, at, self.parts.len());
            }
        }
    }

    pub proof fn lemma_parts_updated_keep(
        self,
        levels: nat,
        world: World,
        context: C,
        changed: Seq<usize>,
        j: nat,
    )
        requires
            world.host.wf(),
        ensures
            kept(world.host, self.parts_updated(levels, world, context, changed, j).0.host),
        decreases levels, self, 0nat, j,
    {
        if !(j == 0 || j > self.parts.len()) {
            self.lemma_parts_updated_keep(levels, world, context, changed, (j - 1) as nat);
            let (before, failure) = self.parts_updated(
                levels,
                world,
                context,
                changed,
                (j - 1) as nat,
            );
            self.parts[j - 1].1.lemma_updated_keeps(levels, before, context, changed);
        }
    }

    /// Updating a fragment leaves a well-formed tree that has lost no node, and the fragment
    /// with the static nodes, the index, the depth and the mounted flag it had.
    pub proof fn lemma_updated_keeps(self, levels: nat, world: World, context: C, changed: Seq<usize>)
        requires
            world.host.wf(),
        ensures
            kept(world.host, self.updated(levels, world, context, changed).world.host),
            self.updated(levels, world, context, changed).state.statics == self.statics,
            self.updated(levels, world, context, changed).state.dependencies == self.dependencies,
            self.updated(levels, world, context, changed).state.known == self.known,
            self.updated(levels, world, context, changed).state.mounted == self.mounted,
            self.updated(levels, world, context, changed).state.parts.len() == self.parts.len(),
        decreases levels, self, 1nat, 0nat,
    {
        if self.mounted {
            self.lemma_parts_updated_keep(levels, world, context, changed, self.parts.len());
        }
    }
}

impl<C: Component> ControllerView<C> {
    pub proof fn lemma_mounted_keeps(self, levels: nat, host: HostView, at: Location)
        requires
            host.wf(),
        ensures
            kept(host, self.mounted_at(levels, host, at).world.host),
        decreases levels + 1, self, 0nat, 0nat,
    {
        self.fragment.lemma_mounted_keeps(levels, host, at);
        let (fragment, placed, failure) = self.fragment.mounted_at(levels, host, at);
        if failure is None {
            fragment.lemma_updated_keeps(
                levels,
                World { host: placed, registry: self.registry },
                self.component,
                fragment.known,
            );
        }
    }
}

impl<C: Component> PartView<C> {
    pub proof fn lemma_mounted_keeps(self, levels: nat, host: HostView, at: Location)
        requires
            host.wf(),
        ensures
            kept(host, self.mounted_at(levels, host, at).1),
        decreases levels, self, 1nat, 0nat,
    {
        match self {
            PartView::Updatable { text_node, .. } => {
                lemma_place_keeps(host, Ok(at), text_node);
            },
            PartView::Conditional { anchor, .. } => {
                lemma_place_keeps(host, Ok(at), anchor);
            },
            PartView::Each { anchor, .. } => {
                lemma_place_keeps(host, Ok(at), anchor);
            },
            PartView::Component { controller, .. } => {
                if levels > 0 {
                    controller.lemma_mounted_keeps((levels - 1) as nat, host, at);
                }
            },
        }
    }

    /// Making a row leaves a well-formed tree that has lost no node. The static nodes of the
    /// row are new: their handles start at the number of nodes that the host had.
    pub proof fn lemma_row_keeps(
        self,
        levels: nat,
        world: World,
        context: C,
        anchor: NodeId,
        item: BuilderView<C>,
    )
        requires
            world.host.wf(),
        ensures
            kept(world.host, self.row(levels, world, context, anchor, item).world.host),
            ({
                let made = self.row(levels, world, context, anchor, item);
                made.failure is None && made.world.host.nodes.len() <= usize::MAX ==> forall|k: int|
                    0 <= k < made.state.statics.len() ==> world.host.nodes.len() <= (
                    #[trigger] made.state.statics[k]).1 < made.world.host.nodes.len()
            }),
        decreases levels, self, 0nat, 0nat,
    {
        if levels > 0 {
            match Location::before(world.host, anchor) {
                Ok(at) => {
                    item.lemma_built((levels - 1) as nat, world);
                    let made = item.built((levels - 1) as nat, world);
                    if made.failure is None {
                        made.state.lemma_mounted_keeps((levels - 1) as nat, made.world.host, at);
                        let (fragment, placed, failure) = made.state.mounted_at(
                            (levels - 1) as nat,
                            made.world.host,
                            at,
                        );
                        if failure is None {
                            fragment.lemma_updated_keeps(
                                (levels - 1) as nat,
                                made.world.on(placed),
                                context,
                                fragment.known,
                            );
                        }
                        let done = self.row(levels, world, context, anchor, item);
                        if done.failure is None && done.world.host.nodes.len() <= usize::MAX {
                            item.lemma_nodes_built(world, item.nodes.len());
                            let with_nodes = item.nodes_built(world, item.nodes.len());
                            item.lemma_parts_built((levels - 1) as nat, with_nodes, item.parts.len());
                            assert forall|k: int|
                                0 <= k < done.state.statics.len() implies world.host.nodes.len() <= (
                            #[trigger] done.state.statics[k]).1 < done.world.host.nodes.len() by {
                                item.lemma_nodes_built(world, k as nat);
                                assert(made.state.statics[k].1 == world.host.nodes.len() + k);
                            }
                        }
                    }
                },
                Err(_) => {},
            }
        }
    }

    pub proof fn lemma_rows_keep(
        self,
        levels: nat,
        world: World,
        context: C,
        anchor: NodeId,
        items: Seq<BuilderView<C>>,
        k: nat,
    )
        requires
            world.host.wf(),
        ensures
            kept(world.host, self.rows(levels, world, context, anchor, items, k).world.host),
        decreases levels, self, 0nat, k + 1,
    {
        if !(k == 0 || k > items.len()) {
            self.lemma_rows_keep(levels, world, context, anchor, items, (k - 1) as nat);
            let before = self.rows(levels, world, context, anchor, items, (k - 1) as nat);
            if before.failure is None {
                self.lemma_row_keeps(levels, before.world, context, anchor, items[k - 1]);
            }
        }
    }

    pub proof fn lemma_updated_keeps(self, levels: nat, world: World, context: C, changed: Seq<usize>)
        requires
            world.host.wf(),
        ensures
            kept(world.host, self.updated(levels, world, context, changed).world.host),
        decreases levels, self, 1nat, 0nat,
    {
        match self {
            PartView::Updatable { get_text, text_node } => {
                if world.host.text_failure(text_node) is None {
                    world.host.lemma_text_keeps_tree(text_node, context.text_of(get_text));
                }
            },
            PartView::Conditional { check_condition, fragment, anchor, fragment_mounted } => {
                let shows = context.holds(check_condition);
                if levels > 0 {
                    if shows && !fragment_mounted {
                        match Location::before(world.host, anchor) {
                            Ok(at) => {
                                fragment.lemma_mounted_keeps((levels - 1) as nat, world.host, at);
                                let (nested, placed, failure) = fragment.mounted_at(
                                    (levels - 1) as nat,
                                    world.host,
                                    at,
                                );
                                if failure is None {
                                    nested.lemma_updated_keeps(
                                        (levels - 1) as nat,
                                        world.on(placed),
                                        context,
                                        nested.known,
                                    );
                                }
                            },
                            Err(_) => {},
                        }
                    } else if !shows && fragment_mounted {
                        fragment.lemma_detached_keeps(world.host, true);
                    } else if fragment_mounted {
                        fragment.lemma_updated_keeps((levels - 1) as nat, world, context, changed);
                    }
                } else if !shows && fragment_mounted {
                    fragment.lemma_detached_keeps(world.host, true);
                }
            },
            PartView::Each { get_items, mounted_fragments, anchor } => {
                lemma_fragments_detached_keep(
                    mounted_fragments,
                    world.host,
                    true,
                    mounted_fragments.len(),
                );
                let (cleared, failure) = fragments_detached(
                    mounted_fragments,
                    world.host,
                    true,
                    mounted_fragments.len(),
                );
                if failure is None {
                    let items = context.items_of(get_items);
                    self.lemma_rows_keep(
                        levels,
                        world.on(cleared),
                        context,
                        anchor,
                        items,
                        items.len(),
                    );
                }
            },
            PartView::Component { controller, update } => {
                if levels > 0 {
                    match context.passed_on(update, controller.component, changed) {
                        Some(ids) => {
                            controller.fragment.lemma_updated_keeps(
                                (levels - 1) as nat,
                                World { host: world.host, registry: controller.registry },
                                context.adapted(update, controller.component, changed),
                                ids,
                            );
                        },
                        None => {},
                    }
                }
            },
        }
    }

    /// Fresh identity. The fragments that a repeated block has after an update are made of
    /// nodes that did not exist before the update: the handle of each of their static nodes
    /// is at least the number of nodes that the host had. None of them is a fragment that
    /// the block had before.
    pub proof fn lemma_each_makes_new_rows(
        self,
        levels: nat,
        world: World,
        context: C,
        changed: Seq<usize>,
    )
        requires
            self is Each,
            world.host.wf(),
            self.updated(levels, world, context, changed).failure is None,
            self.updated(levels, world, context, changed).world.host.nodes.len() <= usize::MAX,
        ensures
            ({
                let step = self.updated(levels, world, context, changed);
                forall|i: int, k: int|
                    0 <= i < step.state->mounted_fragments.len() && 0 <= k
                        < step.state->mounted_fragments[i].statics.len() ==> world.host.nodes.len()
                        <= (#[trigger] step.state->mounted_fragments[i].statics[k]).1
            }),
    {
        let step = self.updated(levels, world, context, changed);
        let old_fragments = self->mounted_fragments;
        let anchor = self->Each_anchor;
        let items = context.items_of(self->get_items);
        lemma_fragments_detached_keep(old_fragments, world.host, true, old_fragments.len());
        let (cleared, failure) = fragments_detached(
            old_fragments,
            world.host,
            true,
            old_fragments.len(),
        );
        let start = world.on(cleared);
        self.lemma_rows_count(levels, start, context, anchor, items, items.len());
        self.lemma_rows_keep(levels, start, context, anchor, items, items.len());
        assert forall|i: int, k: int|
            0 <= i < step.state->mounted_fragments.len() && 0 <= k
                < step.state->mounted_fragments[i].statics.len() implies world.host.nodes.len() <= (
        #[trigger] step.state->mounted_fragments[i].statics[k]).1 by {
            let before = self.rows(levels, start, context, anchor, items, i as nat);
            let after = self.rows(levels, start, context, anchor, items, (i + 1) as nat);
            self.lemma_rows_keep(levels, start, context, anchor, items, i as nat);
            self.lemma_row_keeps(levels, before.world, context, anchor, items[i]);
            self.lemma_rows_grow(levels, start, context, anchor, items, (i + 1) as nat, items.len());
            let made = self.row(levels, before.world, context, anchor, items[i]);
            assert(after.failure is None);
            assert(made.failure is None);
            assert(after.world == made.world);
        }
    }

    /// The host never shrinks while the rows are made.
    pub proof fn lemma_rows_grow(
        self,
        levels: nat,
        world: World,
        context: C,
        anchor: NodeId,
        items: Seq<BuilderView<C>>,
        k: nat,
        later: nat,
    )
        requires
            world.host.wf(),
            k <= later <= items.len(),
        ensures
            self.rows(levels, world, context, anchor, items, k).world.host.nodes.len() <= self.rows(
                levels,
                world,
                context,
                anchor,
                items,
                later,
            ).world.host.nodes.len(),
        decreases later - k,
    {
        if k < later {
            self.lemma_rows_grow(levels, world, context, anchor, items, k, (later - 1) as nat);
            self.lemma_rows_keep(levels, world, context, anchor, items, (later - 1) as nat);
            let before = self.rows(levels, world, context, anchor, items, (later - 1) as nat);
            if before.failure is None {
                self.lemma_row_keeps(levels, before.world, context, anchor, items[later - 1]);
            }
        }
    }
}

} // verus!
